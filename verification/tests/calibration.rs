use advent::day1::{
    calibration_value, part1, part2, spelled_calibration_value, try_part1, try_part2,
};

fn lines(text: &str) -> Vec<String> {
    text.lines().map(String::from).collect()
}

#[test]
fn calibration_value_joins_first_and_last_digit() {
    assert_eq!(calibration_value("1abc2"), Some(12));
    assert_eq!(calibration_value("pqr3stu8vwx"), Some(38));
    assert_eq!(calibration_value("a1b2c3d4e5f"), Some(15));
    assert_eq!(calibration_value("treb7uchet"), Some(77));
    assert_eq!(calibration_value("a0b"), Some(0));
    assert_eq!(calibration_value("09"), Some(9));
    assert_eq!(calibration_value("two1nine"), Some(11));
}

#[test]
fn calibration_value_needs_a_digit() {
    assert_eq!(calibration_value(""), None);
    assert_eq!(calibration_value("one two three"), None);
    assert_eq!(calibration_value("١٢"), None);
}

#[test]
fn part1_sums_the_example() {
    let input = lines("1abc2\npqr3stu8vwx\na1b2c3d4e5f\ntreb7uchet");
    assert_eq!(part1(&input), 142);
    assert_eq!(try_part1(&input), Some(142));
}

#[test]
fn part1_fails_on_a_line_without_digit() {
    assert_eq!(try_part1(&lines("1abc2\nnothing\n3")), None);
    assert_eq!(try_part1(&lines("")), Some(0));
}

#[test]
fn spelled_value_of_two1nine() {
    assert_eq!(spelled_calibration_value("two1nine"), Some(29));
}

#[test]
fn spelled_value_with_overlapping_words() {
    assert_eq!(spelled_calibration_value("eightwothree"), Some(83));
    assert_eq!(spelled_calibration_value("oneight"), Some(18));
    assert_eq!(spelled_calibration_value("twone"), Some(21));
    assert_eq!(spelled_calibration_value("nineight"), Some(98));
}

#[test]
fn spelled_value_of_each_spelling() {
    let words = [
        "one", "two", "three", "four", "five", "six", "seven", "eight", "nine",
    ];
    for (i, word) in words.iter().enumerate() {
        let v = i as u32 + 1;
        assert_eq!(spelled_calibration_value(word), Some(11 * v));
        assert_eq!(spelled_calibration_value(&format!("x{}y", v)), Some(11 * v));
        assert_eq!(spelled_calibration_value(&format!("{}zz{}", word, 10 - v)), Some(10 * v + 10 - v));
    }
}

#[test]
fn spelled_value_ignores_zero_and_other_words() {
    assert_eq!(spelled_calibration_value("0"), None);
    assert_eq!(spelled_calibration_value("zero"), None);
    assert_eq!(spelled_calibration_value("01"), Some(11));
    assert_eq!(spelled_calibration_value("a0b3c0"), Some(33));
    assert_eq!(spelled_calibration_value("ten"), None);
    assert_eq!(spelled_calibration_value("on e"), None);
    assert_eq!(spelled_calibration_value("ONE"), None);
    assert_eq!(spelled_calibration_value(""), None);
    assert_eq!(spelled_calibration_value("sevenine"), Some(79));
    assert_eq!(spelled_calibration_value("seve"), None);
}

#[test]
fn part2_sums_the_example() {
    let input = lines(
        "two1nine\neightwothree\nabcone2threexyz\nxtwone3four\n4nineeightseven2\nzoneight234\n7pqrstsixteen",
    );
    assert_eq!(part2(&input), 281);
    assert_eq!(try_part2(&input), Some(281));
}

#[test]
fn part2_fails_on_a_line_without_value() {
    assert_eq!(try_part2(&lines("two1nine\nzero")), None);
}
