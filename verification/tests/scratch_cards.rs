use advent::day4::{cascade, part1, part2, points_for, try_part1, try_part2, Card};

const EXAMPLE: &str = "Card 1: 41 48 83 86 17 | 83 86  6 31 17  9 48 53
Card 2: 13 32 20 16 61 | 61 30 68 82 17 32 24 19
Card 3:  1 21 53 59 44 | 69 82 63 72 16 21 14  1
Card 4: 41 92 73 84 69 | 59 84 76 51 58  5 54 83
Card 5: 87 83 26 28 32 | 88 30 70 12 93 22 82 36
Card 6: 31 18 13 56 72 | 74 77 10 23 35 67 36 11";

#[test]
fn test_some_other_thing() {
    let range = 1..1 + 1;
    let mut seen = Vec::new();
    for i in range {
        println!("{}", i);
        seen.push(i);
    }
    assert_eq!(seen, vec![1]);
}

#[test]
fn card_line_is_read() {
    let card = Card::from_input_line("Card 1: 41 48 83 86 17 | 83 86  6 31 17  9 48 53");
    assert_eq!(card.number, 1);
    assert_eq!(
        card.winners.iter().copied().collect::<Vec<u32>>(),
        vec![17, 41, 48, 83, 86]
    );
    assert_eq!(
        card.picks.iter().copied().collect::<Vec<u32>>(),
        vec![6, 9, 17, 31, 48, 53, 83, 86]
    );
    assert_eq!(card.num_winners(), 4);
    assert_eq!(card.count_winners(), 4);
}

#[test]
fn card_with_four_matches_scores_eight() {
    assert_eq!(
        part1("Card 1: 41 48 83 86 17 | 83 86  6 31 17  9 48 53".to_string()),
        8
    );
    assert_eq!(points_for(4), Some(8));
}

#[test]
fn points_double_with_each_match() {
    assert_eq!(points_for(0), Some(0));
    assert_eq!(points_for(1), Some(1));
    assert_eq!(points_for(2), Some(2));
    assert_eq!(points_for(3), Some(4));
    assert_eq!(points_for(32), Some(2147483648));
    assert_eq!(points_for(33), None);
    assert_eq!(points_for(1000), None);
}

#[test]
fn example_deck_part1() {
    assert_eq!(part1(EXAMPLE.to_string()), 13);
    assert_eq!(try_part1(EXAMPLE.to_string()), Some(13));
}

#[test]
fn example_deck_part2() {
    assert_eq!(part2(EXAMPLE.to_string()), 30);
    assert_eq!(try_part2(EXAMPLE.to_string()), Some(30));
}

#[test]
fn cascade_of_six_cards_is_thirty() {
    assert_eq!(cascade(&vec![4, 2, 2, 1, 0, 0]), Some(30));
}

#[test]
fn cascade_stops_at_the_end_of_the_deck() {
    assert_eq!(cascade(&vec![]), Some(0));
    assert_eq!(cascade(&vec![0]), Some(1));
    assert_eq!(cascade(&vec![5]), Some(1));
    assert_eq!(cascade(&vec![1, 1, 1]), Some(1 + 2 + 3));
    assert_eq!(cascade(&vec![usize::MAX, usize::MAX, usize::MAX]), Some(1 + 2 + 4));
}

#[test]
fn cascade_beyond_u32_is_none() {
    let wins = vec![40usize; 40];
    assert_eq!(cascade(&wins), None);
    let wins = vec![31usize; 32];
    assert_eq!(cascade(&wins), Some(u32::MAX));
}

#[test]
fn malformed_card_lines_are_refused() {
    assert!(Card::try_from_input_line("Card 1 41 48 | 83").is_none());
    assert!(Card::try_from_input_line("Card: 41 48 | 83").is_none());
    assert!(Card::try_from_input_line("Card x: 41 48 | 83").is_none());
    assert!(Card::try_from_input_line("Card 1: 41 48 83").is_none());
    assert!(Card::try_from_input_line("Card 1: 41 a8 | 83").is_none());
    assert!(Card::try_from_input_line("Card 1: 41 48 | 8 3 -1").is_none());
    assert!(Card::try_from_input_line("Card 1: 41 48 | 4294967296").is_none());
    assert!(Card::try_from_input_line("Card 1: 41 48 | 4294967295").is_some());
    assert_eq!(try_part1("Card 1: 1 | 1\nnonsense".to_string()), None);
    assert_eq!(try_part2("Card 1: 1 | 1\nnonsense".to_string()), None);
}

#[test]
fn repeated_numbers_count_once() {
    let card = Card::from_input_line("Card 7: 5 5 5 | 5 5");
    assert_eq!(card.number, 7);
    assert_eq!(card.num_winners(), 1);
    let card = Card::from_input_line("Card 7: | ");
    assert_eq!(card.num_winners(), 0);
}

#[test]
fn empty_deck_has_no_score() {
    assert_eq!(part1(String::new()), 0);
    assert_eq!(part2(String::new()), 0);
}

#[test]
fn deck_with_carriage_returns() {
    assert_eq!(part1("Card 1: 1 2 | 2 1\r\nCard 2: 3 | 3\r\n".to_string()), 3);
    assert_eq!(part2("Card 1: 1 2 | 2 1\r\nCard 2: 3 | 3\r\n".to_string()), 3);
}
