use advent::text::{
    chars_of, digit, find_from, line_spans, lines_of, parse_numbers, parse_unsigned, slice_of,
    space, split_lines, split_on, split_once_on, split_words, trimmed,
};

fn chars(s: &str) -> Vec<char> {
    s.chars().collect()
}

fn text(v: &Vec<char>) -> String {
    v.iter().collect()
}

const SAMPLES: [&str; 16] = [
    "",
    " ",
    "a",
    "  a  ",
    "a b",
    " a  b\tc\n",
    "one\ntwo\nthree",
    "one\r\ntwo\r\n",
    "\n",
    "\n\n",
    "a\r",
    "a\r\r\n",
    "\r\n",
    "x\u{a0}y\u{2003}z\u{3000}",
    "\u{85} lead and trail \u{2028}",
    "Game 1: 3 blue, 4 red; 1 red, 2 green, 6 blue; 2 green",
];

#[test]
fn chars_of_gives_every_char() {
    for s in SAMPLES {
        assert_eq!(chars_of(s), chars(s));
    }
    assert_eq!(chars_of("héllo, wörld"), chars("héllo, wörld"));
}

#[test]
fn space_is_unicode_white_space() {
    for n in 0..=0x10ffffu32 {
        if let Some(c) = char::from_u32(n) {
            assert_eq!(space(c), c.is_whitespace(), "U+{:04X}", n);
        }
    }
}

#[test]
fn digit_is_ascii_digit() {
    for n in 0..=0x10ffffu32 {
        if let Some(c) = char::from_u32(n) {
            assert_eq!(digit(c), c.is_ascii_digit(), "U+{:04X}", n);
        }
    }
}

#[test]
fn trimmed_agrees_with_trim() {
    for s in SAMPLES {
        assert_eq!(text(&trimmed(&chars(s))), s.trim());
    }
    assert_eq!(text(&trimmed(&chars("  two words \t"))), "two words");
    assert_eq!(text(&trimmed(&chars(" \n "))), "");
}

#[test]
fn split_words_agrees_with_split_whitespace() {
    for s in SAMPLES {
        let mine: Vec<String> = split_words(&chars(s)).iter().map(text).collect();
        let theirs: Vec<String> = s.split_whitespace().map(String::from).collect();
        assert_eq!(mine, theirs);
    }
    let words: Vec<String> = split_words(&chars(" 83 86  6 ")).iter().map(text).collect();
    assert_eq!(words, vec!["83", "86", "6"]);
}

#[test]
fn split_lines_agrees_with_lines() {
    for s in SAMPLES {
        let mine: Vec<String> = split_lines(&chars(s)).iter().map(text).collect();
        let theirs: Vec<String> = s.lines().map(String::from).collect();
        assert_eq!(mine, theirs);
        assert_eq!(lines_of(s), theirs);
    }
    assert_eq!(lines_of("a\n\nb\r\n"), vec!["a", "", "b"]);
    assert_eq!(lines_of("a\rb"), vec!["a\rb"]);
}

#[test]
fn line_spans_bound_the_lines() {
    assert_eq!(line_spans(&chars("ab\ncd\r\n\nef")), vec![(0, 2), (3, 5), (7, 7), (8, 10)]);
    assert_eq!(line_spans(&chars("")), vec![]);
    assert_eq!(line_spans(&chars("\r\n")), vec![(0, 0)]);
}

#[test]
fn split_on_agrees_with_split() {
    for s in SAMPLES {
        for c in [' ', ';', ',', '\n', 'e'] {
            let mine: Vec<String> = split_on(&chars(s), c).iter().map(text).collect();
            let theirs: Vec<String> = s.split(c).map(String::from).collect();
            assert_eq!(mine, theirs);
        }
    }
    let pieces: Vec<String> = split_on(&chars(";a;;b;"), ';').iter().map(text).collect();
    assert_eq!(pieces, vec!["", "a", "", "b", ""]);
}

#[test]
fn split_once_on_agrees_with_split_once() {
    for s in SAMPLES {
        for c in [' ', ':', '\n', 'e'] {
            let mine = split_once_on(&chars(s), c).map(|(a, b)| (text(&a), text(&b)));
            let theirs = s.split_once(c).map(|(a, b)| (a.to_string(), b.to_string()));
            assert_eq!(mine, theirs);
        }
    }
    assert_eq!(
        split_once_on(&chars("a:b:c"), ':'),
        Some((chars("a"), chars("b:c")))
    );
    assert_eq!(split_once_on(&chars("abc"), ':'), None);
}

#[test]
fn parse_unsigned_agrees_with_parse() {
    let samples = [
        "",
        "0",
        "7",
        "007",
        "+5",
        "+",
        "-1",
        "++1",
        "1+",
        " 1",
        "1 ",
        "12a",
        "4294967295",
        "4294967296",
        "04294967295",
        "42949672950",
        "99999999999999999999999999",
        "+4294967295",
        "١٢",
        "1_000",
    ];
    for s in samples {
        assert_eq!(parse_unsigned(&chars(s)), s.parse::<u32>().ok(), "{:?}", s);
    }
    assert_eq!(parse_unsigned(&chars("467")), Some(467));
    assert_eq!(parse_unsigned(&chars("4294967296")), None);
}

#[test]
fn parse_numbers_reads_every_word() {
    assert_eq!(parse_numbers(&chars(" 83 86  6 31 ")), Some(vec![83, 86, 6, 31]));
    assert_eq!(parse_numbers(&chars("")), Some(vec![]));
    assert_eq!(parse_numbers(&chars("  ")), Some(vec![]));
    assert_eq!(parse_numbers(&chars("1 two 3")), None);
}

#[test]
fn find_from_and_slice_of() {
    let s = chars("a,b,,c");
    assert_eq!(find_from(&s, 0, ','), 1);
    assert_eq!(find_from(&s, 1, ','), 1);
    assert_eq!(find_from(&s, 2, ','), 3);
    assert_eq!(find_from(&s, 5, ','), 6);
    assert_eq!(find_from(&s, 6, ','), 6);
    assert_eq!(slice_of(&s, 2, 5), chars("b,,"));
    assert_eq!(slice_of(&s, 3, 3), chars(""));
}
