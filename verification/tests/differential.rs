use advent::day1::{calibration_value, spelled_calibration_value};
use advent::day2::Game;
use advent::day3::{try_part1, try_part2, Schematic};
use advent::day4::{cascade, Card};
use std::collections::BTreeSet;

struct Dice(u64);

impl Dice {
    fn roll(&mut self, sides: usize) -> usize {
        self.0 = self
            .0
            .wrapping_mul(6364136223846793005)
            .wrapping_add(1442695040888963407);
        ((self.0 >> 33) as usize) % sides
    }

    fn pick(&mut self, from: &[char]) -> char {
        from[self.roll(from.len())]
    }
}

fn spelled_by_search(line: &str) -> Option<u32> {
    let spellings = "1|2|3|4|5|6|7|8|9|one|two|three|four|five|six|seven|eight|nine";
    let mut first: Option<(usize, u32)> = None;
    let mut last: Option<(usize, u32)> = None;
    for (i, text) in spellings.split('|').enumerate() {
        let value = i as u32 % 9 + 1;
        let indices: Vec<usize> = line.match_indices(text).map(|m| m.0).collect();
        if indices.is_empty() {
            continue;
        }
        let lo = indices[0];
        if first.is_none() || first.is_some_and(|f| lo < f.0) {
            first = Some((lo, value));
        }
        let hi = indices[indices.len() - 1];
        if last.is_none() || last.is_some_and(|l| hi > l.0) {
            last = Some((hi, value));
        }
    }
    match (first, last) {
        (Some(a), Some(b)) => Some(10 * a.1 + b.1),
        _ => None,
    }
}

fn digits_by_filter(line: &str) -> Option<u32> {
    let digits: Vec<char> = line.chars().filter(|c| c.is_digit(10)).collect();
    let first = digits.first()?;
    let last = digits.last()?;
    let mut combined = String::new();
    combined.push(*first);
    combined.push(*last);
    combined.parse().ok()
}

#[test]
fn calibration_agrees_with_search_on_generated_lines() {
    let letters: Vec<char> = "onetwhrfuivsxg0123456789 é".chars().collect();
    let mut dice = Dice(2023);
    for _ in 0..4000 {
        let len = dice.roll(14);
        let line: String = (0..len).map(|_| dice.pick(&letters)).collect();
        assert_eq!(spelled_calibration_value(&line), spelled_by_search(&line), "{:?}", line);
        assert_eq!(calibration_value(&line), digits_by_filter(&line), "{:?}", line);
    }
}

#[test]
fn games_agree_with_direct_reading_on_generated_lines() {
    let mut dice = Dice(2);
    for round in 0..500 {
        let number = dice.roll(1000) as u32;
        let draws = 1 + dice.roll(5);
        let mut expected: Vec<(u32, u32, u32)> = Vec::new();
        let mut texts: Vec<String> = Vec::new();
        for _ in 0..draws {
            let pairs = 1 + dice.roll(4);
            let (mut r, mut g, mut b) = (0u32, 0u32, 0u32);
            let mut parts: Vec<String> = Vec::new();
            for _ in 0..pairs {
                let count = dice.roll(20) as u32;
                let colour = dice.roll(3);
                match colour {
                    0 => r += count,
                    1 => g += count,
                    _ => b += count,
                }
                parts.push(format!("{} {}", count, ["red", "green", "blue"][colour]));
            }
            expected.push((r, g, b));
            texts.push(parts.join(if round % 2 == 0 { ", " } else { "," }));
        }
        let line = format!("Game {}: {}", number, texts.join("; "));
        let game = Game::from_line(&line);
        assert_eq!(game.number, number, "{:?}", line);
        let got: Vec<(u32, u32, u32)> = game.draws.iter().map(|d| (d.red, d.green, d.blue)).collect();
        assert_eq!(got, expected, "{:?}", line);
        let possible = expected.iter().all(|d| d.0 <= 12 && d.1 <= 13 && d.2 <= 14);
        assert_eq!(game.is_possible(), possible, "{:?}", line);
        let power = expected.iter().map(|d| d.0).max().unwrap()
            * expected.iter().map(|d| d.1).max().unwrap()
            * expected.iter().map(|d| d.2).max().unwrap();
        assert_eq!(game.power(), Some(power), "{:?}", line);
    }
}

fn grid_sums_by_cells(rows: &[Vec<char>]) -> (Option<u32>, Option<u32>) {
    let mut spans: Vec<(usize, usize, usize, Option<u32>)> = Vec::new();
    let mut marks: Vec<(usize, usize, char)> = Vec::new();
    for (y, row) in rows.iter().enumerate() {
        let mut x = 0;
        while x < row.len() {
            if row[x].is_ascii_digit() {
                let start = x;
                while x < row.len() && row[x].is_ascii_digit() {
                    x += 1;
                }
                let text: String = row[start..x].iter().collect();
                spans.push((y, start, x - 1, text.parse::<u32>().ok()));
            } else {
                if row[x] != '.' {
                    marks.push((y, x, row[x]));
                }
                x += 1;
            }
        }
    }
    let near = |span: &(usize, usize, usize, Option<u32>), mark: &(usize, usize, char)| {
        mark.0 + 1 >= span.0 && mark.0 <= span.0 + 1 && mark.1 + 1 >= span.1 && mark.1 <= span.2 + 1
    };
    let mut first: Option<u128> = Some(0);
    for span in &spans {
        for mark in &marks {
            if near(span, mark) {
                first = match (first, span.3) {
                    (Some(sum), Some(n)) => Some(sum + n as u128),
                    _ => None,
                };
            }
        }
    }
    let mut second: Option<u128> = Some(0);
    for mark in &marks {
        if mark.2 != '*' {
            continue;
        }
        let touching: Vec<&(usize, usize, usize, Option<u32>)> =
            spans.iter().filter(|span| near(span, mark)).collect();
        if touching.len() == 2 {
            second = match (second, touching[0].3, touching[1].3) {
                (Some(sum), Some(a), Some(b)) => Some(sum + a as u128 * b as u128),
                _ => None,
            };
        }
    }
    let fit = |v: Option<u128>| v.and_then(|n| u32::try_from(n).ok());
    (fit(first), fit(second))
}

#[test]
fn grid_sums_agree_with_cell_search_on_generated_grids() {
    let cells: Vec<char> = "......0123456789*#*+".chars().collect();
    let mut dice = Dice(3);
    for _ in 0..600 {
        let width = 1 + dice.roll(9);
        let height = 1 + dice.roll(6);
        let rows: Vec<Vec<char>> = (0..height)
            .map(|_| (0..width).map(|_| dice.pick(&cells)).collect())
            .collect();
        let text: String = rows
            .iter()
            .map(|row| row.iter().collect::<String>())
            .collect::<Vec<String>>()
            .join("\n");
        let (first, second) = grid_sums_by_cells(&rows);
        assert_eq!(try_part1(text.clone()), first, "{}", text);
        assert_eq!(try_part2(text.clone()), second, "{}", text);
    }
}

#[test]
fn large_grid_is_read_in_time() {
    let cells: Vec<char> = "........0123456789*#".chars().collect();
    let mut dice = Dice(4);
    let rows: Vec<Vec<char>> = (0..140)
        .map(|_| (0..140).map(|_| dice.pick(&cells)).collect())
        .collect();
    let text: String = rows
        .iter()
        .map(|row| row.iter().collect::<String>())
        .collect::<Vec<String>>()
        .join("\n");
    let (first, second) = grid_sums_by_cells(&rows);
    assert_eq!(try_part1(text.clone()), first);
    assert_eq!(try_part2(text.clone()), second);
    let schematic = Schematic::from_input_string(text);
    assert_eq!(schematic.rect.br.x, 140);
    assert_eq!(schematic.rect.br.y, 140);
}

#[test]
fn cards_agree_with_direct_count_on_generated_decks() {
    let mut dice = Dice(4);
    for _ in 0..300 {
        let cards = dice.roll(12);
        let mut wins: Vec<usize> = Vec::new();
        let mut lines: Vec<String> = Vec::new();
        for n in 0..cards {
            let winners: Vec<u32> = (0..dice.roll(8)).map(|_| dice.roll(30) as u32).collect();
            let picks: Vec<u32> = (0..dice.roll(12)).map(|_| dice.roll(30) as u32).collect();
            let line = format!(
                "Card {:>3}: {} | {}",
                n + 1,
                winners.iter().map(|w| format!("{:>2}", w)).collect::<Vec<String>>().join(" "),
                picks.iter().map(|p| format!("{:>2}", p)).collect::<Vec<String>>().join(" "),
            );
            let card = Card::from_input_line(&line);
            let winners: BTreeSet<u32> = winners.into_iter().collect();
            let picks: BTreeSet<u32> = picks.into_iter().collect();
            assert_eq!(card.number, n as u32 + 1);
            assert_eq!(card.winners, winners);
            assert_eq!(card.picks, picks);
            let k = picks.intersection(&winners).count();
            assert_eq!(card.num_winners(), k as u32);
            wins.push(k);
            lines.push(line);
        }
        let score: u32 = wins.iter().map(|&k| if k == 0 { 0 } else { 1u32 << (k - 1) }).sum();
        let mut copies: Vec<u64> = vec![1; cards];
        for index in 0..cards {
            for next in index + 1..cards.min(index + 1 + wins[index]) {
                copies[next] += copies[index];
            }
        }
        let total: u64 = copies.iter().sum();
        let input = lines.join("\n");
        assert_eq!(advent::day4::try_part1(input.clone()), Some(score));
        assert_eq!(advent::day4::try_part2(input), u32::try_from(total).ok());
        assert_eq!(cascade(&wins), u32::try_from(total).ok());
    }
}
