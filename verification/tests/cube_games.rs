use advent::day2::{part1, part2, try_part1, try_part2, Draw, Game};

const EXAMPLE: &str = r"Game 1: 3 blue, 4 red; 1 red, 2 green, 6 blue; 2 green
Game 2: 1 blue, 2 green; 3 green, 4 blue, 1 red; 1 green, 1 blue
Game 3: 8 green, 6 blue, 20 red; 5 blue, 4 red, 13 green; 5 green, 1 red
Game 4: 1 green, 3 red, 6 blue; 3 green, 6 red; 3 green, 15 blue, 14 red
Game 5: 6 red, 1 blue, 3 green; 2 blue, 1 red, 2 green";

fn lines(text: &str) -> Vec<String> {
    text.lines().map(String::from).collect()
}

#[test]
fn test_read_games() {
    let example_input = r"Game 1: 3 blue, 4 red; 1 red, 2 green, 6 blue; 2 green
Game 2: 1 blue, 2 green; 3 green, 4 blue, 1 red; 1 green, 1 blue
Game 3: 8 green, 6 blue, 20 red; 5 blue, 4 red, 13 green; 5 green, 1 red
Game 4: 1 green, 3 red, 6 blue; 3 green, 6 red; 3 green, 15 blue, 14 red
Game 5: 6 red, 1 blue, 3 green; 2 blue, 1 red, 2 green";
    let games = example_input
        .lines()
        .map(Game::from_line)
        .collect::<Vec<_>>();

    println!("{:?}", games);
    assert_eq!(games.len(), 5);
}

#[test]
fn game_line_is_read() {
    let game = Game::from_line("Game 1: 3 blue, 4 red; 1 red, 2 green, 6 blue; 2 green");
    assert_eq!(game.number, 1);
    assert_eq!(
        game.draws,
        vec![
            Draw { red: 4, green: 0, blue: 3 },
            Draw { red: 1, green: 2, blue: 6 },
            Draw { red: 0, green: 2, blue: 0 },
        ]
    );
}

#[test]
fn first_game_is_possible() {
    let game = Game::from_line("Game 1: 3 blue, 4 red; 1 red, 2 green, 6 blue; 2 green");
    assert!(game.is_possible());
    assert_eq!(
        part1(&lines("Game 1: 3 blue, 4 red; 1 red, 2 green, 6 blue; 2 green")),
        1
    );
}

#[test]
fn game_over_a_limit_is_left_out() {
    let game = Game::from_line("Game 3: 8 green, 6 blue, 20 red; 5 blue, 4 red, 13 green; 5 green, 1 red");
    assert!(!game.is_possible());
    assert!(Game::from_line("Game 9: 12 red, 13 green, 14 blue").is_possible());
    assert!(!Game::from_line("Game 9: 13 red").is_possible());
    assert!(!Game::from_line("Game 9: 1 red; 14 green").is_possible());
    assert!(!Game::from_line("Game 9: 1 red; 1 green; 15 blue").is_possible());
    assert_eq!(part1(&lines("Game 7: 13 red\nGame 5: 1 red")), 5);
}

#[test]
fn games_example_part1() {
    assert_eq!(part1(&lines(EXAMPLE)), 8);
    assert_eq!(try_part1(&lines(EXAMPLE)), Some(8));
}

#[test]
fn games_example_part2() {
    assert_eq!(part2(&lines(EXAMPLE)), 2286);
    assert_eq!(try_part2(&lines(EXAMPLE)), Some(2286));
}

#[test]
fn power_is_the_product_of_the_maxima() {
    let game = Game::from_line("Game 1: 3 blue, 4 red; 1 red, 2 green, 6 blue; 2 green");
    assert_eq!(game.power(), Some(48));
    let game = Game::from_line("Game 2: 7 red");
    assert_eq!(game.power(), Some(0));
    let game = Game::from_line("Game 2: 65536 red, 65536 green, 1 blue");
    assert_eq!(game.power(), None);
    let game = Game::from_line("Game 2: 65535 red, 65537 green, 1 blue");
    assert_eq!(game.power(), Some(4294967295));
    let game = Game::from_line("Game 2: 4294967295 red, 4294967295 green, 4294967295 blue");
    assert_eq!(game.power(), None);
}

#[test]
fn repeated_colours_add_up() {
    let game = Game::from_line("Game 12: 1 red, 2 red, 5 blue");
    assert_eq!(game.number, 12);
    assert_eq!(game.draws, vec![Draw { red: 3, green: 0, blue: 5 }]);
    assert!(Game::try_from_line("Game 1: 4294967295 red, 1 red").is_none());
    assert!(Game::try_from_line("Game 1: 4294967295 red, 0 red").is_some());
}

#[test]
fn white_space_around_draws_is_dropped() {
    let game = Game::from_line("Game 3:   1 red ,  2 green ;   3 blue   ");
    assert_eq!(
        game.draws,
        vec![
            Draw { red: 1, green: 2, blue: 0 },
            Draw { red: 0, green: 0, blue: 3 },
        ]
    );
    let game = Game::from_line("xxxxx+7:1 red");
    assert_eq!(game.number, 7);
}

#[test]
fn malformed_game_lines_are_refused() {
    assert!(Game::try_from_line("").is_none());
    assert!(Game::try_from_line("Game 1 3 blue").is_none());
    assert!(Game::try_from_line("Game : 3 blue").is_none());
    assert!(Game::try_from_line("Game x: 3 blue").is_none());
    assert!(Game::try_from_line("Gam 1: 3 blue").is_none());
    assert!(Game::try_from_line("1: 3 blue").is_none());
    assert!(Game::try_from_line("Game 1:").is_none());
    assert!(Game::try_from_line("Game 1: 3 blue;").is_none());
    assert!(Game::try_from_line("Game 1: 3 blue,").is_none());
    assert!(Game::try_from_line("Game 1: 3 purple").is_none());
    assert!(Game::try_from_line("Game 1: 3  blue").is_none());
    assert!(Game::try_from_line("Game 1: three blue").is_none());
    assert!(Game::try_from_line("Game 1: blue").is_none());
    assert!(Game::try_from_line("Game 1: 3 blue 4").is_none());
    assert!(Game::try_from_line("Game 1: 4294967296 blue").is_none());
    assert!(Game::try_from_line("Game 4294967296: 1 blue").is_none());
    assert!(Game::try_from_line("Game 1: 3 blue").is_some());
    assert_eq!(try_part1(&lines("Game 1: 3 blue\nGame 2")), None);
    assert_eq!(try_part2(&lines("Game 1: 3 blue\nGame 2")), None);
}

#[test]
fn game_sums_beyond_u32_are_refused() {
    assert_eq!(
        try_part1(&lines("Game 4294967295: 1 red\nGame 1: 1 red")),
        None
    );
    assert_eq!(
        try_part1(&lines("Game 4294967295: 1 red\nGame 1: 13 red")),
        Some(4294967295)
    );
    assert_eq!(
        try_part2(&lines("Game 1: 65535 red, 65537 green, 1 blue\nGame 2: 1 red, 1 green, 1 blue")),
        None
    );
    assert_eq!(try_part1(&Vec::new()), Some(0));
    assert_eq!(try_part2(&Vec::new()), Some(0));
}
