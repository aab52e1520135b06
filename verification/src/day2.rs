use crate::sums::{lemma_total_prefix, lemma_total_remove, lemma_total_step, total};
use crate::text::{
    chars_of, parse_unsigned, slice_of, split, split_on, split_once, split_once_on, texts, trim,
    trimmed, unsigned, views,
};
use vstd::prelude::*;

verus! {

/// The most red cubes that a draw may show for its game to be possible.
pub const MAX_RED: u32 = 12;

/// The most green cubes that a draw may show for its game to be possible.
pub const MAX_GREEN: u32 = 13;

/// The most blue cubes that a draw may show for its game to be possible.
pub const MAX_BLUE: u32 = 14;

/// The three colours of cubes.
#[derive(Debug, Clone, Copy, PartialEq, Eq, Structural)]
pub enum Colour {
    Red,
    Green,
    Blue,
}

/// How many cubes of each colour one draw showed.
#[derive(Debug, Clone, Copy, PartialEq, Eq, Structural)]
pub struct Draw {
    pub red: u32,
    pub blue: u32,
    pub green: u32,
}

/// A game: its number and its draws, in order.
#[derive(Debug)]
pub struct Game {
    pub number: u32,
    pub draws: Vec<Draw>,
}

/// What a game is, with its draws as a sequence.
pub struct GameModel {
    pub number: u32,
    pub draws: Seq<Draw>,
}

impl View for Game {
    type V = GameModel;

    open spec fn view(&self) -> GameModel {
        GameModel { number: self.number, draws: self.draws@ }
    }
}

/// The colour that `s` names.
pub open spec fn colour_of(s: Seq<char>) -> Option<Colour> {
    if s == seq!['r', 'e', 'd'] {
        Some(Colour::Red)
    } else if s == seq!['g', 'r', 'e', 'e', 'n'] {
        Some(Colour::Green)
    } else if s == seq!['b', 'l', 'u', 'e'] {
        Some(Colour::Blue)
    } else {
        None
    }
}

/// The count and colour that `s` gives: a number, one space, and the name
/// of a colour, with any white space around the whole.
pub open spec fn pair_of(s: Seq<char>) -> Option<(Colour, u32)> {
    match split_once(trim(s), ' ') {
        None => None,
        Some((count, name)) => match (unsigned(count), colour_of(name)) {
            (Some(n), Some(c)) => Some((c, n)),
            _ => None,
        },
    }
}

/// What each pair of `pairs` adds to colour `c`: its count where it names
/// that colour, else nothing.
pub open spec fn shares(pairs: Seq<(Colour, u32)>, c: Colour) -> Seq<nat> {
    pairs.map_values(
        |p: (Colour, u32)|
            if p.0 == c {
                p.1 as nat
            } else {
                0nat
            },
    )
}

/// How many cubes of colour `c` the pairs of `pairs` show together.
pub open spec fn cubes(pairs: Seq<(Colour, u32)>, c: Colour) -> nat {
    total(shares(pairs, c))
}

/// The pairs that the comma-separated pieces of `s` give, where each gives
/// one.
pub open spec fn pairs_of(s: Seq<char>) -> Option<Seq<(Colour, u32)>> {
    let pieces = split(s, ',');
    if forall|i: int| 0 <= i < pieces.len() ==> (#[trigger] pair_of(pieces[i])) is Some {
        Some(pieces.map_values(|p: Seq<char>| pair_of(p).unwrap()))
    } else {
        None
    }
}

/// The draw that `s` describes: a comma-separated list of counts and
/// colours. A colour that is named more than once has its counts added; one
/// that is not named has none. Every count of the draw has to fit in `u32`.
pub open spec fn draw_of(s: Seq<char>) -> Option<Draw> {
    match pairs_of(s) {
        None => None,
        Some(pairs) => if cubes(pairs, Colour::Red) <= u32::MAX && cubes(pairs, Colour::Green)
            <= u32::MAX && cubes(pairs, Colour::Blue) <= u32::MAX {
            Some(
                Draw {
                    red: cubes(pairs, Colour::Red) as u32,
                    green: cubes(pairs, Colour::Green) as u32,
                    blue: cubes(pairs, Colour::Blue) as u32,
                },
            )
        } else {
            None
        },
    }
}

/// The draws that `s` describes: the pieces between its semicolons, white
/// space around `s` and around each piece aside, where each piece describes
/// a draw.
pub open spec fn draws_of(s: Seq<char>) -> Option<Seq<Draw>> {
    let pieces = split(trim(s), ';');
    if forall|i: int| 0 <= i < pieces.len() ==> (#[trigger] draw_of(trim(pieces[i]))) is Some {
        Some(pieces.map_values(|p: Seq<char>| draw_of(trim(p)).unwrap()))
    } else {
        None
    }
}

/// What stands in `head` after its first five characters, which hold the
/// word before the game's number.
pub open spec fn after_label(head: Seq<char>) -> Seq<char> {
    if head.len() >= 5 {
        head.skip(5)
    } else {
        Seq::empty()
    }
}

/// The game that a line of the form `Game <N>: <draw>; <draw>; ...`
/// describes. The number is what stands between the first five characters
/// and the first colon; the draws follow that colon.
pub open spec fn game_of_line(line: Seq<char>) -> Option<GameModel> {
    match split_once(line, ':') {
        None => None,
        Some((head, tail)) => match (unsigned(after_label(head)), draws_of(tail)) {
            (Some(number), Some(draws)) => Some(GameModel { number, draws }),
            _ => None,
        },
    }
}

/// Whether a draw stays within the three limits.
pub open spec fn within_limits(d: Draw) -> bool {
    d.red <= MAX_RED && d.green <= MAX_GREEN && d.blue <= MAX_BLUE
}

impl GameModel {
    /// Whether every draw of the game stays within the limits.
    pub open spec fn possible(&self) -> bool {
        forall|i: int| 0 <= i < self.draws.len() ==> within_limits(#[trigger] self.draws[i])
    }

    /// The product of the most red, the most green and the most blue cubes
    /// that any draw of the game showed.
    pub open spec fn power(&self) -> nat {
        most(self.draws, Colour::Red) * most(self.draws, Colour::Green) * most(
            self.draws,
            Colour::Blue,
        )
    }
}

/// How many cubes of colour `c` the draw showed.
pub open spec fn shown(d: Draw, c: Colour) -> u32 {
    match c {
        Colour::Red => d.red,
        Colour::Green => d.green,
        Colour::Blue => d.blue,
    }
}

/// The largest number of cubes of colour `c` in any draw of `draws`; 0 for
/// no draws.
pub open spec fn most(draws: Seq<Draw>, c: Colour) -> nat
    decreases draws.len(),
{
    if draws.len() == 0 {
        0
    } else {
        let rest = most(draws.drop_last(), c);
        if shown(draws.last(), c) >= rest {
            shown(draws.last(), c) as nat
        } else {
            rest
        }
    }
}

/// `most` is an upper bound that some draw reaches.
pub proof fn lemma_most(draws: Seq<Draw>, c: Colour)
    ensures
        forall|i: int| 0 <= i < draws.len() ==> shown(#[trigger] draws[i], c) <= most(draws, c),
        draws.len() > 0 ==> exists|i: int|
            0 <= i < draws.len() && shown(#[trigger] draws[i], c) == most(draws, c),
        most(draws, c) <= u32::MAX,
    decreases draws.len(),
{
    if draws.len() > 0 {
        let rest = draws.drop_last();
        lemma_most(rest, c);
        assert forall|i: int| 0 <= i < draws.len() implies shown(#[trigger] draws[i], c) <= most(
            draws,
            c,
        ) by {
            if i < rest.len() {
                assert(rest[i] == draws[i]);
            }
        }
        if shown(draws.last(), c) >= most(rest, c) {
            assert(shown(draws[draws.len() - 1], c) == most(draws, c));
        } else {
            let i = choose|i: int| 0 <= i < rest.len() && shown(#[trigger] rest[i], c) == most(rest, c);
            assert(rest[i] == draws[i]);
        }
    }
}

/// The games that the lines `rows` describe, where each describes one.
pub open spec fn games_of(rows: Seq<Seq<char>>) -> Option<Seq<GameModel>> {
    if forall|i: int| 0 <= i < rows.len() ==> (#[trigger] game_of_line(rows[i])) is Some {
        Some(rows.map_values(|row: Seq<char>| game_of_line(row).unwrap()))
    } else {
        None
    }
}

/// What each game adds to the first answer: its number where it is
/// possible, else nothing.
pub open spec fn possible_numbers(games: Seq<GameModel>) -> Seq<nat> {
    games.map_values(
        |g: GameModel|
            if g.possible() {
                g.number as nat
            } else {
                0nat
            },
    )
}

/// The power of each game.
pub open spec fn powers(games: Seq<GameModel>) -> Seq<nat> {
    games.map_values(|g: GameModel| g.power())
}

/// The sum of the numbers of the possible games, where every line describes
/// a game and the sum fits.
pub open spec fn part1_answer(rows: Seq<Seq<char>>) -> Option<u32> {
    match games_of(rows) {
        None => None,
        Some(games) => if total(possible_numbers(games)) <= u32::MAX {
            Some(total(possible_numbers(games)) as u32)
        } else {
            None
        },
    }
}

/// A game with a draw beyond a limit adds nothing to the sum of the
/// possible games: the sum is what it is without that game.
pub proof fn lemma_game_over_limit_is_left_out(games: Seq<GameModel>, i: int, d: int)
    requires
        0 <= i < games.len(),
        0 <= d < games[i].draws.len(),
        !within_limits(games[i].draws[d]),
    ensures
        !games[i].possible(),
        possible_numbers(games)[i] == 0,
        total(possible_numbers(games)) == total(possible_numbers(games.remove(i))),
{
    lemma_total_remove(possible_numbers(games), i);
    assert(possible_numbers(games).remove(i) =~= possible_numbers(games.remove(i)));
}

/// The sum of the powers of the games, where every line describes a game
/// and the sum fits.
pub open spec fn part2_answer(rows: Seq<Seq<char>>) -> Option<u32> {
    match games_of(rows) {
        None => None,
        Some(games) => if total(powers(games)) <= u32::MAX {
            Some(total(powers(games)) as u32)
        } else {
            None
        },
    }
}

/// The models of the games of `games`, in order.
pub open spec fn models(games: Seq<Game>) -> Seq<GameModel> {
    games.map_values(|g: Game| g@)
}

/// The colour that `s` names.
fn colour_from(s: &Vec<char>) -> (r: Option<Colour>)
    ensures
        r == colour_of(s@),
{
    if s.len() == 3 && s[0] == 'r' && s[1] == 'e' && s[2] == 'd' {
        assert(s@ =~= seq!['r', 'e', 'd']);
        Some(Colour::Red)
    } else if s.len() == 5 && s[0] == 'g' && s[1] == 'r' && s[2] == 'e' && s[3] == 'e' && s[4]
        == 'n' {
        assert(s@ =~= seq!['g', 'r', 'e', 'e', 'n']);
        assert(s@ != seq!['r', 'e', 'd']);
        Some(Colour::Green)
    } else if s.len() == 4 && s[0] == 'b' && s[1] == 'l' && s[2] == 'u' && s[3] == 'e' {
        assert(s@ =~= seq!['b', 'l', 'u', 'e']);
        Some(Colour::Blue)
    } else {
        proof {
            let red = seq!['r', 'e', 'd'];
            let green = seq!['g', 'r', 'e', 'e', 'n'];
            let blue = seq!['b', 'l', 'u', 'e'];
            if s@ == red {
                assert(red.len() == 3 && red[0] == 'r' && red[1] == 'e' && red[2] == 'd');
            }
            if s@ == green {
                assert(green.len() == 5 && green[0] == 'g' && green[1] == 'r' && green[2] == 'e'
                    && green[3] == 'e' && green[4] == 'n');
            }
            if s@ == blue {
                assert(blue.len() == 4 && blue[0] == 'b' && blue[1] == 'l' && blue[2] == 'u'
                    && blue[3] == 'e');
            }
        }
        None
    }
}

/// Reads a count and a colour.
fn pair_from(s: &Vec<char>) -> (r: Option<(Colour, u32)>)
    ensures
        r == pair_of(s@),
{
    let t = trimmed(s);
    match split_once_on(&t, ' ') {
        None => None,
        Some((count, name)) => match (parse_unsigned(&count), colour_from(&name)) {
            (Some(n), Some(c)) => Some((c, n)),
            _ => None,
        },
    }
}

/// Reads the pairs of a draw.
fn pairs_from(s: &Vec<char>) -> (r: Option<Vec<(Colour, u32)>>)
    ensures
        match r {
            Some(v) => pairs_of(s@) == Some(v@),
            None => pairs_of(s@) is None,
        },
{
    let pieces = split_on(s, ',');
    let mut out: Vec<(Colour, u32)> = Vec::new();
    let mut i: usize = 0;
    while i < pieces.len()
        invariant
            i <= pieces.len(),
            views(pieces@) == split(s@, ','),
            out.len() == i,
            forall|j: int| 0 <= j < i ==> pair_of(#[trigger] split(s@, ',')[j]) == Some(out@[j]),
        decreases pieces.len() - i,
    {
        assert(views(pieces@)[i as int] == pieces@[i as int]@);
        match pair_from(&pieces[i]) {
            Some(pair) => {
                out.push(pair);
            },
            None => {
                return None;
            },
        }
        i += 1;
    }
    proof {
        assert(views(pieces@).len() == pieces.len());
        assert(out@ =~= split(s@, ',').map_values(|p: Seq<char>| pair_of(p).unwrap()));
    }
    Some(out)
}

/// The cubes of colour `c` in `pairs`, where their number fits in `u32`.
fn cubes_in(pairs: &Vec<(Colour, u32)>, c: Colour) -> (r: Option<u32>)
    ensures
        r == if cubes(pairs@, c) <= u32::MAX {
            Some(cubes(pairs@, c) as u32)
        } else {
            None
        },
{
    let ghost parts = shares(pairs@, c);
    let mut sum: u32 = 0;
    let mut i: usize = 0;
    while i < pairs.len()
        invariant
            i <= pairs.len(),
            parts == shares(pairs@, c),
            sum == total(parts.take(i as int)),
        decreases pairs.len() - i,
    {
        proof {
            lemma_total_step(parts, i as int);
            lemma_total_prefix(parts, i + 1);
        }
        let pair = pairs[i];
        if pair.0 == c {
            let wide: u64 = sum as u64 + pair.1 as u64;
            if wide > u32::MAX as u64 {
                return None;
            }
            sum = wide as u32;
        }
        i += 1;
    }
    proof {
        assert(parts.take(pairs.len() as int) =~= parts);
    }
    Some(sum)
}

/// Reads one draw.
fn draw_from(s: &Vec<char>) -> (r: Option<Draw>)
    ensures
        r == draw_of(s@),
{
    let pairs = match pairs_from(s) {
        Some(pairs) => pairs,
        None => {
            return None;
        },
    };
    match (
        cubes_in(&pairs, Colour::Red),
        cubes_in(&pairs, Colour::Green),
        cubes_in(&pairs, Colour::Blue),
    ) {
        (Some(red), Some(green), Some(blue)) => Some(Draw { red, blue, green }),
        _ => None,
    }
}

/// Reads the draws of a game.
fn draws_from(s: &Vec<char>) -> (r: Option<Vec<Draw>>)
    ensures
        match r {
            Some(v) => draws_of(s@) == Some(v@),
            None => draws_of(s@) is None,
        },
{
    let t = trimmed(s);
    let pieces = split_on(&t, ';');
    let ghost model = split(trim(s@), ';');
    let mut out: Vec<Draw> = Vec::new();
    let mut i: usize = 0;
    while i < pieces.len()
        invariant
            i <= pieces.len(),
            model == split(trim(s@), ';'),
            views(pieces@) == model,
            out.len() == i,
            forall|j: int| 0 <= j < i ==> draw_of(trim(#[trigger] model[j])) == Some(out@[j]),
        decreases pieces.len() - i,
    {
        assert(views(pieces@)[i as int] == pieces@[i as int]@);
        let piece = trimmed(&pieces[i]);
        match draw_from(&piece) {
            Some(draw) => {
                out.push(draw);
            },
            None => {
                assert(draw_of(trim(model[i as int])) is None);
                return None;
            },
        }
        i += 1;
    }
    proof {
        assert(views(pieces@).len() == pieces.len());
        assert(out@ =~= model.map_values(|p: Seq<char>| draw_of(trim(p)).unwrap()));
    }
    Some(out)
}

/// Reads one game from the characters of a line.
fn game_from_chars(line: &Vec<char>) -> (r: Option<Game>)
    ensures
        match r {
            Some(game) => game_of_line(line@) == Some(game@),
            None => game_of_line(line@) is None,
        },
{
    let (head, tail) = match split_once_on(line, ':') {
        Some(pair) => pair,
        None => {
            return None;
        },
    };
    let label: Vec<char> = if head.len() >= 5 {
        slice_of(&head, 5, head.len())
    } else {
        Vec::new()
    };
    assert(label@ =~= after_label(head@));
    match (parse_unsigned(&label), draws_from(&tail)) {
        (Some(number), Some(draws)) => Some(Game { number, draws }),
        _ => None,
    }
}

/// The largest number of cubes of colour `c` in any draw of `draws`.
fn most_in(draws: &Vec<Draw>, c: Colour) -> (m: u32)
    ensures
        m == most(draws@, c),
{
    let mut m: u32 = 0;
    let mut i: usize = 0;
    while i < draws.len()
        invariant
            i <= draws.len(),
            m == most(draws@.take(i as int), c),
        decreases draws.len() - i,
    {
        proof {
            assert(draws@.take(i + 1).drop_last() =~= draws@.take(i as int));
        }
        let d = draws[i];
        let n = match c {
            Colour::Red => d.red,
            Colour::Green => d.green,
            Colour::Blue => d.blue,
        };
        if n >= m {
            m = n;
        }
        i += 1;
    }
    proof {
        assert(draws@.take(draws.len() as int) =~= draws@);
    }
    m
}

impl Game {
    /// Reads a game from a line, where the line describes one.
    pub fn try_from_line(line: &str) -> (r: Option<Game>)
        ensures
            match r {
                Some(game) => game_of_line(line@) == Some(game@),
                None => game_of_line(line@) is None,
            },
    {
        let chars = chars_of(line);
        game_from_chars(&chars)
    }

    /// Reads a game from a line that describes one.
    pub fn from_line(line: &str) -> (game: Game)
        requires
            game_of_line(line@) is Some,
        ensures
            game_of_line(line@) == Some(game@),
    {
        Game::try_from_line(line).unwrap()
    }

    /// Whether every draw of the game stays within the limits.
    pub fn is_possible(&self) -> (b: bool)
        ensures
            b == self@.possible(),
    {
        let mut i: usize = 0;
        while i < self.draws.len()
            invariant
                i <= self.draws.len(),
                forall|j: int| 0 <= j < i ==> within_limits(#[trigger] self.draws@[j]),
            decreases self.draws.len() - i,
        {
            let d = self.draws[i];
            if !(d.red <= MAX_RED && d.green <= MAX_GREEN && d.blue <= MAX_BLUE) {
                assert(!within_limits(self@.draws[i as int]));
                return false;
            }
            i += 1;
        }
        true
    }

    /// The product of the most red, the most green and the most blue cubes
    /// of any draw, where it fits in `u32`.
    pub fn power(&self) -> (r: Option<u32>)
        ensures
            r == if self@.power() <= u32::MAX {
                Some(self@.power() as u32)
            } else {
                None
            },
    {
        let red = most_in(&self.draws, Colour::Red);
        let green = most_in(&self.draws, Colour::Green);
        let blue = most_in(&self.draws, Colour::Blue);
        assert(red * green <= 0xffff_ffff * 0xffff_ffff) by (nonlinear_arith)
            requires
                red <= 0xffff_ffff,
                green <= 0xffff_ffff,
        ;
        let two: u64 = red as u64 * green as u64;
        assert(two * blue <= 0xffff_ffff * 0xffff_ffff * 0xffff_ffff) by (nonlinear_arith)
            requires
                two <= 0xffff_ffff * 0xffff_ffff,
                blue <= 0xffff_ffff,
        ;
        let all: u128 = two as u128 * blue as u128;
        if all > u32::MAX as u128 {
            None
        } else {
            Some(all as u32)
        }
    }
}

/// Reads the games of `lines`, one from each.
fn games_from(lines: &Vec<String>) -> (r: Option<Vec<Game>>)
    ensures
        match r {
            Some(games) => games_of(texts(lines@)) == Some(models(games@)),
            None => games_of(texts(lines@)) is None,
        },
{
    let ghost rows = texts(lines@);
    let mut games: Vec<Game> = Vec::new();
    let mut i: usize = 0;
    while i < lines.len()
        invariant
            i <= lines.len(),
            rows == texts(lines@),
            games.len() == i,
            forall|j: int| 0 <= j < i ==> game_of_line(#[trigger] rows[j]) == Some(games@[j]@),
        decreases lines.len() - i,
    {
        assert(rows[i as int] == lines@[i as int]@);
        match Game::try_from_line(lines[i].as_str()) {
            Some(game) => {
                games.push(game);
            },
            None => {
                return None;
            },
        }
        i += 1;
    }
    proof {
        assert(models(games@) =~= rows.map_values(|row: Seq<char>| game_of_line(row).unwrap()));
    }
    Some(games)
}

/// The sum of the numbers of the games whose every draw stays within the
/// limits; none where a line describes no game or the sum is beyond `u32`.
pub fn try_part1(lines: &Vec<String>) -> (r: Option<u32>)
    ensures
        r == part1_answer(texts(lines@)),
{
    let games = match games_from(lines) {
        Some(games) => games,
        None => {
            return None;
        },
    };
    let ghost items = possible_numbers(models(games@));
    let mut sum: u32 = 0;
    let mut i: usize = 0;
    while i < games.len()
        invariant
            i <= games.len(),
            games_of(texts(lines@)) == Some(models(games@)),
            items == possible_numbers(models(games@)),
            sum == total(items.take(i as int)),
        decreases games.len() - i,
    {
        proof {
            lemma_total_step(items, i as int);
            lemma_total_prefix(items, i + 1);
        }
        if games[i].is_possible() {
            let wide: u64 = sum as u64 + games[i].number as u64;
            if wide > u32::MAX as u64 {
                return None;
            }
            sum = wide as u32;
        }
        i += 1;
    }
    proof {
        assert(items.take(games.len() as int) =~= items);
    }
    Some(sum)
}

/// The sum of the numbers of the possible games.
pub fn part1(lines: &Vec<String>) -> (sum: u32)
    requires
        part1_answer(texts(lines@)) is Some,
    ensures
        part1_answer(texts(lines@)) == Some(sum),
{
    try_part1(lines).unwrap()
}

/// The sum of the powers of the games; none where a line describes no game
/// or the sum is beyond `u32`.
pub fn try_part2(lines: &Vec<String>) -> (r: Option<u32>)
    ensures
        r == part2_answer(texts(lines@)),
{
    let games = match games_from(lines) {
        Some(games) => games,
        None => {
            return None;
        },
    };
    let ghost items = powers(models(games@));
    let mut sum: u32 = 0;
    let mut i: usize = 0;
    while i < games.len()
        invariant
            i <= games.len(),
            games_of(texts(lines@)) == Some(models(games@)),
            items == powers(models(games@)),
            sum == total(items.take(i as int)),
        decreases games.len() - i,
    {
        proof {
            lemma_total_step(items, i as int);
            lemma_total_prefix(items, i + 1);
        }
        let wide: u64 = match games[i].power() {
            Some(p) => sum as u64 + p as u64,
            None => {
                return None;
            },
        };
        if wide > u32::MAX as u64 {
            return None;
        }
        sum = wide as u32;
        i += 1;
    }
    proof {
        assert(items.take(games.len() as int) =~= items);
    }
    Some(sum)
}

/// The sum of the powers of the games.
pub fn part2(lines: &Vec<String>) -> (sum: u32)
    requires
        part2_answer(texts(lines@)) is Some,
    ensures
        part2_answer(texts(lines@)) == Some(sum),
{
    try_part2(lines).unwrap()
}

} // verus!
