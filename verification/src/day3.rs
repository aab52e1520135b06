use crate::geometry::{Point, Rect};
use crate::schematic_laws::{lemma_schematic_depicts, lemma_schematic_well_formed};
use crate::sums::{lemma_total_prefix, lemma_total_step, sum_of, total};
use crate::text::{
    all_digits, chars_of, digit, is_digit, line_spans, lines, parse_unsigned, pieces, slice_of,
    unsigned,
};
use vstd::prelude::*;
use vstd::string::StrSliceExecFns;

verus! {

/// A grid cell that holds neither a digit nor a period.
#[derive(Debug, Clone, Copy, PartialEq, Eq, Structural)]
pub struct Symbol {
    pub char: char,
    pub point: Point,
}

/// A number of the grid: its digits and the cells it covers.
#[derive(Debug)]
pub struct Part {
    pub string: String,
    pub rect: Rect,
}

/// What a part is, with its digits as a sequence.
pub struct PartModel {
    pub string: Seq<char>,
    pub rect: Rect,
}

impl View for Part {
    type V = PartModel;

    open spec fn view(&self) -> PartModel {
        PartModel { string: self.string@, rect: self.rect }
    }
}

/// A grid of characters, read: its bounds, its symbols and its numbers, both
/// in reading order.
#[derive(Debug)]
pub struct Schematic {
    pub rect: Rect,
    pub symbols: Vec<Symbol>,
    pub parts: Vec<Part>,
}

/// What a schematic is, with its symbols and parts as sequences.
pub struct SchematicModel {
    pub rect: Rect,
    pub symbols: Seq<Symbol>,
    pub parts: Seq<PartModel>,
}

/// The models of the parts of `parts`, in order.
pub open spec fn part_models(parts: Seq<Part>) -> Seq<PartModel> {
    parts.map_values(|p: Part| p@)
}

impl View for Schematic {
    type V = SchematicModel;

    open spec fn view(&self) -> SchematicModel {
        SchematicModel {
            rect: self.rect,
            symbols: self.symbols@,
            parts: part_models(self.parts@),
        }
    }
}

/// Whether `c` is a symbol: neither a digit nor a period.
pub open spec fn is_mark(c: char) -> bool {
    !is_digit(c) && c != '.'
}

/// The point in column `x` of row `y`.
pub open spec fn point_at(x: int, y: int) -> Point {
    Point { x: x as i32, y: y as i32 }
}

/// Whether `p` is a cell of the grid.
pub open spec fn in_grid(rows: Seq<Seq<char>>, p: Point) -> bool {
    0 <= p.y < rows.len() && 0 <= p.x < rows[p.y as int].len()
}

/// The character in cell `p` of the grid.
pub open spec fn cell(rows: Seq<Seq<char>>, p: Point) -> char {
    rows[p.y as int][p.x as int]
}

/// Whether `rows` are the rows of a grid: all as wide as `width`, with
/// width and height in `i32`.
pub open spec fn is_grid(rows: Seq<Seq<char>>, width: int) -> bool {
    &&& rows.len() <= i32::MAX
    &&& 0 <= width <= i32::MAX
    &&& forall|i: int| 0 <= i < rows.len() ==> (#[trigger] rows[i]).len() == width
}

/// The rows of the grid that `input` holds, one to a line: there is at
/// least one row, all rows are as wide as the first, and both the width and
/// the height fit in `i32`.
pub open spec fn grid_of(input: Seq<char>) -> Option<Seq<Seq<char>>> {
    let rows = lines(input);
    if rows.len() > 0 && rows.len() <= i32::MAX && rows[0].len() <= i32::MAX && (forall|i: int|
        0 <= i < rows.len() ==> (#[trigger] rows[i]).len() == rows[0].len()) {
        Some(rows)
    } else {
        None
    }
}

/// How many digits stand in `row` from column `x` on without a break.
pub open spec fn run_len(row: Seq<char>, x: int) -> int
    decreases row.len() - x,
{
    if x < 0 || x >= row.len() || !is_digit(row[x]) {
        0
    } else {
        1 + run_len(row, x + 1)
    }
}

/// The part made of the `n` characters of `row` from column `x` on, in row
/// `y` of the grid.
pub open spec fn part_at(row: Seq<char>, x: int, y: int, n: int) -> PartModel {
    PartModel {
        string: row.subrange(x, x + n),
        rect: Rect { tl: point_at(x, y), br: point_at(x + n - 1, y) },
    }
}

/// The parts of `row`, which is row `y` of the grid, from column `x` on,
/// where no part is cut by column `x`: each run of digits that neither side
/// can extend is one part.
pub open spec fn row_parts(row: Seq<char>, y: int, x: int) -> Seq<PartModel>
    decreases row.len() - x,
{
    if x < 0 || x >= row.len() {
        Seq::empty()
    } else if is_digit(row[x]) {
        let n = run_len(row, x);
        if 0 < n <= row.len() - x {
            seq![part_at(row, x, y, n)] + row_parts(row, y, x + n)
        } else {
            Seq::empty()
        }
    } else {
        row_parts(row, y, x + 1)
    }
}

/// The symbol that column `x` of `row` holds, in row `y` of the grid.
pub open spec fn symbol_at(row: Seq<char>, x: int, y: int) -> Symbol {
    Symbol { char: row[x], point: point_at(x, y) }
}

/// The symbols of `row`, which is row `y` of the grid, from column `x` on:
/// each character that is a symbol, by itself.
pub open spec fn row_symbols(row: Seq<char>, y: int, x: int) -> Seq<Symbol>
    decreases row.len() - x,
{
    if x < 0 || x >= row.len() {
        Seq::empty()
    } else if is_mark(row[x]) {
        seq![symbol_at(row, x, y)] + row_symbols(row, y, x + 1)
    } else {
        row_symbols(row, y, x + 1)
    }
}

/// The parts of the rows of `rows` from row `y` on.
pub open spec fn grid_parts(rows: Seq<Seq<char>>, y: int) -> Seq<PartModel>
    decreases rows.len() - y,
{
    if y < 0 || y >= rows.len() {
        Seq::empty()
    } else {
        row_parts(rows[y], y, 0) + grid_parts(rows, y + 1)
    }
}

/// The symbols of the rows of `rows` from row `y` on.
pub open spec fn grid_symbols(rows: Seq<Seq<char>>, y: int) -> Seq<Symbol>
    decreases rows.len() - y,
{
    if y < 0 || y >= rows.len() {
        Seq::empty()
    } else {
        row_symbols(rows[y], y, 0) + grid_symbols(rows, y + 1)
    }
}

/// The schematic of a grid: its bounds run from the origin to the point
/// whose coordinates are the width and the height.
pub open spec fn schematic_of(rows: Seq<Seq<char>>) -> SchematicModel {
    SchematicModel {
        rect: Rect { tl: point_at(0, 0), br: point_at(rows[0].len() as int, rows.len() as int) },
        symbols: grid_symbols(rows, 0),
        parts: grid_parts(rows, 0),
    }
}

/// Whether columns `a` up to, not including, `b` of `row` hold a run of
/// digits that neither side can extend.
pub open spec fn is_run(row: Seq<char>, a: int, b: int) -> bool {
    &&& 0 <= a < b <= row.len()
    &&& forall|k: int| a <= k < b ==> is_digit(#[trigger] row[k])
    &&& (a == 0 || !is_digit(row[a - 1]))
    &&& (b == row.len() || !is_digit(row[b]))
}

/// Whether point `a` comes before point `b` in reading order: in a row
/// above, or in the same row further left.
pub open spec fn before(a: Point, b: Point) -> bool {
    a.y < b.y || (a.y == b.y && a.x < b.x)
}

impl PartModel {
    /// The part covers a run of digits of row `y` of `row` that neither
    /// side can extend, and holds those digits.
    pub open spec fn is_run_of(&self, row: Seq<char>, y: int) -> bool {
        &&& self.rect.tl.y == y
        &&& self.rect.br.y == y
        &&& is_run(row, self.rect.tl.x as int, self.rect.br.x + 1)
        &&& self.string == row.subrange(self.rect.tl.x as int, self.rect.br.x + 1)
    }

    /// Whether the part covers column `k` of its row.
    pub open spec fn covers(&self, k: int) -> bool {
        self.rect.tl.x <= k <= self.rect.br.x
    }

    /// The part lies in one row of a grid of the given width and height,
    /// and its string holds one digit for each cell it covers.
    pub open spec fn lies_in(&self, width: int, height: int) -> bool {
        &&& 0 <= self.rect.tl.x <= self.rect.br.x < width
        &&& 0 <= self.rect.tl.y < height
        &&& self.rect.tl.y == self.rect.br.y
        &&& self.string.len() == self.rect.br.x - self.rect.tl.x + 1
        &&& all_digits(self.string)
    }
}

impl Symbol {
    /// The symbol stands in column `point.x` of row `y` of `row`.
    pub open spec fn is_mark_of(&self, row: Seq<char>, y: int) -> bool {
        &&& self.point.y == y
        &&& 0 <= self.point.x < row.len()
        &&& row[self.point.x as int] == self.char
        &&& is_mark(self.char)
    }
}

impl SchematicModel {
    /// The schematic shows the grid `rows` and nothing else: its bounds are
    /// those of the grid; its parts are runs of digits that neither side
    /// can extend, in reading order, and every digit of the grid belongs
    /// to one; its symbols are the cells that hold neither a digit nor a
    /// period, in reading order, and every such cell is one.
    pub open spec fn depicts(&self, rows: Seq<Seq<char>>) -> bool {
        &&& self.rect == Rect {
            tl: point_at(0, 0),
            br: point_at(rows[0].len() as int, rows.len() as int),
        }
        &&& forall|i: int|
            0 <= i < self.parts.len() ==> 0 <= (#[trigger] self.parts[i]).rect.tl.y < rows.len()
                && self.parts[i].is_run_of(
                rows[self.parts[i].rect.tl.y as int],
                self.parts[i].rect.tl.y as int,
            )
        &&& forall|i: int, j: int|
            0 <= i < j < self.parts.len() ==> before(
                (#[trigger] self.parts[i]).rect.br,
                (#[trigger] self.parts[j]).rect.tl,
            )
        &&& forall|p: Point|
            in_grid(rows, p) && is_digit(#[trigger] cell(rows, p)) ==> exists|i: int|
                0 <= i < self.parts.len() && (#[trigger] self.parts[i]).rect.contains(p)
        &&& forall|i: int|
            0 <= i < self.symbols.len() ==> 0 <= (#[trigger] self.symbols[i]).point.y < rows.len()
                && self.symbols[i].is_mark_of(
                rows[self.symbols[i].point.y as int],
                self.symbols[i].point.y as int,
            )
        &&& forall|i: int, j: int|
            0 <= i < j < self.symbols.len() ==> before(
                (#[trigger] self.symbols[i]).point,
                (#[trigger] self.symbols[j]).point,
            )
        &&& forall|p: Point|
            in_grid(rows, p) && is_mark(#[trigger] cell(rows, p)) ==> exists|i: int|
                0 <= i < self.symbols.len() && (#[trigger] self.symbols[i]).point == p
    }

    /// The bounds start at the origin, and every symbol and part lies in
    /// the grid that they span.
    pub open spec fn well_formed(&self) -> bool {
        &&& self.rect.tl == point_at(0, 0)
        &&& forall|i: int|
            0 <= i < self.parts.len() ==> (#[trigger] self.parts[i]).lies_in(
                self.rect.br.x as int,
                self.rect.br.y as int,
            )
        &&& forall|i: int|
            0 <= i < self.symbols.len() ==> 0 <= (#[trigger] self.symbols[i]).point.x
                < self.rect.br.x && 0 <= self.symbols[i].point.y < self.rect.br.y
    }
}

/// The column after the run of digits that starts at column `x`.
fn run_end(row: &Vec<char>, x: usize) -> (end: usize)
    requires
        x < row.len(),
        is_digit(row@[x as int]),
    ensures
        x < end <= row.len(),
        end - x == run_len(row@, x as int),
{
    let mut end: usize = x + 1;
    while end < row.len() && digit(row[end])
        invariant
            x < end <= row.len(),
            run_len(row@, x as int) == (end - x) + run_len(row@, end as int),
        decreases row.len() - end,
    {
        end += 1;
    }
    end
}

/// A run of digits holds no symbol.
proof fn lemma_no_symbols_in_run(row: Seq<char>, y: int, x: int, end: int)
    requires
        0 <= x <= end <= row.len(),
        end - x == run_len(row, x),
    ensures
        row_symbols(row, y, x) == row_symbols(row, y, end),
    decreases end - x,
{
    if x < end {
        lemma_no_symbols_in_run(row, y, x + 1, end);
    }
}

/// Adds the symbols and the parts of one row of the grid to those found so
/// far.
fn scan_row(row: &Vec<char>, line: &str, y: i32, symbols: &mut Vec<Symbol>, parts: &mut Vec<Part>)
    requires
        line@ == row@,
        row.len() <= i32::MAX,
    ensures
        final(symbols)@ == old(symbols)@ + row_symbols(row@, y as int, 0),
        part_models(final(parts)@) == part_models(old(parts)@) + row_parts(row@, y as int, 0),
{
    let ghost symbols_before = symbols@;
    let ghost parts_before = part_models(parts@);
    let mut x: usize = 0;
    while x < row.len()
        invariant
            x <= row.len() <= i32::MAX,
            line@ == row@,
            symbols@ + row_symbols(row@, y as int, x as int) == symbols_before + row_symbols(
                row@,
                y as int,
                0,
            ),
            part_models(parts@) + row_parts(row@, y as int, x as int) == parts_before + row_parts(
                row@,
                y as int,
                0,
            ),
        decreases row.len() - x,
    {
        let c = row[x];
        let ghost symbols_now = symbols@;
        let ghost parts_now = part_models(parts@);
        if digit(c) {
            let end = run_end(row, x);
            let text = line.substring_char(x, end).to_owned();
            let part = Part {
                string: text,
                rect: Rect {
                    tl: Point { x: x as i32, y },
                    br: Point { x: (end - 1) as i32, y },
                },
            };
            proof {
                assert(part@ == part_at(row@, x as int, y as int, end - x));
            }
            parts.push(part);
            proof {
                assert(part_models(parts@) =~= parts_now.push(part_at(row@, x as int, y as int, end - x)));
                assert(part_models(parts@) + row_parts(row@, y as int, end as int) =~= parts_now
                    + row_parts(row@, y as int, x as int));
                assert(row_symbols(row@, y as int, x as int) =~= row_symbols(
                    row@,
                    y as int,
                    end as int,
                )) by {
                    lemma_no_symbols_in_run(row@, y as int, x as int, end as int);
                }
            }
            x = end;
        } else {
            if c != '.' {
                symbols.push(Symbol { char: c, point: Point { x: x as i32, y } });
                proof {
                    assert(symbols@ + row_symbols(row@, y as int, x + 1) =~= symbols_now
                        + row_symbols(row@, y as int, x as int));
                }
            }
            x += 1;
        }
    }
    proof {
        assert(symbols@ + row_symbols(row@, y as int, x as int) =~= symbols@);
        assert(part_models(parts@) + row_parts(row@, y as int, x as int) =~= part_models(parts@));
    }
}

impl Schematic {
    /// Reads the grid that `input` holds, one row to a line; none where
    /// `input` holds no grid.
    pub fn try_from_input_string(input: String) -> (r: Option<Schematic>)
        ensures
            match r {
                Some(schematic) => grid_of(input@) is Some && schematic@ == schematic_of(
                    grid_of(input@).unwrap(),
                ) && schematic@.depicts(grid_of(input@).unwrap()) && schematic@.well_formed(),
                None => grid_of(input@) is None,
            },
    {
        proof {
            if grid_of(input@) is Some {
                lemma_schematic_depicts(input@);
                lemma_schematic_well_formed(input@);
            }
        }
        let text = input.as_str();
        let chars = chars_of(text);
        let spans = line_spans(&chars);
        let ghost rows = lines(input@);
        let height = spans.len();
        assert(pieces(chars@, spans@).len() == spans.len());
        if height == 0 || height > i32::MAX as usize {
            return None;
        }
        let width = spans[0].1 - spans[0].0;
        assert(pieces(chars@, spans@)[0].len() == width);
        if width > i32::MAX as usize {
            return None;
        }
        let mut i: usize = 0;
        while i < height
            invariant
                i <= height == spans.len(),
                rows == lines(input@),
                chars@ == input@,
                pieces(chars@, spans@) == rows,
                forall|j: int|
                    0 <= j < spans.len() ==> (#[trigger] spans@[j]).0 <= spans@[j].1 <= chars.len(),
                forall|j: int| 0 <= j < i ==> (#[trigger] rows[j]).len() == width,
                rows.len() == height,
                rows[0].len() == width,
            decreases height - i,
        {
            assert(pieces(chars@, spans@)[i as int].len() == spans@[i as int].1 - spans@[i as int].0);
            if spans[i].1 - spans[i].0 != width {
                assert(rows[i as int].len() != rows[0].len());
                return None;
            }
            i += 1;
        }
        let mut symbols: Vec<Symbol> = Vec::new();
        let mut parts: Vec<Part> = Vec::new();
        let mut y: usize = 0;
        proof {
            assert(symbols@ + grid_symbols(rows, 0) =~= grid_symbols(rows, 0));
            assert(part_models(parts@) + grid_parts(rows, 0) =~= grid_parts(rows, 0));
        }
        while y < height
            invariant
                y <= height == spans.len(),
                height <= i32::MAX,
                width <= i32::MAX,
                rows == lines(input@),
                chars@ == input@,
                text@ == input@,
                pieces(chars@, spans@) == rows,
                forall|j: int|
                    0 <= j < spans.len() ==> (#[trigger] spans@[j]).0 <= spans@[j].1 <= chars.len(),
                forall|j: int| 0 <= j < height ==> (#[trigger] rows[j]).len() == width,
                symbols@ + grid_symbols(rows, y as int) == grid_symbols(rows, 0),
                part_models(parts@) + grid_parts(rows, y as int) == grid_parts(rows, 0),
            decreases height - y,
        {
            let span = spans[y];
            let row = slice_of(&chars, span.0, span.1);
            let line = text.substring_char(span.0, span.1);
            let ghost symbols_now = symbols@;
            let ghost parts_now = part_models(parts@);
            proof {
                assert(pieces(chars@, spans@)[y as int] == row@);
                assert(rows[y as int].len() == width);
            }
            scan_row(&row, line, y as i32, &mut symbols, &mut parts);
            proof {
                assert(symbols@ + grid_symbols(rows, y + 1) =~= symbols_now + grid_symbols(
                    rows,
                    y as int,
                ));
                assert(part_models(parts@) + grid_parts(rows, y + 1) =~= parts_now + grid_parts(
                    rows,
                    y as int,
                ));
            }
            y += 1;
        }
        proof {
            assert(symbols@ + grid_symbols(rows, y as int) =~= symbols@);
            assert(part_models(parts@) + grid_parts(rows, y as int) =~= part_models(parts@));
            assert(rows[0].len() == width);
        }
        Some(
            Schematic {
                rect: Rect {
                    tl: Point { x: 0, y: 0 },
                    br: Point { x: width as i32, y: height as i32 },
                },
                symbols,
                parts,
            },
        )
    }

    /// Reads the grid that `input` holds.
    pub fn from_input_string(input: String) -> (schematic: Schematic)
        requires
            grid_of(input@) is Some,
        ensures
            schematic@ == schematic_of(grid_of(input@).unwrap()),
            schematic@.depicts(grid_of(input@).unwrap()),
            schematic@.well_formed(),
    {
        Schematic::try_from_input_string(input).unwrap()
    }
}

/// Whether the symbol lies in the part's box or in the ring of cells
/// around it.
pub open spec fn touches(p: PartModel, s: Symbol) -> bool {
    p.rect.expanded().contains(s.point)
}

/// For each symbol of `symbols`, 1 where the part touches it and 0 where
/// not.
pub open spec fn touch_flags(p: PartModel, symbols: Seq<Symbol>) -> Seq<nat> {
    symbols.map_values(
        |s: Symbol|
            if touches(p, s) {
                1nat
            } else {
                0nat
            },
    )
}

/// How many symbols of `symbols` the part touches.
pub open spec fn touch_count(p: PartModel, symbols: Seq<Symbol>) -> nat {
    total(touch_flags(p, symbols))
}

/// What the part adds to the sum of part numbers: its number once for each
/// symbol that it touches. A part that touches a symbol has to hold a
/// number that fits in `u32`.
pub open spec fn part_share(p: PartModel, symbols: Seq<Symbol>) -> Option<nat> {
    if touch_count(p, symbols) == 0 {
        Some(0)
    } else {
        match unsigned(p.string) {
            Some(v) => Some(touch_count(p, symbols) * v as nat),
            None => None,
        }
    }
}

/// The cell of the symbol and the ring of cells around it.
pub open spec fn halo_of(s: Symbol) -> Rect {
    Rect { tl: s.point, br: s.point }.expanded()
}

/// The parts of `parts` whose box overlaps `halo`, in order.
pub open spec fn adjacent(parts: Seq<PartModel>, halo: Rect) -> Seq<PartModel>
    decreases parts.len(),
{
    if parts.len() == 0 {
        Seq::empty()
    } else {
        let rest = adjacent(parts.drop_last(), halo);
        if halo.overlaps(parts.last().rect) {
            rest.push(parts.last())
        } else {
            rest
        }
    }
}

/// What the symbol adds to the sum of gear ratios: where it is a `*` with
/// exactly two parts next to it, the product of their numbers, which have
/// to fit in `u32` each; else nothing.
pub open spec fn gear_share(s: Symbol, parts: Seq<PartModel>) -> Option<nat> {
    let near = adjacent(parts, halo_of(s));
    if s.char != '*' || near.len() != 2 {
        Some(0)
    } else {
        match (unsigned(near[0].string), unsigned(near[1].string)) {
            (Some(a), Some(b)) => Some(a as nat * b as nat),
            _ => None,
        }
    }
}

/// A `*` next to exactly two parts adds the product of their numbers; a
/// `*` next to fewer or more parts, and any other symbol, adds nothing.
pub proof fn lemma_gear_share(s: Symbol, parts: Seq<PartModel>)
    ensures
        s.char != '*' ==> gear_share(s, parts) == Some(0nat),
        adjacent(parts, halo_of(s)).len() != 2 ==> gear_share(s, parts) == Some(0nat),
        s.char == '*' && adjacent(parts, halo_of(s)).len() == 2 ==> gear_share(s, parts) == match (
            unsigned(adjacent(parts, halo_of(s))[0].string),
            unsigned(adjacent(parts, halo_of(s))[1].string),
        ) {
            (Some(a), Some(b)) => Some(a as nat * b as nat),
            _ => None,
        },
{
}

impl SchematicModel {
    /// What each part adds to the sum of part numbers.
    pub open spec fn part_shares(&self) -> Seq<Option<nat>> {
        self.parts.map_values(|p: PartModel| part_share(p, self.symbols))
    }

    /// What each symbol adds to the sum of gear ratios.
    pub open spec fn gear_shares(&self) -> Seq<Option<nat>> {
        self.symbols.map_values(|s: Symbol| gear_share(s, self.parts))
    }

    /// The sum of the numbers of the parts, each counted once for every
    /// symbol it touches, where it fits in `u32`.
    pub open spec fn part_sum(&self) -> Option<u32> {
        sum_of(self.part_shares())
    }

    /// The sum of the gear ratios, where it fits in `u32`.
    pub open spec fn gear_sum(&self) -> Option<u32> {
        sum_of(self.gear_shares())
    }
}

/// The sum of part numbers of the grid that `input` holds.
pub open spec fn part1_answer(input: Seq<char>) -> Option<u32> {
    match grid_of(input) {
        None => None,
        Some(rows) => schematic_of(rows).part_sum(),
    }
}

/// The sum of gear ratios of the grid that `input` holds.
pub open spec fn part2_answer(input: Seq<char>) -> Option<u32> {
    match grid_of(input) {
        None => None,
        Some(rows) => schematic_of(rows).gear_sum(),
    }
}

impl Part {
    /// The number that the part's digits write, where it fits in `u32`.
    pub fn number(&self) -> (r: Option<u32>)
        ensures
            r == unsigned(self@.string),
    {
        let digits = chars_of(self.string.as_str());
        parse_unsigned(&digits)
    }
}

impl Schematic {
    /// How many symbols the part at index `i` touches.
    fn count_touched(&self, i: usize) -> (count: usize)
        requires
            self@.well_formed(),
            i < self.parts.len(),
        ensures
            count == touch_count(self@.parts[i as int], self@.symbols),
    {
        let ghost p = self@.parts[i as int];
        let ghost flags = touch_flags(p, self@.symbols);
        assert(p == self.parts@[i as int]@);
        let search = self.parts[i].rect.expand();
        let mut count: usize = 0;
        let mut j: usize = 0;
        while j < self.symbols.len()
            invariant
                j <= self.symbols.len(),
                p == self@.parts[i as int],
                flags == touch_flags(p, self@.symbols),
                search == p.rect.expanded(),
                count == total(flags.take(j as int)),
                count <= j,
            decreases self.symbols.len() - j,
        {
            proof {
                lemma_total_step(flags, j as int);
            }
            if search.contains_point(&self.symbols[j].point) {
                count += 1;
            }
            j += 1;
        }
        proof {
            assert(flags.take(self.symbols.len() as int) =~= flags);
        }
        count
    }

    /// The sum of the numbers of the parts, each counted once for every
    /// symbol that lies in its box or in the ring around it; none where
    /// such a part's number, or the sum, is beyond `u32`.
    pub fn part_number_sum(&self) -> (r: Option<u32>)
        requires
            self@.well_formed(),
        ensures
            r == self@.part_sum(),
    {
        let ghost values = self@.part_shares();
        let ghost numbers = values.map_values(|v: Option<nat>| v.unwrap());
        let mut sum: u32 = 0;
        let mut i: usize = 0;
        while i < self.parts.len()
            invariant
                i <= self.parts.len(),
                self@.well_formed(),
                values == self@.part_shares(),
                numbers == values.map_values(|v: Option<nat>| v.unwrap()),
                forall|j: int| 0 <= j < i ==> (#[trigger] values[j]) is Some,
                sum == total(numbers.take(i as int)),
            decreases self.parts.len() - i,
        {
            proof {
                lemma_total_step(numbers, i as int);
                lemma_total_prefix(numbers, i + 1);
                assert(self@.parts[i as int] == self.parts@[i as int]@);
            }
            let count = self.count_touched(i);
            if count > 0 {
                let value = match self.parts[i].number() {
                    Some(value) => value,
                    None => {
                        assert(values[i as int] is None);
                        return None;
                    },
                };
                assert(count * value <= 0xffff_ffff_ffff_ffff * 0xffff_ffff) by (nonlinear_arith)
                    requires
                        count <= 0xffff_ffff_ffff_ffff,
                        value <= 0xffff_ffff,
                ;
                let wide: u128 = sum as u128 + count as u128 * value as u128;
                if wide > u32::MAX as u128 {
                    return None;
                }
                sum = wide as u32;
            }
            i += 1;
        }
        proof {
            assert(numbers.take(self.parts.len() as int) =~= numbers);
        }
        Some(sum)
    }

    /// The indices of the parts whose box overlaps `halo`, in order.
    fn near(&self, halo: &Rect) -> (r: Vec<usize>)
        ensures
            r.len() == adjacent(self@.parts, *halo).len(),
            forall|k: int|
                0 <= k < r.len() ==> (#[trigger] r@[k]) < self.parts.len() && self.parts@[r@[k] as int]@
                    == adjacent(self@.parts, *halo)[k],
    {
        let ghost parts = self@.parts;
        let mut r: Vec<usize> = Vec::new();
        let mut j: usize = 0;
        while j < self.parts.len()
            invariant
                j <= self.parts.len(),
                parts == self@.parts,
                r.len() == adjacent(parts.take(j as int), *halo).len(),
                forall|k: int|
                    0 <= k < r.len() ==> (#[trigger] r@[k]) < j && self.parts@[r@[k] as int]@
                        == adjacent(parts.take(j as int), *halo)[k],
            decreases self.parts.len() - j,
        {
            proof {
                assert(parts.take(j + 1).drop_last() =~= parts.take(j as int));
                assert(parts.take(j + 1).last() == self.parts@[j as int]@);
            }
            if halo.overlaps_rect(&self.parts[j].rect) {
                r.push(j);
            }
            j += 1;
        }
        proof {
            assert(parts.take(self.parts.len() as int) =~= parts);
        }
        r
    }

    /// The gear ratio of the symbol at index `i`; none where it has one
    /// and a number in it is beyond `u32`.
    fn gear_ratio(&self, i: usize) -> (r: Option<u64>)
        requires
            self@.well_formed(),
            i < self.symbols.len(),
        ensures
            match r {
                Some(n) => gear_share(self@.symbols[i as int], self@.parts) == Some(n as nat),
                None => gear_share(self@.symbols[i as int], self@.parts) is None,
            },
    {
        let symbol = self.symbols[i];
        if symbol.char != '*' {
            return Some(0);
        }
        let halo = Rect { tl: symbol.point, br: symbol.point }.expand();
        let near = self.near(&halo);
        if near.len() != 2 {
            return Some(0);
        }
        match (self.parts[near[0]].number(), self.parts[near[1]].number()) {
            (Some(a), Some(b)) => {
                assert(a * b <= 0xffff_ffff * 0xffff_ffff) by (nonlinear_arith)
                    requires
                        a <= 0xffff_ffff,
                        b <= 0xffff_ffff,
                ;
                Some(a as u64 * b as u64)
            },
            _ => None,
        }
    }

    /// The sum of the gear ratios: for each `*` whose cell or the ring
    /// around it is overlapped by exactly two parts, the product of their
    /// numbers; none where such a number, or the sum, is beyond `u32`.
    pub fn gear_ratio_sum(&self) -> (r: Option<u32>)
        requires
            self@.well_formed(),
        ensures
            r == self@.gear_sum(),
    {
        let ghost values = self@.gear_shares();
        let ghost numbers = values.map_values(|v: Option<nat>| v.unwrap());
        let mut sum: u32 = 0;
        let mut i: usize = 0;
        while i < self.symbols.len()
            invariant
                i <= self.symbols.len(),
                self@.well_formed(),
                values == self@.gear_shares(),
                numbers == values.map_values(|v: Option<nat>| v.unwrap()),
                forall|j: int| 0 <= j < i ==> (#[trigger] values[j]) is Some,
                sum == total(numbers.take(i as int)),
            decreases self.symbols.len() - i,
        {
            proof {
                lemma_total_step(numbers, i as int);
                lemma_total_prefix(numbers, i + 1);
            }
            let wide: u128 = match self.gear_ratio(i) {
                Some(ratio) => sum as u128 + ratio as u128,
                None => {
                    assert(values[i as int] is None);
                    return None;
                },
            };
            if wide > u32::MAX as u128 {
                return None;
            }
            sum = wide as u32;
            i += 1;
        }
        proof {
            assert(numbers.take(self.symbols.len() as int) =~= numbers);
        }
        Some(sum)
    }
}

/// The sum of part numbers of the grid that `input` holds; none where it
/// holds no grid or the sum cannot be had in `u32`.
pub fn try_part1(input: String) -> (r: Option<u32>)
    ensures
        r == part1_answer(input@),
{
    match Schematic::try_from_input_string(input) {
        None => None,
        Some(schematic) => schematic.part_number_sum(),
    }
}

/// The sum of part numbers of the grid that `input` holds.
pub fn part1(input: String) -> (sum: u32)
    requires
        part1_answer(input@) is Some,
    ensures
        part1_answer(input@) == Some(sum),
{
    try_part1(input).unwrap()
}

/// The sum of gear ratios of the grid that `input` holds; none where it
/// holds no grid or the sum cannot be had in `u32`.
pub fn try_part2(input: String) -> (r: Option<u32>)
    ensures
        r == part2_answer(input@),
{
    match Schematic::try_from_input_string(input) {
        None => None,
        Some(schematic) => schematic.gear_ratio_sum(),
    }
}

/// The sum of gear ratios of the grid that `input` holds.
pub fn part2(input: String) -> (sum: u32)
    requires
        part2_answer(input@) is Some,
    ensures
        part2_answer(input@) == Some(sum),
{
    try_part2(input).unwrap()
}

} // verus!
