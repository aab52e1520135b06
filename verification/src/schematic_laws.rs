use crate::day3::{
    before, cell, grid_of, grid_parts, grid_symbols, in_grid, is_grid, is_mark, part_at, row_parts,
    row_symbols, run_len, schematic_of, symbol_at,
};
use crate::geometry::Point;
use crate::text::is_digit;
use vstd::prelude::*;

verus! {

/// Whether column `x` of `row` does not cut a run of digits in two.
pub open spec fn at_boundary(row: Seq<char>, x: int) -> bool {
    !(0 < x < row.len() && is_digit(row[x - 1]) && is_digit(row[x]))
}

/// A run of digits stays within its row and holds digits only; it ends at
/// the end of the row or before a character that is no digit.
pub proof fn lemma_run_len(row: Seq<char>, x: int)
    requires
        0 <= x <= row.len(),
    ensures
        0 <= run_len(row, x) <= row.len() - x,
        forall|k: int| x <= k < x + run_len(row, x) ==> is_digit(#[trigger] row[k]),
        x + run_len(row, x) == row.len() || !is_digit(row[x + run_len(row, x)]),
    decreases row.len() - x,
{
    if x < row.len() && is_digit(row[x]) {
        lemma_run_len(row, x + 1);
    }
}

/// The parts of a row from a column on that cuts no run: each is a run of
/// digits that neither side can extend, they come from left to right, and
/// every digit from that column on belongs to one.
pub proof fn lemma_row_parts(row: Seq<char>, y: int, x: int)
    requires
        0 <= x <= row.len() <= i32::MAX,
        0 <= y <= i32::MAX,
        at_boundary(row, x),
    ensures
        forall|i: int|
            0 <= i < row_parts(row, y, x).len() ==> (#[trigger] row_parts(row, y, x)[i]).is_run_of(
                row,
                y,
            ) && x <= row_parts(row, y, x)[i].rect.tl.x,
        forall|i: int, j: int|
            0 <= i < j < row_parts(row, y, x).len() ==> (#[trigger] row_parts(
                row,
                y,
                x,
            )[i]).rect.br.x < (#[trigger] row_parts(row, y, x)[j]).rect.tl.x,
        forall|k: int|
            x <= k < row.len() && is_digit(#[trigger] row[k]) ==> exists|i: int|
                0 <= i < row_parts(row, y, x).len() && (#[trigger] row_parts(row, y, x)[i]).covers(
                    k,
                ),
    decreases row.len() - x,
{
    let all = row_parts(row, y, x);
    if x >= row.len() {
        assert(all.len() == 0);
    } else if is_digit(row[x]) {
        let n = run_len(row, x);
        lemma_run_len(row, x);
        lemma_row_parts(row, y, x + n);
        let first = part_at(row, x, y, n);
        let rest = row_parts(row, y, x + n);
        assert(all == seq![first] + rest);
        assert(first.is_run_of(row, y));
        assert forall|i: int| 0 <= i < all.len() implies (#[trigger] all[i]).is_run_of(row, y) && x
            <= all[i].rect.tl.x by {
            if i == 0 {
                assert(all[i] == first);
            } else {
                assert(all[i] == rest[i - 1]);
            }
        }
        assert forall|i: int, j: int| 0 <= i < j < all.len() implies (#[trigger] all[i]).rect.br.x
            < (#[trigger] all[j]).rect.tl.x by {
            assert(all[j] == rest[j - 1]);
            if i == 0 {
                assert(all[i] == first);
            } else {
                assert(all[i] == rest[i - 1]);
            }
        }
        assert forall|k: int| x <= k < row.len() && is_digit(#[trigger] row[k]) implies exists|
            i: int,
        |
            0 <= i < all.len() && (#[trigger] all[i]).covers(k) by {
            if k < x + n {
                assert(all[0] == first);
                assert(all[0].covers(k));
            } else {
                let i = choose|i: int| 0 <= i < rest.len() && (#[trigger] rest[i]).covers(k);
                assert(all[i + 1] == rest[i]);
                assert(all[i + 1].covers(k));
            }
        }
    } else {
        lemma_row_parts(row, y, x + 1);
        assert(all == row_parts(row, y, x + 1));
    }
}

/// The symbols of a row from a column on: each stands where the row holds
/// its character, which is neither a digit nor a period; they come from
/// left to right, and every such cell from that column on is one.
pub proof fn lemma_row_symbols(row: Seq<char>, y: int, x: int)
    requires
        0 <= x <= row.len() <= i32::MAX,
        0 <= y <= i32::MAX,
    ensures
        forall|i: int|
            0 <= i < row_symbols(row, y, x).len() ==> (#[trigger] row_symbols(
                row,
                y,
                x,
            )[i]).is_mark_of(row, y) && x <= row_symbols(row, y, x)[i].point.x,
        forall|i: int, j: int|
            0 <= i < j < row_symbols(row, y, x).len() ==> (#[trigger] row_symbols(
                row,
                y,
                x,
            )[i]).point.x < (#[trigger] row_symbols(row, y, x)[j]).point.x,
        forall|k: int|
            x <= k < row.len() && is_mark(#[trigger] row[k]) ==> exists|i: int|
                0 <= i < row_symbols(row, y, x).len() && (#[trigger] row_symbols(
                    row,
                    y,
                    x,
                )[i]).point.x == k,
    decreases row.len() - x,
{
    let all = row_symbols(row, y, x);
    if x >= row.len() {
        assert(all.len() == 0);
    } else if is_mark(row[x]) {
        lemma_row_symbols(row, y, x + 1);
        let first = symbol_at(row, x, y);
        let rest = row_symbols(row, y, x + 1);
        assert(all == seq![first] + rest);
        assert forall|i: int| 0 <= i < all.len() implies (#[trigger] all[i]).is_mark_of(row, y)
            && x <= all[i].point.x by {
            if i == 0 {
                assert(all[i] == first);
            } else {
                assert(all[i] == rest[i - 1]);
            }
        }
        assert forall|i: int, j: int| 0 <= i < j < all.len() implies (#[trigger] all[i]).point.x
            < (#[trigger] all[j]).point.x by {
            assert(all[j] == rest[j - 1]);
            if i == 0 {
                assert(all[i] == first);
            } else {
                assert(all[i] == rest[i - 1]);
            }
        }
        assert forall|k: int| x <= k < row.len() && is_mark(#[trigger] row[k]) implies exists|
            i: int,
        |
            0 <= i < all.len() && (#[trigger] all[i]).point.x == k by {
            if k == x {
                assert(all[0] == first);
            } else {
                let i = choose|i: int| 0 <= i < rest.len() && (#[trigger] rest[i]).point.x == k;
                assert(all[i + 1] == rest[i]);
            }
        }
    } else {
        lemma_row_symbols(row, y, x + 1);
        assert(all == row_symbols(row, y, x + 1));
    }
}

/// The parts of the rows of a grid from row `y` on: each is a run of digits
/// of its row that neither side can extend, they come in reading order, and
/// every digit of those rows belongs to one.
pub proof fn lemma_grid_parts(rows: Seq<Seq<char>>, width: int, y: int)
    requires
        is_grid(rows, width),
        0 <= y,
    ensures
        forall|i: int|
            0 <= i < grid_parts(rows, y).len() ==> y <= (#[trigger] grid_parts(
                rows,
                y,
            )[i]).rect.tl.y < rows.len() && grid_parts(rows, y)[i].is_run_of(
                rows[grid_parts(rows, y)[i].rect.tl.y as int],
                grid_parts(rows, y)[i].rect.tl.y as int,
            ),
        forall|i: int, j: int|
            0 <= i < j < grid_parts(rows, y).len() ==> before(
                (#[trigger] grid_parts(rows, y)[i]).rect.br,
                (#[trigger] grid_parts(rows, y)[j]).rect.tl,
            ),
        forall|p: Point|
            in_grid(rows, p) && y <= p.y && is_digit(#[trigger] cell(rows, p)) ==> exists|i: int|
                0 <= i < grid_parts(rows, y).len() && (#[trigger] grid_parts(
                    rows,
                    y,
                )[i]).rect.contains(p),
    decreases rows.len() - y,
{
    let all = grid_parts(rows, y);
    if y >= rows.len() {
        assert(all.len() == 0);
    } else {
        let row = rows[y];
        let here = row_parts(row, y, 0);
        let below = grid_parts(rows, y + 1);
        lemma_row_parts(row, y, 0);
        lemma_grid_parts(rows, width, y + 1);
        assert(all == here + below);
        assert forall|i: int| 0 <= i < all.len() implies y <= (#[trigger] all[i]).rect.tl.y
            < rows.len() && all[i].is_run_of(
            rows[all[i].rect.tl.y as int],
            all[i].rect.tl.y as int,
        ) by {
            if i < here.len() {
                assert(all[i] == here[i]);
            } else {
                assert(all[i] == below[i - here.len()]);
            }
        }
        assert forall|i: int, j: int| 0 <= i < j < all.len() implies before(
            (#[trigger] all[i]).rect.br,
            (#[trigger] all[j]).rect.tl,
        ) by {
            if i < here.len() {
                assert(all[i] == here[i]);
            } else {
                assert(all[i] == below[i - here.len()]);
            }
            if j < here.len() {
                assert(all[j] == here[j]);
            } else {
                assert(all[j] == below[j - here.len()]);
            }
        }
        assert forall|p: Point|
            in_grid(rows, p) && y <= p.y && is_digit(#[trigger] cell(rows, p)) implies exists|
            i: int,
        |
            0 <= i < all.len() && (#[trigger] all[i]).rect.contains(p) by {
            if p.y == y {
                assert(is_digit(row[p.x as int]));
                let i = choose|i: int| 0 <= i < here.len() && (#[trigger] here[i]).covers(p.x as int);
                assert(all[i] == here[i]);
                assert(all[i].rect.contains(p));
            } else {
                let i = choose|i: int| 0 <= i < below.len() && (#[trigger] below[i]).rect.contains(p);
                assert(all[i + here.len()] == below[i]);
                assert(all[i + here.len()].rect.contains(p));
            }
        }
    }
}

/// The symbols of the rows of a grid from row `y` on: each stands where
/// the grid holds its character, which is neither a digit nor a period;
/// they come in reading order, and every such cell of those rows is one.
pub proof fn lemma_grid_symbols(rows: Seq<Seq<char>>, width: int, y: int)
    requires
        is_grid(rows, width),
        0 <= y,
    ensures
        forall|i: int|
            0 <= i < grid_symbols(rows, y).len() ==> y <= (#[trigger] grid_symbols(
                rows,
                y,
            )[i]).point.y < rows.len() && grid_symbols(rows, y)[i].is_mark_of(
                rows[grid_symbols(rows, y)[i].point.y as int],
                grid_symbols(rows, y)[i].point.y as int,
            ),
        forall|i: int, j: int|
            0 <= i < j < grid_symbols(rows, y).len() ==> before(
                (#[trigger] grid_symbols(rows, y)[i]).point,
                (#[trigger] grid_symbols(rows, y)[j]).point,
            ),
        forall|p: Point|
            in_grid(rows, p) && y <= p.y && is_mark(#[trigger] cell(rows, p)) ==> exists|i: int|
                0 <= i < grid_symbols(rows, y).len() && (#[trigger] grid_symbols(rows, y)[i]).point
                    == p,
    decreases rows.len() - y,
{
    let all = grid_symbols(rows, y);
    if y >= rows.len() {
        assert(all.len() == 0);
    } else {
        let row = rows[y];
        let here = row_symbols(row, y, 0);
        let below = grid_symbols(rows, y + 1);
        lemma_row_symbols(row, y, 0);
        lemma_grid_symbols(rows, width, y + 1);
        assert(all == here + below);
        assert forall|i: int| 0 <= i < all.len() implies y <= (#[trigger] all[i]).point.y
            < rows.len() && all[i].is_mark_of(rows[all[i].point.y as int], all[i].point.y as int) by {
            if i < here.len() {
                assert(all[i] == here[i]);
            } else {
                assert(all[i] == below[i - here.len()]);
            }
        }
        assert forall|i: int, j: int| 0 <= i < j < all.len() implies before(
            (#[trigger] all[i]).point,
            (#[trigger] all[j]).point,
        ) by {
            if i < here.len() {
                assert(all[i] == here[i]);
            } else {
                assert(all[i] == below[i - here.len()]);
            }
            if j < here.len() {
                assert(all[j] == here[j]);
            } else {
                assert(all[j] == below[j - here.len()]);
            }
        }
        assert forall|p: Point|
            in_grid(rows, p) && y <= p.y && is_mark(#[trigger] cell(rows, p)) implies exists|
            i: int,
        |
            0 <= i < all.len() && (#[trigger] all[i]).point == p by {
            if p.y == y {
                assert(is_mark(row[p.x as int]));
                let i = choose|i: int| 0 <= i < here.len() && (#[trigger] here[i]).point.x == p.x;
                assert(all[i] == here[i]);
                assert(all[i].point == p);
            } else {
                let i = choose|i: int| 0 <= i < below.len() && (#[trigger] below[i]).point == p;
                assert(all[i + here.len()] == below[i]);
            }
        }
    }
}

/// The schematic of a grid shows that grid and nothing else.
pub proof fn lemma_schematic_depicts(input: Seq<char>)
    requires
        grid_of(input) is Some,
    ensures
        schematic_of(grid_of(input).unwrap()).depicts(grid_of(input).unwrap()),
{
    let rows = grid_of(input).unwrap();
    let shown = schematic_of(rows);
    lemma_grid_parts(rows, rows[0].len() as int, 0);
    lemma_grid_symbols(rows, rows[0].len() as int, 0);
    assert forall|p: Point| in_grid(rows, p) && is_digit(#[trigger] cell(rows, p)) implies exists|
        i: int,
    |
        0 <= i < shown.parts.len() && (#[trigger] shown.parts[i]).rect.contains(p) by {
        let i = choose|i: int|
            0 <= i < grid_parts(rows, 0).len() && (#[trigger] grid_parts(rows, 0)[i]).rect.contains(
                p,
            );
        assert(shown.parts[i].rect.contains(p));
    }
    assert forall|p: Point| in_grid(rows, p) && is_mark(#[trigger] cell(rows, p)) implies exists|
        i: int,
    |
        0 <= i < shown.symbols.len() && (#[trigger] shown.symbols[i]).point == p by {
        let i = choose|i: int|
            0 <= i < grid_symbols(rows, 0).len() && (#[trigger] grid_symbols(rows, 0)[i]).point
                == p;
        assert(shown.symbols[i].point == p);
    }
}

/// The schematic of a grid is well formed.
pub proof fn lemma_schematic_well_formed(input: Seq<char>)
    requires
        grid_of(input) is Some,
    ensures
        schematic_of(grid_of(input).unwrap()).well_formed(),
{
    let rows = grid_of(input).unwrap();
    let shown = schematic_of(rows);
    lemma_schematic_depicts(input);
    assert forall|i: int| 0 <= i < shown.parts.len() implies (#[trigger] shown.parts[i]).lies_in(
        shown.rect.br.x as int,
        shown.rect.br.y as int,
    ) by {
        let p = shown.parts[i];
        let row = rows[p.rect.tl.y as int];
        assert(p.is_run_of(row, p.rect.tl.y as int));
        assert(row.len() == rows[0].len());
        assert forall|k: int| 0 <= k < p.string.len() implies is_digit(#[trigger] p.string[k]) by {
            assert(p.string[k] == row[p.rect.tl.x + k]);
        }
    }
    assert forall|i: int| 0 <= i < shown.symbols.len() implies 0 <= (
    #[trigger] shown.symbols[i]).point.x < shown.rect.br.x && 0 <= shown.symbols[i].point.y
        < shown.rect.br.y by {
        let m = shown.symbols[i];
        assert(m.is_mark_of(rows[m.point.y as int], m.point.y as int));
        assert(rows[m.point.y as int].len() == rows[0].len());
    }
}

} // verus!
