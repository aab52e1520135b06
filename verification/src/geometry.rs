use vstd::prelude::*;

verus! {

/// A grid coordinate: `x` is the column, `y` the row.
#[derive(Debug, Clone, Copy, PartialEq, Eq, Structural)]
pub struct Point {
    pub x: i32,
    pub y: i32,
}

/// An axis-aligned box given by its top-left and bottom-right corners, both
/// of which belong to the box.
#[derive(Debug, Clone, Copy, PartialEq, Eq, Structural)]
pub struct Rect {
    pub tl: Point,
    pub br: Point,
}

impl Rect {
    /// The corners are in order on both axes. Nothing enforces this on
    /// construction; the geometry below is defined for every `Rect`.
    pub open spec fn well_formed(&self) -> bool {
        self.tl.x <= self.br.x && self.tl.y <= self.br.y
    }

    /// Whether `p` lies within the box, bounds included.
    pub open spec fn contains(&self, p: Point) -> bool {
        self.tl.x <= p.x <= self.br.x && self.tl.y <= p.y <= self.br.y
    }

    /// Whether the two boxes share a cell: their intervals meet on both axes.
    pub open spec fn overlaps(&self, other: Rect) -> bool {
        self.tl.x <= other.br.x && self.tl.y <= other.br.y && self.br.x >= other.tl.x && self.br.y
            >= other.tl.y
    }

    /// Whether the box can grow by one cell on every side within `i32`.
    pub open spec fn expandable(&self) -> bool {
        i32::MIN < self.tl.x && i32::MIN < self.tl.y && self.br.x < i32::MAX && self.br.y
            < i32::MAX
    }

    /// The box grown by one cell on every side.
    pub open spec fn expanded(&self) -> Rect {
        Rect {
            tl: Point { x: (self.tl.x - 1) as i32, y: (self.tl.y - 1) as i32 },
            br: Point { x: (self.br.x + 1) as i32, y: (self.br.y + 1) as i32 },
        }
    }

    /// The box grown by one cell in all four directions.
    pub fn expand(&self) -> (r: Rect)
        requires
            self.expandable(),
        ensures
            r == self.expanded(),
            r.tl.x == self.tl.x - 1,
            r.tl.y == self.tl.y - 1,
            r.br.x == self.br.x + 1,
            r.br.y == self.br.y + 1,
    {
        Rect {
            tl: Point { x: self.tl.x - 1, y: self.tl.y - 1 },
            br: Point { x: self.br.x + 1, y: self.br.y + 1 },
        }
    }

    /// The part of this box that lies inside `mask`: the larger of the two
    /// top-left corners and the smaller of the two bottom-right corners, per
    /// axis. A point is in the result exactly when it is in both boxes.
    pub fn _masked(&self, mask: &Rect) -> (r: Rect)
        ensures
            r.tl.x == if self.tl.x >= mask.tl.x { self.tl.x } else { mask.tl.x },
            r.tl.y == if self.tl.y >= mask.tl.y { self.tl.y } else { mask.tl.y },
            r.br.x == if self.br.x <= mask.br.x { self.br.x } else { mask.br.x },
            r.br.y == if self.br.y <= mask.br.y { self.br.y } else { mask.br.y },
            forall|p: Point| r.contains(p) <==> self.contains(p) && mask.contains(p),
    {
        Rect {
            tl: Point {
                x: if self.tl.x >= mask.tl.x { self.tl.x } else { mask.tl.x },
                y: if self.tl.y >= mask.tl.y { self.tl.y } else { mask.tl.y },
            },
            br: Point {
                x: if self.br.x <= mask.br.x { self.br.x } else { mask.br.x },
                y: if self.br.y <= mask.br.y { self.br.y } else { mask.br.y },
            },
        }
    }

    /// Whether `point` lies within the box, bounds included.
    pub fn contains_point(&self, point: &Point) -> (b: bool)
        ensures
            b == self.contains(*point),
    {
        point.x >= self.tl.x && point.x <= self.br.x && point.y >= self.tl.y && point.y
            <= self.br.y
    }

    /// Whether the two boxes share at least one cell.
    pub fn overlaps_rect(&self, other: &Rect) -> (b: bool)
        ensures
            b == self.overlaps(*other),
    {
        self.tl.x <= other.br.x && self.tl.y <= other.br.y && self.br.x >= other.tl.x && self.br.y
            >= other.tl.y
    }

    /// A well-formed box contains both of its corners.
    pub proof fn lemma_contains_corners(r: Rect)
        requires
            r.well_formed(),
        ensures
            r.contains(r.tl),
            r.contains(r.br),
    {
    }

    /// Overlap does not depend on the order of the two boxes.
    pub proof fn lemma_overlaps_symmetric(a: Rect, b: Rect)
        ensures
            a.overlaps(b) == b.overlaps(a),
    {
    }

    /// Two well-formed boxes overlap exactly when some point lies in both.
    pub proof fn lemma_overlaps_iff_common_point(a: Rect, b: Rect)
        requires
            a.well_formed(),
            b.well_formed(),
        ensures
            a.overlaps(b) <==> exists|p: Point| a.contains(p) && b.contains(p),
    {
        if a.overlaps(b) {
            let p = Point {
                x: if a.tl.x >= b.tl.x { a.tl.x } else { b.tl.x },
                y: if a.tl.y >= b.tl.y { a.tl.y } else { b.tl.y },
            };
            assert(a.contains(p) && b.contains(p));
        }
    }

    /// Growing a box keeps every point it had and adds the ring of cells
    /// around it: a point is in the grown box exactly when it is at most one
    /// step, on each axis, outside the bounds of the box it grew from. For a
    /// well-formed box the growth is strict: the cell diagonally before the
    /// top-left corner is gained.
    pub proof fn lemma_expand_grows(r: Rect, p: Point)
        requires
            r.expandable(),
        ensures
            r.contains(p) ==> r.expanded().contains(p),
            r.expanded().contains(p) <==> (r.tl.x - 1 <= p.x <= r.br.x + 1 && r.tl.y - 1 <= p.y
                <= r.br.y + 1),
            r.well_formed() ==> r.expanded().well_formed(),
            r.well_formed() ==> r.expanded().contains(r.expanded().tl) && !r.contains(
                r.expanded().tl,
            ),
    {
    }
}

} // verus!
