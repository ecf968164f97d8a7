//! Axis-aligned rectangles in the normalized viewport coordinate space.
//!
//! Coordinates are fixed-point integers: the visible viewport spans
//! `[-COORD_LIMIT, COORD_LIMIT]` on both axes.  Both the overlap test and the
//! point-containment test use strict inequalities: regions that merely touch
//! along an edge do not intersect, and a point exactly on a region's boundary
//! is outside it.  Claim arbitration and hit testing both rely on this
//! convention so that adjacent claimed regions behave consistently at shared
//! edges.

use vstd::prelude::*;

verus! {

/// Half-width of the viewport in fixed-point coordinate units.
pub const COORD_LIMIT: i32 = 1_000_000;

/// An axis-aligned rectangle.  Callers are expected to keep `min < max` on
/// both axes; degenerate regions are tolerated but never produced by the
/// subtraction routines below.
#[derive(Clone, Copy, PartialEq, Eq, Structural, Debug)]
pub struct Region {
    pub min_x: i32,
    pub min_y: i32,
    pub max_x: i32,
    pub max_y: i32,
}

impl Region {
    /// True when the two open rectangles overlap in area.  Touching edges do
    /// not count as overlap.
    pub open spec fn intersects(self, other: Region) -> bool {
        self.min_x < other.max_x && self.min_y < other.max_y && other.min_x < self.max_x
            && other.min_y < self.max_y
    }

    /// True when `point` lies strictly inside the rectangle; boundary points
    /// are outside.
    pub open spec fn contains_point(self, point: (i32, i32)) -> bool {
        point.0 > self.min_x && point.0 < self.max_x && point.1 > self.min_y
            && point.1 < self.max_y
    }

    /// True when a known mouse position lies strictly inside the rectangle.
    /// An unknown position is never inside any region.
    pub open spec fn contains_opt(self, point: Option<(i32, i32)>) -> bool {
        match point {
            Some(p) => self.contains_point(p),
            None => false,
        }
    }

    /// True when the rectangle encloses no area.
    pub open spec fn is_empty(self) -> bool {
        self.min_x >= self.max_x || self.min_y >= self.max_y
    }

    /// True when `other` lies entirely within `self` (as closed rectangles).
    pub open spec fn encloses(self, other: Region) -> bool {
        self.min_x <= other.min_x && self.min_y <= other.min_y && other.max_x <= self.max_x
            && other.max_y <= self.max_y
    }

    pub fn new(min_x: i32, min_y: i32, max_x: i32, max_y: i32) -> (r: Region)
        ensures
            r == (Region { min_x, min_y, max_x, max_y }),
    {
        Region { min_x, min_y, max_x, max_y }
    }

    /// The region spanning the whole visible viewport.
    pub fn entire_viewport() -> (r: Region)
        ensures
            r.min_x == -COORD_LIMIT,
            r.min_y == -COORD_LIMIT,
            r.max_x == COORD_LIMIT,
            r.max_y == COORD_LIMIT,
    {
        Region {
            min_x: -COORD_LIMIT,
            min_y: -COORD_LIMIT,
            max_x: COORD_LIMIT,
            max_y: COORD_LIMIT,
        }
    }

    pub fn intersects_with(&self, other: &Region) -> (r: bool)
        ensures
            r == self.intersects(*other),
    {
        self.min_x < other.max_x && self.min_y < other.max_y && other.min_x < self.max_x
            && other.min_y < self.max_y
    }

    pub fn is_inside(&self, point: (i32, i32)) -> (r: bool)
        ensures
            r == self.contains_point(point),
    {
        point.0 > self.min_x && point.0 < self.max_x && point.1 > self.min_y
            && point.1 < self.max_y
    }

    /// Containment test against a possibly unknown mouse position.
    pub fn is_inside_opt(&self, point: Option<(i32, i32)>) -> (r: bool)
        ensures
            r == self.contains_opt(point),
    {
        match point {
            Some(p) => self.is_inside(p),
            None => false,
        }
    }
}

/// The rectangles left over when `cover` is cut out of `r`: the part of `r`
/// left of `cover`, the part right of it, and the parts below and above the
/// overlapping horizontal span.  Empty rectangles are dropped.  When the two
/// regions do not even intersect, `r` survives whole.
pub open spec fn spec_subtract(r: Region, c: Region) -> Seq<Region> {
    if !r.intersects(c) {
        seq![r]
    } else {
        let left = Region { min_x: r.min_x, min_y: r.min_y, max_x: c.min_x, max_y: r.max_y };
        let right = Region { min_x: c.max_x, min_y: r.min_y, max_x: r.max_x, max_y: r.max_y };
        let mid_lo = if c.min_x > r.min_x { c.min_x } else { r.min_x };
        let mid_hi = if c.max_x < r.max_x { c.max_x } else { r.max_x };
        let below = Region { min_x: mid_lo, min_y: r.min_y, max_x: mid_hi, max_y: c.min_y };
        let above = Region { min_x: mid_lo, min_y: c.max_y, max_x: mid_hi, max_y: r.max_y };
        (if !left.is_empty() { seq![left] } else { Seq::<Region>::empty() })
            + (if !right.is_empty() { seq![right] } else { Seq::<Region>::empty() })
            + (if !below.is_empty() { seq![below] } else { Seq::<Region>::empty() })
            + (if !above.is_empty() { seq![above] } else { Seq::<Region>::empty() })
    }
}

/// `spec_subtract` applied to every piece in order, results concatenated.
pub open spec fn spec_subtract_all(pieces: Seq<Region>, c: Region) -> Seq<Region>
    decreases pieces.len(),
{
    if pieces.len() == 0 {
        Seq::empty()
    } else {
        spec_subtract_all(pieces.drop_last(), c) + spec_subtract(pieces.last(), c)
    }
}

/// The rectangles of `pieces` that remain after cutting out every cover in
/// order.
pub open spec fn spec_uncovered(pieces: Seq<Region>, covers: Seq<Region>) -> Seq<Region>
    decreases covers.len(),
{
    if covers.len() == 0 {
        pieces
    } else {
        spec_uncovered(spec_subtract_all(pieces, covers.first()), covers.drop_first())
    }
}

impl Region {
    /// Cuts `cover` out of `self`, returning the surviving rectangles.
    pub fn subtract(&self, cover: &Region) -> (pieces: Vec<Region>)
        ensures
            pieces@ == spec_subtract(*self, *cover),
    {
        let mut pieces: Vec<Region> = Vec::new();
        if !self.intersects_with(cover) {
            pieces.push(*self);
            assert(pieces@ =~= spec_subtract(*self, *cover));
            return pieces;
        }
        let left = Region {
            min_x: self.min_x,
            min_y: self.min_y,
            max_x: cover.min_x,
            max_y: self.max_y,
        };
        let right = Region {
            min_x: cover.max_x,
            min_y: self.min_y,
            max_x: self.max_x,
            max_y: self.max_y,
        };
        let mid_lo = if cover.min_x > self.min_x {
            cover.min_x
        } else {
            self.min_x
        };
        let mid_hi = if cover.max_x < self.max_x {
            cover.max_x
        } else {
            self.max_x
        };
        let below = Region { min_x: mid_lo, min_y: self.min_y, max_x: mid_hi, max_y: cover.min_y };
        let above = Region { min_x: mid_lo, min_y: cover.max_y, max_x: mid_hi, max_y: self.max_y };
        if !(left.min_x >= left.max_x || left.min_y >= left.max_y) {
            pieces.push(left);
        }
        if !(right.min_x >= right.max_x || right.min_y >= right.max_y) {
            pieces.push(right);
        }
        if !(below.min_x >= below.max_x || below.min_y >= below.max_y) {
            pieces.push(below);
        }
        if !(above.min_x >= above.max_x || above.min_y >= above.max_y) {
            pieces.push(above);
        }
        assert(pieces@ =~= spec_subtract(*self, *cover));
        pieces
    }

    /// The parts of `self` that none of the `covers` hides.  The render
    /// manager uses emptiness of this list to decide whether a forced region
    /// is fully hidden behind solid claims.
    pub fn get_uncovered_regions(&self, covers: &Vec<Region>) -> (uncovered: Vec<Region>)
        ensures
            uncovered@ == spec_uncovered(seq![*self], covers@),
    {
        let mut pieces: Vec<Region> = Vec::new();
        pieces.push(*self);
        assert(pieces@ =~= seq![*self]);
        proof {
            assert(covers@.skip(0) =~= covers@);
        }
        let mut j: usize = 0;
        while j < covers.len()
            invariant
                j <= covers.len(),
                spec_uncovered(seq![*self], covers@) == spec_uncovered(
                    pieces@,
                    covers@.skip(j as int),
                ),
            decreases covers.len() - j,
        {
            let cover = covers[j];
            let mut next: Vec<Region> = Vec::new();
            let mut i: usize = 0;
            while i < pieces.len()
                invariant
                    i <= pieces.len(),
                    next@ == spec_subtract_all(pieces@.take(i as int), cover),
                decreases pieces.len() - i,
            {
                let mut cut = pieces[i].subtract(&cover);
                next.append(&mut cut);
                assert(pieces@.take(i + 1 as int).drop_last() =~= pieces@.take(i as int));
                assert(pieces@.take(i + 1 as int).last() == pieces@[i as int]);
                i = i + 1;
            }
            assert(pieces@.take(pieces@.len() as int) =~= pieces@);
            proof {
                let rest = covers@.skip(j as int);
                assert(rest.first() == covers@[j as int]);
                assert(rest.drop_first() =~= covers@.skip(j + 1 as int));
            }
            pieces = next;
            j = j + 1;
        }
        proof {
            assert(covers@.skip(covers@.len() as int) =~= Seq::<Region>::empty());
        }
        pieces
    }
}

/// Region strictness, one half: two regions that share an edge (the right
/// edge of one is the left edge of the other) touch but do not intersect.
pub proof fn lemma_touching_regions_do_not_intersect(a: Region, b: Region)
    requires
        a.max_x == b.min_x || b.max_x == a.min_x || a.max_y == b.min_y || b.max_y == a.min_y,
    ensures
        !a.intersects(b),
        !b.intersects(a),
{
}

/// Region strictness, other half: a point exactly on any edge of a region is
/// outside it.
pub proof fn lemma_boundary_point_is_outside(r: Region, p: (i32, i32))
    requires
        p.0 == r.min_x || p.0 == r.max_x || p.1 == r.min_y || p.1 == r.max_y,
    ensures
        !r.contains_point(p),
{
}

} // verus!
