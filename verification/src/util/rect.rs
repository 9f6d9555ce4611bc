//! The mathematical model of viewport rectangles.
//!
//! A [`Rect`] is a rectangle over the unbounded integer plane with inclusive
//! bounds. Everything the executable region type promises is stated over this
//! model.

use vstd::prelude::*;

verus! {

/// An axis-aligned rectangle with inclusive integer bounds.
///
/// The rectangle holds every point `(x, y)` with `min_x <= x <= max_x` and
/// `min_y <= y <= max_y`. When a lower bound exceeds its upper bound the
/// rectangle holds no point at all.
pub struct Rect {
    pub min_x: int,
    pub min_y: int,
    pub max_x: int,
    pub max_y: int,
}

impl Rect {
    /// Both extents are at least one: the rectangle holds a point.
    pub open spec fn is_valid(self) -> bool {
        self.min_x <= self.max_x && self.min_y <= self.max_y
    }

    /// The point `p` lies inside the rectangle or on its border.
    pub open spec fn contains(self, p: (int, int)) -> bool {
        self.min_x <= p.0 <= self.max_x && self.min_y <= p.1 <= self.max_y
    }

    /// Number of columns, counting both border columns.
    pub open spec fn width(self) -> int {
        self.max_x - self.min_x + 1
    }

    /// Number of rows, counting both border rows.
    pub open spec fn height(self) -> int {
        self.max_y - self.min_y + 1
    }

    /// The bound test for two rectangles that share a point. Touching
    /// borders count.
    pub open spec fn intersects(self, other: Rect) -> bool {
        &&& self.min_x <= other.max_x
        &&& self.min_y <= other.max_y
        &&& other.min_x <= self.max_x
        &&& other.min_y <= self.max_y
    }

    /// The bound test for a rectangle that lies within `cover`.
    pub open spec fn covered_by(self, cover: Rect) -> bool {
        &&& self.min_x >= cover.min_x
        &&& self.min_y >= cover.min_y
        &&& self.max_x <= cover.max_x
        &&& self.max_y <= cover.max_y
    }

    /// The left end of the horizontal range that `self` and `cover` have
    /// in common.
    pub open spec fn shared_min_x(self, cover: Rect) -> int {
        if cover.min_x >= self.min_x {
            cover.min_x
        } else {
            self.min_x
        }
    }

    /// The right end of the horizontal range that `self` and `cover` have
    /// in common.
    pub open spec fn shared_max_x(self, cover: Rect) -> int {
        if cover.max_x <= self.max_x {
            cover.max_x
        } else {
            self.max_x
        }
    }

    /// The full-height strip of `self` to the left of `cover`.
    pub open spec fn left_of(self, cover: Rect) -> Rect {
        Rect { min_x: self.min_x, min_y: self.min_y, max_x: cover.min_x - 1, max_y: self.max_y }
    }

    /// The full-height strip of `self` to the right of `cover`.
    pub open spec fn right_of(self, cover: Rect) -> Rect {
        Rect { min_x: cover.max_x + 1, min_y: self.min_y, max_x: self.max_x, max_y: self.max_y }
    }

    /// The strip of `self` below `cover`, no wider than what the two share
    /// horizontally.
    pub open spec fn below(self, cover: Rect) -> Rect {
        Rect {
            min_x: self.shared_min_x(cover),
            min_y: self.min_y,
            max_x: self.shared_max_x(cover),
            max_y: cover.min_y - 1,
        }
    }

    /// The strip of `self` above `cover`, no wider than what the two share
    /// horizontally.
    pub open spec fn above(self, cover: Rect) -> Rect {
        Rect {
            min_x: self.shared_min_x(cover),
            min_y: cover.max_y + 1,
            max_x: self.shared_max_x(cover),
            max_y: self.max_y,
        }
    }

    /// The part of `self` that lies within `frame`.
    pub open spec fn clip(self, frame: Rect) -> Rect {
        Rect {
            min_x: if self.min_x >= frame.min_x {
                self.min_x
            } else {
                frame.min_x
            },
            min_y: if self.min_y >= frame.min_y {
                self.min_y
            } else {
                frame.min_y
            },
            max_x: if self.max_x <= frame.max_x {
                self.max_x
            } else {
                frame.max_x
            },
            max_y: if self.max_y <= frame.max_y {
                self.max_y
            } else {
                frame.max_y
            },
        }
    }

    /// `cover` neither swallows `self` nor overlaps it.
    pub open spec fn clear_of(self, cover: Rect) -> bool {
        !self.covered_by(cover) && !self.intersects(cover)
    }

    /// `cover` overlaps `self` without swallowing it.
    pub open spec fn split_by(self, cover: Rect) -> bool {
        !self.covered_by(cover) && self.intersects(cover)
    }

    /// What is left of `self` once `cover` is taken away: nothing when
    /// `cover` swallows `self` or misses it, else the left, right, lower
    /// and upper strips, in this order, each only where `self` reaches
    /// beyond `cover` on that side and the strip holds a point.
    pub open spec fn remainders(self, cover: Rect) -> Seq<Rect> {
        if self.split_by(cover) {
            strip(self.min_x < cover.min_x, self.left_of(cover)) + strip(
                self.max_x > cover.max_x,
                self.right_of(cover),
            ) + strip(self.min_y < cover.min_y, self.below(cover)) + strip(
                self.max_y > cover.max_y,
                self.above(cover),
            )
        } else {
            Seq::empty()
        }
    }
}

/// The one-element sequence of `r` when `wanted` holds and `r` is not
/// empty, else the empty sequence.
pub open spec fn strip(wanted: bool, r: Rect) -> Seq<Rect> {
    if wanted && r.is_valid() {
        seq![r]
    } else {
        Seq::empty()
    }
}

/// Every rectangle lies within itself.
pub proof fn lemma_covered_by_reflexive(r: Rect)
    ensures
        r.covered_by(r),
{
}

/// Whether two rectangles overlap does not depend on which one is asked.
pub proof fn lemma_intersects_symmetric(a: Rect, b: Rect)
    ensures
        a.intersects(b) == b.intersects(a),
{
}

/// Two rectangles that hold a point each pass the overlap test exactly
/// when some point lies in both.
pub proof fn lemma_intersects_iff_shared_point(a: Rect, b: Rect)
    requires
        a.is_valid(),
        b.is_valid(),
    ensures
        a.intersects(b) <==> exists|p: (int, int)| a.contains(p) && b.contains(p),
{
    if a.intersects(b) {
        let p = (a.clip(b).min_x, a.clip(b).min_y);
        assert(a.contains(p) && b.contains(p));
    }
}

/// A rectangle that holds a point passes the containment test exactly when
/// each of its points is a point of the cover.
pub proof fn lemma_covered_iff_points_within(r: Rect, cover: Rect)
    requires
        r.is_valid(),
    ensures
        r.covered_by(cover) <==> forall|p: (int, int)| r.contains(p) ==> cover.contains(p),
{
    if forall|p: (int, int)| r.contains(p) ==> cover.contains(p) {
        assert(r.contains((r.min_x, r.min_y)));
        assert(r.contains((r.max_x, r.max_y)));
    }
}

/// The points of `r.clip(frame)` are the points that `r` and `frame` share.
pub proof fn lemma_clip_holds_shared_points(r: Rect, frame: Rect, p: (int, int))
    ensures
        r.clip(frame).contains(p) <==> r.contains(p) && frame.contains(p),
{
}

} // verus!
