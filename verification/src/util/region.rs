//! Rectangular parts of the viewport.

use vstd::prelude::*;
use crate::util::area::area;
use crate::util::area::lemma_uncovered_and_covers_fill_the_area;
use crate::util::area::total_area;
use crate::util::cover::all_valid;
use crate::util::cover::apply_cover;
use crate::util::cover::clipped;
use crate::util::cover::fragments;
use crate::util::cover::holders;
use crate::util::cover::lemma_uncovered_all_valid;
use crate::util::cover::lemma_uncovered_holders;
use crate::util::cover::none_overlap;
use crate::util::cover::uncovered;
use crate::util::cover::untouched;
use crate::util::rect::strip;
use crate::util::rect::Rect;

verus! {

/// Half the side of the viewport: coordinates from `-VIEWPORT_EXTENT` to
/// `VIEWPORT_EXTENT` have a place on it, and `(0, 0)` is its center.
pub const VIEWPORT_EXTENT: i32 = 10_000;

/// Represents a rectangular part of the viewport.
///
/// The corners are integers because they are exact, which container
/// calculations need to tell which components overlap. Both corners belong
/// to the region. Nothing keeps a lower bound from exceeding the upper one:
/// such a region holds no point.
#[derive(Clone, Copy, Debug, PartialEq, Eq, Structural)]
pub struct Region {
    min_x: i32,
    min_y: i32,
    max_x: i32,
    max_y: i32,
}

impl View for Region {
    type V = Rect;

    closed spec fn view(&self) -> Rect {
        Rect {
            min_x: self.min_x as int,
            min_y: self.min_y as int,
            max_x: self.max_x as int,
            max_y: self.max_y as int,
        }
    }
}

/// The rectangles that `regions` stand for, in order.
pub open spec fn views(regions: Seq<Region>) -> Seq<Rect> {
    regions.map_values(|r: Region| r@)
}

/// Regions are equal exactly when their bounds are.
pub proof fn lemma_equal_iff_same_bounds(a: Region, b: Region)
    ensures
        a == b <==> a@ == b@,
{
}

impl Region {
    /// Creates the region with the left-bottom corner at `(min_x, min_y)`
    /// and the right-top corner at `(max_x, max_y)`, both corners included.
    pub fn new(min_x: i32, min_y: i32, max_x: i32, max_y: i32) -> (region: Region)
        ensures
            region@ == (Rect {
                min_x: min_x as int,
                min_y: min_y as int,
                max_x: max_x as int,
                max_y: max_y as int,
            }),
    {
        Region { min_x, min_y, max_x, max_y }
    }

    /// The region that spans the entire (initial) viewport.
    pub fn entire_viewport() -> (region: Region)
        ensures
            region@ == (Rect {
                min_x: -(VIEWPORT_EXTENT as int),
                min_y: -(VIEWPORT_EXTENT as int),
                max_x: VIEWPORT_EXTENT as int,
                max_y: VIEWPORT_EXTENT as int,
            }),
    {
        Region {
            min_x: -VIEWPORT_EXTENT,
            min_y: -VIEWPORT_EXTENT,
            max_x: VIEWPORT_EXTENT,
            max_y: VIEWPORT_EXTENT,
        }
    }

    /// Returns true if and only if this region and `other` share a point.
    pub fn intersects_with(&self, other: Region) -> (hit: bool)
        ensures
            hit == self@.intersects(other@),
    {
        self.min_x <= other.max_x && self.min_y <= other.max_y && other.min_x <= self.max_x
            && other.min_y <= self.max_y
    }

    /// Returns true if and only if every point of this region is also a
    /// point of `cover`.
    pub fn is_covered_by(&self, cover: Region) -> (covered: bool)
        ensures
            covered == self@.covered_by(cover@),
    {
        self.min_x >= cover.min_x && self.min_y >= cover.min_y && self.max_x <= cover.max_x
            && self.max_y <= cover.max_y
    }

    /// Checks if the point `(x, y)` is inside or on the border of this
    /// region.
    pub fn is_inside(&self, point: (i32, i32)) -> (inside: bool)
        ensures
            inside == self@.contains((point.0 as int, point.1 as int)),
    {
        point.0 >= self.min_x && point.0 <= self.max_x && point.1 >= self.min_y && point.1
            <= self.max_y
    }

    /// Gets the regions that together hold exactly the points of this
    /// region that none of `regions` holds. No two of them share a point,
    /// and none of them is empty.
    ///
    /// The covers are taken away one after the other: a piece that a cover
    /// swallows is dropped, a piece that a cover overlaps is replaced by
    /// what is left of it on the left, on the right, below and above the
    /// cover, and these replacements go behind the pieces that the cover
    /// left alone. Neighbouring pieces are not merged.
    ///
    /// The result is exactly [`uncovered`]. Where every cover holds a
    /// point, each point of this region that no cover holds lies in exactly
    /// one of the regions handed out, and no other point lies in any. Where
    /// in addition no two covers overlap, the areas of the regions handed
    /// out and of the parts of this region under the covers add up to the
    /// area of this region.
    pub fn get_uncovered_regions(&self, regions: &Vec<Region>) -> (result: Vec<Region>)
        ensures
            views(result@) == uncovered(self@, views(regions@)),
            self@.is_valid() ==> all_valid(views(result@)),
            all_valid(views(regions@)) ==> forall|p: (int, int)|
                #[trigger] holders(views(result@), p) == (if self@.contains(p) && holders(
                    views(regions@),
                    p,
                ) == 0 {
                    1nat
                } else {
                    0nat
                }),
            all_valid(views(regions@)) && none_overlap(views(regions@)) ==> total_area(
                views(result@),
            ) + total_area(clipped(views(regions@), self@)) == area(self@),
    {
        let mut uncovered_regions: Vec<Region> = Vec::new();
        uncovered_regions.push(*self);
        let mut done: usize = 0;
        while done < regions.len()
            invariant
                done <= regions.len(),
                views(uncovered_regions@) == uncovered(self@, views(regions@).take(done as int)),
            decreases regions.len() - done,
        {
            let cover = regions[done];
            proof {
                let next = views(regions@).take(done + 1);
                assert(next.drop_last() =~= views(regions@).take(done as int));
            }
            uncovered_regions = Self::without_cover(&uncovered_regions, cover);
            done = done + 1;
        }
        assert(views(regions@).take(done as int) =~= views(regions@));
        proof {
            if self@.is_valid() {
                lemma_uncovered_all_valid(self@, views(regions@));
            }
            if all_valid(views(regions@)) && none_overlap(views(regions@)) {
                lemma_uncovered_and_covers_fill_the_area(self@, views(regions@));
            }
            if all_valid(views(regions@)) {
                assert forall|p: (int, int)|
                    #[trigger] holders(views(uncovered_regions@), p) == (if self@.contains(p)
                        && holders(views(regions@), p) == 0 {
                        1nat
                    } else {
                        0nat
                    }) by {
                    lemma_uncovered_holders(self@, views(regions@), p);
                }
            }
        }
        uncovered_regions
    }

    /// One round of the decomposition: `working` with `cover` taken away.
    fn without_cover(working: &Vec<Region>, cover: Region) -> (result: Vec<Region>)
        ensures
            views(result@) == apply_cover(views(working@), cover@),
    {
        let mut kept: Vec<Region> = Vec::new();
        let mut uncovered_to_add: Vec<Region> = Vec::new();
        let mut seen: usize = 0;
        while seen < working.len()
            invariant
                seen <= working.len(),
                views(kept@) == untouched(views(working@).take(seen as int), cover@),
                views(uncovered_to_add@) == fragments(views(working@).take(seen as int), cover@),
            decreases working.len() - seen,
        {
            let piece = working[seen];
            proof {
                let next = views(working@).take(seen + 1);
                assert(next.drop_last() =~= views(working@).take(seen as int));
            }
            if piece.is_covered_by(cover) {
                // The piece is entirely covered, so nothing of it is left
            } else if piece.intersects_with(cover) {
                // The two overlap in part: the piece is split into at most
                // 4 regions, above, below, left and right of the cover
                piece.push_remainders(cover, &mut uncovered_to_add);
            } else {
                // The two don't share any space, so the piece stays
                kept.push(piece);
            }
            seen = seen + 1;
        }
        assert(views(working@).take(seen as int) =~= views(working@));
        kept.append(&mut uncovered_to_add);
        kept
    }

    /// Appends to `out` what is left of this region around `cover`, which
    /// overlaps it without swallowing it.
    fn push_remainders(&self, cover: Region, out: &mut Vec<Region>)
        requires
            self@.split_by(cover@),
        ensures
            views(final(out)@) == views(old(out)@) + self@.remainders(cover@),
    {
        // The left region
        if self.min_x < cover.min_x {
            Self::push_strip(
                Region {
                    min_x: self.min_x,
                    min_y: self.min_y,
                    max_x: cover.min_x - 1,
                    max_y: self.max_y,
                },
                out,
            );
        }
        // The right region
        if self.max_x > cover.max_x {
            Self::push_strip(
                Region {
                    min_x: cover.max_x + 1,
                    min_y: self.min_y,
                    max_x: self.max_x,
                    max_y: self.max_y,
                },
                out,
            );
        }
        let shared_min_x = if cover.min_x >= self.min_x {
            cover.min_x
        } else {
            self.min_x
        };
        let shared_max_x = if cover.max_x <= self.max_x {
            cover.max_x
        } else {
            self.max_x
        };
        // The below region
        if self.min_y < cover.min_y {
            Self::push_strip(
                Region {
                    min_x: shared_min_x,
                    min_y: self.min_y,
                    max_x: shared_max_x,
                    max_y: cover.min_y - 1,
                },
                out,
            );
        }
        // The above region
        if self.max_y > cover.max_y {
            Self::push_strip(
                Region {
                    min_x: shared_min_x,
                    min_y: cover.max_y + 1,
                    max_x: shared_max_x,
                    max_y: self.max_y,
                },
                out,
            );
        }
    }

    /// Appends `candidate` to `out` unless it holds no point.
    fn push_strip(candidate: Region, out: &mut Vec<Region>)
        ensures
            views(final(out)@) == views(old(out)@) + strip(true, candidate@),
    {
        if candidate.min_x <= candidate.max_x && candidate.min_y <= candidate.max_y {
            out.push(candidate);
        }
    }

    /// The x-coordinate of the left border.
    pub fn get_min_x(&self) -> (x: i32)
        ensures
            x == self@.min_x,
    {
        self.min_x
    }

    /// The y-coordinate of the bottom border.
    pub fn get_min_y(&self) -> (y: i32)
        ensures
            y == self@.min_y,
    {
        self.min_y
    }

    /// The x-coordinate of the right border.
    pub fn get_max_x(&self) -> (x: i32)
        ensures
            x == self@.max_x,
    {
        self.max_x
    }

    /// The y-coordinate of the top border.
    pub fn get_max_y(&self) -> (y: i32)
        ensures
            y == self@.max_y,
    {
        self.max_y
    }

    /// The number of columns of this region, both border columns counted.
    /// The number has to fit into an `i32`, which it does for every region
    /// on the viewport.
    pub fn get_width(&self) -> (width: i32)
        requires
            i32::MIN <= self@.max_x - self@.min_x < i32::MAX,
        ensures
            width == self@.width(),
    {
        self.max_x - self.min_x + 1
    }

    /// The number of rows of this region, both border rows counted. The
    /// number has to fit into an `i32`, which it does for every region on
    /// the viewport.
    pub fn get_height(&self) -> (height: i32)
        requires
            i32::MIN <= self@.max_y - self@.min_y < i32::MAX,
        ensures
            height == self@.height(),
    {
        self.max_y - self.min_y + 1
    }
}

} // verus!
