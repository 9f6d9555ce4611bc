//! Taking covers away from a rectangle.
//!
//! [`uncovered`] says which rectangles are left of a rectangle once a list
//! of covers is taken away from it, and in which order. The laws below show
//! that these rectangles hold each point of the rest exactly once.

use vstd::prelude::*;
use crate::util::rect::strip;
use crate::util::rect::Rect;

verus! {

/// The rectangles of `working` that `cover` leaves alone, in order.
pub open spec fn untouched(working: Seq<Rect>, cover: Rect) -> Seq<Rect>
    decreases working.len(),
{
    if working.len() == 0 {
        Seq::empty()
    } else if working.last().clear_of(cover) {
        untouched(working.drop_last(), cover).push(working.last())
    } else {
        untouched(working.drop_last(), cover)
    }
}

/// The remainders of every rectangle of `working`, in order.
pub open spec fn fragments(working: Seq<Rect>, cover: Rect) -> Seq<Rect>
    decreases working.len(),
{
    if working.len() == 0 {
        Seq::empty()
    } else {
        fragments(working.drop_last(), cover) + working.last().remainders(cover)
    }
}

/// One round of the decomposition: the rectangles that `cover` leaves
/// alone stay in front, the remainders of the others follow.
pub open spec fn apply_cover(working: Seq<Rect>, cover: Rect) -> Seq<Rect> {
    untouched(working, cover) + fragments(working, cover)
}

/// The decomposition of `r` against `covers`: start from `r` alone and
/// apply the covers one after the other.
pub open spec fn uncovered(r: Rect, covers: Seq<Rect>) -> Seq<Rect>
    decreases covers.len(),
{
    if covers.len() == 0 {
        seq![r]
    } else {
        apply_cover(uncovered(r, covers.drop_last()), covers.last())
    }
}

/// How many rectangles of `rects` hold the point `p`.
pub open spec fn holders(rects: Seq<Rect>, p: (int, int)) -> nat
    decreases rects.len(),
{
    if rects.len() == 0 {
        0
    } else {
        holders(rects.drop_last(), p) + if rects.last().contains(p) {
            1nat
        } else {
            0nat
        }
    }
}

/// Every rectangle of `rects` holds a point.
pub open spec fn all_valid(rects: Seq<Rect>) -> bool {
    forall|i: int| 0 <= i < rects.len() ==> (#[trigger] rects[i]).is_valid()
}

/// No two rectangles of `rects` pass the overlap test.
pub open spec fn none_overlap(rects: Seq<Rect>) -> bool {
    forall|i: int, j: int|
        0 <= i < j < rects.len() ==> !(#[trigger] rects[i]).intersects(#[trigger] rects[j])
}

/// The parts of the rectangles of `rects` that lie within `frame`.
pub open spec fn clipped(rects: Seq<Rect>, frame: Rect) -> Seq<Rect> {
    rects.map_values(|c: Rect| c.clip(frame))
}

/// With no cover to take away, a rectangle is left as it is.
pub proof fn lemma_uncovered_without_covers(r: Rect)
    ensures
        uncovered(r, Seq::empty()) == seq![r],
{
}

/// Nothing is left of a rectangle that is taken away from itself.
pub proof fn lemma_uncovered_by_itself(r: Rect)
    ensures
        uncovered(r, seq![r]) == Seq::<Rect>::empty(),
{
    let covers = seq![r];
    let working = seq![r];
    assert(uncovered(r, covers.drop_last()) == working);
    reveal_with_fuel(untouched, 2);
    reveal_with_fuel(fragments, 2);
}

/// A point is held as often by `a + b` as by `a` and `b` together.
pub proof fn lemma_holders_concat(a: Seq<Rect>, b: Seq<Rect>, p: (int, int))
    ensures
        holders(a + b, p) == holders(a, p) + holders(b, p),
    decreases b.len(),
{
    if b.len() > 0 {
        assert((a + b).drop_last() =~= a + b.drop_last());
        lemma_holders_concat(a, b.drop_last(), p);
    }
}

/// What is left of `w` around a cover holds each point of `w` outside the
/// cover exactly once, in a remainder or in `w` itself where the cover
/// leaves it alone, and holds no other point.
proof fn lemma_one_piece(w: Rect, cover: Rect, p: (int, int))
    requires
        cover.is_valid(),
    ensures
        holders(w.remainders(cover), p) + (if w.clear_of(cover) && w.contains(p) {
            1nat
        } else {
            0nat
        }) == (if w.contains(p) && !cover.contains(p) {
            1nat
        } else {
            0nat
        }),
{
    if w.split_by(cover) {
        let left = strip(w.min_x < cover.min_x, w.left_of(cover));
        let right = strip(w.max_x > cover.max_x, w.right_of(cover));
        let lower = strip(w.min_y < cover.min_y, w.below(cover));
        let upper = strip(w.max_y > cover.max_y, w.above(cover));
        lemma_holders_strip(w.min_x < cover.min_x, w.left_of(cover), p);
        lemma_holders_strip(w.max_x > cover.max_x, w.right_of(cover), p);
        lemma_holders_strip(w.min_y < cover.min_y, w.below(cover), p);
        lemma_holders_strip(w.max_y > cover.max_y, w.above(cover), p);
        lemma_holders_concat(left, right, p);
        lemma_holders_concat(left + right, lower, p);
        lemma_holders_concat(left + right + lower, upper, p);
    }
}

/// A strip counts for a point exactly when it is wanted and holds it.
proof fn lemma_holders_strip(wanted: bool, r: Rect, p: (int, int))
    ensures
        holders(strip(wanted, r), p) == (if wanted && r.contains(p) {
            1nat
        } else {
            0nat
        }),
{
    if wanted && r.is_valid() {
        lemma_holders_single(r, p);
    }
}

/// A rectangle alone counts for a point exactly when it holds it.
proof fn lemma_holders_single(r: Rect, p: (int, int))
    ensures
        holders(seq![r], p) == (if r.contains(p) {
            1nat
        } else {
            0nat
        }),
{
    reveal_with_fuel(holders, 2);
}

/// One round takes away exactly the points of the cover: a point of the
/// cover is held by no rectangle afterwards, every other point is held as
/// often as before.
pub proof fn lemma_apply_cover_holders(working: Seq<Rect>, cover: Rect, p: (int, int))
    requires
        cover.is_valid(),
    ensures
        holders(apply_cover(working, cover), p) == (if cover.contains(p) {
            0nat
        } else {
            holders(working, p)
        }),
    decreases working.len(),
{
    lemma_holders_concat(untouched(working, cover), fragments(working, cover), p);
    if working.len() > 0 {
        let init = working.drop_last();
        let w = working.last();
        lemma_apply_cover_holders(init, cover, p);
        lemma_holders_concat(untouched(init, cover), fragments(init, cover), p);
        lemma_holders_concat(fragments(init, cover), w.remainders(cover), p);
        lemma_one_piece(w, cover, p);
        if w.clear_of(cover) {
            assert(untouched(working, cover).drop_last() =~= untouched(init, cover));
        }
    }
}

/// The uncovered rectangles hold each point of `r` that no cover holds
/// exactly once, and hold no other point.
pub proof fn lemma_uncovered_holders(r: Rect, covers: Seq<Rect>, p: (int, int))
    requires
        all_valid(covers),
    ensures
        holders(uncovered(r, covers), p) == (if r.contains(p) && holders(covers, p) == 0 {
            1nat
        } else {
            0nat
        }),
    decreases covers.len(),
{
    if covers.len() == 0 {
        lemma_holders_single(r, p);
    } else {
        lemma_uncovered_holders(r, covers.drop_last(), p);
        lemma_apply_cover_holders(uncovered(r, covers.drop_last()), covers.last(), p);
    }
}

/// A point is counted zero times exactly when no rectangle holds it.
pub proof fn lemma_unheld_iff_no_holder(rects: Seq<Rect>, p: (int, int))
    ensures
        holders(rects, p) == 0 <==> forall|i: int|
            0 <= i < rects.len() ==> !(#[trigger] rects[i]).contains(p),
    decreases rects.len(),
{
    if rects.len() > 0 {
        let init = rects.drop_last();
        lemma_unheld_iff_no_holder(init, p);
        if holders(rects, p) == 0 {
            assert forall|i: int| 0 <= i < rects.len() implies !(#[trigger] rects[i]).contains(
                p,
            ) by {
                if i < init.len() {
                    assert(!init[i].contains(p));
                }
            }
        } else if holders(init, p) != 0 {
            let i = choose|i: int| 0 <= i < init.len() && (#[trigger] init[i]).contains(p);
            assert(rects[i].contains(p));
        }
    }
}

/// A point that two rectangles of `rects` hold is counted at least twice.
pub proof fn lemma_two_holders(rects: Seq<Rect>, i: int, j: int, p: (int, int))
    requires
        0 <= i < j < rects.len(),
        rects[i].contains(p),
        rects[j].contains(p),
    ensures
        holders(rects, p) >= 2,
    decreases rects.len(),
{
    let init = rects.drop_last();
    if j == rects.len() - 1 {
        lemma_unheld_iff_no_holder(init, p);
        assert(init[i].contains(p));
    } else {
        lemma_two_holders(init, i, j, p);
    }
}

/// What taking covers away leaves is exact: no two uncovered rectangles
/// share a point, and a point lies in one of them exactly when it lies in
/// `r` and in none of the covers.
pub proof fn lemma_uncovered_is_exact_remainder(r: Rect, covers: Seq<Rect>)
    requires
        all_valid(covers),
    ensures
        ({
            let left = uncovered(r, covers);
            &&& forall|i: int, j: int, p: (int, int)|
                0 <= i < j < left.len() ==> !(#[trigger] left[i].contains(p)
                    && #[trigger] left[j].contains(p))
            &&& forall|p: (int, int)|
                (exists|i: int| 0 <= i < left.len() && #[trigger] left[i].contains(p)) <==> (
                r.contains(p) && forall|k: int|
                    0 <= k < covers.len() ==> !(#[trigger] covers[k]).contains(p))
        }),
{
    let left = uncovered(r, covers);
    assert forall|i: int, j: int, p: (int, int)| 0 <= i < j < left.len() implies !(
    #[trigger] left[i].contains(p) && #[trigger] left[j].contains(p)) by {
        lemma_uncovered_holders(r, covers, p);
        if left[i].contains(p) && left[j].contains(p) {
            lemma_two_holders(left, i, j, p);
        }
    }
    assert forall|p: (int, int)|
        (exists|i: int| 0 <= i < left.len() && #[trigger] left[i].contains(p)) <==> (r.contains(p)
            && forall|k: int| 0 <= k < covers.len() ==> !(#[trigger] covers[k]).contains(p)) by {
        lemma_uncovered_holders(r, covers, p);
        lemma_unheld_iff_no_holder(left, p);
        lemma_unheld_iff_no_holder(covers, p);
    }
}

/// Rectangles of which no two overlap hold a point at most once.
pub proof fn lemma_disjoint_hold_once(rects: Seq<Rect>, p: (int, int))
    requires
        none_overlap(rects),
    ensures
        holders(rects, p) <= 1,
        holders(rects, p) == 1 ==> exists|i: int| 0 <= i < rects.len() && rects[i].contains(p),
    decreases rects.len(),
{
    if rects.len() > 0 {
        let init = rects.drop_last();
        assert(none_overlap(init)) by {
            assert forall|i: int, j: int| 0 <= i < j < init.len() implies !(
            #[trigger] init[i]).intersects(#[trigger] init[j]) by {
                assert(!rects[i].intersects(rects[j]));
            }
        }
        lemma_disjoint_hold_once(init, p);
        if holders(init, p) == 1 {
            let i = choose|i: int| 0 <= i < init.len() && init[i].contains(p);
            assert(rects[i].contains(p));
            assert(!rects[i].intersects(rects[rects.len() - 1]));
        } else if rects.last().contains(p) {
            assert(rects[rects.len() - 1].contains(p));
        }
    }
}

/// The clipped covers hold a point of the frame as often as the covers do,
/// and hold no point outside the frame.
pub proof fn lemma_clipped_holders(covers: Seq<Rect>, frame: Rect, p: (int, int))
    ensures
        holders(clipped(covers, frame), p) == (if frame.contains(p) {
            holders(covers, p)
        } else {
            0nat
        }),
    decreases covers.len(),
{
    if covers.len() > 0 {
        assert(clipped(covers, frame).drop_last() =~= clipped(covers.drop_last(), frame));
        lemma_clipped_holders(covers.drop_last(), frame, p);
    }
}

/// Taking covers away loses no area and counts none twice: where no two
/// covers overlap, the uncovered rectangles and the parts of `r` under each
/// cover hold every point of `r` exactly once between them, and hold no
/// point outside `r`.
pub proof fn lemma_uncovered_and_covers_partition(r: Rect, covers: Seq<Rect>, p: (int, int))
    requires
        all_valid(covers),
        none_overlap(covers),
    ensures
        holders(uncovered(r, covers) + clipped(covers, r), p) == (if r.contains(p) {
            1nat
        } else {
            0nat
        }),
{
    lemma_holders_concat(uncovered(r, covers), clipped(covers, r), p);
    lemma_uncovered_holders(r, covers, p);
    lemma_clipped_holders(covers, r, p);
    lemma_disjoint_hold_once(covers, p);
}

/// Only rectangles that hold a point come out of a round.
pub proof fn lemma_apply_cover_all_valid(working: Seq<Rect>, cover: Rect)
    requires
        all_valid(working),
    ensures
        all_valid(untouched(working, cover)),
        all_valid(fragments(working, cover)),
        all_valid(apply_cover(working, cover)),
    decreases working.len(),
{
    if working.len() > 0 {
        lemma_apply_cover_all_valid(working.drop_last(), cover);
    }
}

/// Empty rectangles are never handed out: taking covers away from a
/// rectangle that holds a point leaves only rectangles that hold a point.
pub proof fn lemma_uncovered_all_valid(r: Rect, covers: Seq<Rect>)
    requires
        r.is_valid(),
    ensures
        all_valid(uncovered(r, covers)),
    decreases covers.len(),
{
    if covers.len() > 0 {
        lemma_uncovered_all_valid(r, covers.drop_last());
        lemma_apply_cover_all_valid(uncovered(r, covers.drop_last()), covers.last());
    }
}

} // verus!
