//! The area of rectangles, and the law that taking covers away neither
//! loses area nor counts any twice.

use vstd::prelude::*;
use crate::util::cover::all_valid;
use crate::util::cover::apply_cover;
use crate::util::cover::clipped;
use crate::util::cover::fragments;
use crate::util::cover::none_overlap;
use crate::util::cover::uncovered;
use crate::util::cover::untouched;
use crate::util::rect::strip;
use crate::util::rect::Rect;

verus! {

/// How many integers lie from `low` to `high`, both counted.
pub open spec fn span(low: int, high: int) -> int {
    if high >= low {
        high - low + 1
    } else {
        0
    }
}

/// How many points `r` holds: its width times its height where it holds a
/// point, else none.
pub open spec fn area(r: Rect) -> int {
    span(r.min_x, r.max_x) * span(r.min_y, r.max_y)
}

/// The areas of `rects`, added up.
pub open spec fn total_area(rects: Seq<Rect>) -> int
    decreases rects.len(),
{
    if rects.len() == 0 {
        0
    } else {
        total_area(rects.drop_last()) + area(rects.last())
    }
}

/// Every rectangle of `rects` lies within `frame`.
pub open spec fn all_within(rects: Seq<Rect>, frame: Rect) -> bool {
    forall|i: int| 0 <= i < rects.len() ==> (#[trigger] rects[i]).covered_by(frame)
}

/// The area of a rectangle that holds a point is its width times its
/// height, and a rectangle that holds no point has no area.
pub proof fn lemma_area_of_valid(r: Rect)
    ensures
        r.is_valid() ==> area(r) == r.width() * r.height(),
        !r.is_valid() ==> area(r) == 0,
        area(r) >= 0,
{
    let w = span(r.min_x, r.max_x);
    let h = span(r.min_y, r.max_y);
    assert(w >= 0 && h >= 0);
    assert(w * h >= 0) by (nonlinear_arith)
        requires
            w >= 0,
            h >= 0,
    ;
    assert((w == 0 || h == 0) ==> w * h == 0) by (nonlinear_arith);
}

/// The part of an empty rectangle within any frame has no area.
proof fn lemma_clip_of_empty(r: Rect, frame: Rect)
    requires
        !r.is_valid(),
    ensures
        area(r.clip(frame)) == 0,
{
    lemma_area_of_valid(r.clip(frame));
}

/// The areas of `a + b` add up to those of `a` and those of `b`.
pub proof fn lemma_total_area_concat(a: Seq<Rect>, b: Seq<Rect>)
    ensures
        total_area(a + b) == total_area(a) + total_area(b),
    decreases b.len(),
{
    if b.len() > 0 {
        assert((a + b).drop_last() =~= a + b.drop_last());
        lemma_total_area_concat(a, b.drop_last());
    } else {
        assert(a + b =~= a);
    }
}

/// A strip within a frame counts with its area where it is wanted and
/// holds a point.
proof fn lemma_strip_area(wanted: bool, r: Rect, frame: Rect)
    ensures
        total_area(clipped(strip(wanted, r), frame)) == (if wanted && r.is_valid() {
            area(r.clip(frame))
        } else {
            0
        }),
{
    reveal_with_fuel(total_area, 2);
    if wanted && r.is_valid() {
        assert(clipped(strip(wanted, r), frame) =~= seq![r.clip(frame)]);
        assert(seq![r.clip(frame)].drop_last() =~= Seq::<Rect>::empty());
    } else {
        assert(clipped(strip(wanted, r), frame) =~= Seq::<Rect>::empty());
    }
}

/// Within any frame, a rectangle has as much area as its part under a
/// cover and what is left of it around the cover together.
proof fn lemma_piece_area(w: Rect, cover: Rect, frame: Rect)
    requires
        cover.is_valid(),
    ensures
        w.split_by(cover) ==> area(w.clip(frame)) == area(w.clip(cover).clip(frame)) + total_area(
            clipped(w.remainders(cover), frame),
        ),
        w.covered_by(cover) ==> area(w.clip(frame)) == area(w.clip(cover).clip(frame)),
        w.clear_of(cover) ==> area(w.clip(cover).clip(frame)) == 0,
{
    if w.split_by(cover) {
        let left = w.left_of(cover);
        let right = w.right_of(cover);
        let lower = w.below(cover);
        let upper = w.above(cover);
        let s1 = strip(w.min_x < cover.min_x, left);
        let s2 = strip(w.max_x > cover.max_x, right);
        let s3 = strip(w.min_y < cover.min_y, lower);
        let s4 = strip(w.max_y > cover.max_y, upper);
        assert(clipped(w.remainders(cover), frame) =~= clipped(s1, frame) + clipped(s2, frame)
            + clipped(s3, frame) + clipped(s4, frame));
        lemma_total_area_concat(clipped(s1, frame), clipped(s2, frame));
        lemma_total_area_concat(clipped(s1, frame) + clipped(s2, frame), clipped(s3, frame));
        lemma_total_area_concat(
            clipped(s1, frame) + clipped(s2, frame) + clipped(s3, frame),
            clipped(s4, frame),
        );
        lemma_strip_area(w.min_x < cover.min_x, left, frame);
        lemma_strip_area(w.max_x > cover.max_x, right, frame);
        lemma_strip_area(w.min_y < cover.min_y, lower, frame);
        lemma_strip_area(w.max_y > cover.max_y, upper, frame);
        if !(w.min_x < cover.min_x && left.is_valid()) {
            lemma_clip_of_empty(left, frame);
        }
        if !(w.max_x > cover.max_x && right.is_valid()) {
            lemma_clip_of_empty(right, frame);
        }
        if !(w.min_y < cover.min_y && lower.is_valid()) {
            lemma_area_of_valid(lower.clip(frame));
        }
        if !(w.max_y > cover.max_y && upper.is_valid()) {
            lemma_area_of_valid(upper.clip(frame));
        }
        let whole = w.clip(frame);
        let middle = w.clip(cover).clip(frame);
        let wide = span(whole.min_x, whole.max_x);
        let high = span(whole.min_y, whole.max_y);
        let l = span(left.clip(frame).min_x, left.clip(frame).max_x);
        let r = span(right.clip(frame).min_x, right.clip(frame).max_x);
        let m = span(middle.min_x, middle.max_x);
        let b = span(lower.clip(frame).min_y, lower.clip(frame).max_y);
        let c = span(middle.min_y, middle.max_y);
        let a = span(upper.clip(frame).min_y, upper.clip(frame).max_y);
        assert(wide == l + m + r);
        assert(high == b + c + a);
        assert(span(left.clip(frame).min_y, left.clip(frame).max_y) == high);
        assert(span(right.clip(frame).min_y, right.clip(frame).max_y) == high);
        assert(span(lower.clip(frame).min_x, lower.clip(frame).max_x) == m);
        assert(span(upper.clip(frame).min_x, upper.clip(frame).max_x) == m);
        assert(wide * high == m * c + l * high + r * high + m * b + m * a) by (nonlinear_arith)
            requires
                wide == l + m + r,
                high == b + c + a,
        ;
    } else if w.covered_by(cover) {
        assert(w.clip(cover) == w);
    } else {
        lemma_clip_of_empty(w.clip(cover), frame);
    }
}

/// Within any frame, one round takes away exactly the area that the
/// rectangles have under the cover.
proof fn lemma_apply_cover_area(working: Seq<Rect>, cover: Rect, frame: Rect)
    requires
        cover.is_valid(),
    ensures
        total_area(clipped(apply_cover(working, cover), frame)) == total_area(
            clipped(working, frame),
        ) - total_area(clipped(working, cover.clip(frame))),
    decreases working.len(),
{
    let kept = untouched(working, cover);
    let pieces = fragments(working, cover);
    assert(clipped(kept + pieces, frame) =~= clipped(kept, frame) + clipped(pieces, frame));
    lemma_total_area_concat(clipped(kept, frame), clipped(pieces, frame));
    if working.len() > 0 {
        let init = working.drop_last();
        let w = working.last();
        let kept_before = untouched(init, cover);
        let pieces_before = fragments(init, cover);
        lemma_apply_cover_area(init, cover, frame);
        assert(clipped(kept_before + pieces_before, frame) =~= clipped(kept_before, frame)
            + clipped(pieces_before, frame));
        lemma_total_area_concat(clipped(kept_before, frame), clipped(pieces_before, frame));
        assert(clipped(pieces, frame) =~= clipped(pieces_before, frame) + clipped(
            w.remainders(cover),
            frame,
        ));
        lemma_total_area_concat(
            clipped(pieces_before, frame),
            clipped(w.remainders(cover), frame),
        );
        if w.clear_of(cover) {
            assert(clipped(kept, frame).drop_last() =~= clipped(kept_before, frame));
        } else {
            assert(w.remainders(cover).len() == 0 ==> total_area(
                clipped(w.remainders(cover), frame),
            ) == 0);
        }
        assert(clipped(working, frame).drop_last() =~= clipped(init, frame));
        assert(clipped(working, cover.clip(frame)).drop_last() =~= clipped(
            init,
            cover.clip(frame),
        ));
        assert(w.clip(cover).clip(frame) == w.clip(cover.clip(frame)));
        lemma_piece_area(w, cover, frame);
    }
}

/// Covers that do not overlap `cover` have no area under it.
proof fn lemma_no_area_under_other_cover(covers: Seq<Rect>, r: Rect, cover: Rect, frame: Rect)
    requires
        all_valid(covers),
        cover.is_valid(),
        forall|i: int| 0 <= i < covers.len() ==> !(#[trigger] covers[i]).intersects(cover),
    ensures
        total_area(clipped(clipped(covers, r), cover.clip(frame))) == 0,
    decreases covers.len(),
{
    if covers.len() > 0 {
        let init = covers.drop_last();
        lemma_no_area_under_other_cover(init, r, cover, frame);
        assert(clipped(clipped(covers, r), cover.clip(frame)).drop_last() =~= clipped(
            clipped(init, r),
            cover.clip(frame),
        ));
        lemma_area_of_valid(covers.last().clip(r).clip(cover.clip(frame)));
    }
}

/// Within any frame, the uncovered rectangles and the parts of `r` under
/// the covers have the area of `r` between them.
proof fn lemma_area_within(r: Rect, covers: Seq<Rect>, frame: Rect)
    requires
        all_valid(covers),
        none_overlap(covers),
    ensures
        total_area(clipped(uncovered(r, covers), frame)) + total_area(
            clipped(clipped(covers, r), frame),
        ) == area(r.clip(frame)),
    decreases covers.len(),
{
    if covers.len() == 0 {
        reveal_with_fuel(total_area, 2);
        assert(clipped(uncovered(r, covers), frame) =~= seq![r.clip(frame)]);
        assert(seq![r.clip(frame)].drop_last() =~= Seq::<Rect>::empty());
        assert(clipped(clipped(covers, r), frame) =~= Seq::<Rect>::empty());
    } else {
        let init = covers.drop_last();
        let cover = covers.last();
        let working = uncovered(r, init);
        assert(none_overlap(init)) by {
            assert forall|i: int, j: int| 0 <= i < j < init.len() implies !(
            #[trigger] init[i]).intersects(#[trigger] init[j]) by {
                assert(!covers[i].intersects(covers[j]));
            }
        }
        assert forall|i: int| 0 <= i < init.len() implies !(#[trigger] init[i]).intersects(
            cover,
        ) by {
            assert(!covers[i].intersects(covers[covers.len() - 1]));
        }
        lemma_area_within(r, init, frame);
        lemma_area_within(r, init, cover.clip(frame));
        lemma_apply_cover_area(working, cover, frame);
        lemma_no_area_under_other_cover(init, r, cover, frame);
        assert(clipped(clipped(covers, r), frame).drop_last() =~= clipped(
            clipped(init, r),
            frame,
        ));
        assert(cover.clip(r).clip(frame) == r.clip(cover.clip(frame)));
    }
}

/// Rectangles within a frame, put behind others within it, are all
/// within it.
proof fn lemma_concat_within(a: Seq<Rect>, b: Seq<Rect>, frame: Rect)
    requires
        all_within(a, frame),
        all_within(b, frame),
    ensures
        all_within(a + b, frame),
{
    assert forall|i: int| 0 <= i < (a + b).len() implies (#[trigger] (a + b)[i]).covered_by(
        frame,
    ) by {
        if i < a.len() {
            assert(a[i].covered_by(frame));
        } else {
            assert(b[i - a.len()].covered_by(frame));
        }
    }
}

/// What is left of a rectangle around a cover lies within the rectangle.
proof fn lemma_remainders_within(w: Rect, cover: Rect)
    ensures
        all_within(w.remainders(cover), w),
{
    if w.split_by(cover) {
        let s1 = strip(w.min_x < cover.min_x, w.left_of(cover));
        let s2 = strip(w.max_x > cover.max_x, w.right_of(cover));
        let s3 = strip(w.min_y < cover.min_y, w.below(cover));
        let s4 = strip(w.max_y > cover.max_y, w.above(cover));
        assert(all_within(s1, w));
        assert(all_within(s2, w));
        assert(all_within(s3, w));
        assert(all_within(s4, w));
        lemma_concat_within(s1, s2, w);
        lemma_concat_within(s1 + s2, s3, w);
        lemma_concat_within(s1 + s2 + s3, s4, w);
    }
}

/// What one round hands out lies within the frame of the rectangles it
/// started from.
proof fn lemma_apply_cover_within(working: Seq<Rect>, cover: Rect, frame: Rect)
    requires
        all_within(working, frame),
    ensures
        all_within(untouched(working, cover), frame),
        all_within(fragments(working, cover), frame),
        all_within(apply_cover(working, cover), frame),
    decreases working.len(),
{
    if working.len() > 0 {
        let init = working.drop_last();
        let w = working.last();
        assert(all_within(init, frame)) by {
            assert forall|i: int| 0 <= i < init.len() implies (#[trigger] init[i]).covered_by(
                frame,
            ) by {
                assert(working[i].covered_by(frame));
            }
        }
        lemma_apply_cover_within(init, cover, frame);
        assert(w.covered_by(frame)) by {
            assert(working[working.len() - 1].covered_by(frame));
        }
        lemma_remainders_within(w, cover);
        assert(all_within(w.remainders(cover), frame)) by {
            assert forall|i: int| 0 <= i < w.remainders(cover).len() implies (
            #[trigger] w.remainders(cover)[i]).covered_by(frame) by {
                assert(w.remainders(cover)[i].covered_by(w));
            }
        }
        lemma_concat_within(fragments(init, cover), w.remainders(cover), frame);
        if w.clear_of(cover) {
            lemma_concat_within(untouched(init, cover), seq![w], frame);
            assert(untouched(working, cover) =~= untouched(init, cover) + seq![w]);
        }
    }
    lemma_concat_within(untouched(working, cover), fragments(working, cover), frame);
}

/// Every uncovered rectangle lies within the rectangle it was cut from.
pub proof fn lemma_uncovered_within(r: Rect, covers: Seq<Rect>)
    ensures
        all_within(uncovered(r, covers), r),
    decreases covers.len(),
{
    if covers.len() > 0 {
        lemma_uncovered_within(r, covers.drop_last());
        lemma_apply_cover_within(uncovered(r, covers.drop_last()), covers.last(), r);
    }
}

/// Rectangles within a frame are their own parts within that frame.
proof fn lemma_clipped_within(rects: Seq<Rect>, frame: Rect)
    requires
        all_within(rects, frame),
    ensures
        clipped(rects, frame) == rects,
{
    assert forall|i: int| 0 <= i < rects.len() implies rects[i].clip(frame) == rects[i] by {
        assert(rects[i].covered_by(frame));
    }
    assert(clipped(rects, frame) =~= rects);
}

/// Taking covers away loses no area and counts none twice: where no two
/// covers overlap, the areas of the uncovered rectangles and of the parts
/// of `r` under each cover add up to the area of `r`.
pub proof fn lemma_uncovered_and_covers_fill_the_area(r: Rect, covers: Seq<Rect>)
    requires
        all_valid(covers),
        none_overlap(covers),
    ensures
        total_area(uncovered(r, covers)) + total_area(clipped(covers, r)) == area(r),
{
    lemma_area_within(r, covers, r);
    lemma_uncovered_within(r, covers);
    lemma_clipped_within(uncovered(r, covers), r);
    assert(clipped(clipped(covers, r), r) =~= clipped(covers, r));
    assert(r.clip(r) == r);
}

} // verus!
