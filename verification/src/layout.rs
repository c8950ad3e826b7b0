//! Stack layout solver: a single-pass flexbox-lite. Children are measured for
//! their natural size, laid out sequentially along the stack's main axis (with
//! spacing), leftover main-axis space is absorbed by flexible spacers, and
//! cross-axis placement follows the stack's alignment. Layout writes frames;
//! nothing is drawn here.

use vstd::prelude::*;

use crate::geometry::{fits_i32, max_int, Rect, Size};
use crate::widget::{
    join, join_spec, lemma_measure_fold_none_stays, measure_fold, measure_spec, split, split_spec, Align,
    AnyWidget, Axis, Common, Spacer, Stack,
};

verus! {

/// (main_origin, main_size, cross_origin, cross_size) of a rectangle.
pub open spec fn axis_bounds_spec(axis: Axis, r: Rect) -> (i32, i32, i32, i32) {
    match axis {
        Axis::Vertical => (r.y, r.h, r.x, r.w),
        Axis::Horizontal => (r.x, r.w, r.y, r.h),
    }
}

pub open spec fn rect_from_spec(axis: Axis, main_pos: i32, main_ext: i32, cross_pos: i32, cross_ext: i32) -> Rect {
    match axis {
        Axis::Vertical => Rect { x: cross_pos, y: main_pos, w: cross_ext, h: main_ext },
        Axis::Horizontal => Rect { x: main_pos, y: cross_pos, w: main_ext, h: cross_ext },
    }
}

/// Cross-axis position and extent for a child, or `None` on overflow.
pub open spec fn cross_placement_spec(align: Align, origin: i32, avail: i32, natural: i32) -> Option<(i32, i32)> {
    match align {
        Align::Fill => Some((origin, avail)),
        Align::Leading => Some((origin, natural)),
        Align::Trailing => {
            let d = avail - natural;
            if fits_i32(d) && fits_i32(origin + max_int(d, 0)) {
                Some(((origin + max_int(d, 0)) as i32, natural))
            } else {
                None
            }
        },
        Align::Center => {
            let d = avail - natural;
            if fits_i32(d) && fits_i32(origin + max_int(d, 0) / 2) {
                Some(((origin + max_int(d, 0) / 2) as i32, natural))
            } else {
                None
            }
        },
    }
}

/// Number of flexible children among the first `k`.
pub open spec fn flex_count(ch: Seq<AnyWidget>, k: nat) -> nat
    decreases k,
{
    if k == 0 || k > ch.len() {
        0
    } else {
        flex_count(ch, (k - 1) as nat) + if ch[k - 1] is Spacer { 1nat } else { 0nat }
    }
}

pub proof fn lemma_flex_count_bound(ch: Seq<AnyWidget>, k: nat)
    requires
        k <= ch.len(),
    ensures
        flex_count(ch, k) <= k,
    decreases k,
{
    if k > 0 {
        lemma_flex_count_bound(ch, (k - 1) as nat);
    }
}

/// Parameters shared by every step of a stack's placement pass.
pub struct PlaceParams {
    pub inner: Size,
    pub axis: Axis,
    pub align: Align,
    pub spacing: i32,
    pub per_flex: i32,
    pub cross_origin: i32,
    pub cross_size: i32,
}

/// Rectangles of the first `k` children, with the main-axis cursor and the
/// remaining extra pixels after them; `None` on overflow.
pub open spec fn place_fold(
    ch: Seq<AnyWidget>,
    pp: PlaceParams,
    main_origin: i32,
    rem0: i32,
    k: nat,
) -> Option<(Seq<Rect>, i32, i32)>
    decreases k,
{
    if k == 0 || k > ch.len() {
        if k == 0 { Some((Seq::empty(), main_origin, rem0)) } else { None }
    } else {
        match place_fold(ch, pp, main_origin, rem0, (k - 1) as nat) {
            None => None,
            Some(prev) => match measure_spec(ch[k - 1], pp.inner) {
                None => None,
                Some(m) => {
                    let (nm, nc) = split_spec(pp.axis, m);
                    let cursor = prev.1;
                    let rem = prev.2;
                    let flex_ok = !(ch[k - 1] is Spacer) || (fits_i32(nm + pp.per_flex) && (rem
                        <= 0 || fits_i32(nm + pp.per_flex + 1)));
                    let child_main: int = if ch[k - 1] is Spacer {
                        if rem > 0 { nm + pp.per_flex + 1 } else { nm + pp.per_flex }
                    } else {
                        nm as int
                    };
                    let rem2: int = if ch[k - 1] is Spacer && rem > 0 { rem - 1 } else { rem as int };
                    match cross_placement_spec(pp.align, pp.cross_origin, pp.cross_size, nc) {
                        None => None,
                        Some(cp) => if flex_ok && fits_i32(child_main + pp.spacing) && fits_i32(
                            cursor + (child_main + pp.spacing),
                        ) {
                            Some(
                                (
                                    prev.0.push(
                                        rect_from_spec(pp.axis, cursor, child_main as i32, cp.0, cp.1),
                                    ),
                                    (cursor + (child_main + pp.spacing)) as i32,
                                    rem2 as i32,
                                ),
                            )
                        } else {
                            None
                        },
                    }
                },
            },
        }
    }
}

/// The rectangles a stack assigns to its children when placed in `rect`, or
/// `None` when the `i32` arithmetic of the layout would overflow.
pub open spec fn child_rects(s: Stack, rect: Rect) -> Option<Seq<Rect>> {
    let ch = s.children@;
    let n = ch.len();
    if !rect.inset_fits(s.padding) || n > i32::MAX {
        None
    } else if n == 0 {
        Some(Seq::empty())
    } else {
        let inner = rect.inset_spec(s.padding);
        let isz = Size { w: inner.w, h: inner.h };
        match measure_fold(ch, isz, s.axis, s.spacing, n, n) {
            None => None,
            Some(mf) => {
                let total = mf.0;
                let flex = flex_count(ch, n);
                let (mo, ms, co, cs) = axis_bounds_spec(s.axis, inner);
                let d = ms - total;
                if !fits_i32(d) {
                    None
                } else {
                    let leftover = max_int(d, 0);
                    let per_flex: int = if flex > 0 { leftover / (flex as int) } else { 0 };
                    let rem: int = if flex > 0 { leftover % (flex as int) } else { 0 };
                    let pp = PlaceParams {
                        inner: isz,
                        axis: s.axis,
                        align: s.align,
                        spacing: s.spacing,
                        per_flex: per_flex as i32,
                        cross_origin: co,
                        cross_size: cs,
                    };
                    match place_fold(ch, pp, mo, rem as i32, n) {
                        Some(r) => Some(r.0),
                        None => None,
                    }
                }
            },
        }
    }
}

proof fn lemma_child_rects_len(s: Stack, rect: Rect)
    requires
        child_rects(s, rect) is Some,
    ensures
        (child_rects(s, rect)->0).len() == s.children@.len(),
{
    let ch = s.children@;
    let n = ch.len();
    if n > 0 {
        let inner = rect.inset_spec(s.padding);
        let isz = Size { w: inner.w, h: inner.h };
        let mf = measure_fold(ch, isz, s.axis, s.spacing, n, n)->0;
        let flex = flex_count(ch, n);
        let (mo, ms, co, cs) = axis_bounds_spec(s.axis, inner);
        let leftover = max_int(ms - mf.0, 0);
        let per_flex: int = if flex > 0 { leftover / (flex as int) } else { 0 };
        let rem: int = if flex > 0 { leftover % (flex as int) } else { 0 };
        let pp = PlaceParams {
            inner: isz,
            axis: s.axis,
            align: s.align,
            spacing: s.spacing,
            per_flex: per_flex as i32,
            cross_origin: co,
            cross_size: cs,
        };
        lemma_place_fold_len(ch, pp, mo, rem as i32, n);
    }
}

/// Sum of the natural main-axis extents of the first `k` children.
pub open spec fn main_sum(ch: Seq<AnyWidget>, inner: Size, axis: Axis, k: nat) -> int
    decreases k,
{
    if k == 0 || k > ch.len() {
        0
    } else {
        main_sum(ch, inner, axis, (k - 1) as nat) + split_spec(axis, measure_spec(ch[k - 1], inner)->0).0
    }
}

/// The main-axis total the measuring pass reaches after `k` children: their
/// natural extents plus one `spacing` after each but the last of all `n`.
proof fn lemma_measure_fold_total(ch: Seq<AnyWidget>, inner: Size, axis: Axis, spacing: i32, n: nat, k: nat)
    requires
        measure_fold(ch, inner, axis, spacing, n, k) is Some,
        k <= n,
    ensures
        k > 0 ==> (measure_fold(ch, inner, axis, spacing, n, k)->0).0 == main_sum(ch, inner, axis, k) + spacing * (
        if k < n {
            k as int
        } else {
            k - 1
        }),
        k == 0 ==> (measure_fold(ch, inner, axis, spacing, n, k)->0).0 == 0,
    decreases k,
{
    if k > 0 {
        lemma_measure_fold_total(ch, inner, axis, spacing, n, (k - 1) as nat);
        let a = spacing as int;
        let b = (k - 1) as int;
        assert(a * b + a == a * (b + 1)) by (nonlinear_arith);
        if k - 1 > 0 {
            assert(a * (b - 1) + a == a * b) by (nonlinear_arith);
        }
    }
}

/// The shape of the first `k` placed rectangles: each starts on the main axis
/// where the one before ends plus `spacing` (the first at the origin), takes
/// its natural main extent (a spacer also its share of the leftover: the
/// per-spacer share, plus one pixel while extra pixels `rem0` remain), and
/// sits on the cross axis as `align` says.
proof fn lemma_place_fold_shape(ch: Seq<AnyWidget>, pp: PlaceParams, mo: i32, rem0: i32, k: nat)
    requires
        place_fold(ch, pp, mo, rem0, k) is Some,
        0 <= rem0,
    ensures
        ({
            let r = place_fold(ch, pp, mo, rem0, k)->0;
            &&& r.0.len() == k
            &&& r.2 == max_int(rem0 - flex_count(ch, k), 0)
            &&& k == 0 ==> r.1 == mo
            &&& k > 0 ==> r.1 == axis_bounds_spec(pp.axis, r.0[k - 1]).0 + axis_bounds_spec(pp.axis, r.0[k - 1]).1 + pp.spacing
            &&& k > 0 ==> axis_bounds_spec(pp.axis, r.0[0]).0 == mo
            &&& forall|i: int| 0 <= i < k - 1 ==> #[trigger] axis_bounds_spec(pp.axis, r.0[i + 1]).0
                == axis_bounds_spec(pp.axis, r.0[i]).0 + axis_bounds_spec(pp.axis, r.0[i]).1 + pp.spacing
            &&& forall|i: int| 0 <= i < k ==> #[trigger] axis_bounds_spec(pp.axis, r.0[i]).1
                == split_spec(pp.axis, measure_spec(ch[i], pp.inner)->0).0 + (if ch[i] is Spacer {
                    pp.per_flex + (if flex_count(ch, i as nat) < rem0 { 1int } else { 0int })
                } else {
                    0int
                })
            &&& forall|i: int| 0 <= i < k ==> cross_placement_spec(pp.align, pp.cross_origin, pp.cross_size,
                split_spec(pp.axis, measure_spec(ch[i], pp.inner)->0).1)
                == Some((#[trigger] axis_bounds_spec(pp.axis, r.0[i]).2, axis_bounds_spec(pp.axis, r.0[i]).3))
        }),
    decreases k,
{
    if k > 0 {
        lemma_place_fold_shape(ch, pp, mo, rem0, (k - 1) as nat);
        let prev = place_fold(ch, pp, mo, rem0, (k - 1) as nat)->0;
        let r = place_fold(ch, pp, mo, rem0, k)->0;
        let last = r.0[k - 1];
        assert(r.0 == prev.0.push(last));
        assert(axis_bounds_spec(pp.axis, last).0 == prev.1);
        assert forall|i: int| 0 <= i < k - 1 implies #[trigger] axis_bounds_spec(pp.axis, r.0[i + 1]).0
            == axis_bounds_spec(pp.axis, r.0[i]).0 + axis_bounds_spec(pp.axis, r.0[i]).1 + pp.spacing by {
            assert(r.0[i] == prev.0[i]);
            if i + 1 < k - 1 {
                assert(r.0[i + 1] == prev.0[i + 1]);
            }
        }
        assert forall|i: int| 0 <= i < k implies #[trigger] axis_bounds_spec(pp.axis, r.0[i]).1
            == split_spec(pp.axis, measure_spec(ch[i], pp.inner)->0).0 + (if ch[i] is Spacer {
                pp.per_flex + (if flex_count(ch, i as nat) < rem0 { 1int } else { 0int })
            } else {
                0int
            }) by {
            if i < k - 1 {
                assert(r.0[i] == prev.0[i]);
            }
        }
        assert forall|i: int| 0 <= i < k implies cross_placement_spec(pp.align, pp.cross_origin, pp.cross_size,
            split_spec(pp.axis, measure_spec(ch[i], pp.inner)->0).1)
            == Some((#[trigger] axis_bounds_spec(pp.axis, r.0[i]).2, axis_bounds_spec(pp.axis, r.0[i]).3)) by {
            if i < k - 1 {
                assert(r.0[i] == prev.0[i]);
            }
        }
        if k > 1 {
            assert(r.0[0] == prev.0[0]);
        }
    }
}

/// What a stack does with its children's rectangles `rs` in `rect`: the
/// children follow each other along the main axis, `spacing` apart, from the
/// padded origin; each takes its natural main-axis extent, and each spacer
/// also an equal share of the leftover (the main-axis room not taken by the
/// natural extents and the spacing), the first `leftover % spacers` spacers
/// one pixel more; on the cross axis each child is placed as `Align` says.
pub open spec fn stack_level_law(s: Stack, rect: Rect, rs: Seq<Rect>) -> bool {
    let ch = s.children@;
    let n = ch.len();
    let inner = rect.inset_spec(s.padding);
    let isz = Size { w: inner.w, h: inner.h };
    let (mo, ms, co, cs) = axis_bounds_spec(s.axis, inner);
    let leftover = max_int(ms - main_sum(ch, isz, s.axis, n) - s.spacing * (n - 1), 0);
    let flex = flex_count(ch, n) as int;
    &&& rs.len() == n
    &&& n > 0 ==> axis_bounds_spec(s.axis, rs[0]).0 == mo
    &&& forall|i: int| 0 <= i < n - 1 ==> #[trigger] axis_bounds_spec(s.axis, rs[i + 1]).0
        == axis_bounds_spec(s.axis, rs[i]).0 + axis_bounds_spec(s.axis, rs[i]).1 + s.spacing
    &&& forall|i: int| 0 <= i < n ==> #[trigger] axis_bounds_spec(s.axis, rs[i]).1
        == split_spec(s.axis, measure_spec(ch[i], isz)->0).0 + (if ch[i] is Spacer {
            leftover / flex + (if (flex_count(ch, i as nat) as int) < leftover % flex { 1int } else { 0int })
        } else {
            0int
        })
    &&& forall|i: int| 0 <= i < n ==> cross_placement_spec(s.align, co, cs, split_spec(s.axis, measure_spec(ch[i], isz)->0).1)
        == Some((#[trigger] axis_bounds_spec(s.axis, rs[i]).2, axis_bounds_spec(s.axis, rs[i]).3))
}

proof fn lemma_flex_count_spacer(ch: Seq<AnyWidget>, k: nat, i: int)
    requires
        0 <= i < k <= ch.len(),
        ch[i] is Spacer,
    ensures
        flex_count(ch, k) > 0,
    decreases k,
{
    if i < k - 1 {
        lemma_flex_count_spacer(ch, (k - 1) as nat, i);
    }
}

/// A stack places its children one after another along its main axis,
/// `spacing` apart, starting at the padded origin; every child gets its
/// natural main-axis extent and the spacers share what is left; on the cross
/// axis each child is placed as the stack's `Align` says (`stack_level_law`).
pub proof fn law_stack_places_in_sequence(s: Stack, rect: Rect)
    requires
        child_rects(s, rect) is Some,
    ensures
        stack_level_law(s, rect, child_rects(s, rect)->0),
{
    let ch = s.children@;
    let n = ch.len();
    if n > 0 {
        let inner = rect.inset_spec(s.padding);
        let isz = Size { w: inner.w, h: inner.h };
        let mf = measure_fold(ch, isz, s.axis, s.spacing, n, n)->0;
        let flex = flex_count(ch, n);
        let (mo, ms, co, cs) = axis_bounds_spec(s.axis, inner);
        let leftover = max_int(ms - mf.0, 0);
        let per_flex: int = if flex > 0 { leftover / (flex as int) } else { 0 };
        let rem: int = if flex > 0 { leftover % (flex as int) } else { 0 };
        let pp = PlaceParams {
            inner: isz,
            axis: s.axis,
            align: s.align,
            spacing: s.spacing,
            per_flex: per_flex as i32,
            cross_origin: co,
            cross_size: cs,
        };
        lemma_measure_fold_total(ch, isz, s.axis, s.spacing, n, n);
        assert(mf.0 == main_sum(ch, isz, s.axis, n) + s.spacing * (n - 1));
        assert(fits_i32(ms - mf.0));
        assert(leftover <= i32::MAX);
        lemma_flex_count_bound(ch, n);
        if flex > 0 {
            assert(leftover / (flex as int) <= leftover) by (nonlinear_arith)
                requires
                    flex > 0,
                    leftover >= 0,
            ;
            assert(0 <= leftover % (flex as int) < flex) by (nonlinear_arith)
                requires
                    flex > 0,
            ;
            assert(0 <= leftover / (flex as int)) by (nonlinear_arith)
                requires
                    flex > 0,
                    leftover >= 0,
            ;
        }
        assert(rem as i32 == rem && per_flex as i32 == per_flex);
        lemma_place_fold_shape(ch, pp, mo, rem as i32, n);
        let rs = child_rects(s, rect)->0;
        assert forall|i: int| 0 <= i < n implies #[trigger] axis_bounds_spec(s.axis, rs[i]).1
            == split_spec(s.axis, measure_spec(ch[i], isz)->0).0 + (if ch[i] is Spacer {
                leftover / (flex as int) + (if (flex_count(ch, i as nat) as int) < leftover % (flex as int) {
                    1int
                } else {
                    0int
                })
            } else {
                0int
            }) by {
            if ch[i] is Spacer {
                lemma_flex_count_spacer(ch, n, i);
            }
        }
    }
}

/// A spacer keeps its minimum: in a stack, every spacer's rectangle is at
/// least its `min` pixels long along the stack's main axis.
pub proof fn law_spacer_keeps_its_min(s: Stack, rect: Rect, i: int)
    requires
        child_rects(s, rect) is Some,
        0 <= i < s.children@.len(),
        s.children@[i] is Spacer,
    ensures
        axis_bounds_spec(s.axis, (child_rects(s, rect)->0)[i]).1 >= (s.children@[i]->Spacer_0).min,
{
    law_stack_places_in_sequence(s, rect);
    let ch = s.children@;
    let n = ch.len();
    let inner = rect.inset_spec(s.padding);
    let (mo, ms, co, cs) = axis_bounds_spec(s.axis, inner);
    let leftover = max_int(ms - main_sum(ch, Size { w: inner.w, h: inner.h }, s.axis, n) - s.spacing * (n - 1), 0);
    let flex = flex_count(ch, n) as int;
    lemma_flex_count_spacer(ch, n, i);
    assert(leftover / flex >= 0) by (nonlinear_arith)
        requires
            leftover >= 0,
            flex > 0,
    ;
}

/// The whole placement of a tree: `w2` (the placed `w`) has frame `rect`,
/// and every stack in it lays out its children by `stack_level_law`, each
/// child placed the same way in its own rectangle.
pub open spec fn placement_holds(w: AnyWidget, rect: Rect, w2: AnyWidget) -> bool
    decreases w, 0nat,
{
    &&& w2.common_spec().frame == rect
    &&& match w {
        AnyWidget::Stack(s) => match w2 {
            AnyWidget::Stack(s2) => {
                &&& child_rects(s, rect) matches Some(rs)
                &&& stack_level_law(s, rect, rs)
                &&& s2.children@.len() == s.children@.len()
                &&& placements_hold(s.children@, rs, s2.children@, s.children@.len())
            },
            _ => false,
        },
        _ => true,
    }
}

pub open spec fn placements_hold(ch: Seq<AnyWidget>, rs: Seq<Rect>, ch2: Seq<AnyWidget>, k: nat) -> bool
    decreases ch, k,
{
    if k == 0 || k > ch.len() || k > rs.len() || k > ch2.len() {
        k == 0
    } else {
        placements_hold(ch, rs, ch2, (k - 1) as nat) && placement_holds(ch[k - 1], rs[k - 1], ch2[k - 1])
    }
}

/// Layout over a whole tree: the root takes the given rectangle and, at every
/// depth, each stack places its children by `stack_level_law`.
pub proof fn law_layout_places_whole_tree(w: AnyWidget, rect: Rect, w2: AnyWidget)
    requires
        placed(w, rect, w2),
    ensures
        placement_holds(w, rect, w2),
    decreases w, 0nat,
{
    match w {
        AnyWidget::Stack(s) => {
            law_stack_places_in_sequence(s, rect);
            let s2 = w2->Stack_0;
            let rs = child_rects(s, rect)->0;
            lemma_placements_hold(s.children@, rs, s2.children@, s.children@.len());
        },
        _ => {},
    }
}

proof fn lemma_placements_hold(ch: Seq<AnyWidget>, rs: Seq<Rect>, ch2: Seq<AnyWidget>, k: nat)
    requires
        all_placed(ch, rs, ch2, k),
    ensures
        placements_hold(ch, rs, ch2, k),
    decreases ch, k,
{
    if k > 0 && k <= ch.len() && k <= rs.len() && k <= ch2.len() {
        lemma_placements_hold(ch, rs, ch2, (k - 1) as nat);
        law_layout_places_whole_tree(ch[k - 1], rs[k - 1], ch2[k - 1]);
    }
}

/// Placing `w` in `rect` (and all descendants) does not overflow.
pub open spec fn place_ok(w: AnyWidget, rect: Rect) -> bool
    decreases w, 0nat,
{
    match w {
        AnyWidget::Stack(s) => match child_rects(s, rect) {
            Some(rs) => all_place_ok(s.children@, rs, s.children@.len()),
            None => false,
        },
        _ => true,
    }
}

pub open spec fn all_place_ok(ch: Seq<AnyWidget>, rs: Seq<Rect>, k: nat) -> bool
    decreases ch, k,
{
    if k == 0 || k > ch.len() || k > rs.len() {
        k == 0
    } else {
        all_place_ok(ch, rs, (k - 1) as nat) && place_ok(ch[k - 1], rs[k - 1])
    }
}

/// `w2` is `w` laid out in `rect`: the frame of `w` becomes `rect`, each child
/// of a stack is laid out in its computed rectangle, and nothing else changes.
pub open spec fn placed(w: AnyWidget, rect: Rect, w2: AnyWidget) -> bool
    decreases w, 0nat,
{
    match w {
        AnyWidget::Stack(s) => match w2 {
            AnyWidget::Stack(s2) => {
                &&& s2 == Stack {
                    common: Common { frame: rect, ..s.common },
                    children: s2.children,
                    ..s
                }
                &&& child_rects(s, rect) matches Some(rs) && s2.children@.len() == s.children@.len()
                    && all_placed(s.children@, rs, s2.children@, s.children@.len())
            },
            _ => false,
        },
        _ => w2 == w.with_frame(rect),
    }
}

pub open spec fn all_placed(ch: Seq<AnyWidget>, rs: Seq<Rect>, ch2: Seq<AnyWidget>, k: nat) -> bool
    decreases ch, k,
{
    if k == 0 || k > ch.len() || k > rs.len() || k > ch2.len() {
        k == 0
    } else {
        all_placed(ch, rs, ch2, (k - 1) as nat) && placed(ch[k - 1], rs[k - 1], ch2[k - 1])
    }
}

proof fn lemma_all_place_ok_index(ch: Seq<AnyWidget>, rs: Seq<Rect>, k: nat, j: int)
    requires
        all_place_ok(ch, rs, k),
        0 <= j < k,
    ensures
        place_ok(ch[j], rs[j]),
        k <= ch.len() && k <= rs.len(),
    decreases k,
{
    if j < k - 1 {
        lemma_all_place_ok_index(ch, rs, (k - 1) as nat, j);
    }
}

proof fn lemma_place_fold_prefix(ch: Seq<AnyWidget>, pp: PlaceParams, mo: i32, rem0: i32, k: nat, j: nat)
    requires
        j <= k,
        place_fold(ch, pp, mo, rem0, k) is Some,
    ensures
        place_fold(ch, pp, mo, rem0, j) is Some,
        (place_fold(ch, pp, mo, rem0, j)->0).0.len() == j,
    decreases k - j,
{
    if j < k {
        lemma_place_fold_prefix(ch, pp, mo, rem0, (k - 1) as nat, j);
    }
    lemma_place_fold_len(ch, pp, mo, rem0, j);
}

proof fn lemma_place_fold_len(ch: Seq<AnyWidget>, pp: PlaceParams, mo: i32, rem0: i32, k: nat)
    requires
        place_fold(ch, pp, mo, rem0, k) is Some,
    ensures
        (place_fold(ch, pp, mo, rem0, k)->0).0.len() == k,
    decreases k,
{
    if k > 0 {
        lemma_place_fold_len(ch, pp, mo, rem0, (k - 1) as nat);
    }
}

proof fn lemma_place_fold_extends(ch: Seq<AnyWidget>, pp: PlaceParams, mo: i32, rem0: i32, k: nat, j: nat)
    requires
        j <= k,
        place_fold(ch, pp, mo, rem0, k) is Some,
    ensures
        (place_fold(ch, pp, mo, rem0, j)->0).0 == (place_fold(ch, pp, mo, rem0, k)->0).0.subrange(0, j as int),
    decreases k - j,
{
    lemma_place_fold_prefix(ch, pp, mo, rem0, k, j);
    lemma_place_fold_len(ch, pp, mo, rem0, k);
    if j < k {
        lemma_place_fold_extends(ch, pp, mo, rem0, (k - 1) as nat, j);
        lemma_place_fold_len(ch, pp, mo, rem0, (k - 1) as nat);
        assert((place_fold(ch, pp, mo, rem0, (k - 1) as nat)->0).0 == (place_fold(ch, pp, mo, rem0, k)->0).0.subrange(0, k - 1));
    }
}

pub fn axis_bounds(axis: Axis, r: Rect) -> (b: (i32, i32, i32, i32))
    ensures
        b == axis_bounds_spec(axis, r),
{
    match axis {
        Axis::Vertical => (r.y, r.h, r.x, r.w),
        Axis::Horizontal => (r.x, r.w, r.y, r.h),
    }
}

pub fn rect_from(axis: Axis, main_pos: i32, main_ext: i32, cross_pos: i32, cross_ext: i32) -> (r: Rect)
    ensures
        r == rect_from_spec(axis, main_pos, main_ext, cross_pos, cross_ext),
{
    let size = join(axis, main_ext, cross_ext);
    match axis {
        Axis::Vertical => Rect::new(cross_pos, main_pos, size.w, size.h),
        Axis::Horizontal => Rect::new(main_pos, cross_pos, size.w, size.h),
    }
}

/// Cross-axis position and extent for a child given the stack alignment.
pub fn cross_placement(align: Align, origin: i32, avail: i32, natural: i32) -> (r: (i32, i32))
    requires
        cross_placement_spec(align, origin, avail, natural) is Some,
    ensures
        r == cross_placement_spec(align, origin, avail, natural)->0,
{
    match align {
        Align::Fill => (origin, avail),
        Align::Leading => (origin, natural),
        Align::Trailing => {
            let d = avail - natural;
            (origin + if d > 0 { d } else { 0 }, natural)
        },
        Align::Center => {
            let d = avail - natural;
            (origin + (if d > 0 { d } else { 0 }) / 2, natural)
        },
    }
}

/// Computes the rectangles of a stack's children: natural sizes, leftover
/// space shared among the spacers, then placement along both axes.
pub fn stack_child_rects(s: &Stack, rect: Rect) -> (r: Vec<Rect>)
    requires
        child_rects(*s, rect) is Some,
    ensures
        r@ == child_rects(*s, rect)->0,
{
    let inner = rect.inset(s.padding);
    let axis = s.axis;
    let n = s.children.len();
    if n == 0 {
        return Vec::new();
    }
    let ghost ch = s.children@;
    let isz = inner.size();
    let mut naturals: Vec<Size> = Vec::new();
    let mut total_main: i32 = 0;
    let mut cross_acc: i32 = 0;
    let mut flex: i32 = 0;
    let mut i: usize = 0;
    while i < n
        invariant
            ch == s.children@,
            n == ch.len(),
            n <= i32::MAX,
            i <= n,
            isz == (Size { w: inner.w, h: inner.h }),
            measure_fold(ch, isz, axis, s.spacing, n as nat, n as nat) is Some,
            measure_fold(ch, isz, axis, s.spacing, n as nat, i as nat) == Some((total_main, cross_acc)),
            flex == flex_count(ch, i as nat),
            naturals@.len() == i,
            forall|j: int| 0 <= j < i ==> measure_spec(ch[j], isz) == Some(#[trigger] naturals@[j]),
            axis == s.axis,
        decreases n - i,
    {
        proof {
            crate::widget::lemma_measure_fold_prefix(ch, isz, axis, s.spacing, n as nat, n as nat, (i + 1) as nat);
            lemma_flex_count_bound(ch, i as nat);
        }
        let m = s.children[i].measure(isz);
        let (cm, cc) = split(axis, m);
        naturals.push(m);
        total_main = total_main + cm;
        if cc > cross_acc {
            cross_acc = cc;
        }
        if s.children[i].is_flexible() {
            flex = flex + 1;
        }
        if i + 1 < n {
            total_main = total_main + s.spacing;
        }
        i += 1;
    }
    let (main_origin, main_size, cross_origin, cross_size) = axis_bounds(axis, inner);
    let d = main_size - total_main;
    let leftover = if d > 0 { d } else { 0 };
    let per_flex: i32 = if flex > 0 { leftover / flex } else { 0 };
    let mut rem: i32 = if flex > 0 { leftover % flex } else { 0 };
    let ghost pp = PlaceParams {
        inner: isz,
        axis: s.axis,
        align: s.align,
        spacing: s.spacing,
        per_flex,
        cross_origin,
        cross_size,
    };
    let ghost rem0 = rem;
    assert(place_fold(ch, pp, main_origin, rem0, n as nat) is Some);
    let mut rects: Vec<Rect> = Vec::new();
    let mut cursor = main_origin;
    let mut k: usize = 0;
    while k < n
        invariant
            ch == s.children@,
            n == ch.len(),
            k <= n,
            naturals@.len() == n,
            forall|j: int| 0 <= j < n ==> measure_spec(ch[j], isz) == Some(#[trigger] naturals@[j]),
            place_fold(ch, pp, main_origin, rem0, n as nat) is Some,
            place_fold(ch, pp, main_origin, rem0, k as nat) == Some((rects@, cursor, rem)),
            pp.inner == isz,
            pp.axis == axis,
            axis == s.axis,
            pp.align == s.align,
            pp.spacing == s.spacing,
            pp.per_flex == per_flex,
            pp.cross_origin == cross_origin,
            pp.cross_size == cross_size,
        decreases n - k,
    {
        proof {
            lemma_place_fold_prefix(ch, pp, main_origin, rem0, n as nat, (k + 1) as nat);
        }
        let (nat_main, nat_cross) = split(axis, naturals[k]);
        let mut child_main = nat_main;
        if s.children[k].is_flexible() {
            child_main = child_main + per_flex;
            if rem > 0 {
                child_main = child_main + 1;
                rem = rem - 1;
            }
        }
        let (cp, ce) = cross_placement(s.align, cross_origin, cross_size, nat_cross);
        let r = rect_from(axis, cursor, child_main, cp, ce);
        rects.push(r);
        cursor = cursor + (child_main + s.spacing);
        k += 1;
    }
    rects
}

/// `cross_placement`, or `None` where it overflows.
pub fn cross_placement_opt(align: Align, origin: i32, avail: i32, natural: i32) -> (r: Option<(i32, i32)>)
    ensures
        r == cross_placement_spec(align, origin, avail, natural),
{
    let lo = i32::MIN as i64;
    let hi = i32::MAX as i64;
    let d = avail as i64 - natural as i64;
    let extra = if d > 0 { d } else { 0 };
    match align {
        Align::Fill => Some((origin, avail)),
        Align::Leading => Some((origin, natural)),
        Align::Trailing => {
            let p = origin as i64 + extra;
            if lo <= d && d <= hi && lo <= p && p <= hi {
                Some((p as i32, natural))
            } else {
                None
            }
        },
        Align::Center => {
            let p = origin as i64 + extra / 2;
            if lo <= d && d <= hi && lo <= p && p <= hi {
                Some((p as i32, natural))
            } else {
                None
            }
        },
    }
}

proof fn lemma_place_fold_none_stays(ch: Seq<AnyWidget>, pp: PlaceParams, mo: i32, rem0: i32, j: nat, k: nat)
    requires
        j <= k,
        place_fold(ch, pp, mo, rem0, j) is None,
    ensures
        place_fold(ch, pp, mo, rem0, k) is None,
    decreases k - j,
{
    if j < k {
        lemma_place_fold_none_stays(ch, pp, mo, rem0, j, (k - 1) as nat);
    }
}

/// The rectangles a stack gives its children in `rect`, or `None` where the
/// computation overflows.
pub fn child_rects_opt(s: &Stack, rect: Rect) -> (r: Option<Vec<Rect>>)
    ensures
        match child_rects(*s, rect) {
            Some(rs) => r matches Some(v) && v@ == rs,
            None => r is None,
        },
{
    let lo = i32::MIN as i64;
    let hi = i32::MAX as i64;
    let n = s.children.len();
    if !rect.inset_fits_check(s.padding) || n > 0x7fff_ffff {
        return None;
    }
    if n == 0 {
        return Some(Vec::new());
    }
    let inner = rect.inset(s.padding);
    let axis = s.axis;
    let ghost ch = s.children@;
    let isz = inner.size();
    let mut naturals: Vec<Size> = Vec::new();
    let mut total_main: i32 = 0;
    let mut cross_acc: i32 = 0;
    let mut flex: i32 = 0;
    let mut i: usize = 0;
    while i < n
        invariant
            ch == s.children@,
            n == ch.len(),
            n <= i32::MAX,
            i <= n,
            lo == i32::MIN,
            hi == i32::MAX,
            isz == (Size { w: inner.w, h: inner.h }),
            rect.inset_fits(s.padding),
            inner == rect.inset_spec(s.padding),
            n > 0,
            measure_fold(ch, isz, axis, s.spacing, n as nat, i as nat) == Some((total_main, cross_acc)),
            flex == flex_count(ch, i as nat),
            naturals@.len() == i,
            forall|j: int| 0 <= j < i ==> measure_spec(ch[j], isz) == Some(#[trigger] naturals@[j]),
            axis == s.axis,
        decreases n - i,
    {
        proof {
            lemma_flex_count_bound(ch, i as nat);
        }
        let m = match s.children[i].measure_opt(isz) {
            Some(m) => m,
            None => {
                assert(measure_fold(ch, isz, axis, s.spacing, n as nat, (i + 1) as nat) is None);
                proof {
                    lemma_measure_fold_none_stays(ch, isz, axis, s.spacing, n as nat, (i + 1) as nat, n as nat);
                }
                return None;
            },
        };
        let (cm, cc) = split(axis, m);
        let main1 = total_main as i64 + cm as i64;
        if !(lo <= main1 && main1 <= hi) {
            assert(measure_fold(ch, isz, axis, s.spacing, n as nat, (i + 1) as nat) is None);
            proof {
                lemma_measure_fold_none_stays(ch, isz, axis, s.spacing, n as nat, (i + 1) as nat, n as nat);
            }
            return None;
        }
        if i + 1 < n {
            let with_gap = main1 + s.spacing as i64;
            if !(lo <= with_gap && with_gap <= hi) {
                assert(measure_fold(ch, isz, axis, s.spacing, n as nat, (i + 1) as nat) is None);
                proof {
                    lemma_measure_fold_none_stays(ch, isz, axis, s.spacing, n as nat, (i + 1) as nat, n as nat);
                }
                return None;
            }
            total_main = with_gap as i32;
        } else {
            total_main = main1 as i32;
        }
        naturals.push(m);
        if cc > cross_acc {
            cross_acc = cc;
        }
        if s.children[i].is_flexible() {
            flex = flex + 1;
        }
        i += 1;
    }
    let (main_origin, main_size, cross_origin, cross_size) = axis_bounds(axis, inner);
    let d = main_size as i64 - total_main as i64;
    if !(lo <= d && d <= hi) {
        return None;
    }
    let d = d as i32;
    let leftover = if d > 0 { d } else { 0 };
    let per_flex: i32 = if flex > 0 { leftover / flex } else { 0 };
    let mut rem: i32 = if flex > 0 { leftover % flex } else { 0 };
    let ghost pp = PlaceParams {
        inner: isz,
        axis: s.axis,
        align: s.align,
        spacing: s.spacing,
        per_flex,
        cross_origin,
        cross_size,
    };
    let ghost rem0 = rem;
    assert(child_rects(*s, rect) == match place_fold(ch, pp, main_origin, rem0, n as nat) {
        Some(r) => Some(r.0),
        None => None::<Seq<Rect>>,
    });
    let mut rects: Vec<Rect> = Vec::new();
    let mut cursor = main_origin;
    let mut k: usize = 0;
    while k < n
        invariant
            ch == s.children@,
            n == ch.len(),
            k <= n,
            child_rects(*s, rect) == match place_fold(ch, pp, main_origin, rem0, n as nat) {
                Some(r) => Some(r.0),
                None => None::<Seq<Rect>>,
            },
            lo == i32::MIN,
            hi == i32::MAX,
            naturals@.len() == n,
            forall|j: int| 0 <= j < n ==> measure_spec(ch[j], isz) == Some(#[trigger] naturals@[j]),
            place_fold(ch, pp, main_origin, rem0, k as nat) == Some((rects@, cursor, rem)),
            pp.inner == isz,
            pp.axis == axis,
            axis == s.axis,
            pp.align == s.align,
            pp.spacing == s.spacing,
            pp.per_flex == per_flex,
            pp.cross_origin == cross_origin,
            pp.cross_size == cross_size,
        decreases n - k,
    {
        let (nat_main, nat_cross) = split(axis, naturals[k]);
        let flexible = s.children[k].is_flexible();
        let base = nat_main as i64 + per_flex as i64;
        let mut child_main = nat_main as i64;
        let mut rem2 = rem;
        let mut ok = true;
        if flexible {
            if !(lo <= base && base <= hi && (rem <= 0 || base + 1 <= hi)) {
                ok = false;
            }
            child_main = base;
            if rem > 0 {
                child_main = base + 1;
                rem2 = rem - 1;
            }
        }
        let step = child_main + s.spacing as i64;
        let next_cursor = cursor as i64 + step;
        let cp = cross_placement_opt(s.align, cross_origin, cross_size, nat_cross);
        if !ok || cp.is_none() || !(lo <= step && step <= hi) || !(lo <= next_cursor && next_cursor <= hi) {
            assert(place_fold(ch, pp, main_origin, rem0, (k + 1) as nat) is None);
            proof {
                lemma_place_fold_none_stays(ch, pp, main_origin, rem0, (k + 1) as nat, n as nat);
            }
            return None;
        }
        let (cpos, cext) = match cp {
            Some(c) => c,
            None => (0, 0),
        };
        let r = rect_from(axis, cursor, child_main as i32, cpos, cext);
        rects.push(r);
        cursor = next_cursor as i32;
        rem = rem2;
        k += 1;
    }
    assert(place_fold(ch, pp, main_origin, rem0, n as nat) == Some((rects@, cursor, rem)));
    Some(rects)
}

/// Whether `place_ok` holds: laying `w` out in `rect` does not overflow.
pub fn place_ok_check(w: &AnyWidget, rect: Rect) -> (b: bool)
    ensures
        b == place_ok(*w, rect),
    decreases w,
{
    match w {
        AnyWidget::Stack(s) => match child_rects_opt(s, rect) {
            None => false,
            Some(rects) => {
                let n = s.children.len();
                let ghost ch = s.children@;
                proof {
                    lemma_child_rects_len(*s, rect);
                }
                let mut i: usize = 0;
                while i < n
                    invariant
                        n == ch.len(),
                        ch == s.children@,
                        *w == AnyWidget::Stack(*s),
                        child_rects(*s, rect) == Some(rects@),
                        rects@.len() == n,
                        i <= n,
                        all_place_ok(ch, rects@, i as nat),
                        forall|j: int| 0 <= j < n ==> decreases_to!(w => #[trigger] ch[j]),
                    decreases n - i,
                {
                    if !place_ok_check(&s.children[i], rects[i]) {
                        assert(!place_ok(*w, rect)) by {
                            if place_ok(*w, rect) {
                                assert(all_place_ok(ch, rects@, n as nat));
                                lemma_all_place_ok_index(ch, rects@, n as nat, i as int);
                            }
                        }
                        return false;
                    }
                    i += 1;
                }
                true
            },
        },
        _ => true,
    }
}

/// Lays out `w` in `rect`, returning the widget with every frame written.
pub fn place(w: AnyWidget, rect: Rect) -> (w2: AnyWidget)
    requires
        place_ok(w, rect),
    ensures
        placed(w, rect, w2),
    decreases w,
{
    match w {
        AnyWidget::Stack(s) => {
            let rects = stack_child_rects(&s, rect);
            proof {
                lemma_child_rects_len(s, rect);
            }
            let ghost orig = s.children@;
            let ghost old_s = s;
            let Stack { common, axis, spacing, padding, align, bg, children } = s;
            let mut rest = children;
            let n = rest.len();
            let mut out: Vec<AnyWidget> = Vec::new();
            let mut i: usize = 0;
            while i < n
                invariant
                    n == orig.len(),
                    rects@ == child_rects(old_s, rect)->0,
                    rects@.len() == n,
                    all_place_ok(orig, rects@, n as nat),
                    i <= n,
                    rest@ == orig.subrange(i as int, n as int),
                    out@.len() == i,
                    all_placed(orig, rects@, out@, i as nat),
                    forall|j: int| 0 <= j < n ==> decreases_to!(w => #[trigger] orig[j]),
                decreases n - i,
            {
                let c = rest.remove(0);
                assert(c == orig[i as int]);
                proof {
                    lemma_all_place_ok_index(orig, rects@, n as nat, i as int);
                }
                let c2 = place(c, rects[i]);
                let ghost prev = out@;
                out.push(c2);
                proof {
                    lemma_all_placed_push(orig, rects@, prev, c2, i as nat);
                }
                i += 1;
            }
            let mut common2 = common;
            common2.frame = rect;
            AnyWidget::Stack(Stack { common: common2, axis, spacing, padding, align, bg, children: out })
        },
        _ => {
            let mut w2 = w;
            w2.set_frame(rect);
            w2
        },
    }
}

proof fn lemma_all_placed_push(ch: Seq<AnyWidget>, rs: Seq<Rect>, out: Seq<AnyWidget>, c2: AnyWidget, i: nat)
    requires
        all_placed(ch, rs, out, i),
        out.len() == i,
        i < ch.len(),
        i < rs.len(),
        placed(ch[i as int], rs[i as int], c2),
    ensures
        all_placed(ch, rs, out.push(c2), i + 1),
{
    lemma_all_placed_ext(ch, rs, out, out.push(c2), i);
}

proof fn lemma_all_placed_ext(ch: Seq<AnyWidget>, rs: Seq<Rect>, a: Seq<AnyWidget>, b: Seq<AnyWidget>, k: nat)
    requires
        all_placed(ch, rs, a, k),
        k <= b.len(),
        forall|j: int| 0 <= j < k ==> a[j] == b[j],
    ensures
        all_placed(ch, rs, b, k),
    decreases k,
{
    if k > 0 {
        lemma_all_placed_ext(ch, rs, a, b, (k - 1) as nat);
    }
}

/// Lays out `root` (and all descendants) to fill `bounds`.
pub fn layout(root: &mut AnyWidget, bounds: Rect)
    requires
        place_ok(*old(root), bounds),
    ensures
        placed(*old(root), bounds, *final(root)),
{
    let mut w = AnyWidget::Spacer(Spacer::new());
    std::mem::swap(root, &mut w);
    *root = place(w, bounds);
}

} // verus!
