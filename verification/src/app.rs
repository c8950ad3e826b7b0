//! The application: owns the widget tree and the renderer, dispatches taps,
//! and renders frames — computing the damaged region, redrawing it, and
//! choosing between a partial and a full (ghost-clearing) e-ink refresh.

use std::rc::Rc;

use vstd::cell::invcell::InvCell;
use vstd::predicate::Predicate;
use vstd::prelude::*;

use crate::geometry::{fits_i32, max_int, Point, Rect, Size};
use crate::input::{map_fits, map_spec, Calibration, TouchEvent, TouchKind};
use crate::layout::{place, place_ok, place_ok_check, placed};
use crate::render::{Color, DrawCmd, RefreshMode, Renderer};
use crate::tree::{
    label_at, label_set_at, set_label_text_at, assign_ids, assign_next, assign_next_opt, assigned, clear_dirty, cleared, paint_all, paint_damaged, paint_hit,
    paint_tree,
};
use crate::widget::{
    commons, hit_fits, hit_fits_check, hit_spec, hit_test, lemma_trees_fit_index, node_fits, paint_spec, tree_fits, tree_fits_check, trees_fit,
    walk,
    AnyWidget, Common, Spacer, WidgetId,
};
use crate::tree::{paint_hit_seq};

verus! {

/// Force a full refresh when the damaged area reaches this percentage of the
/// screen.
pub const FULL_REFRESH_AREA_PCT: i64 = 40;

/// Force a full refresh when this percentage of screen tiles has been touched
/// by partial refreshes since the last full flash.
pub const FULL_REFRESH_DIRTY_TILE_PCT: i64 = 30;

/// Safety ceiling on consecutive partial refreshes.
pub const MAX_PARTIAL_REFRESHES: u32 = 32;

pub const DAMAGE_TILE_COLS: usize = 8;

pub const DAMAGE_TILE_ROWS: usize = 8;

pub const DAMAGE_TILE_COUNT: usize = 64;

/// Any value is allowed in the exit flag's cell.
pub struct AnyFlag {}

impl Predicate<bool> for AnyFlag {
    open spec fn predicate(&self, v: bool) -> bool {
        true
    }
}

/// A shared exit flag. Give a clone to any tap handler that should be able to
/// stop the event loop.
pub struct ExitHandle {
    pub flag: Rc<InvCell<bool, AnyFlag>>,
}

impl ExitHandle {
    pub fn new() -> (e: ExitHandle) {
        ExitHandle { flag: Rc::new(InvCell::new(false, Ghost(AnyFlag {  }))) }
    }

    /// Another handle to the same flag.
    pub fn share(&self) -> (e: ExitHandle)
        ensures
            e.flag == self.flag,
    {
        ExitHandle { flag: Rc::clone(&self.flag) }
    }

    /// Requests that the event loop stop after the current frame.
    pub fn request_exit(&self) {
        self.flag.set(true);
    }

    /// Whether any handle to this flag has requested exit. The flag is shared
    /// mutable state, so no clause ties the result to earlier calls.
    pub fn is_set(&self) -> (b: bool) {
        self.flag.get()
    }
}

pub open spec fn clamp_int(v: int, lo: int, hi: int) -> int {
    if v < lo { lo } else if v > hi { hi } else { v }
}

/// Tile row/column span covered by `damage` clipped to `bounds`:
/// (left, right, top, bottom), inclusive; `None` when nothing is covered.
pub open spec fn tile_span(damage: Rect, bounds: Rect) -> Option<(int, int, int, int)> {
    let d = damage.intersection_spec(bounds);
    if d.is_empty_spec() || bounds.is_empty_spec() {
        None
    } else {
        let width = max_int(bounds.w as int, 1);
        let height = max_int(bounds.h as int, 1);
        let left = clamp_int(max_int(d.x - bounds.x, 0) * 8 / width, 0, 7);
        let right = clamp_int(max_int(d.right_spec() - 1 - bounds.x, 0) * 8 / width, 0, 7);
        let top = clamp_int(max_int(d.y - bounds.y, 0) * 8 / height, 0, 7);
        let bottom = clamp_int(max_int(d.bottom_spec() - 1 - bounds.y, 0) * 8 / height, 0, 7);
        Some((left, right, top, bottom))
    }
}

/// The tiles (row-major indices into an 8x8 grid over `bounds`) that
/// `damage` touches, row by row.
pub open spec fn tiles_spec(damage: Rect, bounds: Rect) -> Seq<int> {
    match tile_span(damage, bounds) {
        None => Seq::empty(),
        Some((l, r, t, b)) => if r < l || b < t {
            Seq::empty()
        } else {
            let cols = r - l + 1;
            Seq::new(((b - t + 1) * cols) as nat, |i: int| (t + i / cols) * 8 + l + i % cols)
        },
    }
}

/// The arithmetic of `tiles_for_damage` stays within `i32`/`i64`.
pub open spec fn tiles_fit(damage: Rect, bounds: Rect) -> bool {
    &&& damage.edges_fit()
    &&& bounds.edges_fit()
    &&& fits_i32(damage.intersection_spec(bounds).x - bounds.x)
    &&& fits_i32(damage.intersection_spec(bounds).y - bounds.y)
    &&& fits_i32(damage.intersection_spec(bounds).right_spec() - 1 - bounds.x)
    &&& fits_i32(damage.intersection_spec(bounds).bottom_spec() - 1 - bounds.y)
}

/// Number of entries of `tiles` not yet marked in `dirty`.
pub open spec fn newly_dirty(tiles: Seq<int>, dirty: Seq<bool>) -> nat
    decreases tiles.len(),
{
    if tiles.len() == 0 {
        0
    } else {
        newly_dirty(tiles.drop_last(), dirty) + if dirty[tiles.last()] { 0nat } else { 1nat }
    }
}

pub fn tiles_for_damage(damage: Rect, bounds: Rect) -> (t: Vec<usize>)
    requires
        tiles_fit(damage, bounds),
    ensures
        t@.len() == tiles_spec(damage, bounds).len(),
        forall|i: int| 0 <= i < t@.len() ==> t@[i] == tiles_spec(damage, bounds)[i],
        forall|i: int| 0 <= i < t@.len() ==> 0 <= #[trigger] t@[i] < 64,
        t@.len() <= 64,
{
    let d = damage.intersection(bounds);
    if d.is_empty() || bounds.is_empty() {
        return Vec::new();
    }
    let cols: i64 = 8;
    let rows: i64 = 8;
    let width: i64 = if bounds.w > 1 { bounds.w as i64 } else { 1 };
    let height: i64 = if bounds.h > 1 { bounds.h as i64 } else { 1 };
    let dx = d.x - bounds.x;
    let dr = d.right() - 1 - bounds.x;
    let dy = d.y - bounds.y;
    let db = d.bottom() - 1 - bounds.y;
    let l0: i64 = (if dx > 0 { dx } else { 0 }) as i64 * cols / width;
    let r0: i64 = (if dr > 0 { dr } else { 0 }) as i64 * cols / width;
    let t0: i64 = (if dy > 0 { dy } else { 0 }) as i64 * rows / height;
    let b0: i64 = (if db > 0 { db } else { 0 }) as i64 * rows / height;
    let left: i64 = if l0 < 0 { 0 } else if l0 > cols - 1 { cols - 1 } else { l0 };
    let right: i64 = if r0 < 0 { 0 } else if r0 > cols - 1 { cols - 1 } else { r0 };
    let top: i64 = if t0 < 0 { 0 } else if t0 > rows - 1 { rows - 1 } else { t0 };
    let bottom: i64 = if b0 < 0 { 0 } else if b0 > rows - 1 { rows - 1 } else { b0 };
    let ghost span = tile_span(damage, bounds);
    assert(span == Some((left as int, right as int, top as int, bottom as int)));
    let mut tiles: Vec<usize> = Vec::new();
    if right < left || bottom < top {
        return tiles;
    }
    let ghost ncols = right - left + 1;
    let mut row = top;
    assert((row - top) * ncols == 0) by (nonlinear_arith)
        requires
            row == top,
    ;
    while row <= bottom
        invariant
            top <= row <= bottom + 1,
            0 <= top <= bottom <= 7,
            0 <= left <= right <= 7,
            ncols == right - left + 1,
            tiles@.len() == (row - top) * ncols,
            forall|i: int| 0 <= i < tiles@.len() ==> #[trigger] tiles@[i] == (top + i / ncols) * 8 + left + i % ncols,
            forall|i: int| 0 <= i < tiles@.len() ==> 0 <= #[trigger] tiles@[i] < 64,
        decreases bottom + 1 - row,
    {
        let mut col = left;
        while col <= right
            invariant
                top <= row <= bottom,
                0 <= top <= bottom <= 7,
                left <= col <= right + 1,
                0 <= left <= right <= 7,
                ncols == right - left + 1,
                tiles@.len() == (row - top) * ncols + (col - left),
                forall|i: int| 0 <= i < tiles@.len() ==> #[trigger] tiles@[i] == (top + i / ncols) * 8 + left + i % ncols,
                forall|i: int| 0 <= i < tiles@.len() ==> 0 <= #[trigger] tiles@[i] < 64,
            decreases right + 1 - col,
        {
            let ghost idx = tiles@.len() as int;
            proof {
                assert((row - top) * ncols + (col - left) == idx);
                assert(idx / ncols == row - top && idx % ncols == col - left) by (nonlinear_arith)
                    requires
                        idx == (row - top) * ncols + (col - left),
                        0 <= col - left < ncols,
                        row - top >= 0,
                ;
            }
            tiles.push((row * 8 + col) as usize);
            col += 1;
        }
        assert(tiles@.len() == (row + 1 - top) * ncols) by (nonlinear_arith)
            requires
                tiles@.len() == (row - top) * ncols + (right + 1 - left),
                ncols == right - left + 1,
        ;
        row += 1;
    }
    assert(tiles@.len() == (bottom - top + 1) * ncols);
    assert((bottom - top + 1) * ncols <= 64) by (nonlinear_arith)
        requires
            0 <= top <= bottom <= 7,
            1 <= ncols <= 8,
    ;
    tiles
}

/// Whether `tiles_for_damage` can take these rectangles.
pub fn tiles_fit_check(damage: Rect, bounds: Rect) -> (b: bool)
    ensures
        b == tiles_fit(damage, bounds),
{
    if !damage.edges_fit_check() || !bounds.edges_fit_check() {
        return false;
    }
    let i = damage.intersection(bounds);
    let lo = i32::MIN as i64;
    let hi = i32::MAX as i64;
    let a = i.x as i64 - bounds.x as i64;
    let b = i.y as i64 - bounds.y as i64;
    let c = i.x as i64 + i.w as i64 - 1 - bounds.x as i64;
    let e = i.y as i64 + i.h as i64 - 1 - bounds.y as i64;
    lo <= a && a <= hi && lo <= b && b <= hi && lo <= c && c <= hi && lo <= e && e <= hi
}

/// Frame the widget `id` had at the last paint: the latest entry for `id`.
pub open spec fn frame_of(last: Seq<(WidgetId, Rect)>, id: WidgetId) -> Option<Rect>
    decreases last.len(),
{
    if last.len() == 0 {
        None
    } else if last.last().0 == id {
        Some(last.last().1)
    } else {
        frame_of(last.drop_last(), id)
    }
}

/// Accumulates `r` into the damage `acc`; `None` once an overflow occurred.
pub open spec fn union_opt(acc: Option<Rect>, r: Rect) -> Option<Rect> {
    match acc {
        None => None,
        Some(a) => if a.union_fits(r) { Some(a.union_spec(r)) } else { None },
    }
}

/// Damage from widgets dirty before layout: their previous frames.
pub open spec fn damage_pre(cs: Seq<Common>, last: Seq<(WidgetId, Rect)>, k: nat) -> Option<Rect>
    decreases k,
{
    if k == 0 || k > cs.len() {
        if k == 0 { Some(Rect::zero()) } else { None }
    } else {
        let prev = damage_pre(cs, last, (k - 1) as nat);
        let c = cs[k - 1];
        if c.dirty && frame_of(last, c.id) is Some {
            union_opt(prev, frame_of(last, c.id)->0)
        } else {
            prev
        }
    }
}

/// Damage from dirty, moved, or new widgets after layout: their new frames and
/// (if any) their previous frames.
pub open spec fn damage_post(cs: Seq<Common>, last: Seq<(WidgetId, Rect)>, acc: Option<Rect>, k: nat) -> Option<Rect>
    decreases k,
{
    if k == 0 || k > cs.len() {
        if k == 0 { acc } else { None }
    } else {
        let prev = damage_post(cs, last, acc, (k - 1) as nat);
        let c = cs[k - 1];
        let old = frame_of(last, c.id);
        if c.dirty || old != Some(c.frame) {
            let a1 = union_opt(prev, c.frame);
            match old {
                Some(o) => union_opt(a1, o),
                None => a1,
            }
        } else {
            prev
        }
    }
}

pub open spec fn has_id(cs: Seq<Common>, id: WidgetId) -> bool {
    exists|i: int| 0 <= i < cs.len() && (#[trigger] cs[i]).id == id
}

/// Damage from widgets that were removed since the last frame.
pub open spec fn damage_gone(last: Seq<(WidgetId, Rect)>, cs: Seq<Common>, acc: Option<Rect>, k: nat) -> Option<Rect>
    decreases k,
{
    if k == 0 || k > last.len() {
        if k == 0 { acc } else { None }
    } else {
        let prev = damage_gone(last, cs, acc, (k - 1) as nat);
        if !has_id(cs, last[k - 1].0) {
            union_opt(prev, last[k - 1].1)
        } else {
            prev
        }
    }
}

/// The damaged region of a frame, from the pre-layout and post-layout
/// pre-order snapshots and the previous frame's record.
pub open spec fn damage_spec(pre: Seq<Common>, post: Seq<Common>, last: Seq<(WidgetId, Rect)>) -> Option<Rect> {
    damage_gone(
        last,
        post,
        damage_post(post, last, damage_pre(pre, last, pre.len()), post.len()),
        last.len(),
    )
}

pub open spec fn frames_spec(cs: Seq<Common>) -> Seq<(WidgetId, Rect)> {
    Seq::new(cs.len(), |i: int| (cs[i].id, cs[i].frame))
}

/// Clips fills to `d`, dropping fills that become empty; text is kept.
pub open spec fn clip_fills(cmds: Seq<DrawCmd>, d: Rect) -> Seq<DrawCmd>
    decreases cmds.len(),
{
    if cmds.len() == 0 {
        Seq::empty()
    } else {
        let rest = clip_fills(cmds.drop_last(), d);
        match cmds.last() {
            DrawCmd::FillRect { rect, color } => {
                let r = rect.intersection_spec(d);
                if r.is_empty_spec() {
                    rest
                } else {
                    rest.push(DrawCmd::FillRect { rect: r, color })
                }
            },
            other => rest.push(other),
        }
    }
}

/// Every fill in `cmds` has representable edges.
pub open spec fn fills_fit(cmds: Seq<DrawCmd>) -> bool {
    forall|i: int|
        0 <= i < cmds.len() ==> (#[trigger] cmds[i] matches DrawCmd::FillRect { rect, .. }
            ==> rect.edges_fit())
}

/// Tile marks after marking `tiles[..k]` in order: (marks, count).
pub open spec fn mark_fold(tiles: Seq<int>, dirty: Seq<bool>, count: nat, k: nat) -> (Seq<bool>, nat)
    decreases k,
{
    if k == 0 || k > tiles.len() {
        (dirty, count)
    } else {
        let prev = mark_fold(tiles, dirty, count, (k - 1) as nat);
        let t = tiles[k - 1];
        if prev.0[t] {
            prev
        } else {
            (prev.0.update(t, true), prev.1 + 1)
        }
    }
}

pub open spec fn area_forces_full(d: Rect, b: Rect) -> bool {
    d.area_spec() * 100 >= b.area_spec() * FULL_REFRESH_AREA_PCT
}

pub open spec fn tiles_force_full(count: nat, tiles: Seq<int>, dirty: Seq<bool>) -> bool {
    (count + newly_dirty(tiles, dirty)) * 100 >= 64 * FULL_REFRESH_DIRTY_TILE_PCT
}

/// Widget ids and frames in pre-order.
pub fn frame_list(cs: &Vec<Common>) -> (r: Vec<(WidgetId, Rect)>)
    ensures
        r@ == frames_spec(cs@),
{
    let mut out: Vec<(WidgetId, Rect)> = Vec::new();
    let mut i: usize = 0;
    while i < cs.len()
        invariant
            i <= cs@.len(),
            out@ == frames_spec(cs@.subrange(0, i as int)),
        decreases cs@.len() - i,
    {
        out.push((cs[i].id, cs[i].frame));
        assert(out@ =~= frames_spec(cs@.subrange(0, i + 1)));
        i += 1;
    }
    assert(cs@.subrange(0, cs@.len() as int) == cs@);
    out
}

/// Latest recorded frame of `id`.
pub fn frame_lookup(last: &Vec<(WidgetId, Rect)>, id: WidgetId) -> (r: Option<Rect>)
    ensures
        r == frame_of(last@, id),
{
    let mut i = last.len();
    assert(last@.subrange(0, last@.len() as int) == last@);
    while i > 0
        invariant
            i <= last@.len(),
            frame_of(last@, id) == frame_of(last@.subrange(0, i as int), id),
        decreases i,
    {
        let ghost pre = last@.subrange(0, i as int);
        assert(pre.drop_last() == last@.subrange(0, i - 1));
        if last[i - 1].0 == id {
            return Some(last[i - 1].1);
        }
        i -= 1;
    }
    None
}

fn contains_id(cs: &Vec<Common>, id: WidgetId) -> (b: bool)
    ensures
        b == has_id(cs@, id),
{
    let mut i: usize = 0;
    while i < cs.len()
        invariant
            i <= cs@.len(),
            forall|j: int| 0 <= j < i ==> (#[trigger] cs@[j]).id != id,
        decreases cs@.len() - i,
    {
        if cs[i].id == id {
            return true;
        }
        i += 1;
    }
    false
}

fn union_step(acc: Rect, r: Rect) -> (u: Rect)
    requires
        acc.union_fits(r),
    ensures
        u == acc.union_spec(r),
{
    acc.union(r)
}

proof fn lemma_fold_some_prefix_pre(cs: Seq<Common>, last: Seq<(WidgetId, Rect)>, k: nat, j: nat)
    requires
        j <= k,
        damage_pre(cs, last, k) is Some,
    ensures
        damage_pre(cs, last, j) is Some,
    decreases k - j,
{
    if j < k {
        lemma_fold_some_prefix_pre(cs, last, (k - 1) as nat, j);
    }
}

proof fn lemma_fold_some_prefix_post(cs: Seq<Common>, last: Seq<(WidgetId, Rect)>, acc: Option<Rect>, k: nat, j: nat)
    requires
        j <= k,
        damage_post(cs, last, acc, k) is Some,
    ensures
        damage_post(cs, last, acc, j) is Some,
    decreases k - j,
{
    if j < k {
        lemma_fold_some_prefix_post(cs, last, acc, (k - 1) as nat, j);
    }
}

proof fn lemma_fold_some_prefix_gone(last: Seq<(WidgetId, Rect)>, cs: Seq<Common>, acc: Option<Rect>, k: nat, j: nat)
    requires
        j <= k,
        damage_gone(last, cs, acc, k) is Some,
    ensures
        damage_gone(last, cs, acc, j) is Some,
    decreases k - j,
{
    if j < k {
        lemma_fold_some_prefix_gone(last, cs, acc, (k - 1) as nat, j);
    }
}

/// The damaged region of a frame (dirty widgets' old frames, dirty/moved/new
/// widgets' new and old frames, and removed widgets' old frames).
pub fn compute_damage(pre: &Vec<Common>, post: &Vec<Common>, last: &Vec<(WidgetId, Rect)>) -> (d: Rect)
    requires
        damage_spec(pre@, post@, last@) is Some,
    ensures
        d == damage_spec(pre@, post@, last@)->0,
{
    let ghost a0 = damage_pre(pre@, last@, pre@.len());
    let ghost a1 = damage_post(post@, last@, a0, post@.len());
    proof {
        lemma_fold_some_prefix_gone(last@, post@, a1, last@.len(), 0);
        if a1 is None {
            lemma_gone_none(last@, post@, last@.len());
        }
        if a0 is None {
            lemma_post_none(post@, last@, post@.len());
        }
    }
    let mut damage = Rect::new(0, 0, 0, 0);
    let mut i: usize = 0;
    while i < pre.len()
        invariant
            i <= pre@.len(),
            a0 is Some,
            a0 == damage_pre(pre@, last@, pre@.len()),
            damage_pre(pre@, last@, i as nat) == Some(damage),
        decreases pre@.len() - i,
    {
        proof {
            lemma_fold_some_prefix_pre(pre@, last@, pre@.len(), (i + 1) as nat);
        }
        if pre[i].dirty {
            if let Some(old) = frame_lookup(last, pre[i].id) {
                damage = union_step(damage, old);
            }
        }
        i += 1;
    }
    let mut i: usize = 0;
    while i < post.len()
        invariant
            i <= post@.len(),
            a1 is Some,
            a0 == Some(damage_pre(pre@, last@, pre@.len())->0),
            a1 == damage_post(post@, last@, a0, post@.len()),
            damage_post(post@, last@, a0, i as nat) == Some(damage),
        decreases post@.len() - i,
    {
        proof {
            lemma_fold_some_prefix_post(post@, last@, a0, post@.len(), (i + 1) as nat);
        }
        let f = post[i].frame;
        let old = frame_lookup(last, post[i].id);
        let moved = match old {
            Some(o) => o != f,
            None => true,
        };
        if post[i].dirty || moved {
            damage = union_step(damage, f);
            if let Some(o) = old {
                damage = union_step(damage, o);
            }
        }
        i += 1;
    }
    let mut k: usize = 0;
    while k < last.len()
        invariant
            k <= last@.len(),
            a1 == Some(damage_post(post@, last@, a0, post@.len())->0),
            damage_gone(last@, post@, a1, last@.len()) is Some,
            damage_gone(last@, post@, a1, k as nat) == Some(damage),
        decreases last@.len() - k,
    {
        proof {
            lemma_fold_some_prefix_gone(last@, post@, a1, last@.len(), (k + 1) as nat);
        }
        if !contains_id(post, last[k].0) {
            damage = union_step(damage, last[k].1);
        }
        k += 1;
    }
    damage
}

fn union_opt_exec(acc: Option<Rect>, r: Rect) -> (u: Option<Rect>)
    ensures
        u == union_opt(acc, r),
{
    match acc {
        None => None,
        Some(a) => if a.union_fits_check(r) {
            Some(a.union(r))
        } else {
            None
        },
    }
}

/// The damaged region of a frame, or `None` where accumulating it overflows.
pub fn damage_opt(pre: &Vec<Common>, post: &Vec<Common>, last: &Vec<(WidgetId, Rect)>) -> (d: Option<Rect>)
    ensures
        d == damage_spec(pre@, post@, last@),
{
    let mut acc: Option<Rect> = Some(Rect::new(0, 0, 0, 0));
    let mut i: usize = 0;
    while i < pre.len()
        invariant
            i <= pre@.len(),
            acc == damage_pre(pre@, last@, i as nat),
        decreases pre@.len() - i,
    {
        if pre[i].dirty {
            if let Some(old) = frame_lookup(last, pre[i].id) {
                acc = union_opt_exec(acc, old);
            }
        }
        i += 1;
    }
    let ghost a0 = acc;
    let mut i: usize = 0;
    while i < post.len()
        invariant
            i <= post@.len(),
            a0 == damage_pre(pre@, last@, pre@.len()),
            acc == damage_post(post@, last@, a0, i as nat),
        decreases post@.len() - i,
    {
        let f = post[i].frame;
        let old = frame_lookup(last, post[i].id);
        let moved = match old {
            Some(o) => o != f,
            None => true,
        };
        if post[i].dirty || moved {
            acc = union_opt_exec(acc, f);
            if let Some(o) = old {
                acc = union_opt_exec(acc, o);
            }
        }
        i += 1;
    }
    let ghost a1 = acc;
    let mut k: usize = 0;
    while k < last.len()
        invariant
            k <= last@.len(),
            a1 == damage_post(post@, last@, a0, post@.len()),
            a0 == damage_pre(pre@, last@, pre@.len()),
            acc == damage_gone(last@, post@, a1, k as nat),
        decreases last@.len() - k,
    {
        if !contains_id(post, last[k].0) {
            acc = union_opt_exec(acc, last[k].1);
        }
        k += 1;
    }
    acc
}

proof fn lemma_gone_none(last: Seq<(WidgetId, Rect)>, cs: Seq<Common>, k: nat)
    ensures
        damage_gone(last, cs, None, k) is None,
    decreases k,
{
    if k > 0 {
        lemma_gone_none(last, cs, (k - 1) as nat);
    }
}

proof fn lemma_post_none(cs: Seq<Common>, last: Seq<(WidgetId, Rect)>, k: nat)
    ensures
        damage_post(cs, last, None, k) is None,
    decreases k,
{
    if k > 0 {
        lemma_post_none(cs, last, (k - 1) as nat);
    }
}

/// Clips every fill to `d` and drops fills that become empty.
pub fn clip_to_damage(cmds: Vec<DrawCmd>, d: Rect) -> (r: Vec<DrawCmd>)
    requires
        d.edges_fit(),
        fills_fit(cmds@),
    ensures
        r@ == clip_fills(cmds@, d),
{
    let mut out: Vec<DrawCmd> = Vec::new();
    let mut rest = cmds;
    let ghost orig = rest@;
    let n = rest.len();
    let mut i: usize = 0;
    while i < n
        invariant
            n == orig.len(),
            i <= n,
            d.edges_fit(),
            fills_fit(orig),
            rest@ == orig.subrange(i as int, n as int),
            out@ == clip_fills(orig.subrange(0, i as int), d),
        decreases n - i,
    {
        let c = rest.remove(0);
        assert(c == orig[i as int]);
        assert(orig.subrange(0, i + 1).drop_last() == orig.subrange(0, i as int));
        match c {
            DrawCmd::FillRect { rect, color } => {
                assert(rect.edges_fit());
                let r = rect.intersection(d);
                if !r.is_empty() {
                    out.push(DrawCmd::FillRect { rect: r, color });
                }
            },
            other => {
                out.push(other);
            },
        }
        i += 1;
    }
    assert(orig.subrange(0, n as int) == orig);
    out
}

/// Owns the widget tree, the renderer, and the frame/refresh bookkeeping.
pub struct App<R: Renderer> {
    pub root: AnyWidget,
    pub renderer: R,
    pub screen: Size,
    pub exit: ExitHandle,
    /// Frame each widget occupied at the last paint, in pre-order.
    pub last_frames: Vec<(WidgetId, Rect)>,
    pub partial_since_full: u32,
    pub dirty_tiles: Vec<bool>,
    pub dirty_tile_count: usize,
    pub first_frame: bool,
    /// Next identity handed to an unassigned widget.
    pub next_id: u64,
}

impl<R: Renderer> App<R> {
    pub open spec fn bounds_spec(&self) -> Rect {
        Rect { x: 0, y: 0, w: self.screen.w, h: self.screen.h }
    }

    /// Takes ownership of the tree and prepares to render onto `renderer`.
    pub fn new(root: AnyWidget, renderer: R, exit: ExitHandle) -> (a: App<R>)
        ensures
            a.root == root,
            a.exit == exit,
            a.renderer.submitted() == renderer.submitted(),
            a.renderer.refreshed() == renderer.refreshed(),
            a.renderer.panel_size() == renderer.panel_size(),
            a.renderer.reliable() == renderer.reliable(),
            a.screen == renderer.panel_size(),
            a.last_frames@.len() == 0,
            a.partial_since_full == 0,
            a.dirty_tiles@ == Seq::new(64, |i: int| false),
            a.dirty_tile_count == 0,
            a.first_frame,
            a.next_id == 1,
    {
        let mut renderer = renderer;
        let screen = renderer.screen_size();
        let mut dirty_tiles: Vec<bool> = Vec::new();
        let mut i: usize = 0;
        while i < DAMAGE_TILE_COUNT
            invariant
                i <= 64,
                dirty_tiles@ == Seq::new(i as nat, |j: int| false),
            decreases 64 - i,
        {
            dirty_tiles.push(false);
            i += 1;
        }
        App {
            root,
            renderer,
            screen,
            exit,
            last_frames: Vec::new(),
            partial_since_full: 0,
            dirty_tiles,
            dirty_tile_count: 0,
            first_frame: true,
            next_id: 1,
        }
    }

    pub fn bounds(&self) -> (b: Rect)
        ensures
            b == self.bounds_spec(),
    {
        Rect::new(0, 0, self.screen.w, self.screen.h)
    }

    /// Hit-tests `point` and fires the tap handler of the interactive widget
    /// under it. Returns true if a handler ran.
    pub fn tap_at(&self, point: Point) -> (ran: bool)
        requires
            hit_fits(self.root, point),
        ensures
            ran == (hit_spec(self.root, point) matches Some(AnyWidget::Button(b)) && b.on_tap is Some),
            ran ==> (hit_spec(self.root, point) matches Some(AnyWidget::Button(b)) && (*b.on_tap->0).tapped()),
    {
        match hit_test(&self.root, point) {
            Some(target) => target.dispatch_tap(),
            None => false,
        }
    }

    /// What the event loop does with a decoded touch: a release (`Up`) is
    /// calibrated into screen pixels and taps the widget under it. `Some`
    /// tells whether a tap handler ran (a frame is then due); `None` when the
    /// calibration, or a frame the hit test examines, would overflow `i32`.
    pub fn handle_touch(&self, ev: TouchEvent, calib: &Calibration) -> (r: Option<bool>)
        ensures
            r == (if ev.kind != TouchKind::Up {
                Some(false)
            } else if !map_fits(*calib, ev.x, ev.y) || !hit_fits(
                self.root,
                Point { x: map_spec(*calib, ev.x, ev.y).0 as i32, y: map_spec(*calib, ev.x, ev.y).1 as i32 },
            ) {
                None::<bool>
            } else {
                Some(
                    hit_spec(
                        self.root,
                        Point { x: map_spec(*calib, ev.x, ev.y).0 as i32, y: map_spec(*calib, ev.x, ev.y).1 as i32 },
                    ) matches Some(AnyWidget::Button(b)) && b.on_tap is Some,
                )
            }),
    {
        if ev.kind != TouchKind::Up {
            return Some(false);
        }
        if !calib.can_map(ev.x, ev.y) {
            return None;
        }
        let p = calib.map(ev.x, ev.y);
        if !hit_fits_check(&self.root, p) {
            return None;
        }
        Some(self.tap_at(p))
    }

    /// Shows `text` in the label at `path` (child indices from the root),
    /// marking it dirty for the next frame; what a binding does when its
    /// signal changes. Returns whether there is a label at `path`; without
    /// one nothing changes.
    pub fn set_label_text(&mut self, path: &[usize], text: &str) -> (found: bool)
        ensures
            found == label_at(old(self).root, path@),
            found ==> label_set_at(old(self).root, path@, text@, final(self).root),
            !found ==> final(self).root == old(self).root,
            final(self).renderer == old(self).renderer,
            final(self).screen == old(self).screen,
            final(self).exit == old(self).exit,
            final(self).last_frames == old(self).last_frames,
            final(self).partial_since_full == old(self).partial_since_full,
            final(self).dirty_tiles == old(self).dirty_tiles,
            final(self).dirty_tile_count == old(self).dirty_tile_count,
            final(self).first_frame == old(self).first_frame,
            final(self).next_id == old(self).next_id,
    {
        let mut root = AnyWidget::Spacer(Spacer::new());
        std::mem::swap(&mut self.root, &mut root);
        let (root2, found) = set_label_text_at(root, path, text);
        self.root = root2;
        found
    }

    /// Tiles `tiles` would newly mark dirty, added to the current count.
    pub fn dirty_tile_count_after_partial(&self, tiles: &Vec<usize>) -> (c: usize)
        requires
            self.dirty_tiles@.len() == 64,
            self.dirty_tile_count <= 64,
            tiles@.len() <= 64,
            forall|i: int| 0 <= i < tiles@.len() ==> #[trigger] tiles@[i] < 64,
        ensures
            c == self.dirty_tile_count + newly_dirty(tiles@.map_values(|t: usize| t as int), self.dirty_tiles@),
            c <= self.dirty_tile_count + tiles@.len(),
    {
        let ghost ts = tiles@.map_values(|t: usize| t as int);
        let mut count = self.dirty_tile_count;
        let mut i: usize = 0;
        while i < tiles.len()
            invariant
                i <= tiles@.len(),
                tiles@.len() <= 64,
                self.dirty_tiles@.len() == 64,
                self.dirty_tile_count <= 64,
                forall|j: int| 0 <= j < tiles@.len() ==> #[trigger] tiles@[j] < 64,
                ts == tiles@.map_values(|t: usize| t as int),
                count == self.dirty_tile_count + newly_dirty(ts.subrange(0, i as int), self.dirty_tiles@),
                count <= self.dirty_tile_count + i,
            decreases tiles@.len() - i,
        {
            assert(ts.subrange(0, i + 1).drop_last() == ts.subrange(0, i as int));
            if !self.dirty_tiles[tiles[i]] {
                count += 1;
            }
            i += 1;
        }
        assert(ts.subrange(0, tiles@.len() as int) == ts);
        count
    }

    /// Marks `tiles` dirty, counting each newly marked tile.
    pub fn record_partial_damage(&mut self, tiles: &Vec<usize>)
        requires
            old(self).dirty_tiles@.len() == 64,
            old(self).dirty_tile_count == count_true(old(self).dirty_tiles@),
            forall|i: int| 0 <= i < tiles@.len() ==> #[trigger] tiles@[i] < 64,
        ensures
            final(self).dirty_tile_count == count_true(final(self).dirty_tiles@),
            final(self).dirty_tiles@.len() == 64,
            final(self).dirty_tiles@ == mark_fold(tiles@.map_values(|t: usize| t as int), old(self).dirty_tiles@, old(self).dirty_tile_count as nat, tiles@.len()).0,
            final(self).dirty_tile_count == mark_fold(tiles@.map_values(|t: usize| t as int), old(self).dirty_tiles@, old(self).dirty_tile_count as nat, tiles@.len()).1,
            final(self).dirty_tile_count <= 64,
            final(self).root == old(self).root,
            final(self).renderer == old(self).renderer,
            final(self).screen == old(self).screen,
            final(self).exit == old(self).exit,
            final(self).last_frames == old(self).last_frames,
            final(self).partial_since_full == old(self).partial_since_full,
            final(self).first_frame == old(self).first_frame,
            final(self).next_id == old(self).next_id,
    {
        let ghost ts = tiles@.map_values(|t: usize| t as int);
        let ghost d0 = self.dirty_tiles@;
        let ghost c0 = self.dirty_tile_count as nat;
        proof {
            lemma_count_true_le(d0);
        }
        let mut i: usize = 0;
        while i < tiles.len()
            invariant
                i <= tiles@.len(),
                self.dirty_tiles@.len() == 64,
                forall|j: int| 0 <= j < tiles@.len() ==> #[trigger] tiles@[j] < 64,
                ts == tiles@.map_values(|t: usize| t as int),
                (self.dirty_tiles@, self.dirty_tile_count as nat) == mark_fold(ts, d0, c0, i as nat),
                self.dirty_tile_count == count_true(self.dirty_tiles@),
                count_true(self.dirty_tiles@) <= 64,
                self.root == old(self).root,
                self.renderer == old(self).renderer,
                self.screen == old(self).screen,
                self.exit == old(self).exit,
                self.last_frames == old(self).last_frames,
                self.partial_since_full == old(self).partial_since_full,
                self.first_frame == old(self).first_frame,
                self.next_id == old(self).next_id,
            decreases tiles@.len() - i,
        {
            let t = tiles[i];
            if !self.dirty_tiles[t] {
                proof {
                    lemma_count_true_set(self.dirty_tiles@, t as int);
                }
                self.dirty_tiles.set(t, true);
                self.dirty_tile_count += 1;
            }
            i += 1;
        }
    }
}

/// Number of marked tiles.
pub open spec fn count_true(s: Seq<bool>) -> nat
    decreases s.len(),
{
    if s.len() == 0 {
        0
    } else {
        count_true(s.drop_last()) + if s.last() { 1nat } else { 0nat }
    }
}

proof fn lemma_count_true_set(s: Seq<bool>, t: int)
    requires
        0 <= t < s.len(),
        !s[t],
    ensures
        count_true(s.update(t, true)) == count_true(s) + 1,
        count_true(s) < s.len(),
    decreases s.len(),
{
    if t == s.len() - 1 {
        assert(s.update(t, true).drop_last() == s.drop_last());
        lemma_count_true_le(s.drop_last());
    } else {
        assert(s.update(t, true).drop_last() == s.drop_last().update(t, true));
        lemma_count_true_set(s.drop_last(), t);
    }
}

proof fn lemma_count_true_zero(s: Seq<bool>)
    requires
        forall|i: int| 0 <= i < s.len() ==> !#[trigger] s[i],
    ensures
        count_true(s) == 0,
    decreases s.len(),
{
    if s.len() > 0 {
        lemma_count_true_zero(s.drop_last());
    }
}

proof fn lemma_count_true_le(s: Seq<bool>)
    ensures
        count_true(s) <= s.len(),
    decreases s.len(),
{
    if s.len() > 0 {
        lemma_count_true_le(s.drop_last());
    }
}

proof fn lemma_fills_fit_concat(a: Seq<DrawCmd>, b: Seq<DrawCmd>)
    requires
        fills_fit(a),
        fills_fit(b),
    ensures
        fills_fit(a + b),
{
    assert forall|i: int| 0 <= i < (a + b).len() implies ((#[trigger] (a + b)[i]) matches DrawCmd::FillRect { rect, .. } ==> rect.edges_fit()) by {
        if i < a.len() {
            assert((a + b)[i] == a[i]);
        } else {
            assert((a + b)[i] == b[i - a.len()]);
        }
    }
}

proof fn lemma_paint_spec_fills(w: AnyWidget)
    requires
        node_fits(w),
    ensures
        fills_fit(paint_spec(w)),
{
}

proof fn lemma_paint_hit_fills(w: AnyWidget, d: Rect)
    requires
        tree_fits(w),
    ensures
        fills_fit(paint_hit(w, d)),
    decreases w, 0nat,
{
    lemma_paint_spec_fills(w);
    let own = if w.common_spec().frame.intersects_spec(d) { paint_spec(w) } else { Seq::empty() };
    assert(fills_fit(own));
    match w {
        AnyWidget::Stack(s) => {
            lemma_paint_hit_seq_fills(s.children@, d, s.children@.len());
            lemma_fills_fit_concat(own, paint_hit_seq(s.children@, d, s.children@.len()));
        },
        _ => {
            assert(paint_hit(w, d) == own + Seq::<DrawCmd>::empty());
            lemma_fills_fit_concat(own, Seq::<DrawCmd>::empty());
        },
    }
}

proof fn lemma_paint_hit_seq_fills(ch: Seq<AnyWidget>, d: Rect, k: nat)
    requires
        trees_fit(ch, k),
    ensures
        fills_fit(paint_hit_seq(ch, d, k)),
    decreases ch, k,
{
    if k > 0 && k <= ch.len() {
        lemma_paint_hit_seq_fills(ch, d, (k - 1) as nat);
        lemma_paint_hit_fills(ch[k - 1], d);
        lemma_fills_fit_concat(paint_hit_seq(ch, d, (k - 1) as nat), paint_hit(ch[k - 1], d));
    }
}

pub open spec fn partial_cmds(w3: AnyWidget, d: Rect) -> Seq<DrawCmd> {
    clip_fills(seq![DrawCmd::FillRect { rect: d, color: Color(15) }] + paint_hit(w3, d), d)
}

pub open spec fn full_cmds(w3: AnyWidget, b: Rect) -> Seq<DrawCmd> {
    seq![DrawCmd::FillRect { rect: b, color: Color(15) }] + paint_all(w3)
}

impl<R: Renderer> App<R> {
    /// The frame's arithmetic stays in range once identities are assigned
    /// (`w2`) and the tree is laid out (`w3`).
    pub open spec fn frame_fits(&self, w2: AnyWidget, w3: AnyWidget) -> bool {
        &&& tree_fits(w3)
        &&& damage_spec(commons(w2), commons(w3), self.last_frames@) is Some
        &&& (damage_spec(commons(w2), commons(w3), self.last_frames@)->0).edges_fit()
        &&& tiles_fit(damage_spec(commons(w2), commons(w3), self.last_frames@)->0, self.bounds_spec())
        &&& (damage_spec(commons(w2), commons(w3), self.last_frames@)->0).area_spec() * 100 <= i64::MAX
        &&& self.bounds_spec().area_spec() * 40 <= i64::MAX
    }

    /// `render_frame` can run: the bookkeeping is consistent and no step of
    /// the frame overflows.
    pub open spec fn frame_ok(&self) -> bool {
        &&& self.dirty_tiles@.len() == 64
        &&& self.dirty_tile_count == count_true(self.dirty_tiles@)
        &&& self.partial_since_full < u32::MAX
        &&& assign_next(self.root, self.next_id as nat) <= u64::MAX
        &&& forall|w2: AnyWidget| #[trigger]
            assigned(self.root, self.next_id as nat, w2) ==> place_ok(w2, self.bounds_spec())
        &&& forall|w2: AnyWidget, w3: AnyWidget|
            assigned(self.root, self.next_id as nat, w2) && #[trigger] placed(
                w2,
                self.bounds_spec(),
                w3,
            ) ==> self.frame_fits(w2, w3)
    }

    /// The limits of `frame_ok`, checked for the tree after identity
    /// assignment (`w2`) and after layout (`w3`).
    pub open spec fn frame_ok_with(&self, w2: AnyWidget, w3: AnyWidget) -> bool {
        &&& self.dirty_tiles@.len() == 64
        &&& self.dirty_tile_count == count_true(self.dirty_tiles@)
        &&& self.partial_since_full < u32::MAX
        &&& assign_next(self.root, self.next_id as nat) <= u64::MAX
        &&& place_ok(w2, self.bounds_spec())
        &&& self.frame_fits(w2, w3)
    }

    /// What a successful frame did, given the tree after identity assignment
    /// (`w2`) and after layout (`w3`).
    pub open spec fn frame_effects(&self, new: App<R>, w2: AnyWidget, w3: AnyWidget) -> bool {
        let b = self.bounds_spec();
        let d = damage_spec(commons(w2), commons(w3), self.last_frames@)->0;
        let tiles = tiles_spec(d, b);
        let full = self.first_frame || area_forces_full(d, b) || self.partial_since_full + 1
            >= MAX_PARTIAL_REFRESHES || tiles_force_full(
            self.dirty_tile_count as nat,
            tiles,
            self.dirty_tiles@,
        );
        &&& cleared(w3, new.root)
        &&& new.next_id == assign_next(self.root, self.next_id as nat)
        &&& new.last_frames@ == frames_spec(commons(w3))
        &&& new.screen == self.screen
        &&& new.exit == self.exit
        &&& new.dirty_tiles@.len() == 64
        &&& new.dirty_tile_count == count_true(new.dirty_tiles@)
        &&& new.partial_since_full < MAX_PARTIAL_REFRESHES
        &&& if full {
            &&& new.renderer.submitted() == self.renderer.submitted() + full_cmds(w3, b)
            &&& new.renderer.refreshed() == self.renderer.refreshed().push((b, RefreshMode::Full))
            &&& new.partial_since_full == 0
            &&& new.dirty_tiles@ == Seq::new(64, |i: int| false)
            &&& new.dirty_tile_count == 0
            &&& !new.first_frame
        } else if !d.is_empty_spec() {
            &&& new.renderer.submitted() == self.renderer.submitted() + partial_cmds(w3, d)
            &&& new.renderer.refreshed() == self.renderer.refreshed().push((d, RefreshMode::Partial))
            &&& new.partial_since_full == self.partial_since_full + 1
            &&& new.dirty_tiles@ == mark_fold(tiles, self.dirty_tiles@, self.dirty_tile_count as nat, tiles.len()).0
            &&& new.first_frame == self.first_frame
        } else {
            &&& new.renderer.submitted() == self.renderer.submitted()
            &&& new.renderer.refreshed() == self.renderer.refreshed()
            &&& new.partial_since_full == self.partial_since_full
            &&& new.dirty_tiles@ == self.dirty_tiles@
            &&& new.first_frame == self.first_frame
        }
    }

    /// Whether the frame of `w2` laid out as `w3` draws and refreshes at all:
    /// a full refresh is due, or some region is damaged. Only such a frame
    /// calls the renderer.
    pub open spec fn frame_redraws(&self, w2: AnyWidget, w3: AnyWidget) -> bool {
        let b = self.bounds_spec();
        let d = damage_spec(commons(w2), commons(w3), self.last_frames@)->0;
        let tiles = tiles_spec(d, b);
        let full = self.first_frame || area_forces_full(d, b) || self.partial_since_full + 1
            >= MAX_PARTIAL_REFRESHES || tiles_force_full(
            self.dirty_tile_count as nat,
            tiles,
            self.dirty_tiles@,
        );
        full || !d.is_empty_spec()
    }

    /// Assigns identities to new widgets, lays out the tree, computes the
    /// damaged region, redraws it, and issues one e-ink refresh: full on the
    /// first frame, when the damage covers at least 40% of the screen, after
    /// 32 partial refreshes, or when partial refreshes have touched at least
    /// 30% of the screen tiles; partial otherwise.
    pub fn render_frame(&mut self) -> (r: std::io::Result<()>)
        requires
            old(self).frame_ok(),
        ensures
            r is Ok ==> exists|w2: AnyWidget, w3: AnyWidget|
                #[trigger] old(self).frame_effects(*final(self), w2, w3) && assigned(
                    old(self).root,
                    old(self).next_id as nat,
                    w2,
                ) && placed(w2, old(self).bounds_spec(), w3),
            r is Err ==> exists|w2: AnyWidget, w3: AnyWidget|
                #[trigger] old(self).frame_redraws(w2, w3) && assigned(
                    old(self).root,
                    old(self).next_id as nat,
                    w2,
                ) && placed(w2, old(self).bounds_spec(), w3),
            old(self).renderer.reliable() ==> r is Ok,
    {
        let ghost orig = *self;
        let mut root0 = AnyWidget::Spacer(Spacer::new());
        std::mem::swap(&mut self.root, &mut root0);
        let (root1, next) = assign_ids(root0, self.next_id);
        assert(assigned(old(self).root, old(self).next_id as nat, root1));
        let ghost w2 = root1;
        self.next_id = next;
        let bounds = self.bounds();
        let pre = walk(&root1);
        let root2 = place(root1, bounds);
        assert(placed(root1, old(self).bounds_spec(), root2));
        assert(old(self).frame_fits(w2, root2));
        let r = self.paint_frame(root2, pre, bounds, Ghost(orig), Ghost(w2));
        assert(r is Ok ==> old(self).frame_effects(*self, w2, root2));
        assert(r is Err ==> old(self).frame_redraws(w2, root2));
        r
    }

    /// `render_frame` where the frame's limits are checked as it goes:
    /// `None` (and nothing drawn) when a step would overflow, which
    /// `frame_ok` rules out; `Some` only when the limits held for the trees
    /// this frame built. After `None` the tree has been given its identities.
    pub fn render_frame_checked(&mut self) -> (r: Option<std::io::Result<()>>)
        ensures
            r is None ==> !old(self).frame_ok(),
            r is Some ==> exists|w2: AnyWidget, w3: AnyWidget|
                #[trigger] old(self).frame_ok_with(w2, w3) && assigned(old(self).root, old(self).next_id as nat, w2)
                    && placed(w2, old(self).bounds_spec(), w3),
            r matches Some(res) ==> (res is Ok ==> exists|w2: AnyWidget, w3: AnyWidget|
                #[trigger] old(self).frame_effects(*final(self), w2, w3) && assigned(
                    old(self).root,
                    old(self).next_id as nat,
                    w2,
                ) && placed(w2, old(self).bounds_spec(), w3)),
            r matches Some(res) ==> (res is Err ==> exists|w2: AnyWidget, w3: AnyWidget|
                #[trigger] old(self).frame_redraws(w2, w3) && assigned(
                    old(self).root,
                    old(self).next_id as nat,
                    w2,
                ) && placed(w2, old(self).bounds_spec(), w3)),
            old(self).frame_ok() && old(self).renderer.reliable() ==> (r matches Some(res) && res is Ok),
    {
        let ghost orig = *self;
        if self.dirty_tiles.len() != DAMAGE_TILE_COUNT || self.partial_since_full == u32::MAX {
            return None;
        }
        if self.dirty_tile_count != self.count_dirty_tiles() {
            return None;
        }
        let next = match assign_next_opt(&self.root, self.next_id) {
            Some(n) => n,
            None => return None,
        };
        let mut root0 = AnyWidget::Spacer(Spacer::new());
        std::mem::swap(&mut self.root, &mut root0);
        let (root1, next1) = assign_ids(root0, self.next_id);
        let ghost w2 = root1;
        self.next_id = next1;
        let bounds = self.bounds();
        if !place_ok_check(&root1, bounds) {
            self.root = root1;
            return None;
        }
        let pre = walk(&root1);
        let root2 = place(root1, bounds);
        if !self.frame_fits_check(&pre, &root2, bounds, Ghost(w2)) {
            self.root = root2;
            return None;
        }
        let ghost w3 = root2;
        assert(orig.frame_ok_with(w2, w3));
        let r = self.paint_frame(root2, pre, bounds, Ghost(orig), Ghost(w2));
        Some(r)
    }

    /// Number of tiles marked dirty.
    fn count_dirty_tiles(&self) -> (c: usize)
        requires
            self.dirty_tiles@.len() == 64,
        ensures
            c == count_true(self.dirty_tiles@),
    {
        let mut c: usize = 0;
        let mut i: usize = 0;
        while i < self.dirty_tiles.len()
            invariant
                i <= self.dirty_tiles@.len(),
                self.dirty_tiles@.len() == 64,
                c == count_true(self.dirty_tiles@.subrange(0, i as int)),
                c <= i,
            decreases self.dirty_tiles@.len() - i,
        {
            assert(self.dirty_tiles@.subrange(0, i + 1).drop_last() =~= self.dirty_tiles@.subrange(0, i as int));
            if self.dirty_tiles[i] {
                c += 1;
            }
            i += 1;
        }
        assert(self.dirty_tiles@.subrange(0, 64) =~= self.dirty_tiles@);
        c
    }

    /// Whether `frame_fits` holds for the tree `w2` whose pre-layout
    /// snapshot is `pre`, laid out as `root2`.
    fn frame_fits_check(&self, pre: &Vec<Common>, root2: &AnyWidget, bounds: Rect, Ghost(w2): Ghost<AnyWidget>) -> (b: bool)
        requires
            bounds == self.bounds_spec(),
            pre@ == commons(w2),
        ensures
            b == self.frame_fits(w2, *root2),
    {
        if !tree_fits_check(root2) {
            return false;
        }
        let post = walk(root2);
        let d = match damage_opt(pre, &post, &self.last_frames) {
            Some(d) => d,
            None => return false,
        };
        if !d.edges_fit_check() || !tiles_fit_check(d, bounds) {
            return false;
        }
        d.area() <= i64::MAX / 100 && bounds.area() <= i64::MAX / 40
    }

    /// Paints a tree that has been given identities (`w2`) and laid out
    /// (`root2`), refreshes the panel once, and records the frame.
    fn paint_frame(
        &mut self,
        root2: AnyWidget,
        pre: Vec<Common>,
        bounds: Rect,
        Ghost(orig): Ghost<App<R>>,
        Ghost(w2): Ghost<AnyWidget>,
    ) -> (r: std::io::Result<()>)
        requires
            bounds == orig.bounds_spec(),
            old(self).screen == orig.screen,
            old(self).exit == orig.exit,
            old(self).renderer == orig.renderer,
            old(self).last_frames == orig.last_frames,
            old(self).partial_since_full == orig.partial_since_full,
            old(self).dirty_tiles == orig.dirty_tiles,
            old(self).dirty_tile_count == orig.dirty_tile_count,
            old(self).first_frame == orig.first_frame,
            old(self).next_id == assign_next(orig.root, orig.next_id as nat),
            orig.dirty_tiles@.len() == 64,
            orig.dirty_tile_count == count_true(orig.dirty_tiles@),
            orig.partial_since_full < u32::MAX,
            assigned(orig.root, orig.next_id as nat, w2),
            placed(w2, bounds, root2),
            pre@ == commons(w2),
            orig.frame_fits(w2, root2),
        ensures
            r is Ok ==> orig.frame_effects(*final(self), w2, root2),
            r is Err ==> orig.frame_redraws(w2, root2),
            orig.renderer.reliable() ==> r is Ok,
    {
        let ghost w3 = root2;
        let post = walk(&root2);
        let damage = compute_damage(&pre, &post, &self.last_frames);
        let new_frames = frame_list(&post);
        let area_forces = damage.area() * 100 >= bounds.area() * FULL_REFRESH_AREA_PCT;
        let counter_forces = self.partial_since_full + 1 >= MAX_PARTIAL_REFRESHES;
        let tiles = tiles_for_damage(damage, bounds);
        let ghost tiles_int = tiles@.map_values(|t: usize| t as int);
        assert(tiles_int =~= tiles_spec(damage, bounds));
        proof {
            lemma_count_true_le(self.dirty_tiles@);
        }
        let after = self.dirty_tile_count_after_partial(&tiles);
        let tile_forces = (after as i64) * 100 >= (DAMAGE_TILE_COUNT as i64) * FULL_REFRESH_DIRTY_TILE_PCT;
        let full = self.first_frame || area_forces || counter_forces || tile_forces;
        let mut cmds: Vec<DrawCmd> = Vec::new();
        if !full && !damage.is_empty() {
            cmds.push(DrawCmd::FillRect { rect: damage, color: Color(15) });
            paint_damaged(&root2, damage, &mut cmds);
            proof {
                lemma_paint_hit_fills(root2, damage);
                lemma_fills_fit_concat(seq![DrawCmd::FillRect { rect: damage, color: Color(15) }], paint_hit(root2, damage));
            }
            cmds = clip_to_damage(cmds, damage);
        }
        self.root = root2;
        if full {
            let mut fcmds: Vec<DrawCmd> = Vec::new();
            fcmds.push(DrawCmd::FillRect { rect: bounds, color: Color(15) });
            paint_tree(&self.root, &mut fcmds);
            match self.renderer.submit(&fcmds) {
                Err(e) => return Err(e),
                Ok(()) => {},
            }
            match self.renderer.refresh(bounds, RefreshMode::Full) {
                Err(e) => return Err(e),
                Ok(()) => {},
            }
            self.partial_since_full = 0;
            let ghost snap = *self;
            let mut i: usize = 0;
            while i < DAMAGE_TILE_COUNT
                invariant
                    i <= 64,
                    self.dirty_tiles@.len() == 64,
                    forall|j: int| 0 <= j < i ==> !#[trigger] self.dirty_tiles@[j],
                    self.renderer == snap.renderer,
                    self.root == snap.root,
                    self.screen == snap.screen,
                    self.exit == snap.exit,
                    self.next_id == snap.next_id,
                    self.partial_since_full == 0,
                    self.last_frames == snap.last_frames,
                decreases 64 - i,
            {
                self.dirty_tiles.set(i, false);
                i += 1;
            }
            self.dirty_tile_count = 0;
            self.first_frame = false;
            assert(self.dirty_tiles@ =~= Seq::new(64, |i: int| false));
            proof {
                lemma_count_true_zero(self.dirty_tiles@);
            }
        } else if !damage.is_empty() {
            match self.renderer.submit(&cmds) {
                Err(e) => return Err(e),
                Ok(()) => {},
            }
            match self.renderer.refresh(damage, RefreshMode::Partial) {
                Err(e) => return Err(e),
                Ok(()) => {},
            }
            self.partial_since_full = self.partial_since_full + 1;
            self.record_partial_damage(&tiles);
        }
        let mut r = AnyWidget::Spacer(Spacer::new());
        std::mem::swap(&mut self.root, &mut r);
        self.root = clear_dirty(r);
        self.last_frames = new_frames;
        assert(orig.frame_effects(*self, w2, w3));
        Ok(())
    }
}

/// In a partial frame no fill escapes the damaged region: after clipping,
/// every fill lies within it (so no pixel is blanked that is not redrawn
/// and refreshed).
pub proof fn law_clipped_fills_within_damage(cmds: Seq<DrawCmd>, d: Rect)
    requires
        d.edges_fit(),
        fills_fit(cmds),
    ensures
        forall|i: int| 0 <= i < clip_fills(cmds, d).len() ==> (#[trigger] clip_fills(cmds, d)[i] matches DrawCmd::FillRect { rect, .. }
            ==> d.contains_rect_spec(rect)),
    decreases cmds.len(),
{
    if cmds.len() > 0 {
        let init = cmds.drop_last();
        assert(fills_fit(init)) by {
            assert forall|i: int| 0 <= i < init.len() implies (#[trigger] init[i] matches DrawCmd::FillRect { rect, .. }
                ==> rect.edges_fit()) by {
                assert(init[i] == cmds[i]);
            }
        }
        law_clipped_fills_within_damage(init, d);
        let rest = clip_fills(init, d);
        assert forall|i: int| 0 <= i < clip_fills(cmds, d).len() implies (#[trigger] clip_fills(cmds, d)[i] matches DrawCmd::FillRect { rect, .. }
            ==> d.contains_rect_spec(rect)) by {
            if i < rest.len() {
                assert(clip_fills(cmds, d)[i] == rest[i]);
            } else {
                match cmds.last() {
                    DrawCmd::FillRect { rect, color } => {
                        assert(cmds[cmds.len() - 1] == cmds.last());
                        assert(rect.edges_fit());
                    },
                    _ => {},
                }
            }
        }
    }
}

} // verus!
