//! Fine-grained observable state. A `Signal` holds a value and a set of
//! observers, notified synchronously in registration order on every write. A
//! write made *from inside* an observer callback (through its `SignalCtx`)
//! does not re-enter delivery: it is coalesced, and a single follow-up pass
//! runs with the final value.
//!
//! Every notification is recorded in the ghost `log` as `(observer, value)`,
//! together with the value its callback wrote, if any, and whether it opened a
//! pass (`turns`), and the observers the callback disposed (`disposals`):
//! the contracts below speak of these records.

use vstd::prelude::*;
use vstd::std_specs::cmp::PartialEqSpec;

verus! {

/// Something notified of a signal's new value. During the callback it may
/// write the signal or dispose observers through `ctx`.
pub trait Observer<T> {
    fn notify(&self, value: &T, ctx: &mut SignalCtx<T>);
}

/// What an observer asked for during one callback.
pub struct SignalCtx<T> {
    /// The observer being notified.
    pub current: u64,
    /// The last value written during the callback, if any.
    pub pending: Option<T>,
    /// Observers disposed during the callback, in order.
    pub disposed: Vec<u64>,
}

impl<T> SignalCtx<T> {
    pub fn new(current: u64) -> (c: SignalCtx<T>)
        ensures
            c.current == current,
            c.pending is None,
            c.disposed@.len() == 0,
    {
        SignalCtx { current, pending: None, disposed: Vec::new() }
    }

    /// Writes the signal from inside a callback; only the last write counts.
    pub fn set(&mut self, value: T)
        ensures
            final(self).pending == Some(value),
            final(self).current == old(self).current,
            final(self).disposed == old(self).disposed,
    {
        self.pending = Some(value);
    }

    /// Disposes the observer being notified.
    pub fn dispose_self(&mut self)
        ensures
            final(self).disposed@ == old(self).disposed@.push(old(self).current),
            final(self).current == old(self).current,
            final(self).pending == old(self).pending,
    {
        self.disposed.push(self.current);
    }

    /// Disposes observer `id`.
    pub fn dispose(&mut self, id: u64)
        ensures
            final(self).disposed@ == old(self).disposed@.push(id),
            final(self).current == old(self).current,
            final(self).pending == old(self).pending,
    {
        self.disposed.push(id);
    }
}

/// An observable value with observers of type `H`.
#[verifier::reject_recursive_types(T)]
pub struct Signal<T, H> {
    pub value: T,
    /// Registered observers, by strictly increasing identity.
    pub observers: Vec<(u64, H)>,
    pub next_id: u64,
    /// Every notification so far: which observer, with which value.
    pub log: Ghost<Seq<(u64, T)>>,
    /// For each notification of `log`: the last value its callback wrote
    /// through its `SignalCtx`, if any, and whether it opened a delivery pass.
    pub turns: Ghost<Seq<(Option<T>, bool)>>,
    /// For each notification of `log`: the observers its callback disposed.
    pub disposals: Ghost<Seq<Seq<u64>>>,
}

pub open spec fn ids_of<H>(obs: Seq<(u64, H)>) -> Seq<u64> {
    Seq::new(obs.len(), |i: int| obs[i].0)
}

pub open spec fn strictly_sorted(ids: Seq<u64>) -> bool {
    forall|i: int, j: int| 0 <= i < j < ids.len() ==> ids[i] < ids[j]
}

/// Index of the first identity not below `id` (the insertion point).
pub open spec fn lower_bound(ids: Seq<u64>, id: u64) -> int
    decreases ids.len(),
{
    if ids.len() == 0 {
        0
    } else if ids.last() < id {
        ids.len() as int
    } else {
        lower_bound(ids.drop_last(), id)
    }
}

/// The observer list after registering `(id, h)`: replaces an entry with the
/// same identity, or inserts it in order.
pub open spec fn with_observer<H>(obs: Seq<(u64, H)>, id: u64, h: H) -> Seq<(u64, H)> {
    let p = lower_bound(ids_of(obs), id);
    if p < obs.len() && obs[p].0 == id {
        obs.update(p, (id, h))
    } else {
        obs.insert(p, (id, h))
    }
}

/// The observer list without identity `id`.
pub open spec fn without_observer<H>(obs: Seq<(u64, H)>, id: u64) -> Seq<(u64, H)> {
    let p = lower_bound(ids_of(obs), id);
    if p < obs.len() && obs[p].0 == id {
        obs.remove(p)
    } else {
        obs
    }
}

pub open spec fn wrapping_inc(x: u64) -> u64 {
    if x == u64::MAX { 0 } else { (x + 1) as u64 }
}

/// Every observer of `post` was an observer of `pre`.
pub open spec fn observers_shrunk<T, H>(pre: Signal<T, H>, post: Signal<T, H>) -> bool {
    forall|i: int| 0 <= i < post.observers@.len() ==> ids_of(pre.observers@).contains(#[trigger] post.observers@[i].0)
}

/// The notifications made between `pre` and `post`.
pub open spec fn notified<T, H>(pre: Signal<T, H>, post: Signal<T, H>) -> Seq<(u64, T)> {
    post.log@.subrange(pre.log@.len() as int, post.log@.len() as int)
}

/// The disposals recorded between `pre` and `post`.
pub open spec fn new_disposals<T, H>(pre: Signal<T, H>, post: Signal<T, H>) -> Seq<Seq<u64>> {
    post.disposals@.subrange(pre.disposals@.len() as int, post.disposals@.len() as int)
}

/// Whether some record of `ds` disposed observer `id`.
pub open spec fn disposed_any(ds: Seq<Seq<u64>>, id: u64) -> bool {
    exists|j: int| 0 <= j < ds.len() && (#[trigger] ds[j]).contains(id)
}

/// Whether the notifications `ns` reach observer `id`.
pub open spec fn notifies<T>(ns: Seq<(u64, T)>, id: u64) -> bool {
    exists|j: int| 0 <= j < ns.len() && (#[trigger] ns[j]).0 == id
}

/// Whether the callback of a notification in `ns` of an observer below `id`
/// (so before `id`'s turn) disposed `id`.
pub open spec fn disposed_before<T>(ns: Seq<(u64, T)>, ds: Seq<Seq<u64>>, id: u64) -> bool {
    exists|j: int| 0 <= j < ns.len() && (#[trigger] ns[j]).0 < id && ds[j].contains(id)
}

/// The notifications' records made between `pre` and `post`.
pub open spec fn new_turns<T, H>(pre: Signal<T, H>, post: Signal<T, H>) -> Seq<(Option<T>, bool)> {
    post.turns@.subrange(pre.turns@.len() as int, post.turns@.len() as int)
}

/// The last value written among the records `ts`, if any.
pub open spec fn last_write<T>(ts: Seq<(Option<T>, bool)>) -> Option<T>
    decreases ts.len(),
{
    if ts.len() == 0 {
        None
    } else {
        match ts.last().0 {
            Some(w) => Some(w),
            None => last_write(ts.drop_last()),
        }
    }
}

/// The first record of the pass that record `j` belongs to.
pub open spec fn pass_start<T>(ts: Seq<(Option<T>, bool)>, j: int) -> int
    decreases j,
{
    if j <= 0 {
        0
    } else if ts[j].1 {
        j
    } else {
        pass_start(ts, j - 1)
    }
}

/// The value a notification at record `j` carries: the last write made in
/// an earlier pass, or `value` in the first pass.
pub open spec fn delivered_value<T>(value: T, ts: Seq<(Option<T>, bool)>, j: int) -> T {
    match last_write(ts.subrange(0, pass_start(ts, j))) {
        Some(w) => w,
        None => value,
    }
}

/// Number of passes among the records `ts`.
pub open spec fn pass_count<T>(ts: Seq<(Option<T>, bool)>) -> nat
    decreases ts.len(),
{
    if ts.len() == 0 {
        0
    } else {
        pass_count(ts.drop_last()) + if ts.last().1 { 1nat } else { 0nat }
    }
}

/// Whether a notification of the pass opened at record `ps` reaches `id`.
pub open spec fn pass_notifies<T>(ns: Seq<(u64, T)>, ts: Seq<(Option<T>, bool)>, ps: int, id: u64) -> bool {
    exists|j: int| 0 <= j < ns.len() && pass_start(ts, j) == ps && (#[trigger] ns[j]).0 == id
}

/// Whether, in the pass opened at record `ps`, the callback of an observer
/// below `id` disposed `id`.
pub open spec fn pass_disposed_before<T>(
    ns: Seq<(u64, T)>,
    ts: Seq<(Option<T>, bool)>,
    ds: Seq<Seq<u64>>,
    ps: int,
    id: u64,
) -> bool {
    exists|j: int| 0 <= j < ns.len() && pass_start(ts, j) == ps && (#[trigger] ns[j]).0 < id && ds[j].contains(id)
}

/// Who each pass reaches: of the observers `ids` not disposed in an earlier
/// pass, exactly those that no lower observer of the same pass disposed.
#[verifier::opaque]
pub open spec fn set_members<T>(ids: Seq<u64>, ns: Seq<(u64, T)>, ts: Seq<(Option<T>, bool)>, ds: Seq<Seq<u64>>) -> bool {
    forall|ps: int, id: u64|
        0 <= ps < ts.len() && (#[trigger] ts[ps]).1 && ids.contains(id) && !disposed_any(ds.subrange(0, ps), id)
            ==> (#[trigger] pass_notifies(ns, ts, ps, id) <==> !pass_disposed_before(ns, ts, ds, ps, id))
}

/// The exact course of a `set(value)` whose notifications are `ns` with
/// records `ts`: deliveries come in passes, each opened by a record; within a
/// pass observers are notified once each in increasing identity order; a pass
/// carries the last value written during the previous one (`value` for the
/// first); a new pass opens only after a pass in which something was written.
pub open spec fn set_course<T>(value: T, ns: Seq<(u64, T)>, ts: Seq<(Option<T>, bool)>) -> bool {
    &&& ns.len() == ts.len()
    &&& ts.len() > 0 ==> ts[0].1
    &&& forall|j: int| 0 < j < ts.len() && !(#[trigger] ts[j]).1 ==> ns[j - 1].0 < ns[j].0
    &&& forall|j: int| 0 <= j < ns.len() ==> (#[trigger] ns[j]).1 == delivered_value(value, ts, j)
    &&& forall|j: int| 0 < j < ts.len() && (#[trigger] ts[j]).1 ==> last_write(ts.subrange(pass_start(ts, j - 1), j)) is Some
}

/// What one call of `set(value)` does, from `pre` to `post`. Deliveries come
/// in passes (`set_course`): the first carries `value`, each later one the
/// last value written during the pass before it, and a pass follows exactly
/// when the one before wrote (unless no observer is left, or after `u64::MAX`
/// follow-ups). Each pass notifies, once each and in identity order, the
/// observers registered when it starts that no lower observer of the same pass
/// disposed first (`set_members`); disposals take effect at once. The stored
/// value is the last one written, or `value` when nobody wrote; without
/// observers the value is simply stored.
pub open spec fn set_post<T, H>(pre: Signal<T, H>, value: T, post: Signal<T, H>) -> bool {
    &&& post.wf()
    &&& post.next_id == pre.next_id
    &&& pre.log@.len() <= post.log@.len()
    &&& post.log@.subrange(0, pre.log@.len() as int) == pre.log@
    &&& observers_shrunk(pre, post)
    &&& forall|j: int| 0 <= j < notified(pre, post).len() ==> ids_of(pre.observers@).contains(#[trigger] notified(pre, post)[j].0)
    &&& forall|i: int| 0 <= i < post.observers@.len() ==> notified(pre, post).contains((#[trigger] post.observers@[i].0, value))
    &&& forall|i: int| 0 <= i < post.observers@.len() ==> notified(pre, post).contains((#[trigger] post.observers@[i].0, post.value))
    &&& pre.observers@.len() == 0 ==> post.value == value && post.log@ == pre.log@ && post.observers@ == pre.observers@
    &&& post.turns@.subrange(0, pre.turns@.len() as int) == pre.turns@
    &&& set_course(value, notified(pre, post), new_turns(pre, post))
    &&& post.value == (match last_write(new_turns(pre, post)) {
        Some(w) => w,
        None => value,
    }) || pass_count(new_turns(pre, post)) > u64::MAX
    &&& new_turns(pre, post).len() > 0 && last_write(
        new_turns(pre, post).subrange(pass_start(new_turns(pre, post), new_turns(pre, post).len() - 1), new_turns(pre, post).len() as int),
    ) is Some ==> post.observers@.len() == 0 || pass_count(new_turns(pre, post)) > u64::MAX
    &&& post.disposals@.subrange(0, pre.disposals@.len() as int) == pre.disposals@
    &&& set_members(ids_of(pre.observers@), notified(pre, post), new_turns(pre, post), new_disposals(pre, post))
    &&& forall|x: u64| #[trigger] ids_of(post.observers@).contains(x)
        <==> ids_of(pre.observers@).contains(x) && !disposed_any(new_disposals(pre, post), x)
}

/// What one delivery pass does: the value of `pre` goes, once each and in
/// identity order, to exactly the observers of `pre` that no lower observer
/// disposed during the pass; the observers left are those of `pre` that no
/// callback disposed.
pub open spec fn pass_post<T, H>(pre: Signal<T, H>, post: Signal<T, H>) -> bool {
    &&& post.wf()
    &&& post.next_id == pre.next_id
    &&& post.value == pre.value
    &&& pre.log@.len() <= post.log@.len()
    &&& post.log@.subrange(0, pre.log@.len() as int) == pre.log@
    &&& observers_shrunk(pre, post)
    &&& forall|j: int| 0 <= j < notified(pre, post).len() ==> ids_of(pre.observers@).contains(#[trigger] notified(pre, post)[j].0)
    &&& forall|j: int| 0 <= j < notified(pre, post).len() ==> (#[trigger] notified(pre, post)[j]).1 == pre.value
    &&& forall|i: int| 0 <= i < post.observers@.len() ==> notified(pre, post).contains((#[trigger] post.observers@[i].0, pre.value))
    &&& pre.observers@.len() == 0 ==> post.log@ == pre.log@ && post.observers@ == pre.observers@
    &&& post.turns@.subrange(0, pre.turns@.len() as int) == pre.turns@
    &&& one_pass(new_turns(pre, post))
    &&& post.disposals@.subrange(0, pre.disposals@.len() as int) == pre.disposals@
    &&& forall|i: int| 0 <= i < pre.observers@.len() ==> (notifies(notified(pre, post), #[trigger] pre.observers@[i].0)
        <==> !disposed_before(notified(pre, post), new_disposals(pre, post), pre.observers@[i].0))
    &&& forall|x: u64| #[trigger] ids_of(post.observers@).contains(x)
        <==> ids_of(pre.observers@).contains(x) && !disposed_any(new_disposals(pre, post), x)
    &&& forall|a: int, b: int| 0 <= a < b < notified(pre, post).len() ==> (#[trigger] notified(pre, post)[a]).0 < (
    #[trigger] notified(pre, post)[b]).0
}

proof fn lemma_last_write_append<T>(a: Seq<(Option<T>, bool)>, b: Seq<(Option<T>, bool)>)
    ensures
        last_write(a + b) == (match last_write(b) {
            Some(w) => Some(w),
            None => last_write(a),
        }),
    decreases b.len(),
{
    if b.len() == 0 {
        assert(a + b =~= a);
    } else {
        assert((a + b).drop_last() =~= a + b.drop_last());
        assert((a + b).last() == b.last());
        lemma_last_write_append(a, b.drop_last());
    }
}

proof fn lemma_pass_start_prefix<T>(a: Seq<(Option<T>, bool)>, b: Seq<(Option<T>, bool)>, j: int)
    requires
        0 <= j < a.len(),
    ensures
        pass_start(a + b, j) == pass_start(a, j),
    decreases j,
{
    if j > 0 {
        assert((a + b)[j] == a[j]);
        lemma_pass_start_prefix(a, b, j - 1);
    }
}

/// Flags of one pass's records: only the first opens the pass.
pub open spec fn one_pass<T>(b: Seq<(Option<T>, bool)>) -> bool {
    forall|i: int| 0 <= i < b.len() ==> (#[trigger] b[i]).1 == (i == 0)
}

proof fn lemma_pass_start_segment<T>(a: Seq<(Option<T>, bool)>, b: Seq<(Option<T>, bool)>, j: int)
    requires
        a.len() <= j < a.len() + b.len(),
        one_pass(b),
    ensures
        pass_start(a + b, j) == a.len(),
    decreases j,
{
    assert((a + b)[j] == b[j - a.len()]);
    if j > a.len() {
        lemma_pass_start_segment(a, b, j - 1);
    }
}

proof fn lemma_pass_count_append<T>(a: Seq<(Option<T>, bool)>, b: Seq<(Option<T>, bool)>)
    ensures
        pass_count(a + b) == pass_count(a) + pass_count(b),
    decreases b.len(),
{
    if b.len() == 0 {
        assert(a + b =~= a);
    } else {
        assert((a + b).drop_last() =~= a + b.drop_last());
        assert((a + b).last() == b.last());
        lemma_pass_count_append(a, b.drop_last());
    }
}

proof fn lemma_pass_count_one<T>(b: Seq<(Option<T>, bool)>)
    requires
        one_pass(b),
    ensures
        pass_count(b) == (if b.len() > 0 { 1nat } else { 0nat }),
    decreases b.len(),
{
    if b.len() > 0 {
        let d = b.drop_last();
        assert(one_pass(d)) by {
            assert forall|i: int| 0 <= i < d.len() implies (#[trigger] d[i]).1 == (i == 0) by {
                assert(d[i] == b[i]);
            }
        }
        assert(b[b.len() - 1].1 == (b.len() == 1));
        lemma_pass_count_one(d);
    }
}

/// The state a `set(value)` keeps between passes, from `pre` to `s`.
pub open spec fn set_progress<T, H>(pre: Signal<T, H>, value: T, s: Signal<T, H>, passes: nat) -> bool {
    let nt = new_turns(pre, s);
    &&& pre.wf()
    &&& s.wf()
    &&& pre.turns@.len() <= s.turns@.len()
    &&& s.turns@.subrange(0, pre.turns@.len() as int) == pre.turns@
    &&& set_course(value, notified(pre, s), nt)
    &&& s.value == (match last_write(nt) {
        Some(w) => w,
        None => value,
    })
    &&& pass_count(nt) == passes
    &&& (passes == 0) == (nt.len() == 0)
    &&& nt.len() > 0 ==> last_write(nt.subrange(pass_start(nt, nt.len() - 1), nt.len() as int)) is Some
    &&& s.disposals@.subrange(0, pre.disposals@.len() as int) == pre.disposals@
    &&& set_members(ids_of(pre.observers@), notified(pre, s), nt, new_disposals(pre, s))
    &&& forall|x: u64| #[trigger] ids_of(s.observers@).contains(x)
        <==> ids_of(pre.observers@).contains(x) && !disposed_any(new_disposals(pre, s), x)
}

/// One pass after `mid` extends the course of `set(value)` by that pass.
proof fn lemma_set_step<T, H>(pre: Signal<T, H>, value: T, mid: Signal<T, H>, post: Signal<T, H>, passes: nat)
    requires
        set_progress(pre, value, mid, passes),
        pre.log@.len() <= mid.log@.len(),
        mid.log@.subrange(0, pre.log@.len() as int) == pre.log@,
        pass_post(mid, post),
    ensures
        post.turns@.subrange(0, pre.turns@.len() as int) == pre.turns@,
        pre.turns@.len() <= post.turns@.len(),
        set_course(value, notified(pre, post), new_turns(pre, post)),
        last_write(new_turns(pre, post)) == (match last_write(new_turns(mid, post)) {
            Some(w) => Some(w),
            None => last_write(new_turns(pre, mid)),
        }),
        pass_count(new_turns(pre, post)) == passes + (if new_turns(mid, post).len() > 0 { 1nat } else { 0nat }),
        new_turns(pre, post).len() == new_turns(pre, mid).len() + new_turns(mid, post).len(),
        new_turns(mid, post).len() > 0 ==> new_turns(pre, post).subrange(
            pass_start(new_turns(pre, post), new_turns(pre, post).len() - 1),
            new_turns(pre, post).len() as int,
        ) == new_turns(mid, post),
{
    let a = new_turns(pre, mid);
    let b = new_turns(mid, post);
    let ts = new_turns(pre, post);
    let na = notified(pre, mid);
    let nb = notified(mid, post);
    let ns = notified(pre, post);
    let p0 = pre.turns@.len() as int;
    let m0 = mid.turns@.len() as int;
    let q0 = post.turns@.len() as int;
    assert(post.turns@.subrange(0, p0) =~= pre.turns@) by {
        assert forall|i: int| 0 <= i < p0 implies post.turns@[i] == pre.turns@[i] by {
            assert(post.turns@.subrange(0, m0)[i] == post.turns@[i]);
            assert(mid.turns@.subrange(0, p0)[i] == mid.turns@[i]);
        }
    }
    assert(ts =~= a + b) by {
        assert forall|i: int| 0 <= i < ts.len() implies ts[i] == (a + b)[i] by {
            if i < a.len() {
                assert(post.turns@.subrange(0, m0)[p0 + i] == post.turns@[p0 + i]);
            }
        }
    }
    let pl = pre.log@.len() as int;
    let ml = mid.log@.len() as int;
    assert(ns =~= na + nb) by {
        assert forall|i: int| 0 <= i < ns.len() implies ns[i] == (na + nb)[i] by {
            if i < na.len() {
                assert(post.log@.subrange(0, ml)[pl + i] == post.log@[pl + i]);
            }
        }
    }
    assert(one_pass(b));
    lemma_last_write_append(a, b);
    lemma_pass_count_append(a, b);
    lemma_pass_count_one(b);
    if b.len() > 0 {
        lemma_pass_start_segment(a, b, ts.len() - 1);
        assert(ts.subrange(a.len() as int, ts.len() as int) =~= b);
    }
    assert(ts.len() > 0 ==> ts[0].1) by {
        if a.len() == 0 && ts.len() > 0 {
            assert(ts[0] == b[0]);
        } else if ts.len() > 0 {
            assert(ts[0] == a[0]);
        }
    }
    assert forall|j: int| 0 < j < ts.len() && !(#[trigger] ts[j]).1 implies ns[j - 1].0 < ns[j].0 by {
        if j < a.len() {
            assert(ts[j] == a[j]);
            assert(!a[j].1);
            assert(ns[j] == na[j] && ns[j - 1] == na[j - 1]);
        } else {
            assert(ts[j] == b[j - a.len()]);
            assert(j - a.len() != 0);
            assert(ns[j] == nb[j - a.len()] && ns[j - 1] == nb[j - 1 - a.len()]);
        }
    }
    assert forall|j: int| 0 <= j < ns.len() implies (#[trigger] ns[j]).1 == delivered_value(value, ts, j) by {
        if j < a.len() {
            lemma_pass_start_prefix(a, b, j);
            assert(ns[j] == na[j]);
            assert(na[j].1 == delivered_value(value, a, j));
            let ps = pass_start(a, j);
            assert(0 <= ps <= j) by {
                lemma_pass_start_bounds(a, j);
            }
            assert(ts.subrange(0, ps) =~= a.subrange(0, ps));
        } else {
            lemma_pass_start_segment(a, b, j);
            assert(ns[j] == nb[j - a.len()]);
            assert(ts.subrange(0, a.len() as int) =~= a);
        }
    }
    assert forall|j: int| 0 < j < ts.len() && (#[trigger] ts[j]).1 implies last_write(
        ts.subrange(pass_start(ts, j - 1), j),
    ) is Some by {
        lemma_pass_start_prefix(a, b, j - 1);
        let ps = pass_start(a, j - 1);
        assert(0 <= ps <= j - 1) by {
            lemma_pass_start_bounds(a, j - 1);
        }
        if j < a.len() {
            assert(ts[j] == a[j]);
            assert(ts.subrange(ps, j) =~= a.subrange(ps, j));
        } else if j == a.len() {
            assert(ts.subrange(ps, j) =~= a.subrange(ps, a.len() as int));
        } else {
            assert(ts[j] == b[j - a.len()]);
        }
    }
}

/// One pass after `mid` extends who the passes of `set(value)` reach.
proof fn lemma_set_step_members<T, H>(pre: Signal<T, H>, value: T, mid: Signal<T, H>, post: Signal<T, H>, passes: nat)
    requires
        set_progress(pre, value, mid, passes),
        pre.log@.len() <= mid.log@.len(),
        mid.log@.subrange(0, pre.log@.len() as int) == pre.log@,
        pass_post(mid, post),
    ensures
        post.disposals@.subrange(0, pre.disposals@.len() as int) == pre.disposals@,
        set_members(ids_of(pre.observers@), notified(pre, post), new_turns(pre, post), new_disposals(pre, post)),
        forall|x: u64| #[trigger] ids_of(post.observers@).contains(x)
            <==> ids_of(pre.observers@).contains(x) && !disposed_any(new_disposals(pre, post), x),
{
    let a = new_turns(pre, mid);
    let b = new_turns(mid, post);
    let ts = new_turns(pre, post);
    let na = notified(pre, mid);
    let nb = notified(mid, post);
    let ns = notified(pre, post);
    let p0 = pre.turns@.len() as int;
    let m0 = mid.turns@.len() as int;
    assert(ts =~= a + b) by {
        assert forall|i: int| 0 <= i < ts.len() implies ts[i] == (a + b)[i] by {
            if i < a.len() {
                assert(post.turns@.subrange(0, m0)[p0 + i] == post.turns@[p0 + i]);
            }
        }
    }
    let pl = pre.log@.len() as int;
    let ml = mid.log@.len() as int;
    assert(ns =~= na + nb) by {
        assert forall|i: int| 0 <= i < ns.len() implies ns[i] == (na + nb)[i] by {
            if i < na.len() {
                assert(post.log@.subrange(0, ml)[pl + i] == post.log@[pl + i]);
            }
        }
    }
    let da = new_disposals(pre, mid);
    let db = new_disposals(mid, post);
    let ds = new_disposals(pre, post);
    let pd = pre.disposals@.len() as int;
    let md = mid.disposals@.len() as int;
    assert(post.disposals@.subrange(0, pd) =~= pre.disposals@) by {
        assert forall|i: int| 0 <= i < pd implies post.disposals@[i] == pre.disposals@[i] by {
            assert(post.disposals@.subrange(0, md)[i] == post.disposals@[i]);
            assert(mid.disposals@.subrange(0, pd)[i] == mid.disposals@[i]);
        }
    }
    assert(ds =~= da + db) by {
        assert forall|i: int| 0 <= i < ds.len() implies ds[i] == (da + db)[i] by {
            if i < da.len() {
                assert(post.disposals@.subrange(0, md)[pd + i] == post.disposals@[pd + i]);
            }
        }
    }
    assert forall|x: u64| #[trigger] ids_of(post.observers@).contains(x)
        <==> ids_of(pre.observers@).contains(x) && !disposed_any(ds, x) by {
        lemma_disposed_any_append(da, db, x);
        assert(ids_of(mid.observers@).contains(x) <==> ids_of(pre.observers@).contains(x) && !disposed_any(da, x));
    }
    let ids = ids_of(pre.observers@);
    reveal(set_members);
    assert forall|ps: int, id: u64|
        0 <= ps < ts.len() && (#[trigger] ts[ps]).1 && ids.contains(id) && !disposed_any(ds.subrange(0, ps), id)
            implies (#[trigger] pass_notifies(ns, ts, ps, id) <==> !pass_disposed_before(ns, ts, ds, ps, id)) by {
        lemma_pass_sets_append(na, nb, a, b, da, db, ps, id);
        if ps < a.len() {
            assert(ts[ps] == a[ps]);
            assert(ds.subrange(0, ps) =~= da.subrange(0, ps));
            assert(a[ps].1);
            assert(pass_notifies(na, a, ps, id) <==> !pass_disposed_before(na, a, da, ps, id));
        } else {
            assert(ts[ps] == b[ps - a.len()]);
            assert(ps == a.len());
            assert(ds.subrange(0, ps) =~= da);
            assert(ids_of(mid.observers@).contains(id));
            let m = choose|m: int| 0 <= m < ids_of(mid.observers@).len() && ids_of(mid.observers@)[m] == id;
            assert(mid.observers@[m].0 == id);
            assert(notifies(nb, mid.observers@[m].0) <==> !disposed_before(nb, db, mid.observers@[m].0));
        }
    }
}

proof fn lemma_pass_start_bounds<T>(ts: Seq<(Option<T>, bool)>, j: int)
    requires
        0 <= j,
    ensures
        0 <= pass_start(ts, j) <= j,
    decreases j,
{
    if j > 0 {
        lemma_pass_start_bounds(ts, j - 1);
    }
}

proof fn lemma_ids_after_dispose<H>(a: Seq<(u64, H)>, b: Seq<(u64, H)>, id: u64)
    requires
        forall|i: int| 0 <= i < b.len() ==> ids_of(a).contains(#[trigger] b[i].0),
        !ids_of(b).contains(id),
        forall|i: int| 0 <= i < a.len() && a[i].0 != id ==> b.contains(#[trigger] a[i]),
    ensures
        forall|x: u64| #[trigger] ids_of(b).contains(x) <==> ids_of(a).contains(x) && x != id,
{
    assert forall|x: u64| #[trigger] ids_of(b).contains(x) <==> ids_of(a).contains(x) && x != id by {
        if ids_of(b).contains(x) {
            let m = choose|m: int| 0 <= m < ids_of(b).len() && ids_of(b)[m] == x;
            assert(ids_of(a).contains(b[m].0));
        }
        if ids_of(a).contains(x) && x != id {
            let m = choose|m: int| 0 <= m < ids_of(a).len() && ids_of(a)[m] == x;
            assert(a[m].0 != id);
            assert(b.contains(a[m]));
            let q = choose|q: int| 0 <= q < b.len() && b[q] == a[m];
            assert(ids_of(b)[q] == x);
        }
    }
}

proof fn lemma_push_contains<A>(s: Seq<A>, v: A, x: A)
    ensures
        s.push(v).contains(x) <==> s.contains(x) || x == v,
{
    let t = s.push(v);
    if t.contains(x) {
        let m = choose|m: int| 0 <= m < t.len() && t[m] == x;
        if m < s.len() {
            assert(s[m] == x);
        }
    }
    if s.contains(x) {
        let m = choose|m: int| 0 <= m < s.len() && s[m] == x;
        assert(t[m] == x);
    }
    if x == v {
        assert(t[s.len() as int] == v);
    }
}

proof fn lemma_disposed_any_push(ds: Seq<Seq<u64>>, d: Seq<u64>, x: u64)
    ensures
        disposed_any(ds.push(d), x) <==> disposed_any(ds, x) || d.contains(x),
{
    let t = ds.push(d);
    if disposed_any(t, x) {
        let j = choose|j: int| 0 <= j < t.len() && (#[trigger] t[j]).contains(x);
        if j < ds.len() {
            assert(ds[j] == t[j]);
        }
    }
    if disposed_any(ds, x) {
        let j = choose|j: int| 0 <= j < ds.len() && (#[trigger] ds[j]).contains(x);
        assert(t[j] == ds[j]);
    }
    if d.contains(x) {
        assert(t[ds.len() as int] == d);
    }
}

proof fn lemma_notifies_push<T>(ns: Seq<(u64, T)>, e: (u64, T), x: u64)
    ensures
        notifies(ns.push(e), x) <==> notifies(ns, x) || e.0 == x,
{
    let t = ns.push(e);
    if notifies(t, x) {
        let j = choose|j: int| 0 <= j < t.len() && (#[trigger] t[j]).0 == x;
        if j < ns.len() {
            assert(ns[j] == t[j]);
        }
    }
    if notifies(ns, x) {
        let j = choose|j: int| 0 <= j < ns.len() && (#[trigger] ns[j]).0 == x;
        assert(t[j] == ns[j]);
    }
    if e.0 == x {
        assert(t[ns.len() as int] == e);
    }
}

proof fn lemma_disposed_before_push<T>(ns: Seq<(u64, T)>, ds: Seq<Seq<u64>>, e: (u64, T), d: Seq<u64>, x: u64)
    requires
        ns.len() == ds.len(),
    ensures
        disposed_before(ns.push(e), ds.push(d), x) <==> disposed_before(ns, ds, x) || (e.0 < x && d.contains(x)),
{
    let t = ns.push(e);
    let u = ds.push(d);
    if disposed_before(t, u, x) {
        let j = choose|j: int| 0 <= j < t.len() && (#[trigger] t[j]).0 < x && u[j].contains(x);
        if j < ns.len() {
            assert(ns[j] == t[j] && ds[j] == u[j]);
        }
    }
    if disposed_before(ns, ds, x) {
        let j = choose|j: int| 0 <= j < ns.len() && (#[trigger] ns[j]).0 < x && ds[j].contains(x);
        assert(t[j] == ns[j] && u[j] == ds[j]);
    }
    if e.0 < x && d.contains(x) {
        assert(t[ns.len() as int] == e && u[ns.len() as int] == d);
    }
}

proof fn lemma_disposed_any_append(a: Seq<Seq<u64>>, b: Seq<Seq<u64>>, x: u64)
    ensures
        disposed_any(a + b, x) <==> disposed_any(a, x) || disposed_any(b, x),
{
    let t = a + b;
    if disposed_any(t, x) {
        let j = choose|j: int| 0 <= j < t.len() && (#[trigger] t[j]).contains(x);
        if j < a.len() {
            assert(a[j] == t[j]);
        } else {
            assert(b[j - a.len()] == t[j]);
        }
    }
    if disposed_any(a, x) {
        let j = choose|j: int| 0 <= j < a.len() && (#[trigger] a[j]).contains(x);
        assert(t[j] == a[j]);
    }
    if disposed_any(b, x) {
        let j = choose|j: int| 0 <= j < b.len() && (#[trigger] b[j]).contains(x);
        assert(t[a.len() + j] == b[j]);
    }
}

/// Who the passes of `a` reach is unchanged by a later pass `b`; who the
/// pass `b` reaches is read off its own records.
proof fn lemma_pass_sets_append<T>(
    na: Seq<(u64, T)>,
    nb: Seq<(u64, T)>,
    a: Seq<(Option<T>, bool)>,
    b: Seq<(Option<T>, bool)>,
    da: Seq<Seq<u64>>,
    db: Seq<Seq<u64>>,
    ps: int,
    id: u64,
)
    requires
        na.len() == a.len(),
        nb.len() == b.len(),
        da.len() == a.len(),
        db.len() == b.len(),
        one_pass(b),
    ensures
        0 <= ps < a.len() ==> (pass_notifies(na + nb, a + b, ps, id) <==> pass_notifies(na, a, ps, id)),
        0 <= ps < a.len() ==> (pass_disposed_before(na + nb, a + b, da + db, ps, id) <==> pass_disposed_before(na, a, da, ps, id)),
        ps == a.len() ==> (pass_notifies(na + nb, a + b, ps, id) <==> notifies(nb, id)),
        ps == a.len() ==> (pass_disposed_before(na + nb, a + b, da + db, ps, id) <==> disposed_before(nb, db, id)),
{
    let ns = na + nb;
    let ts = a + b;
    let ds = da + db;
    if pass_notifies(ns, ts, ps, id) {
        let j = choose|j: int| 0 <= j < ns.len() && pass_start(ts, j) == ps && (#[trigger] ns[j]).0 == id;
        if j < a.len() {
            lemma_pass_start_prefix(a, b, j);
            lemma_pass_start_bounds(a, j);
            assert(ns[j] == na[j]);
        } else {
            lemma_pass_start_segment(a, b, j);
            assert(ns[j] == nb[j - a.len()]);
        }
    }
    if pass_disposed_before(ns, ts, ds, ps, id) {
        let j = choose|j: int| 0 <= j < ns.len() && pass_start(ts, j) == ps && (#[trigger] ns[j]).0 < id && ds[j].contains(id);
        if j < a.len() {
            lemma_pass_start_prefix(a, b, j);
            lemma_pass_start_bounds(a, j);
            assert(ns[j] == na[j] && ds[j] == da[j]);
        } else {
            lemma_pass_start_segment(a, b, j);
            assert(ns[j] == nb[j - a.len()] && ds[j] == db[j - a.len()]);
        }
    }
    if 0 <= ps < a.len() && pass_notifies(na, a, ps, id) {
        let j = choose|j: int| 0 <= j < na.len() && pass_start(a, j) == ps && (#[trigger] na[j]).0 == id;
        lemma_pass_start_prefix(a, b, j);
        assert(ns[j] == na[j]);
    }
    if 0 <= ps < a.len() && pass_disposed_before(na, a, da, ps, id) {
        let j = choose|j: int| 0 <= j < na.len() && pass_start(a, j) == ps && (#[trigger] na[j]).0 < id && da[j].contains(id);
        lemma_pass_start_prefix(a, b, j);
        assert(ns[j] == na[j] && ds[j] == da[j]);
    }
    if ps == a.len() && notifies(nb, id) {
        let j = choose|j: int| 0 <= j < nb.len() && (#[trigger] nb[j]).0 == id;
        lemma_pass_start_segment(a, b, a.len() + j);
        assert(ns[a.len() + j] == nb[j]);
    }
    if ps == a.len() && disposed_before(nb, db, id) {
        let j = choose|j: int| 0 <= j < nb.len() && (#[trigger] nb[j]).0 < id && db[j].contains(id);
        lemma_pass_start_segment(a, b, a.len() + j);
        assert(ns[a.len() + j] == nb[j] && ds[a.len() + j] == db[j]);
    }
}

proof fn lemma_lower_bound(ids: Seq<u64>, id: u64)
    requires
        strictly_sorted(ids),
    ensures
        0 <= lower_bound(ids, id) <= ids.len(),
        forall|i: int| 0 <= i < lower_bound(ids, id) ==> ids[i] < id,
        forall|i: int| lower_bound(ids, id) <= i < ids.len() ==> ids[i] >= id,
    decreases ids.len(),
{
    if ids.len() > 0 && ids.last() >= id {
        let d = ids.drop_last();
        assert(strictly_sorted(d)) by {
            assert forall|i: int, j: int| 0 <= i < j < d.len() implies d[i] < d[j] by {
                assert(d[i] == ids[i] && d[j] == ids[j]);
            }
        }
        lemma_lower_bound(d, id);
        assert forall|i: int| 0 <= i < lower_bound(ids, id) implies ids[i] < id by {
            assert(d[i] == ids[i]);
        }
        assert forall|i: int| lower_bound(ids, id) <= i < ids.len() implies ids[i] >= id by {
            if i < ids.len() - 1 {
                assert(d[i] == ids[i]);
            }
        }
    } else if ids.len() > 0 {
        assert forall|i: int| 0 <= i < ids.len() implies ids[i] < id by {
            if i < ids.len() - 1 {
                assert(ids[i] < ids[ids.len() - 1]);
            }
        }
    }
}

/// Every signal's observers are among its own.
proof fn lemma_shrunk_refl<T, H>(s: Signal<T, H>)
    ensures
        observers_shrunk(s, s),
{
    assert forall|i: int| 0 <= i < s.observers@.len() implies ids_of(s.observers@).contains(#[trigger] s.observers@[i].0) by {
        assert(ids_of(s.observers@)[i] == s.observers@[i].0);
    }
}

proof fn lemma_shrunk_trans<T, H>(a: Signal<T, H>, b: Signal<T, H>, c: Signal<T, H>)
    requires
        observers_shrunk(a, b),
        observers_shrunk(b, c),
    ensures
        observers_shrunk(a, c),
{
    assert forall|i: int| 0 <= i < c.observers@.len() implies ids_of(a.observers@).contains(#[trigger] c.observers@[i].0) by {
        let o = c.observers@[i].0;
        assert(ids_of(b.observers@).contains(o));
        let m = choose|m: int| 0 <= m < ids_of(b.observers@).len() && ids_of(b.observers@)[m] == o;
        assert(ids_of(a.observers@).contains(b.observers@[m].0));
    }
}

impl<T, H> Signal<T, H> {
    pub open spec fn wf(&self) -> bool {
        &&& strictly_sorted(ids_of(self.observers@))
        &&& self.turns@.len() == self.log@.len()
        &&& self.disposals@.len() == self.log@.len()
    }

    /// Creates a signal holding `value`, with no observers.
    pub fn new(value: T) -> (s: Signal<T, H>)
        ensures
            s.value == value,
            s.observers@.len() == 0,
            s.next_id == 0,
            s.log@.len() == 0,
            s.turns@.len() == 0,
            s.disposals@.len() == 0,
            s.wf(),
    {
        Signal { value, observers: Vec::new(), next_id: 0, log: Ghost(Seq::empty()), turns: Ghost(Seq::empty()),
            disposals: Ghost(Seq::empty()) }
    }

    /// Reads the current value through `f`.
    pub fn with<R>(&self, f: impl FnOnce(&T) -> R) -> (r: R)
        requires
            f.requires((&self.value,)),
        ensures
            f.ensures((&self.value,), r),
    {
        f(&self.value)
    }

    fn position(&self, id: u64) -> (p: usize)
        requires
            self.wf(),
        ensures
            p == lower_bound(ids_of(self.observers@), id),
    {
        proof {
            lemma_lower_bound(ids_of(self.observers@), id);
        }
        assert(ids_of(self.observers@).subrange(0, self.observers@.len() as int) =~= ids_of(self.observers@));
        let mut i = self.observers.len();
        while i > 0 && self.observers[i - 1].0 >= id
            invariant
                i <= self.observers@.len(),
                self.wf(),
                lower_bound(ids_of(self.observers@), id) == lower_bound(ids_of(self.observers@).subrange(0, i as int), id),
            decreases i,
        {
            assert(ids_of(self.observers@).subrange(0, i as int).drop_last() == ids_of(self.observers@).subrange(0, i - 1));
            i -= 1;
        }
        assert(ids_of(self.observers@).subrange(0, self.observers@.len() as int) == ids_of(self.observers@)) by {
            assert(ids_of(self.observers@).subrange(0, self.observers@.len() as int) =~= ids_of(self.observers@));
        }
        i
    }

    /// Whether observer `id` is registered.
    pub fn is_observing(&self, id: u64) -> (b: bool)
        requires
            self.wf(),
        ensures
            b == ids_of(self.observers@).contains(id),
    {
        proof {
            lemma_lower_bound(ids_of(self.observers@), id);
        }
        let p = self.position(id);
        let r = p < self.observers.len() && self.observers[p].0 == id;
        proof {
            if !r {
                assert forall|i: int| 0 <= i < self.observers@.len() implies ids_of(self.observers@)[i] != id by {
                    if i > p {
                        assert(ids_of(self.observers@)[p as int] < ids_of(self.observers@)[i]);
                    }
                }
            } else {
                assert(ids_of(self.observers@)[p as int] == id);
            }
        }
        r
    }

    /// Registers `handler`, called on every subsequent change (not now).
    /// Returns its identity, used to dispose it.
    pub fn observe(&mut self, handler: H) -> (id: u64)
        requires
            old(self).wf(),
        ensures
            id == old(self).next_id,
            final(self).next_id == wrapping_inc(old(self).next_id),
            final(self).observers@ == with_observer(old(self).observers@, id, handler),
            ids_of(final(self).observers@).contains(id),
            final(self).value == old(self).value,
            final(self).log == old(self).log,
            final(self).turns == old(self).turns,
            final(self).disposals == old(self).disposals,
            final(self).wf(),
    {
        let id = self.next_id;
        self.next_id = if self.next_id == u64::MAX { 0 } else { self.next_id + 1 };
        let p = self.position(id);
        let ghost ids = ids_of(self.observers@);
        proof {
            lemma_lower_bound(ids, id);
        }
        if p < self.observers.len() && self.observers[p].0 == id {
            self.observers.set(p, (id, handler));
            assert(ids_of(self.observers@) =~= ids);
        } else {
            self.observers.insert(p, (id, handler));
            assert(ids_of(self.observers@) =~= ids.insert(p as int, id));
            assert(p < ids.len() ==> ids[p as int] > id);
            let ghost nids = ids.insert(p as int, id);
            assert forall|i: int, j: int| 0 <= i < j < nids.len() implies nids[i] < nids[j] by {
                if j < p {
                    assert(nids[i] == ids[i] && nids[j] == ids[j]);
                } else if j == p {
                    assert(nids[i] == ids[i]);
                } else if i < p {
                    assert(nids[i] == ids[i] && nids[j] == ids[j - 1]);
                } else if i == p {
                    assert(nids[j] == ids[j - 1]);
                } else {
                    assert(nids[i] == ids[i - 1] && nids[j] == ids[j - 1]);
                }
            }
        }
        assert(ids_of(self.observers@)[p as int] == id);
        id
    }

    /// Removes observer `id`, if registered; it is notified no more.
    pub fn dispose(&mut self, id: u64)
        requires
            old(self).wf(),
        ensures
            final(self).observers@ == without_observer(old(self).observers@, id),
            !ids_of(final(self).observers@).contains(id),
            forall|x: u64| #[trigger] ids_of(final(self).observers@).contains(x)
                <==> ids_of(old(self).observers@).contains(x) && x != id,
            observers_shrunk(*old(self), *final(self)),
            forall|i: int| 0 <= i < old(self).observers@.len() && old(self).observers@[i].0 != id
                ==> final(self).observers@.contains(#[trigger] old(self).observers@[i]),
            final(self).value == old(self).value,
            final(self).next_id == old(self).next_id,
            final(self).log == old(self).log,
            final(self).turns == old(self).turns,
            final(self).disposals == old(self).disposals,
            final(self).wf(),
    {
        let p = self.position(id);
        let ghost before = self.observers@;
        let ghost ids = ids_of(self.observers@);
        proof {
            lemma_lower_bound(ids, id);
        }
        if p < self.observers.len() && self.observers[p].0 == id {
            self.observers.remove(p);
            assert(ids_of(self.observers@) =~= ids.remove(p as int));
            assert forall|i: int| 0 <= i < self.observers@.len() implies ids.contains(#[trigger] self.observers@[i].0) by {
                if i < p {
                    assert(ids[i] == self.observers@[i].0);
                } else {
                    assert(ids[i + 1] == self.observers@[i].0);
                }
            }
            assert forall|i: int| 0 <= i < before.len() && before[i].0 != id implies self.observers@.contains(#[trigger] before[i]) by {
                if i < p {
                    assert(self.observers@[i] == before[i]);
                } else {
                    assert(self.observers@[i - 1] == before[i]);
                }
            }
            assert forall|i: int| 0 <= i < self.observers@.len() implies ids_of(self.observers@)[i] != id by {
                if i < p {
                    assert(ids[i] < ids[p as int]);
                } else {
                    assert(ids[i + 1] > ids[p as int]);
                }
            }
        } else {
            assert forall|i: int| 0 <= i < self.observers@.len() implies ids.contains(#[trigger] self.observers@[i].0) by {
                assert(ids[i] == self.observers@[i].0);
            }
            assert forall|i: int| 0 <= i < before.len() && before[i].0 != id implies self.observers@.contains(#[trigger] before[i]) by {
                assert(self.observers@[i] == before[i]);
            }
            assert forall|i: int| 0 <= i < self.observers@.len() implies ids_of(self.observers@)[i] != id by {
                if i > p {
                    assert(ids[p as int] < ids[i]);
                }
            }
        }
        proof {
            lemma_ids_after_dispose(before, self.observers@, id);
        }
    }

    /// The identities of the registered observers, in order.
    fn observer_ids(&self) -> (v: Vec<u64>)
        ensures
            v@ == ids_of(self.observers@),
    {
        let mut v: Vec<u64> = Vec::new();
        let mut i: usize = 0;
        while i < self.observers.len()
            invariant
                i <= self.observers@.len(),
                v@ == ids_of(self.observers@).subrange(0, i as int),
            decreases self.observers@.len() - i,
        {
            v.push(self.observers[i].0);
            i += 1;
            assert(v@ =~= ids_of(self.observers@).subrange(0, i as int));
        }
        assert(v@ =~= ids_of(self.observers@));
        v
    }

    /// Applies the disposals an observer asked for, in order.
    fn dispose_all(&mut self, disposed: &Vec<u64>)
        requires
            old(self).wf(),
        ensures
            final(self).wf(),
            forall|x: u64| #[trigger] ids_of(final(self).observers@).contains(x)
                <==> ids_of(old(self).observers@).contains(x) && !disposed@.contains(x),
            observers_shrunk(*old(self), *final(self)),
            final(self).value == old(self).value,
            final(self).next_id == old(self).next_id,
            final(self).log == old(self).log,
            final(self).turns == old(self).turns,
            final(self).disposals == old(self).disposals,
    {
        proof {
            lemma_shrunk_refl(*self);
        }
        let mut i: usize = 0;
        while i < disposed.len()
            invariant
                i <= disposed@.len(),
                self.wf(),
                observers_shrunk(*old(self), *self),
                self.value == old(self).value,
                self.next_id == old(self).next_id,
                self.log == old(self).log,
                self.turns == old(self).turns,
                self.disposals == old(self).disposals,
                forall|x: u64| #[trigger] ids_of(self.observers@).contains(x)
                    <==> ids_of(old(self).observers@).contains(x) && !disposed@.subrange(0, i as int).contains(x),
            decreases disposed@.len() - i,
        {
            let ghost mid = *self;
            self.dispose(disposed[i]);
            proof {
                lemma_shrunk_trans(*old(self), mid, *self);
                assert(disposed@.subrange(0, i + 1) =~= disposed@.subrange(0, i as int).push(disposed@[i as int]));
                assert forall|x: u64| #[trigger] ids_of(self.observers@).contains(x)
                    <==> ids_of(old(self).observers@).contains(x) && !disposed@.subrange(0, i + 1).contains(x) by {
                    assert(ids_of(self.observers@).contains(x) <==> ids_of(mid.observers@).contains(x) && x != disposed@[i as int]);
                    lemma_push_contains(disposed@.subrange(0, i as int), disposed@[i as int], x);
                }
            }
            i += 1;
        }
        proof {
            assert(disposed@.subrange(0, disposed@.len() as int) =~= disposed@);
        }
    }

    /// One delivery pass: the current value goes, in identity order, to each
    /// observer registered when the pass starts and not disposed before its
    /// turn; disposals take effect at once. Returns the last value written
    /// during the pass, if any, without storing it.
    pub fn deliver_pass(&mut self) -> (pending: Option<T>)
        where H: Observer<T>
        requires
            old(self).wf(),
        ensures
            pass_post(*old(self), *final(self)),
            pending == last_write(new_turns(*old(self), *final(self))),
            old(self).observers@.len() == 0 ==> pending is None,
    {
        let snapshot = self.observer_ids();
        let ghost pre = *self;
        let ghost n = pre.log@.len();
        proof {
            lemma_shrunk_refl(pre);
            assert(self.log@.subrange(0, n as int) =~= pre.log@);
            assert(self.turns@.subrange(0, n as int) =~= pre.turns@);
            assert(self.turns@.subrange(n as int, self.turns@.len() as int) =~= Seq::<(Option<T>, bool)>::empty());
            assert(self.disposals@.subrange(0, n as int) =~= pre.disposals@);
            assert(self.disposals@.subrange(n as int, self.disposals@.len() as int) =~= Seq::<Seq<u64>>::empty());
        }
        let mut last: Option<T> = None;
        let mut k: usize = 0;
        while k < snapshot.len()
            invariant
                k <= snapshot@.len(),
                snapshot@ == ids_of(pre.observers@),
                pre.wf(),
                self.wf(),
                self.value == pre.value,
                self.next_id == pre.next_id,
                n == pre.log@.len(),
                n <= self.log@.len(),
                self.log@.subrange(0, n as int) == pre.log@,
                observers_shrunk(pre, *self),
                forall|j: int| n <= j < self.log@.len() ==> snapshot@.subrange(0, k as int).contains(#[trigger] self.log@[j].0),
                forall|j: int| n <= j < self.log@.len() ==> (#[trigger] self.log@[j]).1 == pre.value,
                forall|i: int| 0 <= i < k && ids_of(self.observers@).contains(#[trigger] snapshot@[i])
                    ==> self.log@.subrange(n as int, self.log@.len() as int).contains((snapshot@[i], pre.value)),
                pre.observers@.len() == 0 ==> self.log@ == pre.log@ && self.observers@ == pre.observers@,
                pre.observers@.len() == 0 ==> last is None,
                self.turns@.subrange(0, n as int) == pre.turns@,
                forall|j: int| n <= j < self.turns@.len() ==> (#[trigger] self.turns@[j]).1 == (j == n),
                last == last_write(self.turns@.subrange(n as int, self.turns@.len() as int)),
                forall|a: int, b: int| n <= a < b < self.log@.len() ==> (#[trigger] self.log@[a]).0 < (#[trigger] self.log@[b]).0,
                forall|j: int| n <= j < self.log@.len() ==> (#[trigger] self.log@[j]).0 < snapshot@[k as int] || k == snapshot@.len(),
                self.disposals@.subrange(0, n as int) == pre.disposals@,
                forall|x: u64| #[trigger] ids_of(self.observers@).contains(x)
                    <==> ids_of(pre.observers@).contains(x) && !disposed_any(self.disposals@.subrange(n as int, self.disposals@.len() as int), x),
                forall|i: int| 0 <= i < k ==> (notifies(self.log@.subrange(n as int, self.log@.len() as int), #[trigger] snapshot@[i])
                    <==> !disposed_before(self.log@.subrange(n as int, self.log@.len() as int),
                        self.disposals@.subrange(n as int, self.disposals@.len() as int), snapshot@[i])),
            decreases snapshot@.len() - k,
        {
            let id = snapshot[k];
            let p = self.position(id);
            let ghost before = *self;
            if p < self.observers.len() && self.observers[p].0 == id {
                let mut ctx: SignalCtx<T> = SignalCtx::new(id);
                self.observers[p].1.notify(&self.value, &mut ctx);
                self.log = Ghost(self.log@.push((id, self.value)));
                let SignalCtx { current: _, pending, disposed } = ctx;
                self.turns = Ghost(self.turns@.push((pending, before.log@.len() == n)));
                self.disposals = Ghost(self.disposals@.push(disposed@));
                let ghost logged = *self;
                self.dispose_all(&disposed);
                match pending {
                    Some(w) => {
                        last = Some(w);
                    },
                    None => {},
                }
                proof {
                    assert(self.log@.subrange(0, n as int) =~= before.log@.subrange(0, n as int));
                    assert(self.turns@.subrange(0, n as int) =~= before.turns@.subrange(0, n as int));
                    assert(self.turns@.subrange(n as int, self.turns@.len() as int).drop_last()
                        =~= before.turns@.subrange(n as int, before.turns@.len() as int));
                    assert(strictly_sorted(snapshot@));
                    assert(self.disposals@.subrange(0, n as int) =~= before.disposals@.subrange(0, n as int));
                    let cn0 = before.log@.subrange(n as int, before.log@.len() as int);
                    let cd0 = before.disposals@.subrange(n as int, before.disposals@.len() as int);
                    let cn1 = self.log@.subrange(n as int, self.log@.len() as int);
                    let cd1 = self.disposals@.subrange(n as int, self.disposals@.len() as int);
                    assert(cn1 =~= cn0.push((id, pre.value)));
                    assert(cd1 =~= cd0.push(disposed@));
                    assert(ids_of(before.observers@)[p as int] == id);
                    assert(ids_of(before.observers@).contains(id));
                    assert(cn0.len() == cd0.len());
                    assert forall|x: u64| #[trigger] ids_of(self.observers@).contains(x)
                        <==> ids_of(pre.observers@).contains(x) && !disposed_any(cd1, x) by {
                        lemma_disposed_any_push(cd0, disposed@, x);
                        assert(ids_of(logged.observers@).contains(x) == ids_of(before.observers@).contains(x));
                    }
                    assert forall|i: int| 0 <= i < k + 1 implies (notifies(cn1, #[trigger] snapshot@[i])
                        <==> !disposed_before(cn1, cd1, snapshot@[i])) by {
                        lemma_notifies_push(cn0, (id, pre.value), snapshot@[i]);
                        lemma_disposed_before_push(cn0, cd0, (id, pre.value), disposed@, snapshot@[i]);
                        if i < k {
                            assert(snapshot@[i] < snapshot@[k as int]);
                            assert(notifies(cn0, snapshot@[i]) <==> !disposed_before(cn0, cd0, snapshot@[i]));
                        } else {
                            assert(snapshot@[i] == id);
                            if disposed_before(cn0, cd0, id) {
                                let j = choose|j: int| 0 <= j < cn0.len() && (#[trigger] cn0[j]).0 < id && cd0[j].contains(id);
                                assert(disposed_any(cd0, id));
                            }
                        }
                    }
                    assert forall|a: int, b: int| n <= a < b < self.log@.len() implies (#[trigger] self.log@[a]).0 < (#[trigger] self.log@[b]).0 by {
                        if b == self.log@.len() - 1 {
                            assert(before.log@[a].0 < snapshot@[k as int]);
                        } else {
                            assert(before.log@[a].0 < before.log@[b].0);
                        }
                    }
                    if k + 1 < snapshot@.len() {
                        assert(snapshot@[k as int] < snapshot@[k + 1]);
                        assert forall|j: int| n <= j < self.log@.len() implies (#[trigger] self.log@[j]).0 < snapshot@[k + 1] by {
                            if j < self.log@.len() - 1 {
                                assert(before.log@[j].0 < snapshot@[k as int]);
                            }
                        }
                    }
                    assert forall|j: int| n <= j < self.log@.len() implies snapshot@.subrange(0, k + 1).contains(#[trigger] self.log@[j].0) by {
                        if j < self.log@.len() - 1 {
                            assert(snapshot@.subrange(0, k as int).contains(before.log@[j].0));
                            let m = choose|m: int| 0 <= m < k && snapshot@.subrange(0, k as int)[m] == before.log@[j].0;
                            assert(snapshot@.subrange(0, k + 1)[m] == before.log@[j].0);
                        } else {
                            assert(snapshot@.subrange(0, k + 1)[k as int] == id);
                        }
                    }
                    assert forall|i: int| 0 <= i < k + 1 && ids_of(self.observers@).contains(#[trigger] snapshot@[i])
                        implies self.log@.subrange(n as int, self.log@.len() as int).contains((snapshot@[i], pre.value)) by {
                        let appended = self.log@.subrange(n as int, self.log@.len() as int);
                        if i < k {
                            assert(ids_of(before.observers@).contains(snapshot@[i])) by {
                                let m = choose|m: int| 0 <= m < ids_of(self.observers@).len() && ids_of(self.observers@)[m] == snapshot@[i];
                                assert(ids_of(logged.observers@).contains(self.observers@[m].0));
                            }
                            let old_app = before.log@.subrange(n as int, before.log@.len() as int);
                            assert(old_app.contains((snapshot@[i], pre.value)));
                            let m = choose|m: int| 0 <= m < old_app.len() && old_app[m] == (snapshot@[i], pre.value);
                            assert(appended[m] == old_app[m]);
                        } else {
                            assert(appended[appended.len() - 1] == (id, pre.value));
                        }
                    }
                }
            } else {
                proof {
                    assert(strictly_sorted(snapshot@));
                    lemma_lower_bound(ids_of(self.observers@), id);
                    assert(!ids_of(self.observers@).contains(id)) by {
                        if ids_of(self.observers@).contains(id) {
                            let m = choose|m: int| 0 <= m < ids_of(self.observers@).len() && ids_of(self.observers@)[m] == id;
                            if m > p {
                                assert(ids_of(self.observers@)[p as int] < ids_of(self.observers@)[m]);
                            }
                        }
                    }
                    let cn0 = self.log@.subrange(n as int, self.log@.len() as int);
                    let cd0 = self.disposals@.subrange(n as int, self.disposals@.len() as int);
                    assert(ids_of(pre.observers@)[k as int] == id);
                    assert(disposed_any(cd0, id));
                    let jj = choose|j: int| 0 <= j < cd0.len() && (#[trigger] cd0[j]).contains(id);
                    assert(cn0[jj] == self.log@[n + jj]);
                    assert(disposed_before(cn0, cd0, id));
                    assert(!notifies(cn0, id)) by {
                        if notifies(cn0, id) {
                            let j = choose|j: int| 0 <= j < cn0.len() && (#[trigger] cn0[j]).0 == id;
                            assert(cn0[j] == self.log@[n + j]);
                        }
                    }
                    if k + 1 < snapshot@.len() {
                        assert(snapshot@[k as int] < snapshot@[k + 1]);
                        assert forall|j: int| n <= j < self.log@.len() implies (#[trigger] self.log@[j]).0 < snapshot@[k + 1] by {
                            assert(self.log@[j].0 < snapshot@[k as int]);
                        }
                    }
                    assert forall|j: int| n <= j < self.log@.len() implies snapshot@.subrange(0, k + 1).contains(#[trigger] self.log@[j].0) by {
                        assert(snapshot@.subrange(0, k as int).contains(self.log@[j].0));
                        let m = choose|m: int| 0 <= m < k && snapshot@.subrange(0, k as int)[m] == self.log@[j].0;
                        assert(snapshot@.subrange(0, k + 1)[m] == self.log@[j].0);
                    }
                    lemma_lower_bound(ids_of(self.observers@), id);
                    assert forall|i: int| 0 <= i < k + 1 && ids_of(self.observers@).contains(#[trigger] snapshot@[i])
                        implies self.log@.subrange(n as int, self.log@.len() as int).contains((snapshot@[i], pre.value)) by {
                        if i == k {
                            let m = choose|m: int| 0 <= m < ids_of(self.observers@).len() && ids_of(self.observers@)[m] == id;
                            if m > p {
                                assert(ids_of(self.observers@)[p as int] < ids_of(self.observers@)[m]);
                            }
                        }
                    }
                }
            }
            k += 1;
        }
        proof {
            let post = *self;
            assert forall|j: int| 0 <= j < notified(pre, post).len() implies ids_of(pre.observers@).contains(#[trigger] notified(pre, post)[j].0) by {
                assert(notified(pre, post)[j] == post.log@[n + j]);
                let m = choose|m: int| 0 <= m < snapshot@.len() && snapshot@.subrange(0, snapshot@.len() as int)[m] == post.log@[n + j].0;
                assert(ids_of(pre.observers@)[m] == post.log@[n + j].0);
            }
            assert forall|j: int| 0 <= j < notified(pre, post).len() implies (#[trigger] notified(pre, post)[j]).1 == pre.value by {
                assert(notified(pre, post)[j] == post.log@[n + j]);
            }
            assert forall|a: int, b: int| 0 <= a < b < notified(pre, post).len() implies (#[trigger] notified(pre, post)[a]).0 < (
            #[trigger] notified(pre, post)[b]).0 by {
                assert(notified(pre, post)[a] == post.log@[n + a]);
                assert(notified(pre, post)[b] == post.log@[n + b]);
            }
            assert forall|j: int| 0 <= j < new_turns(pre, post).len() implies (#[trigger] new_turns(pre, post)[j]).1 == (j == 0) by {
                assert(new_turns(pre, post)[j] == post.turns@[n + j]);
            }
            assert forall|i: int| 0 <= i < pre.observers@.len() implies (notifies(notified(pre, post), #[trigger] pre.observers@[i].0)
                <==> !disposed_before(notified(pre, post), new_disposals(pre, post), pre.observers@[i].0)) by {
                assert(snapshot@[i] == pre.observers@[i].0);
            }
            assert forall|i: int| 0 <= i < post.observers@.len() implies notified(pre, post).contains((#[trigger] post.observers@[i].0, pre.value)) by {
                let o = post.observers@[i].0;
                assert(ids_of(pre.observers@).contains(o));
                let m = choose|m: int| 0 <= m < ids_of(pre.observers@).len() && ids_of(pre.observers@)[m] == o;
                assert(snapshot@[m] == o);
                assert(ids_of(post.observers@)[i] == o);
            }
        }
        last
    }

    /// Sets a new value and notifies the observers. A write made from inside
    /// a callback is coalesced into a single follow-up pass with the final
    /// value; passes repeat while callbacks keep writing.
    pub fn set(&mut self, value: T)
        where H: Observer<T>
        requires
            old(self).wf(),
        ensures
            set_post(*old(self), value, *final(self)),
    {
        let ghost pre = *self;
        self.value = value;
        proof {
            lemma_shrunk_refl(pre);
            assert(self.log@.subrange(0, pre.log@.len() as int) =~= pre.log@);
            assert(self.turns@.subrange(0, pre.turns@.len() as int) =~= pre.turns@);
            assert(new_turns(pre, *self) =~= Seq::<(Option<T>, bool)>::empty());
            assert(notified(pre, *self) =~= Seq::<(u64, T)>::empty());
            assert(self.disposals@.subrange(0, pre.disposals@.len() as int) =~= pre.disposals@);
            assert(new_disposals(pre, *self) =~= Seq::<Seq<u64>>::empty());
            reveal(set_members);
        }
        let mut passes: u64 = 0;
        loop
            invariant_except_break
                passes == 0 ==> self.value == value && self.log@ == pre.log@ && self.observers@ == pre.observers@,
                set_progress(pre, value, *self, passes as nat),
            invariant
                pre.wf(),
                self.wf(),
                self.next_id == pre.next_id,
                pre.log@.len() <= self.log@.len(),
                self.log@.subrange(0, pre.log@.len() as int) == pre.log@,
                observers_shrunk(pre, *self),
                forall|j: int| 0 <= j < notified(pre, *self).len() ==> ids_of(pre.observers@).contains(#[trigger] notified(pre, *self)[j].0),
                passes > 0 ==> forall|i: int| 0 <= i < self.observers@.len() ==> notified(pre, *self).contains((#[trigger] self.observers@[i].0, value)),
                pre.observers@.len() == 0 ==> self.value == value && self.log@ == pre.log@ && self.observers@ == pre.observers@,
            ensures
                set_post(pre, value, *self),
            decreases u64::MAX - passes,
        {
            let ghost mid = *self;
            let pending = self.deliver_pass();
            proof {
                let post = *self;
                lemma_set_step(pre, value, mid, post, passes as nat);
                lemma_set_step_members(pre, value, mid, post, passes as nat);
                lemma_last_write_append(new_turns(pre, mid), new_turns(mid, post));
                assert forall|j: int| 0 <= j < mid.log@.len() implies post.log@[j] == mid.log@[j] by {
                    assert(post.log@.subrange(0, mid.log@.len() as int)[j] == post.log@[j]);
                }
                assert(post.log@.subrange(0, pre.log@.len() as int) =~= pre.log@) by {
                    assert forall|j: int| 0 <= j < pre.log@.len() implies mid.log@[j] == pre.log@[j] by {
                        assert(mid.log@.subrange(0, pre.log@.len() as int)[j] == mid.log@[j]);
                    }
                }
                assert forall|i: int| 0 <= i < post.observers@.len() implies ids_of(pre.observers@).contains(#[trigger] post.observers@[i].0) by {
                    assert(ids_of(mid.observers@).contains(post.observers@[i].0));
                    let m = choose|m: int| 0 <= m < ids_of(mid.observers@).len() && ids_of(mid.observers@)[m] == post.observers@[i].0;
                    assert(ids_of(pre.observers@).contains(mid.observers@[m].0));
                }
                assert forall|j: int| 0 <= j < notified(pre, post).len() implies ids_of(pre.observers@).contains(#[trigger] notified(pre, post)[j].0) by {
                    let a = pre.log@.len() as int;
                    let b = mid.log@.len() as int;
                    if j < b - a {
                        assert(notified(pre, post)[j] == notified(pre, mid)[j]);
                    } else {
                        assert(notified(pre, post)[j] == notified(mid, post)[j - (b - a)]);
                        let o = notified(mid, post)[j - (b - a)].0;
                        assert(ids_of(mid.observers@).contains(o));
                        let m = choose|m: int| 0 <= m < ids_of(mid.observers@).len() && ids_of(mid.observers@)[m] == o;
                        assert(ids_of(pre.observers@).contains(mid.observers@[m].0));
                    }
                }
                assert forall|i: int| 0 <= i < post.observers@.len() implies notified(pre, post).contains((#[trigger] post.observers@[i].0, post.value)) by {
                    let a = pre.log@.len() as int;
                    let b = mid.log@.len() as int;
                    let e = (post.observers@[i].0, mid.value);
                    assert(notified(mid, post).contains(e));
                    let m = choose|m: int| 0 <= m < notified(mid, post).len() && notified(mid, post)[m] == e;
                    assert(notified(pre, post)[m + (b - a)] == e);
                }
                assert forall|i: int| 0 <= i < post.observers@.len() implies notified(pre, post).contains((#[trigger] post.observers@[i].0, value)) by {
                    let a = pre.log@.len() as int;
                    let b = mid.log@.len() as int;
                    let o = post.observers@[i].0;
                    if passes == 0 {
                        assert(notified(mid, post).contains((o, value)));
                        let m = choose|m: int| 0 <= m < notified(mid, post).len() && notified(mid, post)[m] == (o, value);
                        assert(notified(pre, post)[m + (b - a)] == (o, value));
                    } else {
                        assert(ids_of(mid.observers@).contains(o));
                        let q = choose|q: int| 0 <= q < ids_of(mid.observers@).len() && ids_of(mid.observers@)[q] == o;
                        assert(mid.observers@[q].0 == o);
                        assert(notified(pre, mid).contains((o, value)));
                        let m = choose|m: int| 0 <= m < notified(pre, mid).len() && notified(pre, mid)[m] == (o, value);
                        assert(notified(pre, post)[m] == (o, value));
                    }
                }
            }
            match pending {
                Some(w) => {
                    if passes == u64::MAX {
                        break;
                    }
                    self.value = w;
                    passes = passes + 1;
                },
                None => {
                    proof {
                        let post = *self;
                        if new_turns(mid, post).len() == 0 && post.observers@.len() > 0 {
                            assert(notified(mid, post).contains((post.observers@[0].0, mid.value)));
                        }
                    }
                    break;
                },
            }
        }
    }

    /// Replaces the value with `f(current)` and notifies.
    pub fn update(&mut self, f: impl FnOnce(&T) -> T)
        where H: Observer<T>
        requires
            old(self).wf(),
            f.requires((&old(self).value,)),
        ensures
            exists|next: T| #[trigger] f.ensures((&old(self).value,), next) && set_post(*old(self), next, *final(self)),
    {
        let next = f(&self.value);
        self.set(next);
    }
}

impl<T: Clone, H> Signal<T, H> {
    /// A clone of the current value.
    pub fn get(&self) -> (v: T)
        ensures
            cloned(self.value, v),
    {
        self.value.clone()
    }
}

impl<T: PartialEq, H: Observer<T>> Signal<T, H> {
    /// Sets `value` only if it differs from the current one.
    pub fn set_if_changed(&mut self, value: T)
        requires
            old(self).wf(),
        ensures
            T::obeys_eq_spec() && old(self).value.eq_spec(&value) ==> *final(self) == *old(self),
            T::obeys_eq_spec() && !old(self).value.eq_spec(&value) ==> set_post(*old(self), value, *final(self)),
            *final(self) == *old(self) || set_post(*old(self), value, *final(self)),
    {
        if self.value != value {
            self.set(value);
        }
    }

    /// Applies `f` and sets the result only if it differs.
    pub fn update_if_changed(&mut self, f: impl FnOnce(&T) -> T)
        requires
            old(self).wf(),
            f.requires((&old(self).value,)),
        ensures
            exists|next: T| #[trigger] f.ensures((&old(self).value,), next) && {
                &&& T::obeys_eq_spec() && old(self).value.eq_spec(&next) ==> *final(self) == *old(self)
                &&& T::obeys_eq_spec() && !old(self).value.eq_spec(&next) ==> set_post(*old(self), next, *final(self))
                &&& *final(self) == *old(self) || set_post(*old(self), next, *final(self))
            },
    {
        let next = f(&self.value);
        self.set_if_changed(next);
    }
}

/// A disposed observer is never notified again: after `dispose(id)`, a
/// `set` notifies no observer `id`.
pub proof fn law_disposed_not_notified<T, H>(s0: Signal<T, H>, id: u64, s1: Signal<T, H>, v: T, s2: Signal<T, H>)
    requires
        s0.wf(),
        s1.observers@ == without_observer(s0.observers@, id),
        !ids_of(s1.observers@).contains(id),
        set_post(s1, v, s2),
    ensures
        forall|j: int| 0 <= j < notified(s1, s2).len() ==> (#[trigger] notified(s1, s2)[j]).0 != id,
{
    assert forall|j: int| 0 <= j < notified(s1, s2).len() implies (#[trigger] notified(s1, s2)[j]).0 != id by {
        assert(ids_of(s1.observers@).contains(notified(s1, s2)[j].0));
    }
}

/// Registering an observer notifies nobody; the next `set` notifies it with
/// the new value, unless it disposed itself during delivery.
pub proof fn law_observe_then_set<T, H>(s0: Signal<T, H>, h: H, id: u64, s1: Signal<T, H>, v: T, s2: Signal<T, H>)
    requires
        s0.wf(),
        s1.log == s0.log,
        ids_of(s1.observers@).contains(id),
        set_post(s1, v, s2),
    ensures
        s1.log@ == s0.log@,
        ids_of(s2.observers@).contains(id) ==> notified(s1, s2).contains((id, v)),
{
    if ids_of(s2.observers@).contains(id) {
        let k = choose|k: int| 0 <= k < ids_of(s2.observers@).len() && ids_of(s2.observers@)[k] == id;
        assert(s2.observers@[k].0 == id);
    }
}

proof fn lemma_last_write_none<T>(ts: Seq<(Option<T>, bool)>)
    requires
        forall|j: int| 0 <= j < ts.len() ==> (#[trigger] ts[j]).0 is None,
    ensures
        last_write(ts) is None,
    decreases ts.len(),
{
    if ts.len() > 0 {
        let d = ts.drop_last();
        assert forall|j: int| 0 <= j < d.len() implies (#[trigger] d[j]).0 is None by {
            assert(d[j] == ts[j]);
        }
        assert(ts[ts.len() - 1].0 is None);
        lemma_last_write_none(d);
    }
}

proof fn lemma_pass_count_first_only<T>(ts: Seq<(Option<T>, bool)>)
    requires
        forall|j: int| 0 < j < ts.len() ==> !(#[trigger] ts[j]).1,
    ensures
        pass_count(ts) <= 1,
    decreases ts.len(),
{
    if ts.len() > 0 {
        let d = ts.drop_last();
        assert forall|j: int| 0 < j < d.len() implies !(#[trigger] d[j]).1 by {
            assert(d[j] == ts[j]);
        }
        lemma_pass_count_first_only(d);
        if ts.len() > 1 {
            assert(!ts[ts.len() - 1].1);
        } else {
            assert(d.len() == 0);
        }
    }
}

/// A `set(value)` during which no callback writes makes a single pass and
/// stores `value`.
pub proof fn law_set_without_writes<T, H>(pre: Signal<T, H>, value: T, post: Signal<T, H>)
    requires
        set_post(pre, value, post),
        forall|j: int| 0 <= j < new_turns(pre, post).len() ==> (#[trigger] new_turns(pre, post)[j]).0 is None,
    ensures
        pass_count(new_turns(pre, post)) <= 1,
        post.value == value,
        forall|j: int| 0 <= j < notified(pre, post).len() ==> (#[trigger] notified(pre, post)[j]).1 == value,
{
    let ts = new_turns(pre, post);
    lemma_last_write_none(ts);
    assert forall|j: int| 0 < j < ts.len() implies !(#[trigger] ts[j]).1 by {
        if ts[j].1 {
            let ps = pass_start(ts, j - 1);
            lemma_pass_start_bounds(ts, j - 1);
            let seg = ts.subrange(ps, j);
            assert forall|i: int| 0 <= i < seg.len() implies (#[trigger] seg[i]).0 is None by {
                assert(seg[i] == ts[ps + i]);
            }
            lemma_last_write_none(seg);
        }
    }
    lemma_pass_count_first_only(ts);
    assert forall|j: int| 0 <= j < notified(pre, post).len() implies (#[trigger] notified(pre, post)[j]).1 == value by {
        let ps = pass_start(ts, j);
        lemma_pass_start_bounds(ts, j);
        let seg = ts.subrange(0, ps);
        assert forall|i: int| 0 <= i < seg.len() implies (#[trigger] seg[i]).0 is None by {
            assert(seg[i] == ts[i]);
        }
        lemma_last_write_none(seg);
    }
}

/// Writes made during a pass coalesce: every notification of a follow-up
/// pass carries the last value written during the pass before it.
pub proof fn law_followup_carries_last_write<T, H>(pre: Signal<T, H>, value: T, post: Signal<T, H>, j: int)
    requires
        set_post(pre, value, post),
        0 <= j < notified(pre, post).len(),
        pass_start(new_turns(pre, post), j) > 0,
    ensures
        ({
            let ts = new_turns(pre, post);
            let ps = pass_start(ts, j);
            let before = ts.subrange(pass_start(ts, ps - 1), ps);
            &&& last_write(before) is Some
            &&& notified(pre, post)[j].1 == last_write(before)->0
        }),
{
    let ts = new_turns(pre, post);
    let ps = pass_start(ts, j);
    lemma_pass_start_bounds(ts, j);
    lemma_pass_start_opens(ts, j);
    let q = pass_start(ts, ps - 1);
    lemma_pass_start_bounds(ts, ps - 1);
    assert(ts[ps].1);
    assert(ts.subrange(0, ps) =~= ts.subrange(0, q) + ts.subrange(q, ps));
    lemma_last_write_append(ts.subrange(0, q), ts.subrange(q, ps));
}

proof fn lemma_pass_start_opens<T>(ts: Seq<(Option<T>, bool)>, j: int)
    requires
        0 <= j < ts.len(),
        pass_start(ts, j) > 0,
    ensures
        ts[pass_start(ts, j)].1,
    decreases j,
{
    if j > 0 && !ts[j].1 {
        lemma_pass_start_opens(ts, j - 1);
    }
}

} // verus!
