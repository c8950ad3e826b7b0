//! Keyed collections of child widgets: one child per element of the data,
//! identified by its key, kept in sync as the data changes. A child whose key
//! stays is kept as it is (the same widget, moved to its new place), new keys
//! get a new child, and the children of vanished keys are handed back to be
//! torn down.

use vstd::prelude::*;

use crate::widget::{AnyWidget, Stack};

verus! {

pub open spec fn keys_of<W>(e: Seq<(u64, W)>) -> Seq<u64> {
    e.map_values(|x: (u64, W)| x.0)
}

pub open spec fn distinct(keys: Seq<u64>) -> bool {
    forall|i: int, j: int| 0 <= i < j < keys.len() ==> keys[i] != keys[j]
}

/// Children in data order, with distinct keys.
pub struct ForEach<W> {
    pub entries: Vec<(u64, W)>,
}

fn index_of<W>(e: &Vec<(u64, W)>, k: u64) -> (r: Option<usize>)
    ensures
        r matches Some(j) ==> j < e@.len() && e@[j as int].0 == k,
        r is None ==> !keys_of(e@).contains(k),
{
    let mut j: usize = 0;
    while j < e.len()
        invariant
            j <= e@.len(),
            forall|m: int| 0 <= m < j ==> e@[m].0 != k,
        decreases e@.len() - j,
    {
        if e[j].0 == k {
            return Some(j);
        }
        j += 1;
    }
    proof {
        if keys_of(e@).contains(k) {
            let m = choose|m: int| 0 <= m < keys_of(e@).len() && keys_of(e@)[m] == k;
            assert(e@[m].0 == k);
        }
    }
    None
}

/// Whether `keys` has no key twice.
pub fn all_distinct(keys: &[u64]) -> (b: bool)
    ensures
        b == distinct(keys@),
{
    let mut i: usize = 0;
    while i < keys.len()
        invariant
            i <= keys@.len(),
            forall|a: int, b: int| 0 <= a < b < keys@.len() && a < i ==> keys@[a] != keys@[b],
        decreases keys@.len() - i,
    {
        let mut j = i + 1;
        while j < keys.len()
            invariant
                i < j <= keys@.len(),
                forall|a: int, b: int| 0 <= a < b < keys@.len() && a < i ==> keys@[a] != keys@[b],
                forall|b: int| i < b < j ==> keys@[i as int] != keys@[b],
            decreases keys@.len() - j,
        {
            if keys[i] == keys[j] {
                return false;
            }
            j += 1;
        }
        i += 1;
    }
    true
}

impl<W> ForEach<W> {
    pub open spec fn wf(&self) -> bool {
        distinct(keys_of(self.entries@))
    }

    pub fn new() -> (f: ForEach<W>)
        ensures
            f.entries@.len() == 0,
            f.wf(),
    {
        ForEach { entries: Vec::new() }
    }

    /// Reconciles the children with the keys of the new data, in order:
    /// kept children move, new keys get `make(key)`, and the children of
    /// vanished keys are returned.
    pub fn apply<F: Fn(u64) -> W>(&mut self, keys: &[u64], make: &F) -> (removed: Vec<(u64, W)>)
        requires
            old(self).wf(),
            distinct(keys@),
            forall|k: u64| make.requires((k,)),
        ensures
            final(self).wf(),
            keys_of(final(self).entries@) == keys@,
            forall|i: int| 0 <= i < keys@.len() && keys_of(old(self).entries@).contains(keys@[i])
                ==> old(self).entries@.contains(#[trigger] final(self).entries@[i]),
            forall|i: int| 0 <= i < keys@.len() && !keys_of(old(self).entries@).contains(keys@[i])
                ==> make.ensures((keys@[i],), (#[trigger] final(self).entries@[i]).1),
            forall|i: int| 0 <= i < removed@.len() ==> old(self).entries@.contains(#[trigger] removed@[i]) && !keys@.contains(removed@[i].0),
            forall|i: int| 0 <= i < old(self).entries@.len() && !keys@.contains(old(self).entries@[i].0)
                ==> removed@.contains(#[trigger] old(self).entries@[i]),
    {
        let ghost orig = self.entries@;
        let mut rest: Vec<(u64, W)> = Vec::new();
        std::mem::swap(&mut rest, &mut self.entries);
        let mut built: Vec<(u64, W)> = Vec::new();
        let mut i: usize = 0;
        while i < keys.len()
            invariant
                i <= keys@.len(),
                distinct(keys@),
                distinct(keys_of(orig)),
                forall|k: u64| make.requires((k,)),
                keys_of(built@) == keys@.subrange(0, i as int),
                forall|m: int| 0 <= m < rest@.len() ==> orig.contains(#[trigger] rest@[m]),
                distinct(keys_of(rest@)),
                forall|m: int| 0 <= m < rest@.len() ==> !keys@.subrange(0, i as int).contains(#[trigger] rest@[m].0),
                forall|m: int| 0 <= m < orig.len() && !keys@.subrange(0, i as int).contains(orig[m].0) ==> rest@.contains(#[trigger] orig[m]),
                forall|m: int| 0 <= m < i && keys_of(orig).contains(keys@[m]) ==> orig.contains(#[trigger] built@[m]),
                forall|m: int| 0 <= m < i && !keys_of(orig).contains(keys@[m]) ==> make.ensures((keys@[m],), (#[trigger] built@[m]).1),
            decreases keys@.len() - i,
        {
            let k = keys[i];
            let ghost before_rest = rest@;
            let ghost before_built = built@;
            assert(keys@.subrange(0, i + 1) =~= keys@.subrange(0, i as int).push(k));
            assert(!keys@.subrange(0, i as int).contains(k)) by {
                if keys@.subrange(0, i as int).contains(k) {
                    let m = choose|m: int| 0 <= m < i && keys@.subrange(0, i as int)[m] == k;
                    assert(keys@[m] == keys@[i as int]);
                }
            }
            match index_of(&rest, k) {
                Some(j) => {
                    let entry = rest.remove(j);
                    built.push(entry);
                    proof {
                        assert(orig.contains(before_rest[j as int]));
                        assert(keys_of(orig).contains(k)) by {
                            let m = choose|m: int| 0 <= m < orig.len() && orig[m] == before_rest[j as int];
                            assert(keys_of(orig)[m] == k);
                        }
                        assert forall|a: int, b: int| 0 <= a < b < keys_of(rest@).len() implies keys_of(rest@)[a] != keys_of(rest@)[b] by {
                            let a2 = if a < j { a } else { a + 1 };
                            let b2 = if b < j { b } else { b + 1 };
                            assert(rest@[a] == before_rest[a2] && rest@[b] == before_rest[b2]);
                            assert(keys_of(before_rest)[a2] != keys_of(before_rest)[b2]);
                        }
                        assert forall|m: int| 0 <= m < rest@.len() implies orig.contains(#[trigger] rest@[m]) by {
                            if m < j {
                                assert(rest@[m] == before_rest[m]);
                            } else {
                                assert(rest@[m] == before_rest[m + 1]);
                            }
                        }
                        assert forall|m: int| 0 <= m < rest@.len() implies !keys@.subrange(0, i + 1).contains(#[trigger] rest@[m].0) by {
                            let m2 = if m < j { m } else { m + 1 };
                            assert(rest@[m] == before_rest[m2]);
                            assert(!keys@.subrange(0, i as int).contains(before_rest[m2].0));
                            if rest@[m].0 == k {
                                assert(keys_of(before_rest)[m2] == keys_of(before_rest)[j as int]);
                                assert(false);
                            }
                        }
                        assert forall|m: int| 0 <= m < orig.len() && !keys@.subrange(0, i + 1).contains(orig[m].0)
                            implies rest@.contains(#[trigger] orig[m]) by {
                            assert(keys@.subrange(0, i + 1)[i as int] == k);
                            assert(before_rest.contains(orig[m]));
                            let p = choose|p: int| 0 <= p < before_rest.len() && before_rest[p] == orig[m];
                            assert(p != j);
                            if p < j {
                                assert(rest@[p] == orig[m]);
                            } else {
                                assert(rest@[p - 1] == orig[m]);
                            }
                        }
                        assert forall|m: int| 0 <= m < i + 1 && keys_of(orig).contains(keys@[m])
                            implies orig.contains(#[trigger] built@[m]) by {
                            if m < i {
                                assert(built@[m] == before_built[m]);
                            }
                        }
                        assert forall|m: int| 0 <= m < i + 1 && !keys_of(orig).contains(keys@[m])
                            implies make.ensures((keys@[m],), (#[trigger] built@[m]).1) by {
                            if m < i {
                                assert(built@[m] == before_built[m]);
                            }
                        }
                        assert(keys_of(built@) =~= keys@.subrange(0, i + 1));
                    }
                },
                None => {
                    let w = make(k);
                    built.push((k, w));
                    proof {
                        assert(!keys_of(orig).contains(k)) by {
                            if keys_of(orig).contains(k) {
                                let m = choose|m: int| 0 <= m < orig.len() && keys_of(orig)[m] == k;
                                assert(rest@.contains(orig[m]));
                                let p = choose|p: int| 0 <= p < rest@.len() && rest@[p] == orig[m];
                                assert(keys_of(rest@)[p] == k);
                            }
                        }
                        assert forall|m: int| 0 <= m < rest@.len() implies !keys@.subrange(0, i + 1).contains(#[trigger] rest@[m].0) by {
                            assert(!keys@.subrange(0, i as int).contains(rest@[m].0));
                            assert(keys_of(rest@)[m] == rest@[m].0);
                        }
                        assert forall|m: int| 0 <= m < i + 1 && keys_of(orig).contains(keys@[m])
                            implies orig.contains(#[trigger] built@[m]) by {
                            if m < i {
                                assert(built@[m] == before_built[m]);
                            }
                        }
                        assert forall|m: int| 0 <= m < i + 1 && !keys_of(orig).contains(keys@[m])
                            implies make.ensures((keys@[m],), (#[trigger] built@[m]).1) by {
                            if m < i {
                                assert(built@[m] == before_built[m]);
                            }
                        }
                        assert(keys_of(built@) =~= keys@.subrange(0, i + 1));
                    }
                },
            }
            i += 1;
        }
        assert(keys@.subrange(0, keys@.len() as int) =~= keys@);
        self.entries = built;
        rest
    }
}

/// The entries `(keys[i], ws[i])`.
pub open spec fn paired<W>(keys: Seq<u64>, ws: Seq<W>) -> Seq<(u64, W)> {
    Seq::new(keys.len(), |i: int| (keys[i], ws[i]))
}

/// Brings the children of a live stack in line with the keys of new data:
/// `keys` names the stack's current children in order; afterwards it is
/// `new_keys`. A kept key keeps its widget, a new key gets `make(key)`, and
/// the entries of vanished keys are returned. The stack is marked dirty.
pub fn sync_keyed_children<F: Fn(u64) -> AnyWidget>(
    list: &mut Stack,
    keys: &mut Vec<u64>,
    new_keys: &[u64],
    make: &F,
) -> (removed: Vec<(u64, AnyWidget)>)
    requires
        distinct(old(keys)@),
        distinct(new_keys@),
        old(keys)@.len() == old(list).children@.len(),
        forall|k: u64| make.requires((k,)),
    ensures
        final(keys)@ == new_keys@,
        final(list).children@.len() == new_keys@.len(),
        forall|i: int| 0 <= i < new_keys@.len() && old(keys)@.contains(new_keys@[i]) ==> paired(
            old(keys)@,
            old(list).children@,
        ).contains((new_keys@[i], #[trigger] final(list).children@[i])),
        forall|i: int| 0 <= i < new_keys@.len() && !old(keys)@.contains(new_keys@[i]) ==> make.ensures(
            (new_keys@[i],),
            #[trigger] final(list).children@[i],
        ),
        forall|i: int| 0 <= i < removed@.len() ==> paired(old(keys)@, old(list).children@).contains(#[trigger] removed@[i])
            && !new_keys@.contains(removed@[i].0),
        forall|j: int| 0 <= j < old(keys)@.len() && !new_keys@.contains(old(keys)@[j]) ==> removed@.contains(
            (old(keys)@[j], #[trigger] old(list).children@[j]),
        ),
        final(list).common.dirty,
        final(list).common.id == old(list).common.id,
        final(list).common.frame == old(list).common.frame,
        final(list).axis == old(list).axis,
        final(list).spacing == old(list).spacing,
        final(list).padding == old(list).padding,
        final(list).align == old(list).align,
        final(list).bg == old(list).bg,
{
    let ghost ok = keys@;
    let ghost oc = list.children@;
    let ghost pairs = paired(ok, oc);
    let mut rest: Vec<AnyWidget> = Vec::new();
    std::mem::swap(&mut rest, &mut list.children);
    let n = keys.len();
    let mut entries: Vec<(u64, AnyWidget)> = Vec::new();
    let mut i: usize = 0;
    while i < n
        invariant
            n == ok.len(),
            ok == keys@,
            oc.len() == n,
            pairs == paired(ok, oc),
            i <= n,
            rest@ == oc.subrange(i as int, n as int),
            entries@ == pairs.subrange(0, i as int),
        decreases n - i,
    {
        let w = rest.remove(0);
        assert(w == oc[i as int]);
        entries.push((keys[i], w));
        assert(entries@ =~= pairs.subrange(0, i + 1));
        i += 1;
    }
    assert(entries@ =~= pairs);
    assert(keys_of(entries@) =~= ok);
    let mut children: ForEach<AnyWidget> = ForEach { entries };
    let removed = children.apply(new_keys, make);
    let ghost fin = children.entries@;
    let mut out = children.entries;
    let m = out.len();
    assert(m == new_keys@.len()) by {
        assert(keys_of(fin).len() == fin.len());
    }
    let mut ks: Vec<u64> = Vec::new();
    let mut ws: Vec<AnyWidget> = Vec::new();
    let mut j: usize = 0;
    while j < m
        invariant
            m == fin.len(),
            j <= m,
            out@ == fin.subrange(j as int, m as int),
            ks@.len() == j,
            ws@.len() == j,
            forall|q: int| 0 <= q < j ==> ks@[q] == fin[q].0 && ws@[q] == fin[q].1,
        decreases m - j,
    {
        let (k, w) = out.remove(0);
        assert((k, w) == fin[j as int]);
        ks.push(k);
        ws.push(w);
        j += 1;
    }
    assert(ks@ =~= keys_of(fin));
    proof {
        assert forall|q: int| 0 <= q < new_keys@.len() implies fin[q] == (new_keys@[q], #[trigger] ws@[q]) by {
            assert(keys_of(fin)[q] == fin[q].0);
        }
    }
    list.set_child_order(ws);
    *keys = ks;
    removed
}

} // verus!
