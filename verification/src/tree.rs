//! Whole-tree passes used by the frame renderer: identity assignment, clearing
//! dirty flags, and painting in pre-order.

use vstd::prelude::*;

use crate::geometry::Rect;
use crate::render::DrawCmd;
use crate::widget::{node_fits, paint_spec, tree_fits, trees_fit, lemma_trees_fit_index, AnyWidget, Common, Stack, WidgetId};

verus! {

/// Next unused identity after assigning identities to the unassigned widgets of
/// `w` in pre-order, starting from `next`.
pub open spec fn assign_next(w: AnyWidget, next: nat) -> nat
    decreases w, 0nat,
{
    let n1 = if w.common_spec().id.0 == 0 { next + 1 } else { next };
    match w {
        AnyWidget::Stack(s) => assign_next_seq(s.children@, n1, s.children@.len()),
        _ => n1,
    }
}

pub open spec fn assign_next_seq(ch: Seq<AnyWidget>, next: nat, k: nat) -> nat
    decreases ch, k,
{
    if k == 0 || k > ch.len() {
        next
    } else {
        assign_next(ch[k - 1], assign_next_seq(ch, next, (k - 1) as nat))
    }
}

pub open spec fn id_after(c: Common, next: nat) -> Common {
    if c.id.0 == 0 { Common { id: WidgetId(next as u64), ..c } } else { c }
}

/// `w2` is `w` with every unassigned identity (zero) replaced by consecutive
/// identities in pre-order starting at `next`; nothing else changes.
pub open spec fn assigned(w: AnyWidget, next: nat, w2: AnyWidget) -> bool
    decreases w, 0nat,
{
    let c2 = id_after(w.common_spec(), next);
    let n1 = if w.common_spec().id.0 == 0 { next + 1 } else { next };
    match w {
        AnyWidget::Stack(s) => match w2 {
            AnyWidget::Stack(s2) => {
                &&& s2 == Stack { common: c2, children: s2.children, ..s }
                &&& s2.children@.len() == s.children@.len()
                &&& assigned_seq(s.children@, n1, s2.children@, s.children@.len())
            },
            _ => false,
        },
        _ => w2 == w.with_common(c2),
    }
}

pub open spec fn assigned_seq(ch: Seq<AnyWidget>, next: nat, ch2: Seq<AnyWidget>, k: nat) -> bool
    decreases ch, k,
{
    if k == 0 || k > ch.len() || k > ch2.len() {
        k == 0
    } else {
        assigned_seq(ch, next, ch2, (k - 1) as nat) && assigned(
            ch[k - 1],
            assign_next_seq(ch, next, (k - 1) as nat),
            ch2[k - 1],
        )
    }
}

pub proof fn lemma_assign_next_mono(w: AnyWidget, next: nat)
    ensures
        next <= assign_next(w, next),
    decreases w, 0nat,
{
    if let AnyWidget::Stack(s) = w {
        let n1 = if w.common_spec().id.0 == 0 { next + 1 } else { next };
        lemma_assign_next_seq_mono(s.children@, n1, s.children@.len(), s.children@.len());
    }
}

pub proof fn lemma_assign_next_seq_mono(ch: Seq<AnyWidget>, next: nat, j: nat, k: nat)
    requires
        j <= k <= ch.len(),
    ensures
        next <= assign_next_seq(ch, next, j) <= assign_next_seq(ch, next, k),
    decreases ch, k,
{
    if k > 0 {
        if j < k {
            lemma_assign_next_seq_mono(ch, next, j, (k - 1) as nat);
        }
        lemma_assign_next_seq_mono(ch, next, (k - 1) as nat, (k - 1) as nat);
        lemma_assign_next_mono(ch[k - 1], assign_next_seq(ch, next, (k - 1) as nat));
    }
}

proof fn lemma_assigned_seq_ext(ch: Seq<AnyWidget>, next: nat, a: Seq<AnyWidget>, b: Seq<AnyWidget>, k: nat)
    requires
        assigned_seq(ch, next, a, k),
        k <= b.len(),
        forall|j: int| 0 <= j < k ==> a[j] == b[j],
    ensures
        assigned_seq(ch, next, b, k),
    decreases k,
{
    if k > 0 {
        lemma_assigned_seq_ext(ch, next, a, b, (k - 1) as nat);
    }
}

/// The next unused identity after `assign_ids(w, next)`, or `None` when the
/// identities would run past `u64::MAX`.
pub fn assign_next_opt(w: &AnyWidget, next: u64) -> (r: Option<u64>)
    ensures
        r == (if assign_next(*w, next as nat) <= u64::MAX {
            Some(assign_next(*w, next as nat) as u64)
        } else {
            None::<u64>
        }),
    decreases w,
{
    let c = w.common();
    let n1 = if c.id.0 == 0 {
        if next == u64::MAX {
            proof {
                lemma_assign_next_mono(*w, next as nat);
                if let AnyWidget::Stack(s) = w {
                    lemma_assign_next_seq_mono(s.children@, next as nat + 1, 0, s.children@.len());
                }
            }
            return None;
        }
        next + 1
    } else {
        next
    };
    match w {
        AnyWidget::Stack(s) => {
            let n = s.children.len();
            let ghost ch = s.children@;
            let mut cur = n1;
            let mut i: usize = 0;
            while i < n
                invariant
                    n == ch.len(),
                    ch == s.children@,
                    *w == AnyWidget::Stack(*s),
                    n1 == (if w.common_spec().id.0 == 0 { next + 1 } else { next as int }),
                    i <= n,
                    cur == assign_next_seq(ch, n1 as nat, i as nat),
                    forall|j: int| 0 <= j < n ==> decreases_to!(w => #[trigger] ch[j]),
                decreases n - i,
            {
                match assign_next_opt(&s.children[i], cur) {
                    None => {
                        proof {
                            lemma_assign_next_seq_mono(ch, n1 as nat, (i + 1) as nat, n as nat);
                        }
                        return None;
                    },
                    Some(v) => {
                        cur = v;
                    },
                }
                i += 1;
            }
            Some(cur)
        },
        _ => Some(n1),
    }
}

/// Gives every unassigned widget of `w` a fresh identity, in pre-order,
/// starting at `next`; returns the tree and the next unused identity.
pub fn assign_ids(w: AnyWidget, next: u64) -> (r: (AnyWidget, u64))
    requires
        assign_next(w, next as nat) <= u64::MAX,
    ensures
        assigned(w, next as nat, r.0),
        r.1 == assign_next(w, next as nat),
    decreases w,
{
    let c = w.common();
    let ghost n1: nat = if c.id.0 == 0 { next as nat + 1 } else { next as nat };
    proof {
        lemma_assign_next_mono(w, next as nat);
        if let AnyWidget::Stack(s) = &w {
            lemma_assign_next_seq_mono(s.children@, n1, 0, s.children@.len());
        }
    }
    let mut next1 = next;
    let mut c2 = c;
    if c.id.0 == 0 {
        c2.id = WidgetId(next);
        next1 = next + 1;
    }
    match w {
        AnyWidget::Stack(s) => {
            let ghost orig = s.children@;
            let ghost old_s = s;
            let Stack { common, axis, spacing, padding, align, bg, children } = s;
            let mut rest = children;
            let n = rest.len();
            let mut out: Vec<AnyWidget> = Vec::new();
            let mut cur = next1;
            let mut i: usize = 0;
            while i < n
                invariant
                    n == orig.len(),
                    i <= n,
                    rest@ == orig.subrange(i as int, n as int),
                    out@.len() == i,
                    cur == assign_next_seq(orig, n1, i as nat),
                    assign_next_seq(orig, n1, n as nat) <= u64::MAX,
                    assigned_seq(orig, n1, out@, i as nat),
                    forall|j: int| 0 <= j < n ==> decreases_to!(w => #[trigger] orig[j]),
                decreases n - i,
            {
                let c0 = rest.remove(0);
                assert(c0 == orig[i as int]);
                proof {
                    lemma_assign_next_seq_mono(orig, n1, (i + 1) as nat, n as nat);
                }
                let (c1, nx) = assign_ids(c0, cur);
                let ghost prev = out@;
                out.push(c1);
                proof {
                    lemma_assigned_seq_ext(orig, n1, prev, out@, i as nat);
                }
                cur = nx;
                i += 1;
            }
            (AnyWidget::Stack(Stack { common: c2, axis, spacing, padding, align, bg, children: out }), cur)
        },
        _ => {
            let mut w2 = w;
            w2.set_common(c2);
            (w2, next1)
        },
    }
}

/// `w2` is `w` with every dirty flag cleared; nothing else changes.
pub open spec fn cleared(w: AnyWidget, w2: AnyWidget) -> bool
    decreases w, 0nat,
{
    let c2 = Common { dirty: false, ..w.common_spec() };
    match w {
        AnyWidget::Stack(s) => match w2 {
            AnyWidget::Stack(s2) => {
                &&& s2 == Stack { common: c2, children: s2.children, ..s }
                &&& s2.children@.len() == s.children@.len()
                &&& cleared_seq(s.children@, s2.children@, s.children@.len())
            },
            _ => false,
        },
        _ => w2 == w.with_common(c2),
    }
}

pub open spec fn cleared_seq(ch: Seq<AnyWidget>, ch2: Seq<AnyWidget>, k: nat) -> bool
    decreases ch, k,
{
    if k == 0 || k > ch.len() || k > ch2.len() {
        k == 0
    } else {
        cleared_seq(ch, ch2, (k - 1) as nat) && cleared(ch[k - 1], ch2[k - 1])
    }
}

proof fn lemma_cleared_seq_ext(ch: Seq<AnyWidget>, a: Seq<AnyWidget>, b: Seq<AnyWidget>, k: nat)
    requires
        cleared_seq(ch, a, k),
        k <= b.len(),
        forall|j: int| 0 <= j < k ==> a[j] == b[j],
    ensures
        cleared_seq(ch, b, k),
    decreases k,
{
    if k > 0 {
        lemma_cleared_seq_ext(ch, a, b, (k - 1) as nat);
    }
}

/// Clears the dirty flag of `w` and every descendant.
pub fn clear_dirty(w: AnyWidget) -> (w2: AnyWidget)
    ensures
        cleared(w, w2),
    decreases w,
{
    let mut c2 = w.common();
    c2.dirty = false;
    match w {
        AnyWidget::Stack(s) => {
            let ghost orig = s.children@;
            let Stack { common, axis, spacing, padding, align, bg, children } = s;
            let mut rest = children;
            let n = rest.len();
            let mut out: Vec<AnyWidget> = Vec::new();
            let mut i: usize = 0;
            while i < n
                invariant
                    n == orig.len(),
                    i <= n,
                    rest@ == orig.subrange(i as int, n as int),
                    out@.len() == i,
                    cleared_seq(orig, out@, i as nat),
                    forall|j: int| 0 <= j < n ==> decreases_to!(w => #[trigger] orig[j]),
                decreases n - i,
            {
                let c0 = rest.remove(0);
                assert(c0 == orig[i as int]);
                let c1 = clear_dirty(c0);
                let ghost prev = out@;
                out.push(c1);
                proof {
                    lemma_cleared_seq_ext(orig, prev, out@, i as nat);
                }
                i += 1;
            }
            AnyWidget::Stack(Stack { common: c2, axis, spacing, padding, align, bg, children: out })
        },
        _ => {
            let mut w2 = w;
            w2.set_common(c2);
            w2
        },
    }
}

/// Draw commands of `w` and every descendant, in pre-order.
pub open spec fn paint_all(w: AnyWidget) -> Seq<DrawCmd>
    decreases w, 0nat,
{
    paint_spec(w) + match w {
        AnyWidget::Stack(s) => paint_all_seq(s.children@, s.children@.len()),
        _ => Seq::empty(),
    }
}

pub open spec fn paint_all_seq(ch: Seq<AnyWidget>, k: nat) -> Seq<DrawCmd>
    decreases ch, k,
{
    if k == 0 || k > ch.len() {
        Seq::empty()
    } else {
        paint_all_seq(ch, (k - 1) as nat) + paint_all(ch[k - 1])
    }
}

/// Draw commands, in pre-order, of the widgets whose frame intersects `d`.
pub open spec fn paint_hit(w: AnyWidget, d: Rect) -> Seq<DrawCmd>
    decreases w, 0nat,
{
    (if w.common_spec().frame.intersects_spec(d) { paint_spec(w) } else { Seq::empty() })
        + match w {
        AnyWidget::Stack(s) => paint_hit_seq(s.children@, d, s.children@.len()),
        _ => Seq::empty(),
    }
}

pub open spec fn paint_hit_seq(ch: Seq<AnyWidget>, d: Rect, k: nat) -> Seq<DrawCmd>
    decreases ch, k,
{
    if k == 0 || k > ch.len() {
        Seq::empty()
    } else {
        paint_hit_seq(ch, d, (k - 1) as nat) + paint_hit(ch[k - 1], d)
    }
}

/// Appends the draw commands of `w` and all descendants, in pre-order.
pub fn paint_tree(w: &AnyWidget, out: &mut Vec<DrawCmd>)
    requires
        tree_fits(*w),
    ensures
        final(out)@ == old(out)@ + paint_all(*w),
    decreases w,
{
    w.paint_self(out);
    let ch = w.children();
    let mut i: usize = 0;
    while i < ch.len()
        invariant
            i <= ch@.len(),
            ch@ == w.children_spec(),
            tree_fits(*w),
            out@ == old(out)@ + paint_spec(*w) + paint_all_seq(ch@, i as nat),
        decreases ch@.len() - i,
    {
        proof {
            if let AnyWidget::Stack(s) = w {
                lemma_trees_fit_index(s.children@, s.children@.len(), i as int);
            }
        }
        assert(decreases_to!(*w => ch@[i as int]));
        paint_tree(&ch[i], out);
        assert(paint_all_seq(ch@, (i + 1) as nat) == paint_all_seq(ch@, i as nat) + paint_all(ch@[i as int]));
        i += 1;
    }
    proof {
        if let AnyWidget::Stack(s) = w {
        } else {
            assert(ch@.len() == 0);
        }
    }
}

/// Appends, in pre-order, the draw commands of the widgets whose frame
/// intersects `d`.
pub fn paint_damaged(w: &AnyWidget, d: Rect, out: &mut Vec<DrawCmd>)
    requires
        tree_fits(*w),
        d.edges_fit(),
    ensures
        final(out)@ == old(out)@ + paint_hit(*w, d),
    decreases w,
{
    if w.frame().intersects(d) {
        w.paint_self(out);
    }
    let ghost base = out@;
    let ch = w.children();
    let mut i: usize = 0;
    while i < ch.len()
        invariant
            i <= ch@.len(),
            ch@ == w.children_spec(),
            tree_fits(*w),
            d.edges_fit(),
            out@ == base + paint_hit_seq(ch@, d, i as nat),
        decreases ch@.len() - i,
    {
        proof {
            if let AnyWidget::Stack(s) = w {
                lemma_trees_fit_index(s.children@, s.children@.len(), i as int);
            }
        }
        assert(decreases_to!(*w => ch@[i as int]));
        paint_damaged(&ch[i], d, out);
        assert(paint_hit_seq(ch@, d, (i + 1) as nat) == paint_hit_seq(ch@, d, i as nat) + paint_hit(ch@[i as int], d));
        i += 1;
    }
    proof {
        if let AnyWidget::Stack(s) = w {
        } else {
            assert(ch@.len() == 0);
        }
    }
}

/// Whether the widget at `path` (child indices from `w` down) is a label.
pub open spec fn label_at(w: AnyWidget, path: Seq<usize>) -> bool
    decreases path.len(),
{
    if path.len() == 0 {
        w is Label
    } else {
        match w {
            AnyWidget::Stack(s) => path[0] < s.children@.len() && label_at(s.children@[path[0] as int], path.drop_first()),
            _ => false,
        }
    }
}

/// `w2` is `w` with the label at `path` showing `text` and marked dirty;
/// nothing else changes.
pub open spec fn label_set_at(w: AnyWidget, path: Seq<usize>, text: Seq<char>, w2: AnyWidget) -> bool
    decreases path.len(),
{
    if path.len() == 0 {
        match w {
            AnyWidget::Label(l) => w2 matches AnyWidget::Label(l2) && l2.text@ == text && l2.common == Common {
                dirty: true,
                ..l.common
            } && l2.size == l.size && l2.fg == l.fg && l2.bg == l.bg,
            _ => false,
        }
    } else {
        match w {
            AnyWidget::Stack(s) => {
                &&& path[0] < s.children@.len()
                &&& w2 matches AnyWidget::Stack(s2)
                &&& s2 == Stack { children: s2.children, ..s }
                &&& s2.children@.len() == s.children@.len()
                &&& forall|j: int| 0 <= j < s.children@.len() && j != path[0] ==> s2.children@[j] == s.children@[j]
                &&& label_set_at(s.children@[path[0] as int], path.drop_first(), text, s2.children@[path[0] as int])
            },
            _ => false,
        }
    }
}

/// Whether there is a label at `path` (from position `from` on) in `w`.
pub fn label_at_check(w: &AnyWidget, path: &[usize], from: usize) -> (b: bool)
    requires
        from <= path@.len(),
    ensures
        b == label_at(*w, path@.subrange(from as int, path@.len() as int)),
    decreases path@.len() - from,
{
    let ghost p = path@.subrange(from as int, path@.len() as int);
    if from == path.len() {
        match w {
            AnyWidget::Label(_) => true,
            _ => false,
        }
    } else {
        assert(p.drop_first() =~= path@.subrange(from + 1, path@.len() as int));
        let idx = path[from];
        match w {
            AnyWidget::Stack(s) => idx < s.children.len() && label_at_check(&s.children[idx], path, from + 1),
            _ => false,
        }
    }
}

/// Sets the text of the label at `path` (from position `from` on) in `w`.
fn set_label_text_in(w: AnyWidget, path: &[usize], from: usize, text: &str) -> (w2: AnyWidget)
    requires
        from <= path@.len(),
        label_at(w, path@.subrange(from as int, path@.len() as int)),
    ensures
        label_set_at(w, path@.subrange(from as int, path@.len() as int), text@, w2),
    decreases path@.len() - from,
{
    let ghost p = path@.subrange(from as int, path@.len() as int);
    if from == path.len() {
        match w {
            AnyWidget::Label(l) => {
                let mut l2 = l;
                l2.set_text(text);
                AnyWidget::Label(l2)
            },
            other => other,
        }
    } else {
        assert(p.drop_first() =~= path@.subrange(from + 1, path@.len() as int));
        let idx = path[from];
        match w {
            AnyWidget::Stack(s) => {
                let ghost old_s = s;
                let mut s2 = s;
                let c = s2.children.remove(idx);
                let c2 = set_label_text_in(c, path, from + 1, text);
                s2.children.insert(idx, c2);
                assert forall|j: int| 0 <= j < old_s.children@.len() && j != idx implies s2.children@[j] == old_s.children@[j] by {
                }
                AnyWidget::Stack(s2)
            },
            other => other,
        }
    }
}

/// Sets the text of the label at `path` in `w`, marking it dirty; returns
/// the tree and whether there was a label there. Without one the tree comes
/// back unchanged.
pub fn set_label_text_at(w: AnyWidget, path: &[usize], text: &str) -> (r: (AnyWidget, bool))
    ensures
        r.1 == label_at(w, path@),
        r.1 ==> label_set_at(w, path@, text@, r.0),
        !r.1 ==> r.0 == w,
{
    assert(path@.subrange(0, path@.len() as int) =~= path@);
    if label_at_check(&w, path, 0) {
        (set_label_text_in(w, path, 0, text), true)
    } else {
        (w, false)
    }
}

} // verus!
