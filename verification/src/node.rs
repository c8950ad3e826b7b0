//! Declarative composition: a `Node` describes a subtree of widgets, built
//! with `vstack`, `hstack` and `group`, and turned into a widget tree once by
//! `mount_node`. Groups are spliced into the enclosing stack.

use vstd::prelude::*;

use crate::render::Color;
use crate::widget::{AnyWidget, Align, Axis, Button, Common, Label, Spacer, Stack};

verus! {

/// A description of a subtree, consumed at mount time.
pub enum Node {
    /// A concrete widget to insert as-is.
    Widget(AnyWidget),
    /// A stack container to build, with child nodes.
    Stack { axis: Axis, spacing: i32, padding: i32, align: Align, bg: Option<Color>, children: Vec<Node> },
    /// A flattened group of nodes, spliced into the enclosing stack.
    Group(Vec<Node>),
}

/// What one node contributes to a flattened child list: a group's own
/// (flattened) members, any other node itself.
pub open spec fn piece(n: Node) -> Seq<Node>
    decreases n, 0nat,
{
    match n {
        Node::Group(inner) => flat(inner@, inner@.len()),
        _ => seq![n],
    }
}

/// The first `k` nodes of `ch` with every group, at any depth, spliced in.
pub open spec fn flat(ch: Seq<Node>, k: nat) -> Seq<Node>
    decreases ch, k,
{
    if k == 0 || k > ch.len() {
        Seq::empty()
    } else {
        flat(ch, (k - 1) as nat) + piece(ch[k - 1])
    }
}

/// Groups are spliced away: a flattened child list (what `vstack`, `hstack`
/// and `group` hold) has no group at its top level.
pub proof fn law_flattened_has_no_group(ch: Seq<Node>, k: nat)
    ensures
        forall|j: int| 0 <= j < flat(ch, k).len() ==> !(#[trigger] flat(ch, k)[j] is Group),
    decreases ch, k,
{
    if k > 0 && k <= ch.len() {
        law_flattened_has_no_group(ch, (k - 1) as nat);
        lemma_piece_has_no_group(ch[k - 1]);
        let a = flat(ch, (k - 1) as nat);
        let b = piece(ch[k - 1]);
        assert forall|j: int| 0 <= j < (a + b).len() implies !((a + b)[j] is Group) by {
            if j < a.len() {
                assert((a + b)[j] == a[j]);
            } else {
                assert((a + b)[j] == b[j - a.len()]);
            }
        }
    }
}

pub proof fn lemma_piece_has_no_group(n: Node)
    ensures
        forall|j: int| 0 <= j < piece(n).len() ==> !(#[trigger] piece(n)[j] is Group),
    decreases n, 0nat,
{
    if let Node::Group(inner) = n {
        law_flattened_has_no_group(inner@, inner@.len());
    }
}

/// Children without groups are kept as they are, in order.
pub proof fn law_flatten_keeps_group_free_children(ch: Seq<Node>, k: nat)
    requires
        k <= ch.len(),
        forall|j: int| 0 <= j < k ==> !(#[trigger] ch[j] is Group),
    ensures
        flat(ch, k) == ch.subrange(0, k as int),
    decreases k,
{
    if k > 0 {
        law_flatten_keeps_group_free_children(ch, (k - 1) as nat);
        assert(!(ch[k - 1] is Group));
        assert(piece(ch[k - 1]) == seq![ch[k - 1]]);
        assert(flat(ch, k) =~= ch.subrange(0, k as int));
    }
}

proof fn lemma_flat_prefix(c1: Seq<Node>, c2: Seq<Node>, k: nat)
    requires
        k <= c1.len(),
        k <= c2.len(),
        forall|j: int| 0 <= j < k ==> c1[j] == c2[j],
    ensures
        flat(c1, k) == flat(c2, k),
    decreases k,
{
    if k > 0 {
        lemma_flat_prefix(c1, c2, (k - 1) as nat);
        assert(c1[k - 1] == c2[k - 1]);
    }
}

/// Flattening distributes over concatenation.
pub proof fn lemma_flat_append(a: Seq<Node>, b: Seq<Node>)
    ensures
        flat(a + b, (a.len() + b.len()) as nat) == flat(a, a.len()) + flat(b, b.len()),
    decreases b.len(),
{
    if b.len() == 0 {
        assert(a + b =~= a);
        assert(flat(a, a.len()) + flat(b, 0) =~= flat(a, a.len()));
    } else {
        let b1 = b.drop_last();
        let n = (a.len() + b.len()) as nat;
        lemma_flat_append(a, b1);
        lemma_flat_prefix(a + b, a + b1, (n - 1) as nat);
        lemma_flat_prefix(b, b1, (b.len() - 1) as nat);
        assert((a + b)[n - 1] == b[b.len() - 1]);
        assert(flat(a + b, n) =~= flat(a, a.len()) + flat(b, b.len()));
    }
}

/// A group is spliced into the enclosing stack: a child list holding
/// `Group(members)` between `pre` and `post` flattens to the same nodes as
/// the list holding `members` themselves in its place.
pub proof fn law_group_splices(pre: Seq<Node>, members: Vec<Node>, post: Seq<Node>)
    ensures
        flat(pre.push(Node::Group(members)) + post, (pre.len() + 1 + post.len()) as nat) == flat(
            pre + members@ + post,
            (pre.len() + members@.len() + post.len()) as nat,
        ),
{
    let g = Node::Group(members);
    let one = seq![g];
    assert(pre.push(g) =~= pre + one);
    lemma_flat_append(pre + one, post);
    lemma_flat_append(pre, one);
    assert(flat(one, 1) =~= flat(one, 0) + piece(g));
    assert(flat(one, 0) =~= Seq::<Node>::empty());
    lemma_flat_append(pre + members@, post);
    lemma_flat_append(pre, members@);
    assert(flat(pre + one, (pre.len() + 1) as nat) =~= flat(pre, pre.len()) + flat(members@, members@.len()));
    assert(flat(pre.push(g) + post, (pre.len() + 1 + post.len()) as nat) =~= flat(pre, pre.len()) + flat(
        members@,
        members@.len(),
    ) + flat(post, post.len()));
    assert(flat(pre + members@ + post, (pre.len() + members@.len() + post.len()) as nat) =~= flat(pre, pre.len())
        + flat(members@, members@.len()) + flat(post, post.len()));
}

/// What `group(v)` returns splices into a stack exactly as `v` would: a
/// stack built from `pre`, `group(v)` and `post` gets the same children as one
/// built from `pre`, the nodes of `v` and `post`.
pub proof fn law_group_of_nodes_splices(pre: Seq<Node>, g: Node, v: Seq<Node>, post: Seq<Node>)
    requires
        g matches Node::Group(c) && c@ == flat(v, v.len()),
    ensures
        flat(pre.push(g) + post, (pre.len() + 1 + post.len()) as nat) == flat(
            pre + v + post,
            (pre.len() + v.len() + post.len()) as nat,
        ),
{
    let c = g->Group_0;
    law_group_splices(pre, c, post);
    law_flattened_has_no_group(v, v.len());
    law_flatten_keeps_group_free_children(c@, c@.len());
    assert(c@.subrange(0, c@.len() as int) =~= c@);
    lemma_flat_append(pre + c@, post);
    lemma_flat_append(pre, c@);
    lemma_flat_append(pre + v, post);
    lemma_flat_append(pre, v);
}

/// Splices every group of `children`, at any depth, into one list.
fn flatten(children: Vec<Node>) -> (out: Vec<Node>)
    ensures
        out@ == flat(children@, children@.len()),
    decreases children,
{
    let ghost orig = children@;
    let n = children.len();
    let mut rest = children;
    let mut out: Vec<Node> = Vec::new();
    let mut i: usize = 0;
    while i < n
        invariant
            n == orig.len(),
            i <= n,
            rest@ == orig.subrange(i as int, n as int),
            out@ == flat(orig, i as nat),
            forall|j: int| 0 <= j < n ==> decreases_to!(children => #[trigger] orig[j]),
        decreases n - i,
    {
        let child = rest.remove(0);
        assert(child == orig[i as int]);
        assert(flat(orig, (i + 1) as nat) == flat(orig, i as nat) + piece(orig[i as int]));
        match child {
            Node::Group(inner) => {
                assert(decreases_to!(children => inner));
                let mut f = flatten(inner);
                out.append(&mut f);
            },
            other => {
                assert(piece(other) == seq![other]);
                out.push(other);
                assert(out@ =~= flat(orig, (i + 1) as nat));
            },
        }
        i += 1;
    }
    out
}

/// A stack node along `axis` with the given children, groups spliced in.
fn stack_node(axis: Axis, spacing: i32, align: Align, children: Vec<Node>) -> (n: Node)
    ensures
        n matches Node::Stack { axis: a, spacing: s, padding, align: al, bg, children: c } && a == axis && s
            == spacing && padding == 0 && al == align && bg is None && c@ == flat(children@, children@.len()),
{
    Node::Stack { axis, spacing, padding: 0, align, bg: None, children: flatten(children) }
}

/// A vertical stack of children.
pub fn vstack(spacing: i32, align: Align, children: Vec<Node>) -> (n: Node)
    ensures
        n matches Node::Stack { axis, spacing: s, padding, align: a, bg, children: c } && axis == Axis::Vertical
            && s == spacing && padding == 0 && a == align && bg is None && c@ == flat(children@, children@.len()),
{
    stack_node(Axis::Vertical, spacing, align, children)
}

/// A horizontal stack of children.
pub fn hstack(spacing: i32, align: Align, children: Vec<Node>) -> (n: Node)
    ensures
        n matches Node::Stack { axis, spacing: s, padding, align: a, bg, children: c } && axis
            == Axis::Horizontal && s == spacing && padding == 0 && a == align && bg is None && c@ == flat(
            children@,
            children@.len(),
        ),
{
    stack_node(Axis::Horizontal, spacing, align, children)
}

/// Several nodes returned where one is expected; spliced into the enclosing
/// stack.
pub fn group(children: Vec<Node>) -> (n: Node)
    ensures
        n matches Node::Group(c) && c@ == flat(children@, children@.len()),
{
    Node::Group(flatten(children))
}

/// A node can be mounted: it is no group, and neither is any node below it.
pub open spec fn mountable(n: Node) -> bool
    decreases n, 0nat,
{
    match n {
        Node::Widget(_) => true,
        Node::Stack { children, .. } => all_mountable(children@, children@.len()),
        Node::Group(_) => false,
    }
}

pub open spec fn all_mountable(ch: Seq<Node>, k: nat) -> bool
    decreases ch, k,
{
    if k == 0 || k > ch.len() {
        k == 0
    } else {
        all_mountable(ch, (k - 1) as nat) && mountable(ch[k - 1])
    }
}

pub proof fn lemma_all_mountable_index(ch: Seq<Node>, k: nat, j: int)
    requires
        all_mountable(ch, k),
        0 <= j < k,
    ensures
        mountable(ch[j]),
    decreases k,
{
    if j < k - 1 {
        lemma_all_mountable_index(ch, (k - 1) as nat, j);
    }
}

/// Whether `mount_node` can take `node`: no group stands where a widget is
/// built.
pub fn mountable_check(node: &Node) -> (b: bool)
    ensures
        b == mountable(*node),
    decreases node,
{
    match node {
        Node::Widget(_) => true,
        Node::Group(_) => false,
        Node::Stack { children, .. } => {
            let n = children.len();
            let ghost ch = children@;
            let mut i: usize = 0;
            while i < n
                invariant
                    n == ch.len(),
                    ch == children@,
                    i <= n,
                    all_mountable(ch, i as nat),
                    mountable(*node) == all_mountable(ch, n as nat),
                    forall|j: int| 0 <= j < n ==> decreases_to!(node => #[trigger] ch[j]),
                decreases n - i,
            {
                if !mountable_check(&children[i]) {
                    assert(!all_mountable(ch, n as nat)) by {
                        if all_mountable(ch, n as nat) {
                            lemma_all_mountable_index(ch, n as nat, i as int);
                        }
                    }
                    return false;
                }
                i += 1;
            }
            true
        },
    }
}

/// `w` is the widget tree that mounting `n` builds: a widget node is the
/// widget itself; a stack node becomes a fresh stack with its spacing,
/// alignment, background and (non-negative) padding, holding the mounted
/// children in order.
pub open spec fn mounted(n: Node, w: AnyWidget) -> bool
    decreases n, 0nat,
{
    match n {
        Node::Widget(x) => w == x,
        Node::Stack { axis, spacing, padding, align, bg, children } => match w {
            AnyWidget::Stack(s) => {
                &&& s.common == Common::fresh()
                &&& s.axis == axis
                &&& s.spacing == spacing
                &&& s.padding == (if padding > 0 { padding } else { 0 })
                &&& s.align == align
                &&& s.bg == bg
                &&& s.children@.len() == children@.len()
                &&& mounted_seq(children@, s.children@, children@.len())
            },
            _ => false,
        },
        Node::Group(_) => false,
    }
}

pub open spec fn mounted_seq(ch: Seq<Node>, ws: Seq<AnyWidget>, k: nat) -> bool
    decreases ch, k,
{
    if k == 0 || k > ch.len() || k > ws.len() {
        k == 0
    } else {
        mounted_seq(ch, ws, (k - 1) as nat) && mounted(ch[k - 1], ws[k - 1])
    }
}

proof fn lemma_mounted_seq_ext(ch: Seq<Node>, a: Seq<AnyWidget>, b: Seq<AnyWidget>, k: nat)
    requires
        mounted_seq(ch, a, k),
        k <= b.len(),
        forall|j: int| 0 <= j < k ==> a[j] == b[j],
    ensures
        mounted_seq(ch, b, k),
    decreases k,
{
    if k > 0 {
        lemma_mounted_seq_ext(ch, a, b, (k - 1) as nat);
    }
}

/// Builds the widget tree a node describes.
pub fn mount_node(node: Node) -> (w: AnyWidget)
    requires
        mountable(node),
    ensures
        mounted(node, w),
    decreases node,
{
    match node {
        Node::Widget(w) => w,
        Node::Stack { axis, spacing, padding, align, bg, children } => {
            let ghost orig = children@;
            let mut stack = match axis {
                Axis::Vertical => Stack::vertical(spacing, align),
                Axis::Horizontal => Stack::horizontal(spacing, align),
            };
            if padding > 0 {
                stack = stack.padding(padding);
            }
            match bg {
                Some(color) => {
                    stack = stack.background(color);
                },
                None => {},
            }
            let n = children.len();
            let mut rest = children;
            let mut i: usize = 0;
            while i < n
                invariant
                    n == orig.len(),
                    i <= n,
                    rest@ == orig.subrange(i as int, n as int),
                    all_mountable(orig, n as nat),
                    stack.common == Common::fresh(),
                    stack.axis == axis,
                    stack.spacing == spacing,
                    stack.padding == (if padding > 0 { padding } else { 0 }),
                    stack.align == align,
                    stack.bg == bg,
                    stack.children@.len() == i,
                    mounted_seq(orig, stack.children@, i as nat),
                    forall|j: int| 0 <= j < n ==> decreases_to!(node => #[trigger] orig[j]),
                decreases n - i,
            {
                let child = rest.remove(0);
                assert(child == orig[i as int]);
                proof {
                    lemma_all_mountable_index(orig, n as nat, i as int);
                }
                let child_widget = mount_node(child);
                let ghost prev = stack.children@;
                stack.push(child_widget);
                stack.common.dirty = true;
                proof {
                    lemma_mounted_seq_ext(orig, prev, stack.children@, i as nat);
                }
                i += 1;
            }
            stack.into_any()
        },
        Node::Group(_) => {
            proof {
                assert(false);
            }
            AnyWidget::Spacer(Spacer::new())
        },
    }
}

/// The stack that a structural view (a slot, a keyed list) fills after mount.
pub fn container(axis: Axis) -> (s: Stack)
    ensures
        s.common == Common::fresh(),
        s.axis == axis,
        s.spacing == 0,
        s.padding == 0,
        s.align == Align::Fill,
        s.bg is None,
        s.children@.len() == 0,
{
    match axis {
        Axis::Vertical => Stack::vertical(0, Align::Fill),
        Axis::Horizontal => Stack::horizontal(0, Align::Fill),
    }
}

/// Mounts `node` into `container` as its sole child, replacing whatever was
/// there before; the container is marked dirty.
pub fn mount_into(container: &mut Stack, node: Node)
    requires
        mountable(node),
    ensures
        final(container).children@.len() == 1,
        mounted(node, final(container).children@[0]),
        final(container).common.dirty,
        final(container).common.id == old(container).common.id,
        final(container).common.frame == old(container).common.frame,
        final(container).axis == old(container).axis,
        final(container).spacing == old(container).spacing,
        final(container).padding == old(container).padding,
        final(container).align == old(container).align,
        final(container).bg == old(container).bg,
{
    let w = mount_node(node);
    let mut ordered: Vec<AnyWidget> = Vec::new();
    ordered.push(w);
    container.set_child_order(ordered);
}

/// Conversion into a `Node`, so widgets drop into composition directly.
pub trait IntoNode {
    fn into_node(self) -> Node;
}

impl IntoNode for Node {
    fn into_node(self) -> (n: Node)
        ensures
            n == self,
    {
        self
    }
}

impl IntoNode for AnyWidget {
    fn into_node(self) -> (n: Node)
        ensures
            n == Node::Widget(self),
    {
        Node::Widget(self)
    }
}

impl IntoNode for Label {
    fn into_node(self) -> (n: Node)
        ensures
            n == Node::Widget(AnyWidget::Label(self)),
    {
        Node::Widget(AnyWidget::Label(self))
    }
}

impl IntoNode for Button {
    fn into_node(self) -> (n: Node)
        ensures
            n == Node::Widget(AnyWidget::Button(self)),
    {
        Node::Widget(AnyWidget::Button(self))
    }
}

impl IntoNode for Spacer {
    fn into_node(self) -> (n: Node)
        ensures
            n == Node::Widget(AnyWidget::Spacer(self)),
    {
        Node::Widget(AnyWidget::Spacer(self))
    }
}

impl IntoNode for Stack {
    fn into_node(self) -> (n: Node)
        ensures
            n == Node::Widget(AnyWidget::Stack(self)),
    {
        Node::Widget(AnyWidget::Stack(self))
    }
}

} // verus!
