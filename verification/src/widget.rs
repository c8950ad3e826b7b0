//! The retained widget tree. Each widget carries a computed frame (written by
//! layout) and a `dirty` flag set by its property setters — the signal that a
//! repaint is needed. The tree is owned: a stack owns its children.

use std::rc::Rc;

use vstd::prelude::*;
use vstd::string::StrSliceExecFns;

use crate::geometry::{fits_i32, max_int, Point, Rect, Size};
use crate::render::{Color, DrawCmd};

verus! {

/// Font cell width at size multiplier 1 (8x16 built-in font).
pub const CELL_W: i32 = 8;

/// Font cell height at size multiplier 1.
pub const CELL_H: i32 = 16;

/// Padding between a button's title and its border, in pixels.
pub const PAD_X: i32 = 12;

pub const PAD_Y: i32 = 8;

/// Pixel size of a single line of `len` characters at multiplier `size`, or
/// `None` when the width does not fit an `i32`.
pub open spec fn text_size_spec(len: nat, size: u8) -> Option<Size> {
    let w = len * 8 * size;
    if w <= i32::MAX && len * 8 <= i32::MAX {
        Some(Size { w: w as i32, h: (16 * size) as i32 })
    } else {
        None
    }
}

/// Pixel size of `text` at the given size multiplier, single line.
pub fn text_size(text: &str, size: u8) -> (s: Size)
    requires
        text_size_spec(text@.len(), size) is Some,
    ensures
        s == text_size_spec(text@.len(), size)->0,
{
    let n = text.unicode_len();
    let cols = n as i32;
    assert(0 <= cols * CELL_W * (size as i32) <= i32::MAX) by (nonlinear_arith)
        requires
            cols == n,
            n * 8 * size <= i32::MAX,
            n * 8 <= i32::MAX,
            CELL_W == 8,
            0 <= n,
            0 <= size,
    ;
    Size::new(cols * CELL_W * (size as i32), CELL_H * (size as i32))
}

/// A widget identity. Zero means "not yet assigned"; the app hands out fresh
/// identities to unassigned widgets before each frame.
#[derive(Debug, Clone, Copy, PartialEq, Eq, Structural)]
pub struct WidgetId(pub u64);

/// Fields every widget carries.
#[derive(Debug, Clone, Copy, PartialEq, Eq, Structural)]
pub struct Common {
    pub id: WidgetId,
    /// Absolute screen rectangle, written by layout.
    pub frame: Rect,
    /// Set by property setters; cleared after a repaint.
    pub dirty: bool,
}

impl Common {
    pub open spec fn fresh() -> Common {
        Common { id: WidgetId(0), frame: Rect::zero(), dirty: true }
    }

    pub fn new() -> (c: Common)
        ensures
            c == Common::fresh(),
    {
        Common { id: WidgetId(0), frame: Rect::new(0, 0, 0, 0), dirty: true }
    }
}

/// Cross-axis alignment of stack children.
#[derive(Debug, Clone, Copy, PartialEq, Eq, Structural)]
pub enum Align {
    Fill,
    Leading,
    Center,
    Trailing,
}

/// Stack orientation.
#[derive(Debug, Clone, Copy, PartialEq, Eq, Structural)]
pub enum Axis {
    Horizontal,
    Vertical,
}

/// What a button runs when tapped. Implemented by the application.
pub trait TapHandler {
    /// What holds once the handler has run (the effect of a tap).
    spec fn tapped(&self) -> bool;

    /// Runs the handler.
    fn on_tap(&self)
        ensures
            self.tapped(),
    ;
}

/// A single-line text label.
pub struct Label {
    pub common: Common,
    pub text: String,
    pub size: u8,
    pub fg: Color,
    pub bg: Color,
}

/// A button with a text title and a tap handler.
pub struct Button {
    pub common: Common,
    pub title: String,
    pub size: u8,
    pub fg: Color,
    pub bg: Color,
    pub on_tap: Option<Rc<dyn TapHandler>>,
}

/// A flexible gap: zero natural size (or `min`), but it expands to consume
/// leftover main-axis space in a stack.
pub struct Spacer {
    pub common: Common,
    /// Minimum extent along the stack's main axis.
    pub min: i32,
}

/// A stack of widgets arranged along one axis.
pub struct Stack {
    pub common: Common,
    pub axis: Axis,
    pub spacing: i32,
    pub padding: i32,
    pub align: Align,
    /// Optional solid background, painted before children.
    pub bg: Option<Color>,
    pub children: Vec<AnyWidget>,
}

/// A node in the widget tree.
pub enum AnyWidget {
    Label(Label),
    Button(Button),
    Stack(Stack),
    Spacer(Spacer),
}

impl Label {
    pub fn new(text: &str) -> (l: Label)
        ensures
            l.common == Common::fresh(),
            l.text@ == text@,
            l.size == 1,
            l.fg == Color(0),
            l.bg == Color(15),
    {
        Label {
            common: Common::new(),
            text: text.to_owned(),
            size: 1,
            fg: Color(0),
            bg: Color(15),
        }
    }

    /// Sets the font size multiplier (at least 1).
    pub fn size(self, size: u8) -> (l: Label)
        ensures
            l.size == (if size >= 1 { size } else { 1 }),
            l.common == self.common,
            l.text == self.text,
            l.fg == self.fg,
            l.bg == self.bg,
    {
        let mut s = self;
        s.size = if size >= 1 { size } else { 1 };
        s
    }

    /// Sets the foreground/background colors.
    pub fn colors(self, fg: Color, bg: Color) -> (l: Label)
        ensures
            l.fg == fg,
            l.bg == bg,
            l.common == self.common,
            l.text == self.text,
            l.size == self.size,
    {
        let mut s = self;
        s.fg = fg;
        s.bg = bg;
        s
    }

    /// Replaces the text and marks the label dirty.
    pub fn set_text(&mut self, text: &str)
        ensures
            final(self).text@ == text@,
            final(self).common.dirty,
            final(self).common.id == old(self).common.id,
            final(self).common.frame == old(self).common.frame,
            final(self).size == old(self).size,
            final(self).fg == old(self).fg,
            final(self).bg == old(self).bg,
    {
        self.text = text.to_owned();
        self.common.dirty = true;
    }

    /// Reads the current text.
    pub fn text(&self) -> (t: String)
        ensures
            t@ == self.text@,
    {
        self.text.clone()
    }
}

impl Button {
    pub fn new(title: &str) -> (b: Button)
        ensures
            b.common == Common::fresh(),
            b.title@ == title@,
            b.size == 1,
            b.fg == Color(0),
            b.bg == Color(15),
            b.on_tap is None,
    {
        Button {
            common: Common::new(),
            title: title.to_owned(),
            size: 1,
            fg: Color(0),
            bg: Color(15),
            on_tap: None,
        }
    }

    /// Sets the font size multiplier (at least 1).
    pub fn size(self, size: u8) -> (b: Button)
        ensures
            b.size == (if size >= 1 { size } else { 1 }),
            b.common == self.common,
            b.title == self.title,
            b.fg == self.fg,
            b.bg == self.bg,
            b.on_tap == self.on_tap,
    {
        let mut s = self;
        s.size = if size >= 1 { size } else { 1 };
        s
    }

    /// Registers the tap handler, replacing any previous one.
    pub fn on_tap(self, handler: Option<Rc<dyn TapHandler>>) -> (b: Button)
        ensures
            b.on_tap == handler,
            b.common == self.common,
            b.title == self.title,
            b.size == self.size,
            b.fg == self.fg,
            b.bg == self.bg,
    {
        let mut s = self;
        s.on_tap = handler;
        s
    }

    /// Replaces the title and marks the button dirty.
    pub fn set_title(&mut self, title: &str)
        ensures
            final(self).title@ == title@,
            final(self).common.dirty,
            final(self).common.id == old(self).common.id,
            final(self).common.frame == old(self).common.frame,
            final(self).size == old(self).size,
            final(self).fg == old(self).fg,
            final(self).bg == old(self).bg,
            final(self).on_tap == old(self).on_tap,
    {
        self.title = title.to_owned();
        self.common.dirty = true;
    }

    /// Runs the tap handler if set. Returns whether a handler ran.
    pub fn fire_tap(&self) -> (ran: bool)
        ensures
            ran == self.on_tap is Some,
            ran ==> (*self.on_tap->0).tapped(),
    {
        match &self.on_tap {
            Some(h) => {
                h.on_tap();
                true
            },
            None => false,
        }
    }
}

impl Spacer {
    pub fn new() -> (s: Spacer)
        ensures
            s.common == Common::fresh(),
            s.min == 0,
    {
        Spacer { common: Common::new(), min: 0 }
    }

    /// A spacer that is at least `min` pixels along the main axis.
    pub fn min(min: i32) -> (s: Spacer)
        ensures
            s.common == Common::fresh(),
            s.min == (if min >= 0 { min } else { 0 }),
    {
        let mut s = Spacer::new();
        s.min = if min >= 0 { min } else { 0 };
        s
    }
}

impl Stack {
    fn make(axis: Axis, spacing: i32, align: Align) -> (s: Stack)
        ensures
            s.common == Common::fresh(),
            s.axis == axis,
            s.spacing == spacing,
            s.padding == 0,
            s.align == align,
            s.bg is None,
            s.children@.len() == 0,
    {
        Stack {
            common: Common::new(),
            axis,
            spacing,
            padding: 0,
            align,
            bg: None,
            children: Vec::new(),
        }
    }

    /// A vertical stack.
    pub fn vertical(spacing: i32, align: Align) -> (s: Stack)
        ensures
            s.common == Common::fresh(),
            s.axis == Axis::Vertical,
            s.spacing == spacing,
            s.padding == 0,
            s.align == align,
            s.bg is None,
            s.children@.len() == 0,
    {
        Self::make(Axis::Vertical, spacing, align)
    }

    /// A horizontal stack.
    pub fn horizontal(spacing: i32, align: Align) -> (s: Stack)
        ensures
            s.common == Common::fresh(),
            s.axis == Axis::Horizontal,
            s.spacing == spacing,
            s.padding == 0,
            s.align == align,
            s.bg is None,
            s.children@.len() == 0,
    {
        Self::make(Axis::Horizontal, spacing, align)
    }

    /// Uniform padding inside the stack (negative values become zero).
    pub fn padding(self, pad: i32) -> (s: Stack)
        ensures
            s.padding == (if pad >= 0 { pad } else { 0 }),
            s.common == self.common,
            s.axis == self.axis,
            s.spacing == self.spacing,
            s.align == self.align,
            s.bg == self.bg,
            s.children == self.children,
    {
        let mut s = self;
        s.padding = if pad >= 0 { pad } else { 0 };
        s
    }

    /// Solid background color.
    pub fn background(self, color: Color) -> (s: Stack)
        ensures
            s.bg == Some(color),
            s.common == self.common,
            s.axis == self.axis,
            s.spacing == self.spacing,
            s.padding == self.padding,
            s.align == self.align,
            s.children == self.children,
    {
        let mut s = self;
        s.bg = Some(color);
        s
    }

    /// Appends a child and marks the stack dirty.
    pub fn push(&mut self, child: AnyWidget)
        ensures
            final(self).children@ == old(self).children@.push(child),
            final(self).common.dirty,
            final(self).common.id == old(self).common.id,
            final(self).common.frame == old(self).common.frame,
            final(self).axis == old(self).axis,
            final(self).spacing == old(self).spacing,
            final(self).padding == old(self).padding,
            final(self).align == old(self).align,
            final(self).bg == old(self).bg,
    {
        self.children.push(child);
        self.common.dirty = true;
    }

    pub fn axis(&self) -> (a: Axis)
        ensures
            a == self.axis,
    {
        self.axis
    }

    /// Replaces the children with `ordered` and marks the stack dirty.
    pub fn set_child_order(&mut self, ordered: Vec<AnyWidget>)
        ensures
            final(self).children == ordered,
            final(self).common.dirty,
            final(self).common.id == old(self).common.id,
            final(self).common.frame == old(self).common.frame,
            final(self).axis == old(self).axis,
            final(self).spacing == old(self).spacing,
            final(self).padding == old(self).padding,
            final(self).align == old(self).align,
            final(self).bg == old(self).bg,
    {
        self.children = ordered;
        self.common.dirty = true;
    }

    pub fn into_any(self) -> (w: AnyWidget)
        ensures
            w == AnyWidget::Stack(self),
    {
        AnyWidget::Stack(self)
    }
}

/// (main, cross) components of a size for the given axis.
pub open spec fn split_spec(axis: Axis, s: Size) -> (i32, i32) {
    match axis {
        Axis::Vertical => (s.h, s.w),
        Axis::Horizontal => (s.w, s.h),
    }
}

/// Rebuilds a size from (main, cross) components for the given axis.
pub open spec fn join_spec(axis: Axis, main: i32, cross: i32) -> Size {
    match axis {
        Axis::Vertical => Size { w: cross, h: main },
        Axis::Horizontal => Size { w: main, h: cross },
    }
}

pub fn split(axis: Axis, s: Size) -> (r: (i32, i32))
    ensures
        r == split_spec(axis, s),
{
    match axis {
        Axis::Vertical => (s.h, s.w),
        Axis::Horizontal => (s.w, s.h),
    }
}

pub fn join(axis: Axis, main: i32, cross: i32) -> (s: Size)
    ensures
        s == join_spec(axis, main, cross),
{
    match axis {
        Axis::Vertical => Size::new(cross, main),
        Axis::Horizontal => Size::new(main, cross),
    }
}

impl AnyWidget {
    pub open spec fn common_spec(self) -> Common {
        match self {
            AnyWidget::Label(w) => w.common,
            AnyWidget::Button(w) => w.common,
            AnyWidget::Stack(w) => w.common,
            AnyWidget::Spacer(w) => w.common,
        }
    }

    pub open spec fn children_spec(self) -> Seq<AnyWidget> {
        match self {
            AnyWidget::Stack(s) => s.children@,
            _ => Seq::empty(),
        }
    }

    /// The same widget with different common fields.
    pub open spec fn with_common(self, c: Common) -> AnyWidget {
        match self {
            AnyWidget::Label(w) => AnyWidget::Label(Label { common: c, ..w }),
            AnyWidget::Button(w) => AnyWidget::Button(Button { common: c, ..w }),
            AnyWidget::Stack(w) => AnyWidget::Stack(Stack { common: c, ..w }),
            AnyWidget::Spacer(w) => AnyWidget::Spacer(Spacer { common: c, ..w }),
        }
    }

    /// The same widget with a different frame.
    pub open spec fn with_frame(self, r: Rect) -> AnyWidget {
        match self {
            AnyWidget::Label(w) => AnyWidget::Label(Label { common: Common { frame: r, ..w.common }, ..w }),
            AnyWidget::Button(w) => AnyWidget::Button(Button { common: Common { frame: r, ..w.common }, ..w }),
            AnyWidget::Stack(w) => AnyWidget::Stack(Stack { common: Common { frame: r, ..w.common }, ..w }),
            AnyWidget::Spacer(w) => AnyWidget::Spacer(Spacer { common: Common { frame: r, ..w.common }, ..w }),
        }
    }
}

/// The natural size of `w` within `avail`, or `None` when the computation
/// would overflow `i32`.
pub open spec fn measure_spec(w: AnyWidget, avail: Size) -> Option<Size>
    decreases w, 0nat,
{
    match w {
        AnyWidget::Label(l) => text_size_spec(l.text@.len(), l.size),
        AnyWidget::Button(b) => match text_size_spec(b.title@.len(), b.size) {
            Some(t) => if fits_i32(t.w + 2 * PAD_X) && fits_i32(t.h + 2 * PAD_Y) {
                Some(Size { w: (t.w + 2 * PAD_X) as i32, h: (t.h + 2 * PAD_Y) as i32 })
            } else {
                None
            },
            None => None,
        },
        AnyWidget::Spacer(sp) => Some(Size { w: sp.min, h: sp.min }),
        AnyWidget::Stack(s) => {
            let pad = s.padding;
            if !fits_i32(2 * pad) || !fits_i32(avail.w - 2 * pad) || !fits_i32(avail.h - 2 * pad) {
                None
            } else {
                let inner = Size {
                    w: max_int(avail.w - 2 * pad, 0) as i32,
                    h: max_int(avail.h - 2 * pad, 0) as i32,
                };
                let n = s.children@.len();
                match measure_fold(s.children@, inner, s.axis, s.spacing, n, n) {
                    Some(mc) => if fits_i32(mc.0 + 2 * pad) && fits_i32(mc.1 + 2 * pad) {
                        Some(join_spec(s.axis, (mc.0 + 2 * pad) as i32, (mc.1 + 2 * pad) as i32))
                    } else {
                        None
                    },
                    None => None,
                }
            }
        },
    }
}

/// Accumulated (main, cross) extent of the first `k` of `n` children: main sums
/// child extents plus spacing between children, cross is the maximum.
pub open spec fn measure_fold(
    ch: Seq<AnyWidget>,
    inner: Size,
    axis: Axis,
    spacing: i32,
    n: nat,
    k: nat,
) -> Option<(i32, i32)>
    decreases ch, k,
{
    if k == 0 || k > ch.len() {
        if k == 0 { Some((0i32, 0i32)) } else { None }
    } else {
        match measure_fold(ch, inner, axis, spacing, n, (k - 1) as nat) {
            None => None,
            Some(prev) => match measure_spec(ch[k - 1], inner) {
                None => None,
                Some(m) => {
                    let (cm, cc) = split_spec(axis, m);
                    let main1 = prev.0 + cm;
                    let cross1 = max_int(prev.1 as int, cc as int);
                    if !fits_i32(main1) {
                        None
                    } else if k < n {
                        if fits_i32(main1 + spacing) {
                            Some(((main1 + spacing) as i32, cross1 as i32))
                        } else {
                            None
                        }
                    } else {
                        Some((main1 as i32, cross1 as i32))
                    }
                },
            },
        }
    }
}

pub proof fn lemma_measure_fold_prefix(
    ch: Seq<AnyWidget>,
    inner: Size,
    axis: Axis,
    spacing: i32,
    n: nat,
    k: nat,
    j: nat,
)
    requires
        j <= k,
        measure_fold(ch, inner, axis, spacing, n, k) is Some,
    ensures
        measure_fold(ch, inner, axis, spacing, n, j) is Some,
    decreases k - j,
{
    if j < k {
        lemma_measure_fold_prefix(ch, inner, axis, spacing, n, (k - 1) as nat, j);
    }
}

/// Draw commands a widget emits for itself (not its children).
pub open spec fn paint_spec(w: AnyWidget) -> Seq<DrawCmd> {
    match w {
        AnyWidget::Label(l) => seq![
            DrawCmd::Text {
                x: l.common.frame.x,
                y: l.common.frame.y,
                text: l.text,
                size: l.size,
                fg: l.fg,
                bg: l.bg,
                inverse: false,
            },
        ],
        AnyWidget::Button(b) => seq![
            DrawCmd::FillRect { rect: b.common.frame, color: b.fg },
            DrawCmd::Text {
                x: (b.common.frame.x + PAD_X) as i32,
                y: (b.common.frame.y + PAD_Y) as i32,
                text: b.title,
                size: b.size,
                fg: b.fg,
                bg: b.bg,
                inverse: true,
            },
        ],
        AnyWidget::Spacer(_) => Seq::empty(),
        AnyWidget::Stack(s) => match s.bg {
            Some(c) => seq![DrawCmd::FillRect { rect: s.common.frame, color: c }],
            None => Seq::empty(),
        },
    }
}

/// The widget's own geometry can be evaluated without overflow: its frame's
/// far edges fit, and a button's title offset fits.
pub open spec fn node_fits(w: AnyWidget) -> bool {
    &&& w.common_spec().frame.edges_fit()
    &&& (w is Button ==> fits_i32(w.common_spec().frame.x + PAD_X) && fits_i32(
        w.common_spec().frame.y + PAD_Y,
    ))
}

/// `node_fits` holds for `w` and every descendant.
pub open spec fn tree_fits(w: AnyWidget) -> bool
    decreases w, 0nat,
{
    &&& node_fits(w)
    &&& match w {
        AnyWidget::Stack(s) => trees_fit(s.children@, s.children@.len()),
        _ => true,
    }
}

/// `tree_fits` holds for each of the first `k` widgets of `ch`.
pub open spec fn trees_fit(ch: Seq<AnyWidget>, k: nat) -> bool
    decreases ch, k,
{
    if k == 0 || k > ch.len() {
        k == 0
    } else {
        trees_fit(ch, (k - 1) as nat) && tree_fits(ch[k - 1])
    }
}

pub proof fn lemma_trees_fit_index(ch: Seq<AnyWidget>, k: nat, j: int)
    requires
        trees_fit(ch, k),
        0 <= j < k,
    ensures
        tree_fits(ch[j]),
    decreases k,
{
    if j < k - 1 {
        lemma_trees_fit_index(ch, (k - 1) as nat, j);
    }
}

/// The widget `hit_test` returns for point `p`: the last-placed interactive
/// descendant whose frame contains `p` (children before their parent).
pub open spec fn hit_spec(w: AnyWidget, p: Point) -> Option<AnyWidget>
    decreases w, 0nat,
{
    if !w.common_spec().frame.contains_spec(p) {
        None
    } else {
        let below = match w {
            AnyWidget::Stack(s) => hit_children(s.children@, p, s.children@.len()),
            _ => None,
        };
        match below {
            Some(h) => Some(h),
            None => if w is Button { Some(w) } else { None },
        }
    }
}

/// Searches `ch[k-1]`, `ch[k-2]`, ..., `ch[0]` in that order.
pub open spec fn hit_children(ch: Seq<AnyWidget>, p: Point, k: nat) -> Option<AnyWidget>
    decreases ch, k,
{
    if k == 0 || k > ch.len() {
        None
    } else {
        match hit_spec(ch[k - 1], p) {
            Some(h) => Some(h),
            None => hit_children(ch, p, (k - 1) as nat),
        }
    }
}

/// The frames `hit_test(w, p)` examines have edges that fit `i32`: that of
/// `w`, and, when it contains `p`, those its children's searches examine,
/// last child first, up to the first hit.
pub open spec fn hit_fits(w: AnyWidget, p: Point) -> bool
    decreases w, 0nat,
{
    &&& w.common_spec().frame.edges_fit()
    &&& (w.common_spec().frame.contains_spec(p) ==> match w {
        AnyWidget::Stack(s) => hit_children_fit(s.children@, p, s.children@.len()),
        _ => true,
    })
}

/// `hit_fits` along the search of `ch[k-1]`, `ch[k-2]`, ..., up to the
/// first hit.
pub open spec fn hit_children_fit(ch: Seq<AnyWidget>, p: Point, k: nat) -> bool
    decreases ch, k,
{
    if k == 0 || k > ch.len() {
        true
    } else {
        hit_fits(ch[k - 1], p) && (hit_spec(ch[k - 1], p) is None ==> hit_children_fit(ch, p, (k - 1) as nat))
    }
}

/// Pre-order sequence of the common fields of `w` and its descendants.
pub open spec fn commons(w: AnyWidget) -> Seq<Common>
    decreases w, 0nat,
{
    seq![w.common_spec()] + match w {
        AnyWidget::Stack(s) => commons_seq(s.children@, s.children@.len()),
        _ => Seq::empty(),
    }
}

pub open spec fn commons_seq(ch: Seq<AnyWidget>, k: nat) -> Seq<Common>
    decreases ch, k,
{
    if k == 0 || k > ch.len() {
        Seq::empty()
    } else {
        commons_seq(ch, (k - 1) as nat) + commons(ch[k - 1])
    }
}

impl AnyWidget {
    pub fn id(&self) -> (id: WidgetId)
        ensures
            id == self.common_spec().id,
    {
        match self {
            AnyWidget::Label(w) => w.common.id,
            AnyWidget::Button(w) => w.common.id,
            AnyWidget::Stack(w) => w.common.id,
            AnyWidget::Spacer(w) => w.common.id,
        }
    }

    pub fn frame(&self) -> (r: Rect)
        ensures
            r == self.common_spec().frame,
    {
        match self {
            AnyWidget::Label(w) => w.common.frame,
            AnyWidget::Button(w) => w.common.frame,
            AnyWidget::Stack(w) => w.common.frame,
            AnyWidget::Spacer(w) => w.common.frame,
        }
    }

    pub fn common(&self) -> (c: Common)
        ensures
            c == self.common_spec(),
    {
        match self {
            AnyWidget::Label(w) => w.common,
            AnyWidget::Button(w) => w.common,
            AnyWidget::Stack(w) => w.common,
            AnyWidget::Spacer(w) => w.common,
        }
    }

    pub fn set_frame(&mut self, r: Rect)
        ensures
            *final(self) == old(self).with_frame(r),
    {
        match self {
            AnyWidget::Label(w) => w.common.frame = r,
            AnyWidget::Button(w) => w.common.frame = r,
            AnyWidget::Stack(w) => w.common.frame = r,
            AnyWidget::Spacer(w) => w.common.frame = r,
        }
    }

    pub fn set_common(&mut self, c: Common)
        ensures
            *final(self) == old(self).with_common(c),
    {
        match self {
            AnyWidget::Label(w) => w.common = c,
            AnyWidget::Button(w) => w.common = c,
            AnyWidget::Stack(w) => w.common = c,
            AnyWidget::Spacer(w) => w.common = c,
        }
    }

    pub fn is_dirty(&self) -> (d: bool)
        ensures
            d == self.common_spec().dirty,
    {
        match self {
            AnyWidget::Label(w) => w.common.dirty,
            AnyWidget::Button(w) => w.common.dirty,
            AnyWidget::Stack(w) => w.common.dirty,
            AnyWidget::Spacer(w) => w.common.dirty,
        }
    }

    /// A flexible widget (a spacer) absorbs leftover main-axis space.
    pub fn is_flexible(&self) -> (f: bool)
        ensures
            f == self is Spacer,
    {
        match self {
            AnyWidget::Spacer(_) => true,
            _ => false,
        }
    }

    /// Direct children (only stacks have any).
    pub fn children(&self) -> (c: &[AnyWidget])
        ensures
            c@ == self.children_spec(),
    {
        match self {
            AnyWidget::Stack(s) => s.children.as_slice(),
            _ => &[],
        }
    }

    /// Natural size within `avail`, ignoring the widget's current frame.
    pub fn measure(&self, avail: Size) -> (s: Size)
        requires
            measure_spec(*self, avail) is Some,
        ensures
            s == measure_spec(*self, avail)->0,
        decreases self,
    {
        match self {
            AnyWidget::Label(w) => text_size(w.text.as_str(), w.size),
            AnyWidget::Button(w) => {
                let t = text_size(w.title.as_str(), w.size);
                Size::new(t.w + 2 * PAD_X, t.h + 2 * PAD_Y)
            },
            AnyWidget::Spacer(w) => Size::new(w.min, w.min),
            AnyWidget::Stack(s) => measure_stack(s, avail),
        }
    }

    /// Appends this widget's own draw commands (not its children's) to `out`.
    pub fn paint_self(&self, out: &mut Vec<DrawCmd>)
        requires
            node_fits(*self),
        ensures
            final(out)@ == old(out)@ + paint_spec(*self),
    {
        match self {
            AnyWidget::Label(l) => {
                let f = l.common.frame;
                out.push(
                    DrawCmd::Text {
                        x: f.x,
                        y: f.y,
                        text: l.text.clone(),
                        size: l.size,
                        fg: l.fg,
                        bg: l.bg,
                        inverse: false,
                    },
                );
            },
            AnyWidget::Button(b) => {
                let f = b.common.frame;
                out.push(DrawCmd::FillRect { rect: f, color: b.fg });
                out.push(
                    DrawCmd::Text {
                        x: f.x + PAD_X,
                        y: f.y + PAD_Y,
                        text: b.title.clone(),
                        size: b.size,
                        fg: b.fg,
                        bg: b.bg,
                        inverse: true,
                    },
                );
            },
            AnyWidget::Spacer(_) => {},
            AnyWidget::Stack(s) => {
                if let Some(c) = s.bg {
                    out.push(DrawCmd::FillRect { rect: s.common.frame, color: c });
                }
            },
        }
        assert(final(out)@ =~= old(out)@ + paint_spec(*self));
    }

    /// Invokes the tap handler if this is a button with one. Returns true if a
    /// handler ran.
    pub fn dispatch_tap(&self) -> (ran: bool)
        ensures
            ran == (self matches AnyWidget::Button(b) && b.on_tap is Some),
            ran ==> (self matches AnyWidget::Button(b) && (*b.on_tap->0).tapped()),
    {
        match self {
            AnyWidget::Button(b) => b.fire_tap(),
            _ => false,
        }
    }
}

/// Natural size of a stack: children summed along the main axis (with
/// spacing between them) and the maximum along the cross axis, plus padding.
pub fn measure_stack(s: &Stack, avail: Size) -> (r: Size)
    requires
        measure_spec(AnyWidget::Stack(*s), avail) is Some,
    ensures
        r == measure_spec(AnyWidget::Stack(*s), avail)->0,
    decreases s,
{
    let pad = s.padding;
    let iw = avail.w - 2 * pad;
    let ih = avail.h - 2 * pad;
    let inner = Size::new(if iw > 0 { iw } else { 0 }, if ih > 0 { ih } else { 0 });
    let n = s.children.len();
    let ghost ch = s.children@;
    let mut main: i32 = 0;
    let mut cross: i32 = 0;
    let mut i: usize = 0;
    while i < n
        invariant
            n == ch.len(),
            ch == s.children@,
            i <= n,
            measure_fold(ch, inner, s.axis, s.spacing, n as nat, n as nat) is Some,
            measure_fold(ch, inner, s.axis, s.spacing, n as nat, i as nat) == Some((main, cross)),
        decreases n - i,
    {
        proof {
            lemma_measure_fold_prefix(ch, inner, s.axis, s.spacing, n as nat, n as nat, (i + 1) as nat);
        }
        assert(decreases_to!(s => s.children@[i as int]));
        let m = s.children[i].measure(inner);
        let (cm, cc) = split(s.axis, m);
        main = main + cm;
        if cc > cross {
            cross = cc;
        }
        if i + 1 < n {
            main = main + s.spacing;
        }
        i += 1;
    }
    join(s.axis, main + 2 * pad, cross + 2 * pad)
}

/// The pixel size of `text` at multiplier `size`, or `None` when it does not
/// fit an `i32`.
pub fn text_size_opt(text: &str, size: u8) -> (r: Option<Size>)
    ensures
        r == text_size_spec(text@.len(), size),
{
    let n = text.unicode_len();
    if n > 0x0fff_ffff {
        assert(n * 8 > i32::MAX);
        return None;
    }
    let cols = n as u64;
    assert(cols * 8 * (size as u64) <= 0x0fff_ffff * 8 * 255) by (nonlinear_arith)
        requires
            cols <= 0x0fff_ffff,
            size <= 255,
    ;
    let w = cols * 8 * (size as u64);
    assert(w == n * 8 * size) by (nonlinear_arith)
        requires
            w == cols * 8 * (size as u64),
            cols == n,
    ;
    if w > 0x7fff_ffff {
        None
    } else {
        Some(text_size(text, size))
    }
}

pub proof fn lemma_measure_fold_none_stays(
    ch: Seq<AnyWidget>,
    inner: Size,
    axis: Axis,
    spacing: i32,
    n: nat,
    j: nat,
    k: nat,
)
    requires
        j <= k,
        measure_fold(ch, inner, axis, spacing, n, j) is None,
    ensures
        measure_fold(ch, inner, axis, spacing, n, k) is None,
    decreases k - j,
{
    if j < k {
        lemma_measure_fold_none_stays(ch, inner, axis, spacing, n, j, (k - 1) as nat);
    }
}

impl AnyWidget {
    /// The natural size within `avail`, or `None` where measuring overflows.
    pub fn measure_opt(&self, avail: Size) -> (r: Option<Size>)
        ensures
            r == measure_spec(*self, avail),
        decreases self,
    {
        match self {
            AnyWidget::Label(w) => text_size_opt(w.text.as_str(), w.size),
            AnyWidget::Button(w) => match text_size_opt(w.title.as_str(), w.size) {
                Some(t) => {
                    if t.w <= i32::MAX - 2 * PAD_X && t.h <= i32::MAX - 2 * PAD_Y {
                        Some(Size::new(t.w + 2 * PAD_X, t.h + 2 * PAD_Y))
                    } else {
                        None
                    }
                },
                None => None,
            },
            AnyWidget::Spacer(w) => Some(Size::new(w.min, w.min)),
            AnyWidget::Stack(s) => measure_stack_opt(s, avail),
        }
    }
}

/// `measure_stack`, or `None` where it overflows.
pub fn measure_stack_opt(s: &Stack, avail: Size) -> (r: Option<Size>)
    ensures
        r == measure_spec(AnyWidget::Stack(*s), avail),
    decreases s,
{
    let lo = i32::MIN as i64;
    let hi = i32::MAX as i64;
    let pad = s.padding as i64;
    let iw = avail.w as i64 - 2 * pad;
    let ih = avail.h as i64 - 2 * pad;
    if !(lo <= 2 * pad && 2 * pad <= hi && lo <= iw && iw <= hi && lo <= ih && ih <= hi) {
        return None;
    }
    let inner = Size::new(if iw > 0 { iw as i32 } else { 0 }, if ih > 0 { ih as i32 } else { 0 });
    let n = s.children.len();
    let ghost ch = s.children@;
    let mut main: i32 = 0;
    let mut cross: i32 = 0;
    let mut i: usize = 0;
    while i < n
        invariant
            n == ch.len(),
            ch == s.children@,
            i <= n,
            measure_fold(ch, inner, s.axis, s.spacing, n as nat, i as nat) == Some((main, cross)),
            lo == i32::MIN,
            hi == i32::MAX,
            pad == s.padding,
            fits_i32(2 * s.padding),
            fits_i32(avail.w - 2 * s.padding),
            fits_i32(avail.h - 2 * s.padding),
            inner == (Size { w: max_int(avail.w - 2 * s.padding, 0) as i32, h: max_int(avail.h - 2 * s.padding, 0) as i32 }),
        decreases n - i,
    {
        assert(decreases_to!(s => s.children@[i as int]));
        match s.children[i].measure_opt(inner) {
            None => {
                assert(measure_fold(ch, inner, s.axis, s.spacing, n as nat, (i + 1) as nat) is None);
                proof {
                    lemma_measure_fold_none_stays(ch, inner, s.axis, s.spacing, n as nat, (i + 1) as nat, n as nat);
                }
                return None;
            },
            Some(m) => {
                let (cm, cc) = split(s.axis, m);
                let main1 = main as i64 + cm as i64;
                if !(lo <= main1 && main1 <= hi) {
                    assert(measure_fold(ch, inner, s.axis, s.spacing, n as nat, (i + 1) as nat) is None);
                    proof {
                        lemma_measure_fold_none_stays(ch, inner, s.axis, s.spacing, n as nat, (i + 1) as nat, n as nat);
                    }
                    return None;
                }
                let next_cross = if cc > cross { cc } else { cross };
                if i + 1 < n {
                    let with_gap = main1 + s.spacing as i64;
                    if !(lo <= with_gap && with_gap <= hi) {
                        assert(measure_fold(ch, inner, s.axis, s.spacing, n as nat, (i + 1) as nat) is None);
                        proof {
                            lemma_measure_fold_none_stays(ch, inner, s.axis, s.spacing, n as nat, (i + 1) as nat, n as nat);
                        }
                        return None;
                    }
                    main = with_gap as i32;
                } else {
                    main = main1 as i32;
                }
                cross = next_cross;
            },
        }
        i += 1;
    }
    let m2 = main as i64 + 2 * pad;
    let c2 = cross as i64 + 2 * pad;
    if lo <= m2 && m2 <= hi && lo <= c2 && c2 <= hi {
        Some(join(s.axis, m2 as i32, c2 as i32))
    } else {
        None
    }
}

/// Whether the widget's own geometry fits (`node_fits`).
pub fn node_fits_check(w: &AnyWidget) -> (b: bool)
    ensures
        b == node_fits(*w),
{
    let f = w.frame();
    if !f.edges_fit_check() {
        return false;
    }
    match w {
        AnyWidget::Button(_) => f.x <= i32::MAX - PAD_X && f.y <= i32::MAX - PAD_Y,
        _ => true,
    }
}

/// Whether `tree_fits` holds: every frame in the tree can be drawn and hit
/// without overflow.
pub fn tree_fits_check(w: &AnyWidget) -> (b: bool)
    ensures
        b == tree_fits(*w),
    decreases w,
{
    if !node_fits_check(w) {
        return false;
    }
    match w {
        AnyWidget::Stack(s) => {
            let n = s.children.len();
            let ghost ch = s.children@;
            let mut i: usize = 0;
            while i < n
                invariant
                    n == ch.len(),
                    ch == s.children@,
                    i <= n,
                    trees_fit(ch, i as nat),
                    *w == AnyWidget::Stack(*s),
                    node_fits(*w),
                    forall|j: int| 0 <= j < n ==> decreases_to!(w => #[trigger] ch[j]),
                decreases n - i,
            {
                if !tree_fits_check(&s.children[i]) {
                    assert(!tree_fits(*w)) by {
                        if tree_fits(*w) {
                            assert(trees_fit(ch, n as nat));
                            lemma_trees_fit_index(ch, n as nat, i as int);
                        }
                    }
                    return false;
                }
                i += 1;
            }
            true
        },
        _ => true,
    }
}

/// Whether `hit_fits(w, p)` holds: `hit_test(w, p)` can run without
/// overflowing `i32`.
pub fn hit_fits_check(w: &AnyWidget, p: Point) -> (b: bool)
    ensures
        b == hit_fits(*w, p),
    decreases w,
{
    if !w.frame().edges_fit_check() {
        return false;
    }
    if !w.frame().contains(p) {
        return true;
    }
    let ch = w.children();
    let mut i = ch.len();
    while i > 0
        invariant
            i <= ch@.len(),
            ch@ == w.children_spec(),
            w.common_spec().frame.edges_fit(),
            w.common_spec().frame.contains_spec(p),
            hit_children_fit(ch@, p, ch@.len()) == hit_children_fit(ch@, p, i as nat),
        decreases i,
    {
        i -= 1;
        assert(decreases_to!(*w => ch@[i as int]));
        if !hit_fits_check(&ch[i], p) {
            return false;
        }
        if hit_test(&ch[i], p).is_some() {
            return true;
        }
    }
    true
}

/// Returns the topmost interactive widget whose frame contains `p`, searching
/// children (last first) before parents so nested content wins.
pub fn hit_test<'a>(root: &'a AnyWidget, p: Point) -> (r: Option<&'a AnyWidget>)
    requires
        hit_fits(*root, p),
    ensures
        r matches Some(w) ==> hit_spec(*root, p) == Some(*w),
        r is None ==> hit_spec(*root, p) is None,
    decreases root,
{
    if !root.frame().contains(p) {
        return None;
    }
    let ch = root.children();
    let mut i = ch.len();
    while i > 0
        invariant
            i <= ch@.len(),
            ch@ == root.children_spec(),
            root.common_spec().frame.contains_spec(p),
            hit_children(ch@, p, ch@.len()) == hit_children(ch@, p, i as nat),
            hit_children_fit(ch@, p, i as nat),
        decreases i,
    {
        i -= 1;
        assert(decreases_to!(*root => ch@[i as int]));
        if let Some(h) = hit_test(&ch[i], p) {
            assert(hit_children(ch@, p, (i + 1) as nat) == Some(*h));
            return Some(h);
        }
    }
    if let AnyWidget::Button(_) = root {
        return Some(root);
    }
    None
}

/// Pre-order common fields (identity, frame, dirty flag) of `root` and every
/// descendant.
pub fn walk(root: &AnyWidget) -> (r: Vec<Common>)
    ensures
        r@ == commons(*root),
{
    let mut out: Vec<Common> = Vec::new();
    walk_into(root, &mut out);
    out
}

fn walk_into(w: &AnyWidget, out: &mut Vec<Common>)
    ensures
        final(out)@ == old(out)@ + commons(*w),
    decreases w,
{
    out.push(w.common());
    let ch = w.children();
    let mut i: usize = 0;
    while i < ch.len()
        invariant
            i <= ch@.len(),
            ch@ == w.children_spec(),
            out@ == old(out)@ + seq![w.common_spec()] + commons_seq(ch@, i as nat),
        decreases ch@.len() - i,
    {
        assert(decreases_to!(*w => ch@[i as int]));
        walk_into(&ch[i], out);
        assert(commons_seq(ch@, (i + 1) as nat) == commons_seq(ch@, i as nat) + commons(ch@[i as int]));
        i += 1;
    }
}

} // verus!
