//! Rendering abstraction: a `Renderer` receives a batch of draw commands and
//! refreshes regions of the e-ink panel. `MockRenderer` records everything for
//! host tests.

use vstd::prelude::*;

use crate::geometry::{Rect, Size};

verus! {

#[verifier::external_type_specification]
#[verifier::external_body]
pub struct ExIoError(std::io::Error);

/// A 4-bit grayscale level, matching e-ink's native depth. `0` is black, `15`
/// is white.
#[derive(Debug, Clone, Copy, PartialEq, Eq, Structural)]
pub struct Color(pub u8);

impl Color {
    pub open spec fn level_spec(self) -> u8 {
        if self.0 <= 15 { self.0 } else { 15 }
    }

    /// Clamps to the 0..=15 range.
    pub fn level(self) -> (l: u8)
        ensures
            l == self.level_spec(),
            l <= 15,
    {
        if self.0 <= 15 { self.0 } else { 15 }
    }

    /// Expands to the 0..=255 gray value the panel driver expects.
    pub fn to_gray8(self) -> (g: u8)
        ensures
            g == self.level_spec() * 17,
    {
        self.level() * 0x11
    }
}

pub open spec fn black() -> Color {
    Color(0)
}

pub open spec fn white() -> Color {
    Color(15)
}

/// How aggressively to refresh a region on the e-ink panel.
#[derive(Debug, Clone, Copy, PartialEq, Eq, Structural)]
pub enum RefreshMode {
    /// Fast partial update. May ghost.
    Partial,
    /// Full flashing update that clears ghosting.
    Full,
}

/// A single primitive draw operation, in absolute screen pixels.
#[derive(Debug, PartialEq)]
pub enum DrawCmd {
    /// Fill `rect` with a solid gray level.
    FillRect { rect: Rect, color: Color },
    /// Draw `text` with its top-left at (`x`, `y`); `size` is a font multiplier
    /// and `inverse` swaps fg/bg.
    Text { x: i32, y: i32, text: String, size: u8, fg: Color, bg: Color, inverse: bool },
}

impl Clone for DrawCmd {
    fn clone(&self) -> (c: Self)
        ensures
            c == *self,
    {
        match self {
            DrawCmd::FillRect { rect, color } => DrawCmd::FillRect { rect: *rect, color: *color },
            DrawCmd::Text { x, y, text, size, fg, bg, inverse } => DrawCmd::Text {
                x: *x,
                y: *y,
                text: text.clone(),
                size: *size,
                fg: *fg,
                bg: *bg,
                inverse: *inverse,
            },
        }
    }
}

/// Something that can draw `DrawCmd`s and refresh e-ink regions. Per frame the
/// app submits the batch for all damaged widgets, then refreshes once.
pub trait Renderer {
    /// Every command drawn so far, in order.
    spec fn submitted(&self) -> Seq<DrawCmd>;

    /// Every refresh issued so far, in order.
    spec fn refreshed(&self) -> Seq<(Rect, RefreshMode)>;

    /// The size of the panel this renderer draws on, in pixels.
    spec fn panel_size(&self) -> Size;

    /// Whether every draw and refresh succeeds from now on (a renderer that
    /// cannot fail, such as one that records commands).
    spec fn reliable(&self) -> bool;

    /// The usable panel size in pixels.
    fn screen_size(&mut self) -> (s: Size)
        ensures
            s == old(self).panel_size(),
            final(self).panel_size() == old(self).panel_size(),
            final(self).reliable() == old(self).reliable(),
            final(self).submitted() == old(self).submitted(),
            final(self).refreshed() == old(self).refreshed(),
    ;

    /// Draws a batch of commands without refreshing the panel.
    fn submit(&mut self, cmds: &Vec<DrawCmd>) -> (r: std::io::Result<()>)
        ensures
            r is Ok ==> final(self).submitted() == old(self).submitted() + cmds@,
            r is Ok ==> final(self).refreshed() == old(self).refreshed(),
            old(self).reliable() ==> r is Ok && final(self).reliable(),
    ;

    /// Refreshes `region` with the given waveform mode.
    fn refresh(&mut self, region: Rect, mode: RefreshMode) -> (r: std::io::Result<()>)
        ensures
            r is Ok ==> final(self).submitted() == old(self).submitted(),
            r is Ok ==> final(self).refreshed() == old(self).refreshed().push((region, mode)),
            old(self).reliable() ==> r is Ok && final(self).reliable(),
    ;
}

/// A `Renderer` that records everything submitted to it instead of drawing.
pub struct MockRenderer {
    pub size: Size,
    pub commands: Vec<DrawCmd>,
    pub refreshes: Vec<(Rect, RefreshMode)>,
}

/// The strings of the text commands in `cmds`, in order.
pub open spec fn texts_of(cmds: Seq<DrawCmd>) -> Seq<Seq<char>>
    decreases cmds.len(),
{
    if cmds.len() == 0 {
        Seq::empty()
    } else {
        let rest = texts_of(cmds.drop_last());
        match cmds.last() {
            DrawCmd::Text { text, .. } => rest.push(text@),
            _ => rest,
        }
    }
}

impl MockRenderer {
    pub fn new(size: Size) -> (m: MockRenderer)
        ensures
            m.size == size,
            m.commands@ == Seq::<DrawCmd>::empty(),
            m.refreshes@ == Seq::<(Rect, RefreshMode)>::empty(),
    {
        MockRenderer { size, commands: Vec::new(), refreshes: Vec::new() }
    }

    /// Clears the recorded log (call between frames in a test).
    pub fn clear_log(&mut self)
        ensures
            final(self).size == old(self).size,
            final(self).commands@ == Seq::<DrawCmd>::empty(),
            final(self).refreshes@ == Seq::<(Rect, RefreshMode)>::empty(),
    {
        self.commands.clear();
        self.refreshes.clear();
    }

    /// All text strings drawn so far, in order.
    pub fn texts(&self) -> (t: Vec<String>)
        ensures
            t@.map_values(|s: String| s@) == texts_of(self.commands@),
    {
        let mut out: Vec<String> = Vec::new();
        let mut i: usize = 0;
        while i < self.commands.len()
            invariant
                i <= self.commands@.len(),
                out@.map_values(|s: String| s@) == texts_of(self.commands@.subrange(0, i as int)),
            decreases self.commands@.len() - i,
        {
            assert(self.commands@.subrange(0, i + 1).drop_last() == self.commands@.subrange(0, i as int));
            match &self.commands[i] {
                DrawCmd::Text { text, .. } => {
                    out.push(text.clone());
                },
                _ => {},
            }
            assert(out@.map_values(|s: String| s@) == texts_of(self.commands@.subrange(0, i + 1)));
            i += 1;
        }
        assert(self.commands@.subrange(0, self.commands@.len() as int) == self.commands@);
        out
    }
}

impl Renderer for MockRenderer {
    open spec fn submitted(&self) -> Seq<DrawCmd> {
        self.commands@
    }

    open spec fn refreshed(&self) -> Seq<(Rect, RefreshMode)> {
        self.refreshes@
    }

    open spec fn panel_size(&self) -> Size {
        self.size
    }

    open spec fn reliable(&self) -> bool {
        true
    }

    fn screen_size(&mut self) -> (s: Size)
        ensures
            s == old(self).size,
            *final(self) == *old(self),
    {
        self.size
    }

    fn submit(&mut self, cmds: &Vec<DrawCmd>) -> (r: std::io::Result<()>)
        ensures
            r.is_ok(),
            final(self).commands@ == old(self).commands@ + cmds@,
            final(self).refreshes@ == old(self).refreshes@,
            final(self).size == old(self).size,
    {
        let mut i: usize = 0;
        while i < cmds.len()
            invariant
                i <= cmds@.len(),
                self.commands@ == old(self).commands@ + cmds@.subrange(0, i as int),
                self.refreshes@ == old(self).refreshes@,
                self.size == old(self).size,
            decreases cmds@.len() - i,
        {
            let c = cmds[i].clone();
            self.commands.push(c);
            assert(cmds@.subrange(0, i + 1) == cmds@.subrange(0, i as int).push(cmds@[i as int]));
            i += 1;
        }
        assert(cmds@.subrange(0, cmds@.len() as int) == cmds@);
        Ok(())
    }

    fn refresh(&mut self, region: Rect, mode: RefreshMode) -> (r: std::io::Result<()>)
        ensures
            r.is_ok(),
            final(self).refreshes@ == old(self).refreshes@.push((region, mode)),
            final(self).commands@ == old(self).commands@,
            final(self).size == old(self).size,
    {
        self.refreshes.push((region, mode));
        Ok(())
    }
}

} // verus!
