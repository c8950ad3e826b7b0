//! SignalKit for Kindle: integer pixel geometry, a retained widget tree with a
//! stack layout solver, an e-ink frame/refresh policy, touch decoding, and the
//! Kindle Substrate tooling logic (symbol databases, tweak filters, ELF import
//! tables, session health).

pub mod app;
pub mod demo;
pub mod disposable;
pub mod elf;
pub mod filters;
pub mod geometry;
pub mod hooks;
pub mod input;
pub mod keyed;
pub mod layout;
pub mod logos;
pub mod node;
pub mod render;
pub mod signal;
pub mod supervisor;
pub mod symbols;
pub mod text;
pub mod tooling;
pub mod tree;
pub mod widget;

pub use app::{App, ExitHandle};
pub use disposable::Disposable;
pub use geometry::{Point, Rect, Size};
pub use node::{group, hstack, vstack, IntoNode, Node};
pub use render::{Color, DrawCmd, RefreshMode, Renderer};
pub use signal::Signal;
pub use widget::{Align, AnyWidget, Axis, Button, Label, Spacer, Stack};

use vstd::prelude::*;

verus! {

/// The library's version string.
pub fn version() -> (v: &'static str)
    ensures
        v@ == "0.1.0"@,
{
    "0.1.0"
}

/// Does nothing. Programs call it at startup so that the platform shims they
/// are linked with (the `getauxval` override on Kindle) stay in the binary.
pub fn ensure_linked() {
}

} // verus!
