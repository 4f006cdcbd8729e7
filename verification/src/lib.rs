//! A small terminal UI toolkit: a cell buffer, drawable shapes and text,
//! a pane tree, and a diff-based renderer that emits ANSI escapes.

use vstd::prelude::*;

pub mod buffer;
pub mod demo;
pub mod pane;
pub mod raw_mode;
pub mod renderer;
pub mod shape;
pub mod terminal;
pub mod text;

use buffer::{Buffer, Grid};
use shape::Rect;

verus! {

/// Something that can render itself into a [`Buffer`].
pub trait Draw {
    /// Whether every coordinate that drawing into `area` computes stays
    /// within `u16`; drawing is only defined when it does.
    spec fn fits(&self, area: Rect) -> bool;

    /// The grid that drawing `self` within `area` leaves behind, starting
    /// from `before`.
    spec fn drawn(&self, before: Grid, area: Rect) -> Grid;

    /// Renders `self` into `buf`, positioned within `area`.
    ///
    /// `area` is the absolute region this drawable was assigned. A drawable's
    /// own coordinates are relative to `area`'s top-left corner: it adds
    /// `area.x` / `area.y` to place itself, and may use `area.w` / `area.h` to
    /// stay within bounds.
    fn draw(&self, buf: &mut Buffer, area: Rect)
        requires
            self.fits(area),
        ensures
            final(buf)@.rows == old(buf)@.rows,
            final(buf)@.cols == old(buf)@.cols,
            final(buf)@ == self.drawn(old(buf)@, area),
    ;
}

} // verus!
