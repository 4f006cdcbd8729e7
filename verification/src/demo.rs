//! The decisions and geometry of the demo scene: how the screen is cut into
//! quadrants, where the inset boxes go, and what each event does.
//!
//! Building the pane tree out of these pieces, and the TTY loop around it,
//! is left to the program.

use vstd::prelude::*;

use crate::buffer::{Color, Style};
use crate::shape::{Dot, Line, Rect, RectShape};
use crate::terminal::{Event, Key, TermSize};

verus! {

/// The four quadrants of a `rows` x `cols` screen, top-left, top-right,
/// bottom-left and bottom-right: the screen is halved top/bottom, then each
/// half left/right. `None` when the screen has fewer than four rows or
/// columns, too small to be worth splitting.
pub fn quadrants(rows: u16, cols: u16) -> (q: Option<(Rect, Rect, Rect, Rect)>)
    requires
        cols < 4 || rows < 4 || (rows * 50 <= u16::MAX && cols * 50 <= u16::MAX),
    ensures
        q is None <==> (cols < 4 || rows < 4),
        q matches Some(qs) ==> {
            let top = rows * 50 / 100;
            let left = cols * 50 / 100;
            &&& qs.0 == (Rect { x: 0, y: 0, w: left as u16, h: top as u16 })
            &&& qs.1 == (Rect { x: left as u16, y: 0, w: (cols - left) as u16, h: top as u16 })
            &&& qs.2 == (Rect { x: 0, y: top as u16, w: left as u16, h: (rows - top) as u16 })
            &&& qs.3 == (Rect {
                x: left as u16,
                y: top as u16,
                w: (cols - left) as u16,
                h: (rows - top) as u16,
            })
        },
{
    if cols < 4 || rows < 4 {
        return None;
    }
    let screen = Rect { x: 0, y: 0, w: cols, h: rows };
    let (top, bottom) = screen.split_vertical(50);
    let (q1, q2) = top.split_horizontal(50);
    let (q3, q4) = bottom.split_horizontal(50);
    Some((q1, q2, q3, q4))
}

/// The inside of a `w` x `h` frame, in the frame's own coordinates: one cell
/// in from each edge. `None` when the frame has no inside (`w` or `h` at
/// most 2).
pub fn interior(w: u16, h: u16) -> (r: Option<Rect>)
    ensures
        r is None <==> !(w > 2 && h > 2),
        r matches Some(i) ==> i == (Rect { x: 1, y: 1, w: (w - 2) as u16, h: (h - 2) as u16 }),
{
    if w > 2 && h > 2 {
        Some(Rect { x: 1, y: 1, w: w - 2, h: h - 2 })
    } else {
        None
    }
}

/// The inside of a `w` x `h` frame split into a left and a right half, each
/// to hold a box of its own. `None` when the frame is too narrow for two
/// boxes (`w` at most 4) or has no inside (`h` at most 2).
pub fn interior_halves(w: u16, h: u16) -> (r: Option<(Rect, Rect)>)
    requires
        !(w > 4 && h > 2) || (w - 2) * 50 <= u16::MAX,
    ensures
        r is None <==> !(w > 4 && h > 2),
        r matches Some(halves) ==> {
            let iw = w - 2;
            let lw = iw * 50 / 100;
            &&& halves.0 == (Rect { x: 1, y: 1, w: lw as u16, h: (h - 2) as u16 })
            &&& halves.1 == (Rect { x: (1 + lw) as u16, y: 1, w: (iw - lw) as u16, h: (h - 2) as u16 })
        },
{
    if w > 4 && h > 2 {
        let inner = Rect { x: 1, y: 1, w: w - 2, h: h - 2 };
        assert(inner.w * 50 / 100 <= inner.w) by (nonlinear_arith)
            requires
                inner.w * 50 <= u16::MAX,
        ;
        Some(inner.split_horizontal(50))
    } else {
        None
    }
}

/// A plain style with the given foreground color and defaults elsewhere.
pub fn solid(fg: Color) -> (s: Style)
    ensures
        s == (Style { fg, ..Style::spec_default() }),
{
    Style { fg, bg: Color::Default, bold: false, underline: false }
}

/// An outlined frame filling a `w` x `h` pane, in the pane's own coordinates.
pub fn frame_local(w: u16, h: u16, color: Color) -> (r: RectShape)
    ensures
        r == (RectShape {
            area: Rect { x: 0, y: 0, w, h },
            style: Style { fg: color, ..Style::spec_default() },
            fill: false,
        }),
{
    RectShape { area: Rect { x: 0, y: 0, w, h }, style: solid(color), fill: false }
}

/// A dot at the middle of a `w` x `h` pane (rounding toward the top left).
pub fn center_dot(w: u16, h: u16, style: Style) -> (d: Dot)
    ensures
        d == (Dot { x: w / 2, y: h / 2, style }),
{
    Dot { x: w / 2, y: h / 2, style }
}

/// A line across the inside of a `w` x `h` frame, from the cell just inside
/// its top-left corner to the one just inside its bottom-right corner; an
/// end falls back to column or row 0 where the frame is too small to have
/// an inside.
pub fn inner_diagonal(w: u16, h: u16, style: Style) -> (l: Line)
    ensures
        l == (Line {
            x1: 1,
            y1: 1,
            x2: if w >= 2 { (w - 2) as u16 } else { 0 },
            y2: if h >= 2 { (h - 2) as u16 } else { 0 },
            style,
        }),
{
    Line { x1: 1, y1: 1, x2: w.saturating_sub(2), y2: h.saturating_sub(2), style }
}

/// What the demo does with an event.
#[derive(Clone, Copy, PartialEq, Eq, Structural, Debug)]
pub enum Reaction {
    /// Leave the program.
    Quit,
    /// Start over on a screen of the new size, then repaint.
    Resize(TermSize),
    /// Repaint, showing the key as the last one pressed.
    Echo(Key),
}

/// The demo's answer to an event: `q` quits, a resize starts over at the new
/// size, and any other key is echoed.
pub fn react(event: Event) -> (r: Reaction)
    ensures
        r == match event {
            Event::Key(Key::Char('q')) => Reaction::Quit,
            Event::Key(key) => Reaction::Echo(key),
            Event::Resize(size) => Reaction::Resize(size),
        },
{
    match event {
        Event::Key(Key::Char('q')) => Reaction::Quit,
        Event::Key(key) => Reaction::Echo(key),
        Event::Resize(size) => Reaction::Resize(size),
    }
}

} // verus!
