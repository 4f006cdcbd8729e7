//! Geometry and the basic drawable shapes.

use vstd::prelude::*;

use crate::buffer::{
    Buffer, Cell, Grid, Style, lemma_stamp_agree, lemma_stamp_at, lemma_stamp_nothing, lemma_stamp_paint,
};
use crate::Draw;

verus! {

/// A single bullet (`•`) at `(x, y)`, relative to the area it is drawn in.
#[derive(Clone, Copy, PartialEq, Eq, Structural, Debug)]
pub struct Dot {
    pub x: u16,
    pub y: u16,
    pub style: Style,
}

impl Draw for Dot {
    open spec fn fits(&self, area: Rect) -> bool {
        area.x + self.x <= u16::MAX && area.y + self.y <= u16::MAX
    }

    open spec fn drawn(&self, before: Grid, area: Rect) -> Grid {
        before.paint(area.x + self.x, area.y + self.y, Cell { ch: '•', style: self.style })
    }

    fn draw(&self, buf: &mut Buffer, area: Rect) {
        // Coordinates are relative to `area`'s top-left corner.
        let x = area.x + self.x;
        let y = area.y + self.y;
        if let Some(cell) = buf.get_mut(x, y) {
            cell.ch = '•';
            cell.style = self.style;
        }
    }
}

/// An axis-aligned rectangle in cell coordinates: top-left corner `(x, y)`
/// with width `w` and height `h`. Pure geometry — used for layout and splits.
/// To draw a rectangle, wrap one in a [`RectShape`].
#[derive(Clone, Copy, PartialEq, Eq, Structural, Debug)]
pub struct Rect {
    pub x: u16,
    pub y: u16,
    pub w: u16,
    pub h: u16,
}

} // verus!

verus! {

impl Rect {
    /// Splits this rect into `(top, bottom)`. `top_percent` is the top piece's
    /// share of the height, in `1..=99`. The two pieces tile the
    /// rect exactly: no gap, no overlap.
    pub fn split_vertical(&self, top_percent: u16) -> (r: (Rect, Rect))
        requires
            0 < top_percent < 100,
            self.h * top_percent <= u16::MAX,
            self.y + self.h * top_percent / 100 <= u16::MAX,
        ensures
            r.0 == (Rect { x: self.x, y: self.y, w: self.w, h: (self.h * top_percent / 100) as u16 }),
            r.1 == (Rect {
                x: self.x,
                y: (self.y + self.h * top_percent / 100) as u16,
                w: self.w,
                h: (self.h - self.h * top_percent / 100) as u16,
            }),
            // The pieces are flush and cover the whole height.
            r.0.h + r.1.h == self.h,
            r.1.y == r.0.y + r.0.h,
    {
        let top_h = self.h * top_percent / 100;  // multiply before dividing
        assert(top_h <= self.h) by (nonlinear_arith)
            requires
                top_h == self.h * top_percent / 100,
                top_percent < 100,
        ;
        let top = Rect { x: self.x, y: self.y, w: self.w, h: top_h };
        let bottom = Rect {
            x: self.x,
            y: self.y + top_h,  // starts right below the top piece
            w: self.w,
            h: self.h - top_h,  // the remainder — keeps the pieces flush
        };
        (top, bottom)
    }

    /// Splits this rect into `(left, right)`. `left_percent` is the left
    /// piece's share of the width, in `1..=99`. The two pieces tile the
    /// rect exactly: no gap, no overlap.
    pub fn split_horizontal(&self, left_percent: u16) -> (r: (Rect, Rect))
        requires
            0 < left_percent < 100,
            self.w * left_percent <= u16::MAX,
            self.x + self.w * left_percent / 100 <= u16::MAX,
        ensures
            r.0 == (Rect { x: self.x, y: self.y, w: (self.w * left_percent / 100) as u16, h: self.h }),
            r.1 == (Rect {
                x: (self.x + self.w * left_percent / 100) as u16,
                y: self.y,
                w: (self.w - self.w * left_percent / 100) as u16,
                h: self.h,
            }),
            // The pieces are flush and cover the whole width.
            r.0.w + r.1.w == self.w,
            r.1.x == r.0.x + r.0.w,
    {
        let left_w = self.w * left_percent / 100;
        assert(left_w <= self.w) by (nonlinear_arith)
            requires
                left_w == self.w * left_percent / 100,
                left_percent < 100,
        ;
        let left = Rect { x: self.x, y: self.y, w: left_w, h: self.h };
        let right = Rect { x: self.x + left_w, y: self.y, w: self.w - left_w, h: self.h };
        (left, right)
    }
}

} // verus!

verus! {

/// Bresenham's walk over a box `dx` wide and `dy` tall (both non-negative),
/// as the pairs `(i, j)` of steps taken along each axis, from `(i, j)` up to
/// and including `(dx, dy)`. The error term of step `(i, j)` is
/// `(j + 1) * dx - (i + 1) * dy`: the walk advances along x when twice the
/// error is at least `-dy`, along y when it is at most `dx`, or both.
pub open spec fn bresenham_from(dx: int, dy: int, i: int, j: int) -> Seq<(int, int)>
    decreases (dx - i) + (dy - j),
{
    if !(0 <= i <= dx && 0 <= j <= dy) {
        Seq::empty()
    } else if i == dx && j == dy {
        seq![(i, j)]
    } else {
        let err = (j + 1) * dx - (i + 1) * dy;
        let ni = if 2 * err >= -dy {
            i + 1
        } else {
            i
        };
        let nj = if 2 * err <= dx {
            j + 1
        } else {
            j
        };
        proof {
            lemma_bresenham_step(dx, dy, i, j);
        }
        seq![(i, j)] + bresenham_from(dx, dy, ni, nj)
    }
}

/// A Bresenham step never walks past the end on either axis, and always
/// makes progress.
pub proof fn lemma_bresenham_step(dx: int, dy: int, i: int, j: int)
    requires
        0 <= i <= dx,
        0 <= j <= dy,
        !(i == dx && j == dy),
    ensures
        ({
            let err = (j + 1) * dx - (i + 1) * dy;
            let ni = if 2 * err >= -dy {
                i + 1
            } else {
                i
            };
            let nj = if 2 * err <= dx {
                j + 1
            } else {
                j
            };
            i <= ni <= dx && j <= nj <= dy && ni + nj > i + j
        }),
{
    if i == dx {
        assert((j + 1) * dx <= dy * dx) by (nonlinear_arith)
            requires
                j + 1 <= dy,
                dx >= 0,
        ;
        assert((i + 1) * dy == dy * dx + dy) by (nonlinear_arith)
            requires
                i == dx,
        ;
    } else if j == dy {
        assert((i + 1) * dy <= dy * dx) by (nonlinear_arith)
            requires
                i + 1 <= dx,
                dy >= 0,
        ;
        assert((j + 1) * dx == dy * dx + dx) by (nonlinear_arith)
            requires
                j == dy,
        ;
    }
}

/// The longer side of a `dx` by `dy` box: the axis a walk over it advances
/// on every step.
pub open spec fn longer(dx: int, dy: int) -> int {
    if dx >= dy {
        dx
    } else {
        dy
    }
}

/// How far step `s` of a walk over a `dx` by `dy` box has gone along the
/// longer side.
pub open spec fn along(dx: int, dy: int, s: (int, int)) -> int {
    if dx >= dy {
        s.0
    } else {
        s.1
    }
}

/// Where a walk from `(i, j)` stays close enough to the ideal line that its
/// next step advances the longer side: twice the walk's offset from the
/// line, `2 * (j * dx - i * dy)`, within the longer side.
spec fn on_track(dx: int, dy: int, i: int, j: int) -> bool {
    let off = 2 * (j * dx - i * dy);
    if dx >= dy {
        dx == 0 || (-dx < off <= dx)
    } else {
        -dy <= off < dy
    }
}

/// From a state on track, the walk takes one step per cell of the longer
/// side, each step moving at most one cell along either axis.
proof fn lemma_walk_from(dx: int, dy: int, i: int, j: int)
    requires
        0 <= i <= dx,
        0 <= j <= dy,
        on_track(dx, dy, i, j),
    ensures
        ({
            let s = bresenham_from(dx, dy, i, j);
            let m = along(dx, dy, (i, j));
            &&& s.len() == longer(dx, dy) - m + 1
            &&& forall|k: int| 0 <= k < s.len() ==> #[trigger] along(dx, dy, s[k]) == m + k
            &&& forall|k: int|
                0 <= k < s.len() - 1 ==> {
                    &&& 0 <= #[trigger] s[k + 1].0 - s[k].0 <= 1
                    &&& 0 <= s[k + 1].1 - s[k].1 <= 1
                }
        }),
    decreases (dx - i) + (dy - j),
{
    let s = bresenham_from(dx, dy, i, j);
    if i == dx && j == dy {
        assert(s == seq![(i, j)]);
        if dx >= dy {
        } else {
        }
    } else {
        let err = (j + 1) * dx - (i + 1) * dy;
        let off = 2 * (j * dx - i * dy);
        assert(2 * err == off + 2 * dx - 2 * dy) by (nonlinear_arith)
            requires
                err == (j + 1) * dx - (i + 1) * dy,
                off == 2 * (j * dx - i * dy),
        ;
        lemma_bresenham_step(dx, dy, i, j);
        let ni = if 2 * err >= -dy {
            i + 1
        } else {
            i
        };
        let nj = if 2 * err <= dx {
            j + 1
        } else {
            j
        };
        let noff = 2 * (nj * dx - ni * dy);
        assert(noff == off + (if nj == j + 1 { 2 * dx } else { 0 }) - (if ni == i + 1 { 2 * dy } else { 0 }))
            by (nonlinear_arith)
            requires
                noff == 2 * (nj * dx - ni * dy),
                off == 2 * (j * dx - i * dy),
                ni == i || ni == i + 1,
                nj == j || nj == j + 1,
        ;
        assert(on_track(dx, dy, ni, nj));
        lemma_walk_from(dx, dy, ni, nj);
        lemma_bresenham_ends(dx, dy, ni, nj);
        let rest = bresenham_from(dx, dy, ni, nj);
        assert(s == seq![(i, j)] + rest);
        assert forall|k: int| 0 <= k < s.len() implies #[trigger] along(dx, dy, s[k]) == along(
            dx,
            dy,
            (i, j),
        ) + k by {
            if k > 0 {
                assert(s[k] == rest[k - 1]);
            }
        }
        assert forall|k: int| 0 <= k < s.len() - 1 implies {
            &&& 0 <= #[trigger] s[k + 1].0 - s[k].0 <= 1
            &&& 0 <= s[k + 1].1 - s[k].1 <= 1
        } by {
            if k > 0 {
                let k2 = k - 1;
                assert(s[k] == rest[k2] && s[k + 1] == rest[k2 + 1]);
                assert(0 <= rest[k2 + 1].0 - rest[k2].0 <= 1);
            } else {
                assert(s[0] == (i, j) && s[1] == rest[0] && rest[0] == (ni, nj));
            }
        }
    }
}

/// Bresenham's walk over a `dx` by `dy` box moves one cell at a time: it has
/// one step per cell of the longer side, step `k` stands `k` cells along
/// that side, and every step moves at most one cell along either axis, never
/// backwards.
pub proof fn lemma_bresenham_walk(dx: int, dy: int)
    requires
        dx >= 0,
        dy >= 0,
    ensures
        ({
            let s = bresenham_from(dx, dy, 0, 0);
            &&& s.len() == longer(dx, dy) + 1
            &&& forall|k: int| 0 <= k < s.len() ==> #[trigger] along(dx, dy, s[k]) == k
            &&& forall|k: int|
                0 <= k < s.len() - 1 ==> {
                    &&& 0 <= #[trigger] s[k + 1].0 - s[k].0 <= 1
                    &&& 0 <= s[k + 1].1 - s[k].1 <= 1
                }
        }),
{
    lemma_walk_from(dx, dy, 0, 0);
}

/// Where along a line the walk from `from` toward `to` stands after `n` steps.
pub open spec fn walk(from: int, to: int, n: int) -> int {
    if from < to {
        from + n
    } else {
        from - n
    }
}

/// The absolute difference of two integers.
pub open spec fn distance(a: int, b: int) -> int {
    if a <= b {
        b - a
    } else {
        a - b
    }
}

/// A straight line of `·` from `(x1, y1)` to `(x2, y2)` (both inclusive),
/// relative to the area it is drawn in. Which end is given first does not
/// matter: a line and its reverse cover the same cells.
#[derive(Clone, Copy, PartialEq, Eq, Structural, Debug)]
pub struct Line {
    pub x1: u16,
    pub y1: u16,
    pub x2: u16,
    pub y2: u16,
    pub style: Style,
}

impl Line {
    /// Whether the walk runs from `(x2, y2)` to `(x1, y1)`. It always starts
    /// at the endpoint further left, or at the upper one when both share a
    /// column, so that the order of the endpoints does not change the cells.
    pub open spec fn backwards(self) -> bool {
        self.x2 < self.x1 || (self.x2 == self.x1 && self.y2 < self.y1)
    }

    /// The absolute cell the walk starts from.
    pub open spec fn start(self, area: Rect) -> (int, int) {
        if self.backwards() {
            (area.x + self.x2, area.y + self.y2)
        } else {
            (area.x + self.x1, area.y + self.y1)
        }
    }

    /// The absolute cell the walk ends on.
    pub open spec fn end(self, area: Rect) -> (int, int) {
        if self.backwards() {
            (area.x + self.x1, area.y + self.y1)
        } else {
            (area.x + self.x2, area.y + self.y2)
        }
    }

    /// The steps of Bresenham's walk from the start to the end.
    pub open spec fn steps(self, area: Rect) -> Seq<(int, int)> {
        let (p, q) = (self.start(area), self.end(area));
        bresenham_from(distance(p.0, q.0), distance(p.1, q.1), 0, 0)
    }

    /// The absolute cell that step `s` of the walk plots. A cell outside the
    /// buffer, beyond `u16::MAX` on either axis among them, is skipped.
    pub open spec fn plotted(self, area: Rect, s: (int, int)) -> (int, int) {
        let (p, q) = (self.start(area), self.end(area));
        (walk(p.0, q.0, s.0), walk(p.1, q.1, s.1))
    }

    /// What drawing the first steps `done` of the walk stamps: `·` in the
    /// line's style wherever one of those steps plots.
    pub open spec fn glyph(self, area: Rect, done: Seq<(int, int)>) -> spec_fn(int, int) -> Option<
        Cell,
    > {
        |a: int, b: int|
            if exists|k: int| 0 <= k < done.len() && #[trigger] self.plotted(area, done[k]) == (a, b) {
                Some(Cell { ch: '·', style: self.style })
            } else {
                None
            }
    }
}

impl Draw for Line {
    open spec fn fits(&self, area: Rect) -> bool {
        true
    }

    open spec fn drawn(&self, before: Grid, area: Rect) -> Grid {
        before.stamp(self.glyph(area, self.steps(area)))
    }

    fn draw(&self, buf: &mut Buffer, area: Rect) {
        // Bresenham's line algorithm, generalized to every octant.
        //
        // We step one cell at a time from the start toward the end. `err`
        // tracks the accumulated distance from the ideal line; whenever it
        // crosses the threshold we also step on the minor axis. Coordinates are
        // promoted to i32 so the deltas can go negative without underflowing.
        // Endpoints are relative to `area`'s top-left corner. The walk starts
        // from the endpoint further left (the upper one when both share a
        // column), so a line covers the same cells whichever end is given first.
        let back = self.x2 < self.x1 || (self.x2 == self.x1 && self.y2 < self.y1);
        let ox = area.x as i32;
        let oy = area.y as i32;
        let mut x: i32 = if back {
            ox + self.x2 as i32
        } else {
            ox + self.x1 as i32
        };
        let mut y: i32 = if back {
            oy + self.y2 as i32
        } else {
            oy + self.y1 as i32
        };
        let x2: i32 = if back {
            ox + self.x1 as i32
        } else {
            ox + self.x2 as i32
        };
        let y2: i32 = if back {
            oy + self.y1 as i32
        } else {
            oy + self.y2 as i32
        };

        let dx = if x2 >= x {
            x2 - x
        } else {
            x - x2
        };
        let dy = -(if y2 >= y {
            y2 - y
        } else {
            y - y2
        });  // negative by convention in this formulation
        let sx: i32 = if x < x2 {
            1
        } else {
            -1
        };
        let sy: i32 = if y < y2 {
            1
        } else {
            -1
        };
        let mut err = dx + dy;

        let ghost x0 = x as int;
        let ghost y0 = y as int;
        let ghost d = dx as int;
        let ghost e = -dy;
        let ghost mut i: int = 0;
        let ghost mut j: int = 0;
        let ghost mut done: Seq<(int, int)> = Seq::empty();
        let ghost before = buf@;
        proof {
            use_type_invariant(&*buf);
        }
        proof {
            assert(done + bresenham_from(d, e, 0, 0) =~= self.steps(area));
            lemma_stamp_nothing(before, self.glyph(area, done));
        }

        loop
            invariant_except_break
                0 <= i <= d,
                0 <= j <= e,
                x == walk(x0, x2 as int, i),
                y == walk(y0, y2 as int, j),
                err == (j + 1) * d - (i + 1) * e,
                done + bresenham_from(d, e, i, j) == self.steps(area),
            invariant
                self.start(area) == (x0, y0),
                self.end(area) == (x2 as int, y2 as int),
                0 <= x0,
                0 <= y0,
                0 <= x2,
                0 <= y2,
                d == distance(x0, x2 as int),
                e == distance(y0, y2 as int),
                dx == d,
                dy == -e,
                sx == (if x0 < x2 { 1int } else { -1int }),
                sy == (if y0 < y2 { 1int } else { -1int }),
                -2 * e <= err <= 2 * d,
                buf@.rows == before.rows,
                buf@.cols == before.cols,
                buf@ == before.stamp(self.glyph(area, done)),
                before.wf(),
            ensures
                done == self.steps(area),
            decreases (d - i) + (e - j),
        {
            // Plot the current cell, skipping anything off the buffer. Negative
            // coords can't index a u16 buffer, nor can coords past u16::MAX,
            // so guard before casting.
            let ghost done_before = done;
            proof {
                let s = (i, j);
                lemma_glyph_push(*self, area, done, s, before);
                done = done.push(s);
            }
            if x >= 0 && y >= 0 && x <= 65535 && y <= 65535 {
                if let Some(cell) = buf.get_mut(x as u16, y as u16) {
                    cell.ch = '·';
                    cell.style = self.style;
                }
            } else {
                assert(!before.contains(x as int, y as int));
            }

            if x == x2 && y == y2 {
                proof {
                    assert(bresenham_from(d, e, i, j) == seq![(i, j)]);
                }
                break;
            }

            // `e2` is twice the error; comparing it to dy/dx decides which
            // axis (or both) to advance this step.
            let e2 = 2 * err;
            proof {
                lemma_bresenham_step(d, e, i, j);
                assert(bresenham_from(d, e, i, j) == seq![(i, j)] + bresenham_from(
                    d,
                    e,
                    if 2 * err >= -e { i + 1 } else { i },
                    if 2 * err <= d { j + 1 } else { j },
                ));
            }
            let ghost ni = if 2 * err >= -e { i + 1 } else { i };
            let ghost nj = if 2 * err <= d { j + 1 } else { j };
            if e2 >= dy {
                err += dy;
                x += sx;
            }
            if e2 <= dx {
                err += dx;
                y += sy;
            }
            proof {
                assert((nj + 1) * d - (ni + 1) * e == (j + 1) * d - (i + 1) * e + (if nj == j { 0 } else { d }) - (
                if ni == i { 0 } else { e })) by (nonlinear_arith)
                    requires
                        ni == i || ni == i + 1,
                        nj == j || nj == j + 1,
                ;
                assert(done + bresenham_from(d, e, ni, nj) =~= done_before + (seq![(i, j)]
                    + bresenham_from(d, e, ni, nj)));
                i = ni;
                j = nj;
            }
        }
    }
}

/// A walk has at least one step; it starts where it stands and ends at `(dx, dy)`.
pub proof fn lemma_bresenham_ends(dx: int, dy: int, i: int, j: int)
    requires
        0 <= i <= dx,
        0 <= j <= dy,
    ensures
        bresenham_from(dx, dy, i, j).len() >= 1,
        bresenham_from(dx, dy, i, j)[0] == (i, j),
        bresenham_from(dx, dy, i, j).last() == (dx, dy),
    decreases (dx - i) + (dy - j),
{
    if !(i == dx && j == dy) {
        lemma_bresenham_step(dx, dy, i, j);
        let err = (j + 1) * dx - (i + 1) * dy;
        let ni = if 2 * err >= -dy {
            i + 1
        } else {
            i
        };
        let nj = if 2 * err <= dx {
            j + 1
        } else {
            j
        };
        lemma_bresenham_ends(dx, dy, ni, nj);
    }
}

/// Step `t` of a straight walk: horizontal, vertical or at 45°.
pub open spec fn straight(dx: int, dy: int, t: int) -> (int, int) {
    (if dx > 0 {
        t
    } else {
        0
    }, if dy > 0 {
        t
    } else {
        0
    })
}

/// On a box that is flat, thin, or square, the walk goes straight: its step
/// `k` is `straight(dx, dy, k)`.
pub proof fn lemma_bresenham_straight(dx: int, dy: int, i: int)
    requires
        dx >= 0,
        dy >= 0,
        dx == 0 || dy == 0 || dx == dy,
        0 <= i <= (if dx >= dy { dx } else { dy }),
    ensures
        bresenham_from(dx, dy, straight(dx, dy, i).0, straight(dx, dy, i).1) == Seq::new(
            ((if dx >= dy { dx } else { dy }) - i + 1) as nat,
            |k: int| straight(dx, dy, i + k),
        ),
    decreases (if dx >= dy { dx } else { dy }) - i,
{
    let n = if dx >= dy {
        dx
    } else {
        dy
    };
    let (si, sj) = straight(dx, dy, i);
    let rest = Seq::new((n - i + 1) as nat, |k: int| straight(dx, dy, i + k));
    if i == n {
        assert(bresenham_from(dx, dy, si, sj) =~= rest);
    } else {
        let err = (sj + 1) * dx - (si + 1) * dy;
        if dy == 0 {
            assert(err == dx) by (nonlinear_arith)
                requires
                    err == (sj + 1) * dx - (si + 1) * dy,
                    dy == 0,
                    sj == 0,
            ;
        } else if dx == 0 {
            assert(err == -dy) by (nonlinear_arith)
                requires
                    err == (sj + 1) * dx - (si + 1) * dy,
                    dx == 0,
                    si == 0,
            ;
        } else {
            assert(err == 0);
        }
        lemma_bresenham_straight(dx, dy, i + 1);
        let next = Seq::new((n - (i + 1) + 1) as nat, |k: int| straight(dx, dy, i + 1 + k));
        assert(rest =~= seq![(si, sj)] + next);
    }
}

impl Line {
    /// The same line drawn from its other end.
    pub open spec fn reversed(self) -> Line {
        Line { x1: self.x2, y1: self.y2, x2: self.x1, y2: self.y1, style: self.style }
    }
}

/// Both endpoints of a line are drawn: the walk's first step plots its start
/// and its last step its end, and these are the line's two endpoints.
pub proof fn lemma_line_endpoints(line: Line, area: Rect)
    ensures
        line.steps(area).len() >= 1,
        line.plotted(area, line.steps(area)[0]) == line.start(area),
        line.plotted(area, line.steps(area).last()) == line.end(area),
        line.glyph(area, line.steps(area))(area.x + line.x1, area.y + line.y1) == Some(
            Cell { ch: '·', style: line.style },
        ),
        line.glyph(area, line.steps(area))(area.x + line.x2, area.y + line.y2) == Some(
            Cell { ch: '·', style: line.style },
        ),
{
    let (p, q) = (line.start(area), line.end(area));
    lemma_bresenham_ends(distance(p.0, q.0), distance(p.1, q.1), 0, 0);
    let st = line.steps(area);
    assert(line.plotted(area, st[0]) == p);
    assert(line.plotted(area, st[st.len() - 1]) == q);
}

/// Drawing a line from either end gives the same grid: for every line, area
/// and starting grid, the line and its reverse paint the same cells.
pub proof fn lemma_line_reversal(line: Line, g: Grid, area: Rect)
    ensures
        line.reversed().drawn(g, area) == line.drawn(g, area),
{
    let r = line.reversed();
    assert(r.start(area) == line.start(area) && r.end(area) == line.end(area));
    let st = line.steps(area);
    assert(r.steps(area) == st);
    assert forall|a: int, b: int|
        #[trigger] r.glyph(area, st)(a, b) == line.glyph(area, st)(a, b) by {
        if exists|k: int| 0 <= k < st.len() && #[trigger] line.plotted(area, st[k]) == (a, b) {
            let k = choose|k: int| 0 <= k < st.len() && #[trigger] line.plotted(area, st[k]) == (a, b);
            assert(r.plotted(area, st[k]) == (a, b));
        }
        if exists|k: int| 0 <= k < st.len() && #[trigger] r.plotted(area, st[k]) == (a, b) {
            let k = choose|k: int| 0 <= k < st.len() && #[trigger] r.plotted(area, st[k]) == (a, b);
            assert(line.plotted(area, st[k]) == (a, b));
        }
    }
    assert(r.glyph(area, st) =~= line.glyph(area, st));
}

/// A horizontal, vertical or 45° line is drawn straight: its walk has one
/// step per cell along its longer side, and step `k` plots the start moved
/// `k` cells toward the end along each axis on which the line extends.
pub proof fn lemma_line_straight(line: Line, area: Rect)
    requires
        line.x1 == line.x2 || line.y1 == line.y2 || distance(line.x1 as int, line.x2 as int)
            == distance(line.y1 as int, line.y2 as int),
    ensures
        ({
            let (p, q) = (line.start(area), line.end(area));
            let d = distance(p.0, q.0);
            let e = distance(p.1, q.1);
            let n = if d >= e { d } else { e };
            &&& line.steps(area).len() == n + 1
            &&& forall|k: int|
                0 <= k <= n ==> #[trigger] line.plotted(area, line.steps(area)[k]) == (
                    walk(p.0, q.0, straight(d, e, k).0),
                    walk(p.1, q.1, straight(d, e, k).1),
                )
        }),
{
    let (p, q) = (line.start(area), line.end(area));
    let d = distance(p.0, q.0);
    let e = distance(p.1, q.1);
    assert(d == distance(line.x1 as int, line.x2 as int));
    assert(e == distance(line.y1 as int, line.y2 as int));
    lemma_bresenham_straight(d, e, 0);
    assert(straight(d, e, 0) == (0int, 0int));
}

/// Drawing one more step of the walk adds exactly the cell that step plots.
proof fn lemma_glyph_push(line: Line, area: Rect, done: Seq<(int, int)>, s: (int, int), g: Grid)
    requires
        g.wf(),
    ensures
        g.stamp(line.glyph(area, done)).paint(
            line.plotted(area, s).0,
            line.plotted(area, s).1,
            Cell { ch: '·', style: line.style },
        ) == g.stamp(line.glyph(area, done.push(s))),
{
    let p = line.plotted(area, s);
    let c = Cell { ch: '·', style: line.style };
    let f = line.glyph(area, done);
    let h = line.glyph(area, done.push(s));
    assert forall|a: int, b: int| g.contains(a, b) implies #[trigger] h(a, b) == if a == p.0 && b
        == p.1 {
        Some(c)
    } else {
        f(a, b)
    } by {
        let nd = done.push(s);
        if a == p.0 && b == p.1 {
            assert(line.plotted(area, nd[done.len() as int]) == (a, b));
        } else if exists|k: int| 0 <= k < done.len() && #[trigger] line.plotted(area, done[k]) == (a, b) {
            let k = choose|k: int| 0 <= k < done.len() && #[trigger] line.plotted(area, done[k]) == (a, b);
            assert(nd[k] == done[k]);
            assert(line.plotted(area, nd[k]) == (a, b));
        } else {
            assert forall|k: int| 0 <= k < nd.len() implies #[trigger] line.plotted(area, nd[k]) != (a, b) by {
                if k < done.len() {
                    assert(nd[k] == done[k]);
                }
            }
        }
    }
    lemma_stamp_paint(g, f, h, p.0, p.1, c);
}

} // verus!

verus! {

/// A drawable rectangle: a [`Rect`] area plus how to paint it.
#[derive(Clone, Copy, PartialEq, Eq, Structural, Debug)]
pub struct RectShape {
    pub area: Rect,
    /// Style for the rect. Border glyphs (when `fill` is false) use this style
    /// directly; when `fill` is true the interior is painted with its
    /// background. Border and fill share one style in this version.
    pub style: Style,
    /// `false` draws just the outline (`┌─┐│└┘`); `true` fills the whole area
    /// with blanks colored by `style.bg`.
    pub fill: bool,
}

impl RectShape {
    /// Absolute column of the rect's left edge.
    pub open spec fn left(self, area: Rect) -> int {
        area.x + self.area.x
    }

    /// Absolute row of the rect's top edge.
    pub open spec fn top(self, area: Rect) -> int {
        area.y + self.area.y
    }

    /// What the rect puts at column offset `dx`, row offset `dy` of itself
    /// (`0 <= dx < w`, `0 <= dy < h`); `None` where it leaves the cell alone.
    ///
    /// A fill paints blanks everywhere. An outline needs at least 2x2 to form
    /// a box with distinct corners; thinner rects degenerate: a 1-wide rect is
    /// a vertical line, a 1-tall rect a horizontal line, and 1x1 a single dot.
    pub open spec fn cell_at(self, dx: int, dy: int) -> Option<Cell> {
        let w = self.area.w as int;
        let h = self.area.h as int;
        let s = self.style;
        if self.fill {
            Some(Cell { ch: ' ', style: s })
        } else if w == 1 && h == 1 {
            Some(Cell { ch: '•', style: s })
        } else if w == 1 {
            Some(Cell { ch: '│', style: s })
        } else if h == 1 {
            Some(Cell { ch: '─', style: s })
        } else if dx == 0 && dy == 0 {
            Some(Cell { ch: '┌', style: s })
        } else if dx == w - 1 && dy == 0 {
            Some(Cell { ch: '┐', style: s })
        } else if dx == 0 && dy == h - 1 {
            Some(Cell { ch: '└', style: s })
        } else if dx == w - 1 && dy == h - 1 {
            Some(Cell { ch: '┘', style: s })
        } else if dy == 0 || dy == h - 1 {
            Some(Cell { ch: '─', style: s })
        } else if dx == 0 || dx == w - 1 {
            Some(Cell { ch: '│', style: s })
        } else {
            None
        }
    }

    /// What the rect puts at each absolute position when drawn within `area`.
    pub open spec fn glyph(self, area: Rect) -> spec_fn(int, int) -> Option<Cell> {
        |a: int, b: int|
            if self.left(area) <= a < self.left(area) + self.area.w && self.top(area) <= b
                < self.top(area) + self.area.h {
                self.cell_at(a - self.left(area), b - self.top(area))
            } else {
                None
            }
    }

    /// Progress of the fill: every cell of the rows above `row`, and of row
    /// `row` the columns left of `col`.
    spec fn filled(self, area: Rect, row: int, col: int) -> spec_fn(int, int) -> Option<Cell> {
        |a: int, b: int|
            if self.left(area) <= a < self.left(area) + self.area.w && self.top(area) <= b
                < self.top(area) + self.area.h && (b < row || (b == row && a < col)) {
                Some(Cell { ch: ' ', style: self.style })
            } else {
                None
            }
    }

    /// Progress of a horizontal run of `ch` on row `row`: the columns left of `col`.
    spec fn run_h(self, area: Rect, row: int, col: int, ch: char) -> spec_fn(int, int) -> Option<Cell> {
        |a: int, b: int|
            if b == row && self.left(area) <= a < col {
                Some(Cell { ch, style: self.style })
            } else {
                None
            }
    }

    /// Progress of a vertical run of `ch` in column `col`: the rows above `row`.
    spec fn run_v(self, area: Rect, col: int, row: int, ch: char) -> spec_fn(int, int) -> Option<Cell> {
        |a: int, b: int|
            if a == col && self.top(area) <= b < row {
                Some(Cell { ch, style: self.style })
            } else {
                None
            }
    }

    /// Progress of the box edges: the top edge left of `pt`, the bottom edge
    /// left of `pb`, then the left edge above `pl` and the right edge above `pr`.
    spec fn edges(self, area: Rect, pt: int, pb: int, pl: int, pr: int) -> spec_fn(int, int) -> Option<Cell> {
        let left = self.left(area);
        let right = left + self.area.w - 1;
        let top = self.top(area);
        let bottom = top + self.area.h - 1;
        |a: int, b: int|
            if (a == left && top <= b < pl) || (a == right && top <= b < pr) {
                Some(Cell { ch: '│', style: self.style })
            } else if (b == top && left <= a < pt) || (b == bottom && left <= a < pb) {
                Some(Cell { ch: '─', style: self.style })
            } else {
                None
            }
    }

    /// The finished edges with the first `n` corners (in the order top-left,
    /// top-right, bottom-left, bottom-right) drawn over them.
    spec fn cornered(self, area: Rect, n: int) -> spec_fn(int, int) -> Option<Cell> {
        let left = self.left(area);
        let right = left + self.area.w - 1;
        let top = self.top(area);
        let bottom = top + self.area.h - 1;
        let s = self.style;
        |a: int, b: int|
            if n >= 1 && a == left && b == top {
                Some(Cell { ch: '┌', style: s })
            } else if n >= 2 && a == right && b == top {
                Some(Cell { ch: '┐', style: s })
            } else if n >= 3 && a == left && b == bottom {
                Some(Cell { ch: '└', style: s })
            } else if n >= 4 && a == right && b == bottom {
                Some(Cell { ch: '┘', style: s })
            } else {
                self.edges(area, right + 1, right + 1, bottom + 1, bottom + 1)(a, b)
            }
    }
}

/// Sets the cell at absolute `(px, py)` to `ch` in `style`, if it is on the buffer.
fn put(buf: &mut Buffer, px: u16, py: u16, ch: char, style: Style)
    ensures
        final(buf)@ == old(buf)@.paint(px as int, py as int, Cell { ch, style }),
{
    if let Some(cell) = buf.get_mut(px, py) {
        cell.ch = ch;
        cell.style = style;
    }
}

impl Draw for RectShape {
    open spec fn fits(&self, area: Rect) -> bool {
        &&& area.x + self.area.x <= u16::MAX
        &&& area.y + self.area.y <= u16::MAX
        &&& (self.area.w == 0 || self.area.h == 0 || (area.x + self.area.x + self.area.w <= u16::MAX
            && area.y + self.area.y + self.area.h <= u16::MAX))
    }

    open spec fn drawn(&self, before: Grid, area: Rect) -> Grid {
        before.stamp(self.glyph(area))
    }

    fn draw(&self, buf: &mut Buffer, area: Rect) {
        // `self.area` is relative to the given `area`'s top-left corner.
        let x = area.x + self.area.x;
        let y = area.y + self.area.y;
        let w = self.area.w;
        let h = self.area.h;
        let ghost before = buf@;
        proof {
            use_type_invariant(&*buf);
        }

        // Empty rect: nothing to draw (also avoids underflow on w-1 / h-1).
        if w == 0 || h == 0 {
            proof {
                lemma_stamp_nothing(before, self.glyph(area));
            }
            return;
        }
        let style = self.style;

        // Absolute edges of the rect.
        let left = x;
        let right = x + w - 1;
        let top = y;
        let bottom = y + h - 1;

        if self.fill {
            // Solid block: every cell inside the rect. Works at any size,
            // including 1xN / Nx1 strips.
            proof {
                lemma_stamp_nothing(before, self.filled(area, top as int, left as int));
            }
            let mut py = top;
            loop
                invariant_except_break
                    buf@ == before.stamp(self.filled(area, py as int, left as int)),
                invariant
                    before.wf(),
                    self.fill,
                    style == self.style,
                    left == self.left(area),
                    top == self.top(area),
                    right == left + w - 1,
                    bottom == top + h - 1,
                    w == self.area.w,
                    h == self.area.h,
                    w > 0 && h > 0,
                    top <= py <= bottom,
                    buf@.rows == before.rows,
                    buf@.cols == before.cols,
                ensures
                    buf@.rows == before.rows,
                    buf@.cols == before.cols,
                    buf@ == before.stamp(self.filled(area, bottom + 1, left as int)),
                decreases bottom - py,
            {
                let mut px = left;
                loop
                    invariant_except_break
                        buf@ == before.stamp(self.filled(area, py as int, px as int)),
                    invariant
                        before.wf(),
                        style == self.style,
                        left == self.left(area),
                        top == self.top(area),
                        right == left + w - 1,
                        bottom == top + h - 1,
                        w == self.area.w,
                        h == self.area.h,
                        w > 0 && h > 0,
                        top <= py <= bottom,
                        left <= px <= right,
                        buf@.rows == before.rows,
                        buf@.cols == before.cols,
                    ensures
                        buf@.rows == before.rows,
                        buf@.cols == before.cols,
                        buf@ == before.stamp(self.filled(area, py as int, right + 1)),
                    decreases right - px,
                {
                    proof {
                        lemma_stamp_paint(
                            before,
                            self.filled(area, py as int, px as int),
                            self.filled(area, py as int, px + 1),
                            px as int,
                            py as int,
                            Cell { ch: ' ', style },
                        );
                    }
                    put(buf, px, py, ' ', style);
                    if px == right {
                        break;
                    }
                    px += 1;
                }
                proof {
                    lemma_stamp_agree(
                        before,
                        self.filled(area, py as int, right + 1),
                        self.filled(area, py + 1, left as int),
                    );
                }
                if py == bottom {
                    break;
                }
                py += 1;
            }
            proof {
                lemma_stamp_agree(before, self.filled(area, bottom + 1, left as int), self.glyph(area));
            }
            return;
        }
        // Outline needs at least 2x2 to form a box with distinct corners.
        // Thinner rects degenerate: a 1-wide rect is a vertical line, a
        // 1-tall rect is a horizontal line, and 1x1 is a single dot.

        if w == 1 && h == 1 {
            proof {
                lemma_stamp_nothing(before, self.run_h(area, top as int, left as int, '•'));
                lemma_stamp_paint(
                    before,
                    self.run_h(area, top as int, left as int, '•'),
                    self.glyph(area),
                    left as int,
                    top as int,
                    Cell { ch: '•', style },
                );
            }
            put(buf, left, top, '•', style);
            return;
        }
        if w == 1 {
            proof {
                lemma_stamp_nothing(before, self.run_v(area, left as int, top as int, '│'));
            }
            let mut py = top;
            loop
                invariant_except_break
                    buf@ == before.stamp(self.run_v(area, left as int, py as int, '│')),
                invariant
                    before.wf(),
                    style == self.style,
                    w == self.area.w,
                    h == self.area.h,
                    w == 1,
                    left == self.left(area),
                    top == self.top(area),
                    bottom == top + h - 1,
                    top <= py <= bottom,
                    buf@.rows == before.rows,
                    buf@.cols == before.cols,
                ensures
                    buf@.rows == before.rows,
                    buf@.cols == before.cols,
                    buf@ == before.stamp(self.run_v(area, left as int, bottom + 1, '│')),
                decreases bottom - py,
            {
                proof {
                    lemma_stamp_paint(
                        before,
                        self.run_v(area, left as int, py as int, '│'),
                        self.run_v(area, left as int, py + 1, '│'),
                        left as int,
                        py as int,
                        Cell { ch: '│', style },
                    );
                }
                put(buf, left, py, '│', style);
                if py == bottom {
                    break;
                }
                py += 1;
            }
            proof {
                lemma_stamp_agree(before, self.run_v(area, left as int, bottom + 1, '│'), self.glyph(area));
            }
            return;
        }
        if h == 1 {
            proof {
                lemma_stamp_nothing(before, self.run_h(area, top as int, left as int, '─'));
            }
            let mut px = left;
            loop
                invariant_except_break
                    buf@ == before.stamp(self.run_h(area, top as int, px as int, '─')),
                invariant
                    before.wf(),
                    style == self.style,
                    w == self.area.w,
                    h == self.area.h,
                    h == 1,
                    w > 1,
                    left == self.left(area),
                    top == self.top(area),
                    right == left + w - 1,
                    left <= px <= right,
                    buf@.rows == before.rows,
                    buf@.cols == before.cols,
                ensures
                    buf@.rows == before.rows,
                    buf@.cols == before.cols,
                    buf@ == before.stamp(self.run_h(area, top as int, right + 1, '─')),
                decreases right - px,
            {
                proof {
                    lemma_stamp_paint(
                        before,
                        self.run_h(area, top as int, px as int, '─'),
                        self.run_h(area, top as int, px + 1, '─'),
                        px as int,
                        top as int,
                        Cell { ch: '─', style },
                    );
                }
                put(buf, px, top, '─', style);
                if px == right {
                    break;
                }
                px += 1;
            }
            proof {
                lemma_stamp_agree(before, self.run_h(area, top as int, right + 1, '─'), self.glyph(area));
            }
            return;
        }
        // Outline: top/bottom edges, then left/right edges, then corners.

        proof {
            lemma_stamp_nothing(before, self.edges(area, left as int, left as int, top as int, top as int));
        }
        let mut px = left;
        loop
            invariant_except_break
                buf@ == before.stamp(self.edges(area, px as int, px as int, top as int, top as int)),
            invariant
                before.wf(),
                style == self.style,
                w == self.area.w,
                h == self.area.h,
                left == self.left(area),
                top == self.top(area),
                right == left + w - 1,
                bottom == top + h - 1,
                w >= 2 && h >= 2,
                left <= px <= right,
                buf@.rows == before.rows,
                buf@.cols == before.cols,
            ensures
                buf@.rows == before.rows,
                buf@.cols == before.cols,
                buf@ == before.stamp(self.edges(area, right + 1, right + 1, top as int, top as int)),
            decreases right - px,
        {
            proof {
                lemma_stamp_paint(
                    before,
                    self.edges(area, px as int, px as int, top as int, top as int),
                    self.edges(area, px + 1, px as int, top as int, top as int),
                    px as int,
                    top as int,
                    Cell { ch: '─', style },
                );
            }
            put(buf, px, top, '─', style);
            proof {
                lemma_stamp_paint(
                    before,
                    self.edges(area, px + 1, px as int, top as int, top as int),
                    self.edges(area, px + 1, px + 1, top as int, top as int),
                    px as int,
                    bottom as int,
                    Cell { ch: '─', style },
                );
            }
            put(buf, px, bottom, '─', style);
            if px == right {
                break;
            }
            px += 1;
        }
        let mut py = top;
        loop
            invariant_except_break
                buf@ == before.stamp(self.edges(area, right + 1, right + 1, py as int, py as int)),
            invariant
                before.wf(),
                style == self.style,
                w == self.area.w,
                h == self.area.h,
                left == self.left(area),
                top == self.top(area),
                right == left + w - 1,
                bottom == top + h - 1,
                w >= 2 && h >= 2,
                top <= py <= bottom,
                buf@.rows == before.rows,
                buf@.cols == before.cols,
            ensures
                buf@.rows == before.rows,
                buf@.cols == before.cols,
                buf@ == before.stamp(self.edges(area, right + 1, right + 1, bottom + 1, bottom + 1)),
            decreases bottom - py,
        {
            proof {
                lemma_stamp_paint(
                    before,
                    self.edges(area, right + 1, right + 1, py as int, py as int),
                    self.edges(area, right + 1, right + 1, py + 1, py as int),
                    left as int,
                    py as int,
                    Cell { ch: '│', style },
                );
            }
            put(buf, left, py, '│', style);
            proof {
                lemma_stamp_paint(
                    before,
                    self.edges(area, right + 1, right + 1, py + 1, py as int),
                    self.edges(area, right + 1, right + 1, py + 1, py + 1),
                    right as int,
                    py as int,
                    Cell { ch: '│', style },
                );
            }
            put(buf, right, py, '│', style);
            if py == bottom {
                break;
            }
            py += 1;
        }
        proof {
            lemma_stamp_agree(
                before,
                self.edges(area, right + 1, right + 1, bottom + 1, bottom + 1),
                self.cornered(area, 0),
            );
            lemma_stamp_paint(before, self.cornered(area, 0), self.cornered(area, 1), left as int, top as int, Cell { ch: '┌', style });
        }
        put(buf, left, top, '┌', style);
        proof {
            lemma_stamp_paint(before, self.cornered(area, 1), self.cornered(area, 2), right as int, top as int, Cell { ch: '┐', style });
        }
        put(buf, right, top, '┐', style);
        proof {
            lemma_stamp_paint(before, self.cornered(area, 2), self.cornered(area, 3), left as int, bottom as int, Cell { ch: '└', style });
        }
        put(buf, left, bottom, '└', style);
        proof {
            lemma_stamp_paint(before, self.cornered(area, 3), self.cornered(area, 4), right as int, bottom as int, Cell { ch: '┘', style });
        }
        put(buf, right, bottom, '┘', style);
        proof {
            lemma_stamp_agree(before, self.cornered(area, 4), self.glyph(area));
        }
    }
}

/// Drawing a rectangle shape touches only its own rect, and every cell it
/// paints carries the shape's style: each cell of the grid either keeps what
/// it held, or lies inside the rect and holds a glyph in `r.style`.
pub proof fn lemma_rect_shape_style(r: RectShape, g: Grid, area: Rect)
    requires
        g.wf(),
    ensures
        forall|a: int, b: int|
            g.contains(a, b) ==> {
                let c = #[trigger] r.drawn(g, area).at(a, b);
                ||| c == g.at(a, b)
                ||| {
                    &&& c.style == r.style
                    &&& area.x + r.area.x <= a < area.x + r.area.x + r.area.w
                    &&& area.y + r.area.y <= b < area.y + r.area.y + r.area.h
                }
            },
{
    assert forall|a: int, b: int| g.contains(a, b) implies {
        let c = #[trigger] r.drawn(g, area).at(a, b);
        ||| c == g.at(a, b)
        ||| {
            &&& c.style == r.style
            &&& area.x + r.area.x <= a < area.x + r.area.x + r.area.w
            &&& area.y + r.area.y <= b < area.y + r.area.y + r.area.h
        }
    } by {
        lemma_stamp_at(g, r.glyph(area), a, b);
    }
}

/// A filled rectangle shape paints every cell of its rect that lies in the
/// grid blank in its style, and leaves every other cell as it was.
pub proof fn lemma_rect_shape_fill(r: RectShape, g: Grid, area: Rect)
    requires
        g.wf(),
        r.fill,
    ensures
        forall|a: int, b: int|
            g.contains(a, b) ==> #[trigger] r.drawn(g, area).at(a, b) == if area.x + r.area.x <= a
                < area.x + r.area.x + r.area.w && area.y + r.area.y <= b < area.y + r.area.y
                + r.area.h {
                Cell { ch: ' ', style: r.style }
            } else {
                g.at(a, b)
            },
{
    assert forall|a: int, b: int| g.contains(a, b) implies #[trigger] r.drawn(g, area).at(a, b)
        == if area.x + r.area.x <= a < area.x + r.area.x + r.area.w && area.y + r.area.y <= b
        < area.y + r.area.y + r.area.h {
        Cell { ch: ' ', style: r.style }
    } else {
        g.at(a, b)
    } by {
        lemma_stamp_at(g, r.glyph(area), a, b);
    }
}

/// An outline at least two cells each way draws a box: the four corners of
/// its rect (where they lie in the grid) hold `┌ ┐ └ ┘` in the shape's
/// style, the cells between them along the top and bottom `─`, those along
/// the sides `│`, and the cells strictly inside the box are left as they
/// were.
pub proof fn lemma_rect_shape_outline(r: RectShape, g: Grid, area: Rect)
    requires
        g.wf(),
        !r.fill,
        r.area.w >= 2,
        r.area.h >= 2,
    ensures
        ({
            let left = area.x + r.area.x;
            let top = area.y + r.area.y;
            let right = left + r.area.w - 1;
            let bottom = top + r.area.h - 1;
            let d = r.drawn(g, area);
            &&& g.contains(left, top) ==> d.at(left, top) == Cell { ch: '┌', style: r.style }
            &&& g.contains(right, top) ==> d.at(right, top) == Cell { ch: '┐', style: r.style }
            &&& g.contains(left, bottom) ==> d.at(left, bottom) == Cell { ch: '└', style: r.style }
            &&& g.contains(right, bottom) ==> d.at(right, bottom) == Cell { ch: '┘', style: r.style }
            &&& forall|a: int|
                left < a < right ==> (g.contains(a, top) ==> #[trigger] d.at(a, top) == Cell {
                    ch: '─',
                    style: r.style,
                }) && (g.contains(a, bottom) ==> d.at(a, bottom) == Cell { ch: '─', style: r.style })
            &&& forall|b: int|
                top < b < bottom ==> (g.contains(left, b) ==> #[trigger] d.at(left, b) == Cell {
                    ch: '│',
                    style: r.style,
                }) && (g.contains(right, b) ==> d.at(right, b) == Cell { ch: '│', style: r.style })
            &&& forall|a: int, b: int|
                left < a < right && top < b < bottom && g.contains(a, b) ==> #[trigger] d.at(a, b)
                    == g.at(a, b)
        }),
{
    let left = area.x + r.area.x;
    let top = area.y + r.area.y;
    let right = left + r.area.w - 1;
    let bottom = top + r.area.h - 1;
    let d = r.drawn(g, area);
    let f = r.glyph(area);
    if g.contains(left, top) {
        lemma_stamp_at(g, f, left, top);
    }
    if g.contains(right, top) {
        lemma_stamp_at(g, f, right, top);
    }
    if g.contains(left, bottom) {
        lemma_stamp_at(g, f, left, bottom);
    }
    if g.contains(right, bottom) {
        lemma_stamp_at(g, f, right, bottom);
    }
    assert forall|a: int| left < a < right implies (g.contains(a, top) ==> #[trigger] d.at(a, top)
        == Cell { ch: '─', style: r.style }) && (g.contains(a, bottom) ==> d.at(a, bottom) == Cell {
        ch: '─',
        style: r.style,
    }) by {
        if g.contains(a, top) {
            lemma_stamp_at(g, f, a, top);
        }
        if g.contains(a, bottom) {
            lemma_stamp_at(g, f, a, bottom);
        }
    }
    assert forall|b: int| top < b < bottom implies (g.contains(left, b) ==> #[trigger] d.at(left, b)
        == Cell { ch: '│', style: r.style }) && (g.contains(right, b) ==> d.at(right, b) == Cell {
        ch: '│',
        style: r.style,
    }) by {
        if g.contains(left, b) {
            lemma_stamp_at(g, f, left, b);
        }
        if g.contains(right, b) {
            lemma_stamp_at(g, f, right, b);
        }
    }
    assert forall|a: int, b: int|
        left < a < right && top < b < bottom && g.contains(a, b) implies #[trigger] d.at(a, b)
        == g.at(a, b) by {
        lemma_stamp_at(g, f, a, b);
    }
}

} // verus!
