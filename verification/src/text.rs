//! Text drawn into a rectangular box.

use vstd::prelude::*;
use vstd::string::StrSliceExecFns;
use vstd::std_specs::iter::IteratorSpec;

use crate::buffer::{Buffer, Cell, Grid, Style, lemma_stamp_at, lemma_stamp_nothing, lemma_stamp_paint};
use crate::shape::Rect;
use crate::Draw;

verus! {

broadcast use vstd::string::group_string_axioms;

/// Character wrap of `text` in a box `w` columns wide and `h` rows tall,
/// continuing from column `col` of row `row` with `placed` laid out so far:
/// the map from box coordinates `(column, row)` to the character shown there.
///
/// Glyphs go left to right; a `'\n'` starts the next row, and a glyph that
/// finds its row full moves to the start of the next one. Once the next row
/// would be row `h` or beyond, the rest of the text is dropped.
pub open spec fn lay_out(
    text: Seq<char>,
    w: int,
    h: int,
    col: int,
    row: int,
    placed: Map<(int, int), char>,
) -> Map<(int, int), char>
    decreases text.len(),
{
    if text.len() == 0 {
        placed
    } else {
        let ch = text[0];
        let rest = text.drop_first();
        if ch == '\n' {
            if row + 1 >= h {
                placed
            } else {
                lay_out(rest, w, h, 0, row + 1, placed)
            }
        } else if col >= w {
            if row + 1 >= h {
                placed
            } else {
                lay_out(rest, w, h, 1, row + 1, placed.insert((0, row + 1), ch))
            }
        } else {
            lay_out(rest, w, h, col + 1, row, placed.insert((col, row), ch))
        }
    }
}

/// A line break always moves the layout down exactly one row, wherever in
/// its row it comes (at the start of a row too, so blank lines stay), and
/// places nothing; once that would leave the box, the rest is dropped.
pub proof fn lemma_lay_out_line_break(
    text: Seq<char>,
    w: int,
    h: int,
    col: int,
    row: int,
    placed: Map<(int, int), char>,
)
    ensures
        lay_out(seq!['\n'] + text, w, h, col, row, placed) == if row + 1 >= h {
            placed
        } else {
            lay_out(text, w, h, 0, row + 1, placed)
        },
{
    let t = seq!['\n'] + text;
    assert(t[0] == '\n');
    assert(t.drop_first() =~= text);
}

/// Any other character goes in the next free column of the row, or, when the
/// row is full, at the start of the next row (unless that row is past the
/// box, where the rest is dropped); the layout then continues just after it.
pub proof fn lemma_lay_out_glyph(
    ch: char,
    text: Seq<char>,
    w: int,
    h: int,
    col: int,
    row: int,
    placed: Map<(int, int), char>,
)
    requires
        ch != '\n',
    ensures
        lay_out(seq![ch] + text, w, h, col, row, placed) == if col < w {
            lay_out(text, w, h, col + 1, row, placed.insert((col, row), ch))
        } else if row + 1 >= h {
            placed
        } else {
            lay_out(text, w, h, 1, row + 1, placed.insert((0, row + 1), ch))
        },
{
    let t = seq![ch] + text;
    assert(t[0] == ch);
    assert(t.drop_first() =~= text);
}

/// Laying out more text never removes a position that already holds a glyph.
pub proof fn lemma_lay_out_keeps(
    text: Seq<char>,
    w: int,
    h: int,
    col: int,
    row: int,
    placed: Map<(int, int), char>,
)
    ensures
        placed.dom().subset_of(lay_out(text, w, h, col, row, placed).dom()),
    decreases text.len(),
{
    if text.len() > 0 {
        let ch = text[0];
        let rest = text.drop_first();
        if ch == '\n' {
            if row + 1 < h {
                lemma_lay_out_keeps(rest, w, h, 0, row + 1, placed);
            }
        } else if col >= w {
            if row + 1 < h {
                lemma_lay_out_keeps(rest, w, h, 1, row + 1, placed.insert((0, row + 1), ch));
            }
        } else {
            lemma_lay_out_keeps(rest, w, h, col + 1, row, placed.insert((col, row), ch));
        }
    }
}

/// Laying out in a box with room for at least one column keeps every
/// glyph inside the box.
pub proof fn lemma_lay_out_in_box(
    text: Seq<char>,
    w: int,
    h: int,
    col: int,
    row: int,
    placed: Map<(int, int), char>,
)
    requires
        w > 0,
        0 <= col <= w,
        0 <= row < h,
        forall|p: (int, int)| #[trigger] placed.dom().contains(p) ==> 0 <= p.0 < w && 0 <= p.1 < h,
    ensures
        forall|p: (int, int)| #[trigger]
            lay_out(text, w, h, col, row, placed).dom().contains(p) ==> 0 <= p.0 < w && 0 <= p.1 < h,
    decreases text.len(),
{
    if text.len() > 0 {
        let ch = text[0];
        let rest = text.drop_first();
        if ch == '\n' {
            if row + 1 < h {
                lemma_lay_out_in_box(rest, w, h, 0, row + 1, placed);
                assert(lay_out(text, w, h, col, row, placed) == lay_out(rest, w, h, 0, row + 1, placed));
            }
        } else if col >= w {
            if row + 1 < h {
                let np = placed.insert((0, row + 1), ch);
                assert forall|p: (int, int)| #[trigger] np.dom().contains(p) implies 0 <= p.0 < w
                    && 0 <= p.1 < h by {
                    if p != (0int, row + 1) {
                        assert(placed.dom().contains(p));
                    }
                }
                lemma_lay_out_in_box(rest, w, h, 1, row + 1, np);
                assert(lay_out(text, w, h, col, row, placed) == lay_out(rest, w, h, 1, row + 1, np));
            }
        } else {
            let np = placed.insert((col, row), ch);
            assert forall|p: (int, int)| #[trigger] np.dom().contains(p) implies 0 <= p.0 < w && 0
                <= p.1 < h by {
                if p != (col, row) {
                    assert(placed.dom().contains(p));
                }
            }
            lemma_lay_out_in_box(rest, w, h, col + 1, row, np);
            assert(lay_out(text, w, h, col, row, placed) == lay_out(rest, w, h, col + 1, row, np));
        }
    } else {
        assert(lay_out(text, w, h, col, row, placed) == placed);
    }
}

/// The first `n` characters of `text` set out row by row in rows `w` wide:
/// character `k` at column `k % w` of row `k / w`.
pub open spec fn rows_of(text: Seq<char>, w: int, n: int) -> Map<(int, int), char> {
    Map::new(
        |p: (int, int)| 0 <= p.0 < w && 0 <= p.1 && p.1 * w + p.0 < n,
        |p: (int, int)| text[p.1 * w + p.0],
    )
}

/// Where the layout stands after placing `k` characters of unbroken text in
/// rows `w` wide: the column just after the last one placed, and its row.
spec fn resume_at(w: int, k: int) -> (int, int) {
    if k == 0 {
        (0, 0)
    } else {
        ((k - 1) % w + 1, (k - 1) / w)
    }
}

/// Setting out one more character puts it at column `k % w` of row `k / w`.
proof fn lemma_rows_of_next(text: Seq<char>, w: int, k: int)
    requires
        w > 0,
        0 <= k < text.len(),
    ensures
        0 <= k % w < w,
        0 <= k / w,
        (k / w) * w + k % w == k,
        rows_of(text, w, k).insert((k % w, k / w), text[k]) == rows_of(text, w, k + 1),
{
    vstd::arithmetic::div_mod::lemma_fundamental_div_mod(k, w);
    vstd::arithmetic::div_mod::lemma_mod_pos_bound(k, w);
    vstd::arithmetic::div_mod::lemma_div_pos_is_pos(k, w);
    assert(w * (k / w) == (k / w) * w) by (nonlinear_arith);
    let a = rows_of(text, w, k).insert((k % w, k / w), text[k]);
    let b = rows_of(text, w, k + 1);
    assert forall|p: (int, int)| #[trigger] b.dom().contains(p) implies a.dom().contains(p) by {
        if p.1 * w + p.0 == k {
            vstd::arithmetic::div_mod::lemma_fundamental_div_mod_converse(k, w, p.1, p.0);
        }
    }
    assert(a =~= b);
}

/// Laying out the rest of unbroken text from where the first `k` characters
/// left off ends with every character that fits in the `h` rows set out row
/// by row.
proof fn lemma_lay_out_rows(text: Seq<char>, w: int, h: int, k: int)
    requires
        w > 0,
        h > 0,
        !text.contains('\n'),
        0 <= k <= text.len(),
        k <= w * h,
    ensures
        lay_out(text.skip(k), w, h, resume_at(w, k).0, resume_at(w, k).1, rows_of(text, w, k))
            == rows_of(text, w, if text.len() <= w * h { text.len() as int } else { w * h }),
    decreases text.len() - k,
{
    let t = text.skip(k);
    let (col, row) = resume_at(w, k);
    if k == text.len() {
        assert(t.len() == 0);
    } else {
        assert(t[0] == text[k]);
        if text[k] == '\n' {
            assert(text.contains('\n'));
        }
        assert(t.drop_first() =~= text.skip(k + 1));
        lemma_rows_of_next(text, w, k);
        if k == 0 {
            assert(resume_at(w, 1) == (1int, 0int)) by {
                vstd::arithmetic::div_mod::lemma_small_mod(0nat, w as nat);
                vstd::arithmetic::div_mod::lemma_basic_div(0, w);
            }
            assert(w * h >= 1) by (nonlinear_arith)
                requires
                    w > 0,
                    h > 0,
            ;
            lemma_lay_out_rows(text, w, h, 1);
        } else {
            vstd::arithmetic::div_mod::lemma_fundamental_div_mod(k - 1, w);
            vstd::arithmetic::div_mod::lemma_mod_pos_bound(k - 1, w);
            vstd::arithmetic::div_mod::lemma_div_pos_is_pos(k - 1, w);
            assert(w * ((k - 1) / w) == ((k - 1) / w) * w) by (nonlinear_arith);
            if k % w == 0 {
                // The last row placed is full: the next character opens a row.
                assert((k / w - 1) * w + (w - 1) == (k / w) * w - 1) by (nonlinear_arith);
                vstd::arithmetic::div_mod::lemma_fundamental_div_mod_converse(
                    k - 1,
                    w,
                    k / w - 1,
                    w - 1,
                );
                assert(col == w && row == k / w - 1);
                if row + 1 >= h {
                    assert((k / w) * w >= h * w) by (nonlinear_arith)
                        requires
                            k / w >= h,
                            w > 0,
                    ;
                    assert(h * w == w * h) by (nonlinear_arith);
                } else {
                    assert((k / w) * w + w <= h * w) by (nonlinear_arith)
                        requires
                            k / w + 1 <= h,
                            w > 0,
                    ;
                    assert(h * w == w * h) by (nonlinear_arith);
                    vstd::arithmetic::div_mod::lemma_fundamental_div_mod_converse(k, w, k / w, 0);
                    assert(resume_at(w, k + 1) == (1int, k / w));
                    lemma_lay_out_rows(text, w, h, k + 1);
                }
            } else {
                // Room left in the row: the character goes right after the last.
                vstd::arithmetic::div_mod::lemma_fundamental_div_mod_converse(
                    k - 1,
                    w,
                    k / w,
                    k % w - 1,
                );
                assert(col == k % w && row == k / w);
                if k == w * h {
                    vstd::arithmetic::div_mod::lemma_fundamental_div_mod_converse(k, w, h, 0);
                    assert(h * w == w * h) by (nonlinear_arith);
                }
                assert(resume_at(w, k + 1) == (k % w + 1, k / w));
                lemma_lay_out_rows(text, w, h, k + 1);
            }
        }
    }
}

/// Text without line breaks fills the box row by row: character `k` lands
/// at column `k % w` of row `k / w` for as long as that row is one of the
/// `h` rows of the box, and the characters past those are dropped.
pub proof fn lemma_lay_out_unbroken(text: Seq<char>, w: int, h: int)
    requires
        w > 0,
        h > 0,
        !text.contains('\n'),
    ensures
        lay_out(text, w, h, 0, 0, Map::empty()) == rows_of(
            text,
            w,
            if text.len() <= w * h { text.len() as int } else { w * h },
        ),
{
    assert(w * h >= 0) by (nonlinear_arith)
        requires
            w > 0,
            h > 0,
    ;
    lemma_lay_out_rows(text, w, h, 0);
    assert(text.skip(0) =~= text);
    assert(rows_of(text, w, 0) =~= Map::<(int, int), char>::empty());
}

/// A box of text drawn within a rectangular area.
///
/// `text_area` positions and bounds the text relative to the region passed to
/// [`Draw::draw`]: its `x`/`y` are the top-left offset, and `w`/`h` clip how
/// much is shown. Characters wrap at the box width and at `'\n'`; rows past
/// `h` are dropped.
#[derive(Clone, PartialEq, Eq, Debug)]
pub struct TextBox {
    pub text_area: Rect,
    pub data: String,
    pub style: Style,
}

impl TextBox {
    /// A text box at `(x, y)` holding `data`, wide enough to show all of it on
    /// one line: its width is the character count, saturated at `u16::MAX`.
    pub fn new(x: u16, y: u16, data: &str, style: Style) -> (tb: Self)
        ensures
            tb.text_area == (Rect {
                x,
                y,
                w: if data@.len() <= u16::MAX { data@.len() as u16 } else { u16::MAX },
                h: 1,
            }),
            tb.data@ == data@,
            tb.style == style,
    {
        let n = data.unicode_len();
        let w: u16 = if n <= 65535 {
            n as u16
        } else {
            65535
        };
        let data = data.to_string();
        TextBox { text_area: Rect { x, y, w, h: 1 }, data, style }
    }

    /// The glyphs of the text in box coordinates.
    pub open spec fn layout(self) -> Map<(int, int), char> {
        lay_out(self.data@, self.text_area.w as int, self.text_area.h as int, 0, 0, Map::empty())
    }

    /// What the box puts at each absolute position when drawn within `area`,
    /// given the glyphs `placed` so far.
    pub open spec fn glyph(self, area: Rect, placed: Map<(int, int), char>) -> spec_fn(int, int) -> Option<Cell> {
        let ox = area.x + self.text_area.x;
        let oy = area.y + self.text_area.y;
        |a: int, b: int|
            if placed.dom().contains((a - ox, b - oy)) {
                Some(Cell { ch: placed[(a - ox, b - oy)], style: self.style })
            } else {
                None
            }
    }
}

impl Draw for TextBox {
    open spec fn fits(&self, area: Rect) -> bool {
        self.text_area.w == 0 || self.text_area.h == 0 || {
            let ox = area.x + self.text_area.x;
            let oy = area.y + self.text_area.y;
            &&& ox <= u16::MAX
            &&& oy <= u16::MAX
            &&& forall|p: (int, int)| #[trigger]
                self.layout().dom().contains(p) ==> ox + p.0 <= u16::MAX && oy + p.1 <= u16::MAX
        }
    }

    open spec fn drawn(&self, before: Grid, area: Rect) -> Grid {
        if self.text_area.w == 0 || self.text_area.h == 0 {
            before
        } else {
            before.stamp(self.glyph(area, self.layout()))
        }
    }

    fn draw(&self, buf: &mut Buffer, area: Rect) {
        // Nothing to draw if the box has no width or height.
        if self.text_area.w == 0 || self.text_area.h == 0 {
            return;
        }

        // Top-left of the text, relative to the assigned `area`.
        let ox = area.x + self.text_area.x;
        let oy = area.y + self.text_area.y;
        let w = self.text_area.w;
        let h = self.text_area.h;
        let ghost before = buf@;
        proof {
            use_type_invariant(&*buf);
        }
        let ghost mut placed: Map<(int, int), char> = Map::empty();
        proof {
            lemma_stamp_nothing(before, self.glyph(area, placed));
        }

        // Character wrap: place glyphs left to right; advance to the next row at
        // the box width or on a '\n'. Rows past `h` are dropped (truncation).
        let mut col: u16 = 0;
        let mut row: u16 = 0;
        let mut chars = self.data.chars();
        loop
            invariant_except_break
                lay_out(chars.remaining(), w as int, h as int, col as int, row as int, placed)
                    == self.layout(),
                col <= w,
                row < h,
            invariant
                self.fits(area),
                chars.decrease() is Some,
                w == self.text_area.w,
                h == self.text_area.h,
                w > 0 && h > 0,
                ox == area.x + self.text_area.x,
                oy == area.y + self.text_area.y,
                before.wf(),
                buf@.rows == before.rows,
                buf@.cols == before.cols,
                buf@ == before.stamp(self.glyph(area, placed)),
            ensures
                placed == self.layout(),
            decreases chars.decrease()->0,
        {
            let ghost text = chars.remaining();
            let next = chars.next();
            let ch = match next {
                Some(ch) => ch,
                None => {
                    break;
                },
            };
            assert(text[0] == ch && chars.remaining() == text.drop_first());
            if ch == '\n' {
                // Hard break: start a fresh row, leaving the rest of this one blank.
                row += 1;
                col = 0;
                if row >= h {
                    break;
                }
                continue;
            }
            if col >= w {
                // Wrap: this row is full, move down before placing the glyph.
                row += 1;
                col = 0;
                if row >= h {
                    break;
                }
            }
            proof {
                let np = placed.insert((col as int, row as int), ch);
                lemma_lay_out_keeps(chars.remaining(), w as int, h as int, col + 1, row as int, np);
                assert(self.layout().dom().contains((col as int, row as int)));
                lemma_stamp_paint(
                    before,
                    self.glyph(area, placed),
                    self.glyph(area, np),
                    ox + col,
                    oy + row,
                    Cell { ch, style: self.style },
                );
                placed = np;
            }
            if let Some(cell) = buf.get_mut(ox + col, oy + row) {
                cell.ch = ch;
                cell.style = self.style;
            }
            col += 1;
        }
    }
}

/// A text box never draws outside its box: every cell beyond the `w` x `h`
/// region at its offset is left as it was.
pub proof fn lemma_text_in_box(tb: TextBox, g: Grid, area: Rect)
    requires
        g.wf(),
    ensures
        ({
            let ox = area.x + tb.text_area.x;
            let oy = area.y + tb.text_area.y;
            forall|a: int, b: int|
                g.contains(a, b) && !(ox <= a < ox + tb.text_area.w && oy <= b < oy + tb.text_area.h)
                    ==> #[trigger] tb.drawn(g, area).at(a, b) == g.at(a, b)
        }),
{
    let ox = area.x + tb.text_area.x;
    let oy = area.y + tb.text_area.y;
    if tb.text_area.w > 0 && tb.text_area.h > 0 {
        lemma_lay_out_in_box(
            tb.data@,
            tb.text_area.w as int,
            tb.text_area.h as int,
            0,
            0,
            Map::empty(),
        );
        assert forall|a: int, b: int|
            g.contains(a, b) && !(ox <= a < ox + tb.text_area.w && oy <= b < oy + tb.text_area.h)
                implies #[trigger] tb.drawn(g, area).at(a, b) == g.at(a, b) by {
            lemma_stamp_at(g, tb.glyph(area, tb.layout()), a, b);
            assert(!tb.layout().dom().contains((a - ox, b - oy)));
        }
    }
}

} // verus!
