//! The cell grid that everything is drawn into.

use vstd::prelude::*;
use vstd::arithmetic::div_mod::{
    lemma_fundamental_div_mod,
    lemma_fundamental_div_mod_converse,
    lemma_mod_pos_bound,
    lemma_div_pos_is_pos,
};

verus! {

/// A foreground or background color.
#[derive(Clone, Copy, PartialEq, Eq, Structural, Debug)]
pub enum Color {
    /// The terminal's configured default color.
    Default,
    /// A palette index: 0-15 are the ANSI 16 colors, 16-255 the 256-color cube.
    Indexed(u8),
    /// 24-bit truecolor, as `(r, g, b)`.
    Rgb(u8, u8, u8),
}

#[derive(Clone, Copy, PartialEq, Eq, Structural, Debug)]
pub struct Style {
    /// Foreground (text) color.
    pub fg: Color,
    /// Background color.
    pub bg: Color,
    pub bold: bool,
    pub underline: bool,
}

impl Style {
    /// The terminal's default colors, no attributes.
    pub open spec fn spec_default() -> Style {
        Style { fg: Color::Default, bg: Color::Default, bold: false, underline: false }
    }
}

impl Default for Style {
    fn default() -> (s: Self)
        ensures
            s == Style::spec_default(),
    {
        Style { fg: Color::Default, bg: Color::Default, bold: false, underline: false }
    }
}

/// A single terminal cell: one character plus its styling.
#[derive(Clone, Copy, PartialEq, Eq, Structural, Debug)]
pub struct Cell {
    /// The character drawn in this cell.
    pub ch: char,
    pub style: Style,
}

impl Cell {
    /// A blank in the default style.
    pub open spec fn spec_default() -> Cell {
        Cell { ch: ' ', style: Style::spec_default() }
    }
}

impl Default for Cell {
    fn default() -> (c: Self)
        ensures
            c == Cell::spec_default(),
    {
        Cell { ch: ' ', style: Style::default() }
    }
}

/// The mathematical content of a [`Buffer`]: its dimensions and its cells in
/// row-major order. Column `x` of row `y` is `cells[y * cols + x]`.
pub struct Grid {
    pub rows: u16,
    pub cols: u16,
    pub cells: Seq<Cell>,
}

impl Grid {
    /// The cell sequence holds exactly one cell per position.
    pub open spec fn wf(self) -> bool {
        self.cells.len() == self.rows * self.cols
    }

    /// Whether `(x, y)` (column, row) names a cell of the grid.
    pub open spec fn contains(self, x: int, y: int) -> bool {
        0 <= x < self.cols && 0 <= y < self.rows
    }

    /// Row-major position of column `x` in row `y`.
    pub open spec fn index(self, x: int, y: int) -> int {
        y * self.cols + x
    }

    /// The cell at column `x`, row `y`.
    pub open spec fn at(self, x: int, y: int) -> Cell {
        self.cells[self.index(x, y)]
    }

    /// A grid of the given size where every cell is the default blank.
    pub open spec fn blank(rows: u16, cols: u16) -> Grid {
        Grid { rows, cols, cells: Seq::new((rows * cols) as nat, |i: int| Cell::spec_default()) }
    }

    /// The grid with the cell at `(x, y)` replaced by `c`; unchanged when
    /// `(x, y)` lies outside the grid.
    pub open spec fn paint(self, x: int, y: int, c: Cell) -> Grid {
        if self.contains(x, y) {
            Grid { rows: self.rows, cols: self.cols, cells: self.cells.update(self.index(x, y), c) }
        } else {
            self
        }
    }

    /// The grid where every position `(x, y)` for which `glyph(x, y)` is
    /// `Some(c)` holds `c`, and every other cell is unchanged.
    pub open spec fn stamp(self, glyph: spec_fn(int, int) -> Option<Cell>) -> Grid {
        Grid {
            rows: self.rows,
            cols: self.cols,
            cells: Seq::new(
                self.cells.len(),
                |i: int|
                    match glyph(i % (self.cols as int), i / (self.cols as int)) {
                        Some(c) => c,
                        None => self.cells[i],
                    },
            ),
        }
    }
}

/// Each in-grid position has its own index, and each index names exactly one
/// position: `index` is a bijection between the positions and `0..rows*cols`.
pub proof fn lemma_index(g: Grid, x: int, y: int)
    requires
        g.wf(),
        g.contains(x, y),
    ensures
        0 <= g.index(x, y) < g.cells.len(),
        g.index(x, y) % (g.cols as int) == x,
        g.index(x, y) / (g.cols as int) == y,
{
    let c = g.cols as int;
    let r = g.rows as int;
    assert(0 <= y * c + x < r * c) by (nonlinear_arith)
        requires
            0 <= x < c,
            0 <= y < r,
    ;
    lemma_fundamental_div_mod_converse(y * c + x, c, y, x);
}

/// Every index of a well-formed grid is the index of the position
/// `(i % cols, i / cols)`, which lies inside the grid.
pub proof fn lemma_position(g: Grid, i: int)
    requires
        g.wf(),
        0 <= i < g.cells.len(),
    ensures
        g.contains(i % (g.cols as int), i / (g.cols as int)),
        g.index(i % (g.cols as int), i / (g.cols as int)) == i,
{
    let c = g.cols as int;
    let r = g.rows as int;
    assert(c > 0) by (nonlinear_arith)
        requires
            0 <= i < r * c,
            r >= 0,
            c >= 0,
    ;
    lemma_fundamental_div_mod(i, c);
    lemma_mod_pos_bound(i, c);
    lemma_div_pos_is_pos(i, c);
    let q = i / c;
    assert(q < r) by (nonlinear_arith)
        requires
            i == c * q + i % c,
            0 <= i % c,
            i < r * c,
            c > 0,
    ;
    assert(q * c == c * q) by (nonlinear_arith);
}

/// Stamping nothing leaves the grid as it was.
pub proof fn lemma_stamp_nothing(g: Grid, glyph: spec_fn(int, int) -> Option<Cell>)
    requires
        g.wf(),
        forall|x: int, y: int| g.contains(x, y) ==> #[trigger] glyph(x, y) is None,
    ensures
        g.stamp(glyph) == g,
{
    assert forall|i: int| 0 <= i < g.cells.len() implies #[trigger] g.stamp(glyph).cells[i]
        == g.cells[i] by {
        lemma_position(g, i);
        let x = i % (g.cols as int);
        let y = i / (g.cols as int);
        assert(g.contains(x, y));
        assert(glyph(x, y) is None);
        assert(g.stamp(glyph).cells.len() == g.cells.len());
        assert(g.stamp(glyph).cells[i] == g.cells[i]);
    }
    assert(g.stamp(glyph).cells =~= g.cells);
}

/// Two stamp functions that agree on every in-grid position stamp the same grid.
pub proof fn lemma_stamp_agree(
    g: Grid,
    f: spec_fn(int, int) -> Option<Cell>,
    h: spec_fn(int, int) -> Option<Cell>,
)
    requires
        g.wf(),
        forall|x: int, y: int| g.contains(x, y) ==> #[trigger] f(x, y) == h(x, y),
    ensures
        g.stamp(f) == g.stamp(h),
{
    assert forall|i: int| 0 <= i < g.cells.len() implies #[trigger] g.stamp(f).cells[i]
        == g.stamp(h).cells[i] by {
        lemma_position(g, i);
        assert(f(i % (g.cols as int), i / (g.cols as int)) == h(
            i % (g.cols as int),
            i / (g.cols as int),
        ));
    }
    assert(g.stamp(f).cells =~= g.stamp(h).cells);
}

/// Painting one more cell over a stamped grid is stamping with that cell added:
/// `h` is `f` with position `(x, y)` mapped to `c`.
pub proof fn lemma_stamp_paint(
    g: Grid,
    f: spec_fn(int, int) -> Option<Cell>,
    h: spec_fn(int, int) -> Option<Cell>,
    x: int,
    y: int,
    c: Cell,
)
    requires
        g.wf(),
        forall|a: int, b: int|
            g.contains(a, b) ==> #[trigger] h(a, b) == if a == x && b == y {
                Some(c)
            } else {
                f(a, b)
            },
    ensures
        g.stamp(f).paint(x, y, c) == g.stamp(h),
{
    let lhs = g.stamp(f).paint(x, y, c);
    let rhs = g.stamp(h);
    if g.contains(x, y) {
        lemma_index(g, x, y);
        assert forall|i: int| 0 <= i < g.cells.len() implies #[trigger] lhs.cells[i]
            == rhs.cells[i] by {
            lemma_position(g, i);
        }
        assert(lhs.cells =~= rhs.cells);
    } else {
        lemma_stamp_agree(g, f, h);
    }
}

/// Writing a cell and reading it back gives what was written; every other
/// cell, and the size, stay as they were.
pub proof fn lemma_paint_at(g: Grid, x: int, y: int, c: Cell)
    requires
        g.wf(),
    ensures
        g.paint(x, y, c).wf(),
        g.paint(x, y, c).rows == g.rows,
        g.paint(x, y, c).cols == g.cols,
        g.contains(x, y) ==> g.paint(x, y, c).at(x, y) == c,
        forall|a: int, b: int|
            g.contains(a, b) && !(a == x && b == y) ==> #[trigger] g.paint(x, y, c).at(a, b) == g.at(
                a,
                b,
            ),
{
    if g.contains(x, y) {
        lemma_index(g, x, y);
        assert forall|a: int, b: int|
            g.contains(a, b) && !(a == x && b == y) implies #[trigger] g.paint(x, y, c).at(a, b)
            == g.at(a, b) by {
            lemma_index(g, a, b);
        }
    }
}

/// A stamped grid holds, at each position, what the stamp puts there, or the
/// old cell where it puts nothing.
pub proof fn lemma_stamp_at(g: Grid, f: spec_fn(int, int) -> Option<Cell>, x: int, y: int)
    requires
        g.wf(),
        g.contains(x, y),
    ensures
        g.stamp(f).wf(),
        g.stamp(f).at(x, y) == match f(x, y) {
            Some(c) => c,
            None => g.at(x, y),
        },
{
    lemma_index(g, x, y);
}

/// The screen contents being drawn: `rows * cols` cells in row-major order.
pub struct Buffer {
    rows: u16,
    cols: u16,
    cells: Vec<Cell>,  // Length = rows * cols
}

impl View for Buffer {
    type V = Grid;

    closed spec fn view(&self) -> Grid {
        Grid { rows: self.rows, cols: self.cols, cells: self.cells@ }
    }
}

impl Buffer {
    /// The buffer holds one cell per position.
    #[verifier::type_invariant]
    pub(crate) open spec fn wf(&self) -> bool {
        self@.wf()
    }

    /// A `rows` x `cols` buffer filled with blank default cells.
    pub fn new(rows: u16, cols: u16) -> (buf: Self)
        ensures
            buf@.wf(),
            buf@ == Grid::blank(rows, cols),
    {
        assert(rows * cols <= 0xffff * 0xffff) by (nonlinear_arith)
            requires
                rows <= 0xffff,
                cols <= 0xffff,
        ;
        let n: usize = rows as usize * cols as usize;
        let mut cells: Vec<Cell> = Vec::new();
        let mut i: usize = 0;
        while i < n
            invariant
                n == rows * cols,
                i <= n,
                cells@.len() == i,
                forall|j: int| 0 <= j < i ==> cells@[j] == Cell::spec_default(),
            decreases n - i,
        {
            cells.push(Cell::default());
            i = i + 1;
        }
        let buf = Buffer { rows, cols, cells };
        assert(buf@.cells =~= Grid::blank(rows, cols).cells);
        buf
    }

    pub fn rows(&self) -> (r: u16)
        ensures
            r == self@.rows,
    {
        self.rows
    }

    pub fn cols(&self) -> (c: u16)
        ensures
            c == self@.cols,
    {
        self.cols
    }

    /// Resets every cell to the default blank, keeping the size.
    pub fn clear(&mut self)
        ensures
            final(self)@ == Grid::blank(old(self)@.rows, old(self)@.cols),
    {
        proof {
            use_type_invariant(&*self);
        }
        let n = self.cells.len();
        let mut i: usize = 0;
        while i < n
            invariant
                n == self.cells@.len(),
                n == self.rows * self.cols,
                self.rows == old(self).rows,
                self.cols == old(self).cols,
                i <= n,
                forall|j: int| 0 <= j < i ==> self.cells@[j] == Cell::spec_default(),
            decreases n - i,
        {
            self.cells[i] = Cell::default();
            i = i + 1;
        }
        assert(self@.cells =~= Grid::blank(self.rows, self.cols).cells);
    }

    /// Row-major position of column `x` in row `y`, or `None` when the
    /// position lies outside the buffer.
    fn offset(&self, x: u16, y: u16) -> (o: Option<usize>)
        ensures
            o is Some <==> self@.contains(x as int, y as int),
            o matches Some(i) ==> i == self@.index(x as int, y as int) && i < self.cells@.len(),
    {
        proof {
            use_type_invariant(self);
        }
        if x >= self.cols || y >= self.rows {
            return None;
        }
        proof {
            lemma_index(self@, x as int, y as int);
            assert(self.cells@.len() == self.cells.len());
        }
        Some(y as usize * self.cols as usize + x as usize)
    }

    /// The backing cells in row-major order (length `rows * cols`).
    pub fn cells(&self) -> (s: &[Cell])
        ensures
            s@ == self@.cells,
    {
        self.cells.as_slice()
    }

    /// The cell at column `x`, row `y`, or `None` outside the buffer.
    pub fn get(&self, x: u16, y: u16) -> (c: Option<&Cell>)
        ensures
            c is Some <==> self@.contains(x as int, y as int),
            c matches Some(cell) ==> *cell == self@.at(x as int, y as int),
    {
        match self.offset(x, y) {
            Some(i) => Some(&self.cells[i]),
            None => None,
        }
    }

    /// Mutable access to the cell at column `x`, row `y`, or `None` outside
    /// the buffer. What is written through the reference lands in that cell.
    pub fn get_mut(&mut self, x: u16, y: u16) -> (c: Option<&mut Cell>)
        ensures
            c is Some <==> old(self)@.contains(x as int, y as int),
            c matches Some(cell) ==> {
                &&& *cell == old(self)@.at(x as int, y as int)
                &&& final(self)@ == old(self)@.paint(x as int, y as int, *final(cell))
            },
            c is None ==> final(self)@ == old(self)@,
    {
        proof {
            use_type_invariant(&*self);
        }
        match self.offset(x, y) {
            Some(i) => {
                assert(i < self.cells@.len());
                Some(&mut self.cells[i])
            },
            None => None,
        }
    }
}

impl Clone for Buffer {
    fn clone(&self) -> (b: Self)
        ensures
            b@ == self@,
    {
        proof {
            use_type_invariant(self);
        }
        let cells = self.cells.clone();
        assert(cells@ =~= self.cells@);
        Buffer { rows: self.rows, cols: self.cols, cells }
    }
}

} // verus!
