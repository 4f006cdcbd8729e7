//! Diffing frames and turning the difference into ANSI escapes.

use vstd::prelude::*;
use vstd::string::StringExecFns;

use crate::buffer::{Buffer, Cell, Color, Grid, Style, lemma_position};

verus! {

/// Appends `c` through `String::push`; the contract claims the string then
/// holds its old characters followed by `c`.
#[verifier::external_body]
fn push_char(s: &mut String, c: char)
    ensures
        final(s)@ == old(s)@.push(c),
{
    s.push(c);
}

/// Empties `s` through `String::clear`, which keeps the allocation; the
/// contract claims the string then holds no characters.
#[verifier::external_body]
fn clear_string(s: &mut String)
    ensures
        final(s)@ == Seq::<char>::empty(),
{
    s.clear();
}

/// The ASCII digit for `d` (`0 <= d < 10`).
pub open spec fn digit(d: nat) -> char {
    (('0' as int) + d) as char
}

/// The decimal spelling of `n`, most significant digit first, no leading zeros.
pub open spec fn decimal(n: nat) -> Seq<char>
    decreases n,
{
    if n < 10 {
        seq![digit(n)]
    } else {
        decimal(n / 10).push(digit(n % 10))
    }
}

/// Appends the decimal spelling of `n` to `out`.
fn push_decimal(out: &mut String, n: u32)
    ensures
        final(out)@ == old(out)@ + decimal(n as nat),
{
    // Collect the digits least significant first, then emit them in reverse.
    let mut digits: Vec<char> = Vec::new();
    let mut m = n;
    loop
        invariant_except_break
            decimal(n as nat) == decimal(m as nat) + digits@.reverse(),
        ensures
            decimal(n as nat) == digits@.reverse(),
        decreases m,
    {
        let d = m % 10;
        let c = (48u8 + d as u8) as char;
        assert(c == digit(d as nat));
        let ghost old_digits = digits@;
        let ghost old_m = m;
        m = m / 10;
        digits.push(c);
        assert(digits@.reverse() =~= seq![c] + old_digits.reverse());
        if m == 0 {
            assert(decimal(old_m as nat) == seq![c]);
            assert(decimal(n as nat) == digits@.reverse());
            break;
        }
        assert(decimal(old_m as nat) == decimal(m as nat).push(c));
        assert(decimal(n as nat) =~= decimal(m as nat) + digits@.reverse());
    }
    let mut k = digits.len();
    while k > 0
        invariant
            k <= digits@.len(),
            out@ == old(out)@ + digits@.reverse().take(digits@.len() - k),
        decreases k,
    {
        k = k - 1;
        push_char(out, digits[k]);
        assert(digits@.reverse().take(digits@.len() - k) =~= digits@.reverse().take(digits@.len() - (k + 1)).push(digits@[k as int]));
    }
    assert(digits@.reverse().take(digits@.len() as int) =~= digits@.reverse());
}

/// The control sequence introducer, `ESC [`.
pub open spec fn csi() -> Seq<char> {
    seq!['\x1b', '[']
}

/// The SGR escape selecting `color` as the foreground (`fg`) or background
/// color; nothing for the terminal's default color.
pub open spec fn color_sgr(color: Color, fg: bool) -> Seq<char> {
    // 38 = set foreground, 48 = set background.
    let base: nat = if fg {
        38
    } else {
        48
    };
    match color {
        Color::Default => Seq::empty(),
        Color::Indexed(i) => csi() + decimal(base) + seq![';', '5', ';'] + decimal(i as nat) + seq!['m'],
        Color::Rgb(r, g, b) => csi() + decimal(base) + seq![';', '2', ';'] + decimal(r as nat) + seq![
            ';',
        ] + decimal(g as nat) + seq![';'] + decimal(b as nat) + seq!['m'],
    }
}

/// A color escape selects the layer asked for: for any color but the
/// terminal's default, it starts `ESC [ 38 ;` for the foreground and
/// `ESC [ 48 ;` for the background, then `5` for a palette index or `2` for
/// truecolor, and ends with `m`. The default color writes nothing.
pub proof fn lemma_color_sgr_layer(color: Color, fg: bool)
    ensures
        color is Default ==> color_sgr(color, fg).len() == 0,
        !(color is Default) ==> {
            let s = color_sgr(color, fg);
            &&& s.len() > 7
            &&& s.subrange(0, 5) == seq!['\x1b', '[', if fg { '3' } else { '4' }, '8', ';']
            &&& s[5] == if color is Indexed { '5' } else { '2' }
            &&& s[6] == ';'
            &&& s.last() == 'm'
        },
{
    reveal_with_fuel(decimal, 2);
    assert(digit(3) == '3' && digit(4) == '4' && digit(8) == '8');
    let base: nat = if fg { 38 } else { 48 };
    assert(decimal(base) == seq![if fg { '3' } else { '4' }, '8']);
    if !(color is Default) {
        let s = color_sgr(color, fg);
        assert(s.subrange(0, 5) =~= seq!['\x1b', '[', if fg { '3' } else { '4' }, '8', ';']);
    }
}

/// The escapes selecting `style`: a full reset first, then bold, underline,
/// and the two colors.
pub open spec fn style_sgr(style: Style) -> Seq<char> {
    csi() + seq!['0', 'm'] + (if style.bold {
        csi() + seq!['1', 'm']
    } else {
        Seq::empty()
    }) + (if style.underline {
        csi() + seq!['4', 'm']
    } else {
        Seq::empty()
    }) + color_sgr(style.fg, true) + color_sgr(style.bg, false)
}

/// Writes the SGR escape for a foreground (`fg = true`) or background color.
pub fn write_color(color: Color, fg: bool, out: &mut String)
    ensures
        final(out)@ == old(out)@ + color_sgr(color, fg),
{
    // 38 = set foreground, 48 = set background.
    let base: u32 = if fg {
        38
    } else {
        48
    };
    proof {
        reveal_strlit("\x1b[");
        reveal_strlit(";5;");
        reveal_strlit(";2;");
        reveal_strlit(";");
        reveal_strlit("m");
    }
    match color {
        Color::Default => {},  // leave the terminal default
        Color::Indexed(i) => {
            out.append("\x1b[");
            push_decimal(out, base);
            out.append(";5;");
            push_decimal(out, i as u32);
            out.append("m");
            assert(out@ =~= old(out)@ + color_sgr(color, fg));
        },
        Color::Rgb(r, g, b) => {
            out.append("\x1b[");
            push_decimal(out, base);
            out.append(";2;");
            push_decimal(out, r as u32);
            out.append(";");
            push_decimal(out, g as u32);
            out.append(";");
            push_decimal(out, b as u32);
            out.append("m");
            assert(out@ =~= old(out)@ + color_sgr(color, fg));
        },
    }
}

/// Writes the SGR escape that selects `style`, after resetting prior attributes.
pub fn write_style(style: &Style, out: &mut String)
    ensures
        final(out)@ == old(out)@ + style_sgr(*style),
{
    proof {
        reveal_strlit("\x1b[0m");
        reveal_strlit("\x1b[1m");
        reveal_strlit("\x1b[4m");
    }
    out.append("\x1b[0m");  // reset, so leftover attributes don't bleed in
    if style.bold {
        out.append("\x1b[1m");
    }
    if style.underline {
        out.append("\x1b[4m");
    }
    write_color(style.fg, true, out);
    write_color(style.bg, false, out);
    assert(out@ =~= old(out)@ + style_sgr(*style));
}

/// One cell that differs between two frames: its position and new content.
#[derive(Clone, Copy)]
pub struct CellChange {
    pub row: u16,
    pub col: u16,
    pub cell: Cell,
}

/// The cells that changed from one frame to the next, in row-major order.
#[derive(Clone)]
pub struct BufferDiff {
    pub changes: Vec<CellChange>,
}

impl BufferDiff {
    /// Whether the two buffers were identical (no cells changed).
    pub fn is_empty(&self) -> (b: bool)
        ensures
            b == (self.changes@.len() == 0),
    {
        self.changes.is_empty()
    }
}

/// The changes among the first `n` cells when frame `old` becomes frame
/// `new` (`cols` cells per row): one per position whose cell differs,
/// carrying the new cell, in row-major order.
pub open spec fn changes_upto(old: Seq<Cell>, new: Seq<Cell>, cols: int, n: int) -> Seq<CellChange>
    decreases n,
{
    if n <= 0 {
        Seq::empty()
    } else {
        let earlier = changes_upto(old, new, cols, n - 1);
        let i = n - 1;
        if new[i] != old[i] {
            earlier.push(CellChange { row: (i / cols) as u16, col: (i % cols) as u16, cell: new[i] })
        } else {
            earlier
        }
    }
}

/// Every cell that differs between frames `old` and `new`.
pub open spec fn changes_between(old: Grid, new: Grid) -> Seq<CellChange> {
    changes_upto(old.cells, new.cells, new.cols as int, new.cells.len() as int)
}

/// The cells that differ between two frames of the same size.
pub fn diff(old: &Buffer, new: &Buffer) -> (d: BufferDiff)
    requires
        old@.rows == new@.rows,
        old@.cols == new@.cols,
    ensures
        d.changes@ == changes_between(old@, new@),
{
    proof {
        use_type_invariant(old);
        use_type_invariant(new);
    }
    let cols = new.cols() as usize;
    let new_cells = new.cells();
    let old_cells = old.cells();
    let mut changes: Vec<CellChange> = Vec::new();
    let mut i: usize = 0;
    while i < new_cells.len()
        invariant
            new_cells@ == new@.cells,
            old_cells@ == old@.cells,
            new@.wf(),
            old_cells@.len() == new_cells@.len(),
            cols == new@.cols,
            i <= new_cells@.len(),
            changes@ == changes_upto(old_cells@, new_cells@, cols as int, i as int),
        decreases new_cells@.len() - i,
    {
        let new_cell = new_cells[i];
        let old_cell = old_cells[i];
        if new_cell != old_cell {
            proof {
                lemma_position(new@, i as int);
            }
            changes.push(CellChange { row: (i / cols) as u16, col: (i % cols) as u16, cell: new_cell });
        }
        i = i + 1;
    }
    BufferDiff { changes }
}

/// The escapes that move the cursor to a change (1-based), select its
/// style, and write its character.
pub open spec fn change_ansi(c: CellChange) -> Seq<char> {
    csi() + decimal((c.row + 1) as nat) + seq![';'] + decimal((c.col + 1) as nat) + seq!['H'] + style_sgr(
        c.cell.style,
    ) + seq![c.cell.ch]
}

/// The escapes for a whole list of changes, one after another.
pub open spec fn changes_ansi(changes: Seq<CellChange>) -> Seq<char>
    decreases changes.len(),
{
    if changes.len() == 0 {
        Seq::empty()
    } else {
        changes_ansi(changes.drop_last()) + change_ansi(changes.last())
    }
}

/// Renders a diff as a sequence of ANSI escapes into `out`.
///
/// For each changed cell: move the cursor to its position, set its style, then
/// write the character. Styles are reset (`\x1b[0m`) before each cell, so no
/// state needs to be tracked across cells.
pub fn diff_to_ansi(diff: &BufferDiff, out: &mut String)
    requires
        forall|k: int|
            0 <= k < diff.changes@.len() ==> #[trigger] diff.changes@[k].row < u16::MAX
                && diff.changes@[k].col < u16::MAX,
    ensures
        final(out)@ == old(out)@ + changes_ansi(diff.changes@),
{
    let mut k: usize = 0;
    while k < diff.changes.len()
        invariant
            k <= diff.changes@.len(),
            forall|j: int|
                0 <= j < diff.changes@.len() ==> #[trigger] diff.changes@[j].row < u16::MAX
                    && diff.changes@[j].col < u16::MAX,
            out@ == old(out)@ + changes_ansi(diff.changes@.take(k as int)),
        decreases diff.changes@.len() - k,
    {
        let change = &diff.changes[k];
        let ghost before = out@;
        proof {
            reveal_strlit("\x1b[");
            reveal_strlit(";");
            reveal_strlit("H");
        }
        // Cursor position is 1-based in ANSI; our coords are 0-based.
        out.append("\x1b[");
        assert(out@ =~= before + csi());
        push_decimal(out, (change.row + 1) as u32);
        assert(out@ =~= before + csi() + decimal((change.row + 1) as nat));
        out.append(";");
        push_decimal(out, (change.col + 1) as u32);
        out.append("H");
        let ghost moved = out@;
        assert(moved =~= before + csi() + decimal((change.row + 1) as nat) + seq![';'] + decimal((change.col + 1) as nat) + seq!['H']);
        write_style(&change.cell.style, out);
        let ghost styled = out@;
        assert(styled =~= moved + style_sgr(change.cell.style));
        push_char(out, change.cell.ch);
        assert(out@ =~= styled + seq![change.cell.ch]);
        assert(diff.changes@.take(k + 1).drop_last() =~= diff.changes@.take(k as int));
        assert(out@ =~= before + change_ansi(*change));
        k = k + 1;
    }
    assert(diff.changes@.take(diff.changes@.len() as int) =~= diff.changes@);
}

/// The frame that results from writing `changes`, in order, over `g`.
pub open spec fn apply_changes(g: Grid, changes: Seq<CellChange>) -> Grid
    decreases changes.len(),
{
    if changes.len() == 0 {
        g
    } else {
        let c = changes.last();
        apply_changes(g, changes.drop_last()).paint(c.col as int, c.row as int, c.cell)
    }
}

/// The frame whose first `n` cells come from `new` and the rest from `old`.
pub open spec fn blend(old: Grid, new: Grid, n: int) -> Grid {
    Grid {
        rows: old.rows,
        cols: old.cols,
        cells: Seq::new(old.cells.len(), |i: int| if i < n { new.cells[i] } else { old.cells[i] }),
    }
}

proof fn lemma_changes_upto_apply(old: Grid, new: Grid, n: int)
    requires
        old.wf(),
        new.wf(),
        old.rows == new.rows,
        old.cols == new.cols,
        0 <= n <= new.cells.len(),
    ensures
        apply_changes(old, changes_upto(old.cells, new.cells, new.cols as int, n)) == blend(old, new, n),
        forall|k: int|
            0 <= k < changes_upto(old.cells, new.cells, new.cols as int, n).len() ==> {
                let c = #[trigger] changes_upto(old.cells, new.cells, new.cols as int, n)[k];
                &&& c.row < new.rows
                &&& c.col < new.cols
            },
    decreases n,
{
    let cols = new.cols as int;
    if n == 0 {
        assert(blend(old, new, 0).cells =~= old.cells);
    } else {
        lemma_changes_upto_apply(old, new, n - 1);
        let i = n - 1;
        let prev = blend(old, new, i);
        lemma_position(new, i);
        if new.cells[i] != old.cells[i] {
            let c = CellChange { row: (i / cols) as u16, col: (i % cols) as u16, cell: new.cells[i] };
            let cs = changes_upto(old.cells, new.cells, cols, n);
            assert(cs.drop_last() == changes_upto(old.cells, new.cells, cols, i));
            assert(prev.paint(c.col as int, c.row as int, c.cell).cells =~= blend(old, new, n).cells);
        } else {
            assert(prev.cells =~= blend(old, new, n).cells);
        }
    }
}

/// Writing the changes between two frames of the same size over the first
/// gives exactly the second: the diff loses no update and adds none.
pub proof fn lemma_diff_applies(old: Grid, new: Grid)
    requires
        old.wf(),
        new.wf(),
        old.rows == new.rows,
        old.cols == new.cols,
    ensures
        apply_changes(old, changes_between(old, new)) == new,
{
    lemma_changes_upto_apply(old, new, new.cells.len() as int);
    assert(blend(old, new, new.cells.len() as int).cells =~= new.cells);
}

/// Two frames of the same size have no changes between them exactly when
/// they are identical.
pub proof fn lemma_diff_empty_iff_equal(old: Grid, new: Grid)
    requires
        old.wf(),
        new.wf(),
        old.rows == new.rows,
        old.cols == new.cols,
    ensures
        changes_between(old, new).len() == 0 <==> old == new,
{
    lemma_diff_applies(old, new);
    if old == new {
        lemma_no_changes(old.cells, new.cols as int, new.cells.len() as int);
    }
}

proof fn lemma_no_changes(cells: Seq<Cell>, cols: int, n: int)
    ensures
        changes_upto(cells, cells, cols, n).len() == 0,
    decreases n,
{
    if n > 0 {
        lemma_no_changes(cells, cols, n - 1);
    }
}

/// Every change between two frames of the same size lies inside them.
pub proof fn lemma_changes_in_frame(old: Grid, new: Grid)
    requires
        old.wf(),
        new.wf(),
        old.rows == new.rows,
        old.cols == new.cols,
    ensures
        forall|k: int|
            0 <= k < changes_between(old, new).len() ==> {
                let c = #[trigger] changes_between(old, new)[k];
                &&& c.row < new.rows
                &&& c.col < new.cols
            },
{
    lemma_changes_upto_apply(old, new, new.cells.len() as int);
}

/// Each change between two frames of the same size carries the new frame's
/// cell at its position, and that cell differs from the old frame's: the
/// diff reports nothing that did not change.
pub proof fn lemma_changes_are_differences(old: Grid, new: Grid)
    requires
        old.wf(),
        new.wf(),
        old.rows == new.rows,
        old.cols == new.cols,
    ensures
        forall|k: int|
            0 <= k < changes_between(old, new).len() ==> {
                let c = #[trigger] changes_between(old, new)[k];
                &&& new.at(c.col as int, c.row as int) == c.cell
                &&& old.at(c.col as int, c.row as int) != c.cell
            },
{
    lemma_changes_upto_differ(old, new, new.cells.len() as int);
}

proof fn lemma_changes_upto_differ(old: Grid, new: Grid, n: int)
    requires
        old.wf(),
        new.wf(),
        old.rows == new.rows,
        old.cols == new.cols,
        0 <= n <= new.cells.len(),
    ensures
        forall|k: int|
            0 <= k < changes_upto(old.cells, new.cells, new.cols as int, n).len() ==> {
                let c = #[trigger] changes_upto(old.cells, new.cells, new.cols as int, n)[k];
                &&& new.at(c.col as int, c.row as int) == c.cell
                &&& old.at(c.col as int, c.row as int) != c.cell
            },
    decreases n,
{
    if n > 0 {
        lemma_changes_upto_differ(old, new, n - 1);
        lemma_position(new, n - 1);
    }
}

/// A double-buffered renderer: frames are drawn into `next`, and only the
/// cells that differ from `current` (what the terminal shows) are emitted.
pub struct Renderer {
    /// What the terminal currently shows.
    current: Buffer,
    /// The frame being drawn; swapped with `current` after each frame.
    next: Buffer,
    /// Reused ANSI scratch buffer, cleared each frame to avoid reallocating.
    ansi: String,
}

impl Renderer {
    /// The frame the terminal currently shows.
    pub closed spec fn shown(self) -> Grid {
        self.current@
    }

    /// The frame being drawn.
    pub closed spec fn pending(self) -> Grid {
        self.next@
    }

    /// The escapes rendered for the latest frame.
    pub closed spec fn output(self) -> Seq<char> {
        self.ansi@
    }

    /// Both frames have the same size.
    pub open spec fn frames_agree(self) -> bool {
        &&& self.shown().rows == self.pending().rows
        &&& self.shown().cols == self.pending().cols
    }

    /// Both frames are `rows` x `cols`.
    pub open spec fn sized(self, rows: u16, cols: u16) -> bool {
        &&& self.shown().rows == rows
        &&& self.shown().cols == cols
        &&& self.pending().rows == rows
        &&& self.pending().cols == cols
    }

    /// One step of drawing frames from `a` to `b`: either the frame shown is
    /// kept and the pending frame keeps its size (it was drawn into, or the
    /// frame was rendered), or the frame is presented and the two frames
    /// change places.
    pub open spec fn frame_step(a: Renderer, b: Renderer) -> bool {
        ||| {
            &&& b.shown() == a.shown()
            &&& b.pending().rows == a.pending().rows
            &&& b.pending().cols == a.pending().cols
        }
        ||| {
            &&& b.shown() == a.pending()
            &&& b.pending() == a.shown()
        }
    }

    /// Both frames hold one cell per position.
    pub open spec fn frames_wf(self) -> bool {
        self.shown().wf() && self.pending().wf()
    }

    /// A renderer for a `rows` x `cols` screen, both frames blank.
    pub fn new(rows: u16, cols: u16) -> (r: Self)
        ensures
            r.frames_agree(),
            r.frames_wf(),
            r.sized(rows, cols),
            r.shown() == Grid::blank(rows, cols),
            r.pending() == Grid::blank(rows, cols),
            r.output() == Seq::<char>::empty(),
    {
        Renderer { current: Buffer::new(rows, cols), next: Buffer::new(rows, cols), ansi: String::new() }
    }

    /// The buffer to draw the next frame into. Draw here, then render the frame.
    /// What is written through it stays in the pending frame until the frame
    /// is presented, and the frame shown is left alone.
    pub fn next_mut(&mut self) -> (b: &mut Buffer)
        ensures
            old(self).frames_wf(),
            b@ == old(self).pending(),
            final(self).pending() == final(b)@,
            final(self).shown() == old(self).shown(),
            final(self).output() == old(self).output(),
            final(b)@.rows == b@.rows && final(b)@.cols == b@.cols ==> Renderer::frame_step(
                *old(self),
                *final(self),
            ),
    {
        proof {
            use_type_invariant(&self.current);
            use_type_invariant(&self.next);
        }
        &mut self.next
    }

    /// Whether the frame being drawn has the size of the frame shown.
    pub fn frames_match(&self) -> (b: bool)
        ensures
            b == self.frames_agree(),
            self.frames_wf(),
    {
        proof {
            use_type_invariant(&self.current);
            use_type_invariant(&self.next);
        }
        self.current.rows() == self.next.rows() && self.current.cols() == self.next.cols()
    }

    /// Diffs the next frame against the current one and, when any cell
    /// changed, renders the changes as ANSI escapes into the scratch output.
    /// Returns whether anything changed; when nothing did, the output is left
    /// as it was and there is nothing to write. Both frames, and so their
    /// sizes, are kept.
    pub fn prepare_frame(&mut self) -> (changed: bool)
        requires
            old(self).frames_agree(),
        ensures
            changed == (changes_between(old(self).shown(), old(self).pending()).len() > 0),
            changed ==> final(self).output() == changes_ansi(
                changes_between(old(self).shown(), old(self).pending()),
            ),
            !changed ==> final(self).output() == old(self).output(),
            final(self).shown() == old(self).shown(),
            final(self).pending() == old(self).pending(),
            final(self).frames_agree(),
            final(self).frames_wf(),
            Renderer::frame_step(*old(self), *final(self)),
    {
        proof {
            use_type_invariant(&self.current);
            use_type_invariant(&self.next);
        }
        let changes = diff(&self.current, &self.next);

        // Nothing changed: skip the write, flush, and swap entirely.
        if changes.is_empty() {
            return false;
        }
        proof {
            lemma_changes_in_frame(self.current@, self.next@);
        }
        clear_string(&mut self.ansi);
        diff_to_ansi(&changes, &mut self.ansi);
        true
    }

    /// The escapes rendered for the latest frame, ready to be written out.
    pub fn output_str(&self) -> (s: &str)
        ensures
            s@ == self.output(),
    {
        self.ansi.as_str()
    }

    /// Marks the next frame as shown: exchanges the two buffers' contents, so
    /// `next` becomes the new `current` (zero-copy). Frames of one size stay
    /// that size: the frame to draw next has the size the last one had.
    pub fn present(&mut self)
        ensures
            final(self).shown() == old(self).pending(),
            final(self).pending() == old(self).shown(),
            final(self).output() == old(self).output(),
            final(self).frames_wf(),
            Renderer::frame_step(*old(self), *final(self)),
            old(self).frames_agree() ==> {
                &&& final(self).frames_agree()
                &&& final(self).pending().rows == old(self).pending().rows
                &&& final(self).pending().cols == old(self).pending().cols
            },
    {
        proof {
            use_type_invariant(&self.current);
            use_type_invariant(&self.next);
        }
        std::mem::swap(&mut self.current, &mut self.next);
    }
}

/// The frames of a run of renderers keep their size up to step `k`.
proof fn lemma_sized_upto(run: Seq<Renderer>, rows: u16, cols: u16, k: int)
    requires
        0 <= k < run.len(),
        run[0].sized(rows, cols),
        forall|i: int| 0 <= i < run.len() - 1 ==> #[trigger] Renderer::frame_step(run[i], run[i + 1]),
    ensures
        run[k].sized(rows, cols),
    decreases k,
{
    if k > 0 {
        let i = k - 1;
        lemma_sized_upto(run, rows, cols, i);
        assert(Renderer::frame_step(run[i], run[i + 1]));
    }
}

/// Drawing frame after frame never changes their size. In a run of
/// renderers where each is one step from the one before (the pending frame
/// drawn into through its cells, a frame rendered, or a frame presented),
/// if both frames of the first are `rows` x `cols`, both frames of every
/// later one are too; and the frame shown changes only by a presentation,
/// which shows the frame that was pending.
pub proof fn lemma_frames_keep_size(run: Seq<Renderer>, rows: u16, cols: u16)
    requires
        run.len() > 0,
        run[0].sized(rows, cols),
        forall|i: int| 0 <= i < run.len() - 1 ==> #[trigger] Renderer::frame_step(run[i], run[i + 1]),
    ensures
        forall|i: int| 0 <= i < run.len() ==> #[trigger] run[i].sized(rows, cols),
        forall|i: int|
            0 <= i < run.len() - 1 ==> #[trigger] run[i + 1].shown() == run[i].shown()
                || run[i + 1].shown() == run[i].pending(),
{
    assert forall|i: int| 0 <= i < run.len() implies #[trigger] run[i].sized(rows, cols) by {
        lemma_sized_upto(run, rows, cols, i);
    }
    assert forall|i: int| 0 <= i < run.len() - 1 implies #[trigger] run[i + 1].shown()
        == run[i].shown() || run[i + 1].shown() == run[i].pending() by {
        assert(Renderer::frame_step(run[i], run[i + 1]));
    }
}

} // verus!
