use patchwork::buffer::{Buffer, Cell, Color, Style};
use patchwork::pane::Pane;
use patchwork::renderer::{diff, diff_to_ansi, write_style, Renderer};
use patchwork::shape::{Dot, Line, Rect, RectShape};
use patchwork::text::TextBox;
use patchwork::Draw;

fn at_origin() -> Rect {
    Rect { x: 0, y: 0, w: 0, h: 0 }
}

/// The (x, y) positions holding `ch`, in row-major order.
fn cells_with(buf: &Buffer, ch: char) -> Vec<(u16, u16)> {
    let mut found = Vec::new();
    for y in 0..buf.rows() {
        for x in 0..buf.cols() {
            if buf.get(x, y).unwrap().ch == ch {
                found.push((x, y));
            }
        }
    }
    found
}

fn draw_line(rows: u16, cols: u16, x1: u16, y1: u16, x2: u16, y2: u16) -> Vec<(u16, u16)> {
    let mut buf = Buffer::new(rows, cols);
    Line { x1, y1, x2, y2, style: Style::default() }.draw(&mut buf, at_origin());
    cells_with(&buf, '·')
}

#[test]
fn write_then_read_leaves_other_cells_alone() {
    let mut buf = Buffer::new(2, 3);
    let style = Style { bold: true, ..Style::default() };
    *buf.get_mut(1, 1).unwrap() = Cell { ch: 'q', style };
    assert_eq!(*buf.get(1, 1).unwrap(), Cell { ch: 'q', style });
    for y in 0..2 {
        for x in 0..3 {
            if (x, y) != (1, 1) {
                assert_eq!(*buf.get(x, y).unwrap(), Cell::default());
            }
        }
    }
    // Row-major: (x = 1, y = 1) is cell 1 * 3 + 1.
    assert_eq!(buf.cells()[4].ch, 'q');
}

#[test]
fn get_mut_out_of_bounds_is_none() {
    let mut buf = Buffer::new(2, 3);
    assert!(buf.get_mut(3, 0).is_none());
    assert!(buf.get_mut(0, 2).is_none());
    assert!(buf.get_mut(2, 1).is_some());
}

#[test]
fn empty_buffer_has_no_cells() {
    let buf = Buffer::new(0, 5);
    assert_eq!(buf.cells().len(), 0);
    assert!(buf.get(0, 0).is_none());
}

#[test]
fn line_endpoints_are_both_drawn() {
    let cells = draw_line(3, 5, 1, 0, 4, 2);
    assert!(cells.contains(&(1, 0)));
    assert!(cells.contains(&(4, 2)));
}

#[test]
fn line_shallow_slope_steps_exactly() {
    // Bresenham from (0, 0) to (2, 1): the error term favours the diagonal step first.
    assert_eq!(draw_line(2, 3, 0, 0, 2, 1), vec![(0, 0), (1, 1), (2, 1)]);
}

#[test]
fn sloped_lines_cover_the_same_cells_both_ways() {
    // The walk always starts from the left end, so the order of the endpoints
    // does not matter.
    assert_eq!(draw_line(2, 3, 2, 1, 0, 0), vec![(0, 0), (1, 1), (2, 1)]);
    assert_eq!(draw_line(4, 7, 6, 0, 0, 3), draw_line(4, 7, 0, 3, 6, 0));
    assert_eq!(draw_line(7, 4, 1, 6, 3, 0), draw_line(7, 4, 3, 0, 1, 6));
    assert_eq!(draw_line(5, 5, 2, 4, 2, 0), draw_line(5, 5, 2, 0, 2, 4));
}

#[test]
fn straight_lines_cover_the_same_cells_both_ways() {
    assert_eq!(draw_line(3, 6, 1, 1, 5, 1), draw_line(3, 6, 5, 1, 1, 1));
    assert_eq!(draw_line(6, 3, 2, 0, 2, 4), draw_line(6, 3, 2, 4, 2, 0));
    assert_eq!(draw_line(5, 5, 4, 0, 0, 4), draw_line(5, 5, 0, 4, 4, 0));
    assert_eq!(draw_line(5, 5, 4, 0, 0, 4), vec![(4, 0), (3, 1), (2, 2), (1, 3), (0, 4)]);
}

#[test]
fn line_points_past_the_coordinate_range_are_skipped() {
    // From column 65535 the walk continues to 65536 and beyond; those steps
    // fall off the buffer rather than wrapping to column 0.
    let mut buf = Buffer::new(1, 3);
    let area = Rect { x: 65535, y: 0, w: 0, h: 0 };
    Line { x1: 0, y1: 0, x2: 2, y2: 0, style: Style::default() }.draw(&mut buf, area);
    assert!(cells_with(&buf, '·').is_empty());
}

#[test]
fn line_is_offset_by_its_area_and_clipped() {
    let mut buf = Buffer::new(2, 3);
    let area = Rect { x: 1, y: 1, w: 0, h: 0 };
    Line { x1: 0, y1: 0, x2: 5, y2: 0, style: Style::default() }.draw(&mut buf, area);
    assert_eq!(cells_with(&buf, '·'), vec![(1, 1), (2, 1)]);
}

#[test]
fn rect_outline_offset_by_area() {
    let mut buf = Buffer::new(4, 5);
    let area = Rect { x: 1, y: 1, w: 9, h: 9 };
    RectShape { area: Rect { x: 1, y: 0, w: 3, h: 2 }, style: Style::default(), fill: false }
        .draw(&mut buf, area);
    assert_eq!(buf.get(2, 1).unwrap().ch, '┌');
    assert_eq!(buf.get(3, 1).unwrap().ch, '─');
    assert_eq!(buf.get(4, 1).unwrap().ch, '┐');
    assert_eq!(buf.get(2, 2).unwrap().ch, '└');
    assert_eq!(buf.get(3, 2).unwrap().ch, '─');
    assert_eq!(buf.get(4, 2).unwrap().ch, '┘');
    assert_eq!(buf.get(1, 1).unwrap().ch, ' ');
    assert_eq!(buf.get(2, 3).unwrap().ch, ' ');
}

#[test]
fn rect_shape_is_clipped_at_the_buffer_edge() {
    let mut buf = Buffer::new(2, 2);
    RectShape { area: Rect { x: 1, y: 1, w: 4, h: 4 }, style: Style::default(), fill: false }
        .draw(&mut buf, at_origin());
    assert_eq!(buf.get(1, 1).unwrap().ch, '┌');
    assert_eq!(buf.get(0, 0).unwrap().ch, ' ');
    assert_eq!(buf.get(1, 0).unwrap().ch, ' ');
}

#[test]
fn empty_rect_shape_draws_nothing() {
    let mut buf = Buffer::new(2, 2);
    RectShape { area: Rect { x: 0, y: 0, w: 0, h: 2 }, style: Style::default(), fill: true }
        .draw(&mut buf, at_origin());
    assert!(buf.cells().iter().all(|c| *c == Cell::default()));
}

#[test]
fn outline_leaves_the_interior_untouched() {
    let mut buf = Buffer::new(4, 4);
    *buf.get_mut(1, 2).unwrap() = Cell { ch: 'k', style: Style::default() };
    RectShape { area: Rect { x: 0, y: 0, w: 4, h: 4 }, style: Style::default(), fill: false }
        .draw(&mut buf, at_origin());
    assert_eq!(buf.get(1, 2).unwrap().ch, 'k');
    assert_eq!(buf.get(0, 2).unwrap().ch, '│');
    assert_eq!(buf.get(3, 1).unwrap().ch, '│');
    assert_eq!(buf.get(2, 3).unwrap().ch, '─');
}

#[test]
fn text_new_counts_characters_not_bytes() {
    let tb = TextBox::new(0, 0, "héllo", Style::default());
    assert_eq!(tb.text_area.w, 5);
    assert_eq!(tb.data, "héllo");
}

#[test]
fn text_new_width_saturates() {
    let long = "x".repeat(70_000);
    let tb = TextBox::new(0, 0, &long, Style::default());
    assert_eq!(tb.text_area.w, u16::MAX);
    assert_eq!(tb.text_area.h, 1);
    let exact = "é".repeat(65_535);
    assert_eq!(TextBox::new(0, 0, &exact, Style::default()).text_area.w, 65_535);
    let over = "é".repeat(65_536);
    assert_eq!(TextBox::new(0, 0, &over, Style::default()).text_area.w, 65_535);
}

#[test]
fn text_never_draws_outside_its_box() {
    let mut buf = Buffer::new(4, 6);
    let tb = TextBox {
        text_area: Rect { x: 1, y: 1, w: 2, h: 2 },
        data: "abcdefgh".to_string(),
        style: Style::default(),
    };
    tb.draw(&mut buf, at_origin());
    let row = |y: u16| -> String { (0..6).map(|x| buf.get(x, y).unwrap().ch).collect() };
    assert_eq!(row(0), "      ");
    assert_eq!(row(1), " ab   ");
    assert_eq!(row(2), " cd   ");
    assert_eq!(row(3), "      ");
}

#[test]
fn text_newline_at_a_full_row_starts_one_row() {
    let mut buf = Buffer::new(3, 2);
    let tb = TextBox {
        text_area: Rect { x: 0, y: 0, w: 2, h: 3 },
        data: "ab\ncd".to_string(),
        style: Style::default(),
    };
    tb.draw(&mut buf, at_origin());
    assert_eq!(buf.get(0, 1).unwrap().ch, 'c');
    assert_eq!(buf.get(1, 1).unwrap().ch, 'd');
    assert_eq!(buf.get(0, 2).unwrap().ch, ' ');
}

#[test]
fn zero_width_text_box_draws_nothing() {
    let mut buf = Buffer::new(1, 3);
    let tb = TextBox {
        text_area: Rect { x: 0, y: 0, w: 0, h: 1 },
        data: "abc".to_string(),
        style: Style::default(),
    };
    tb.draw(&mut buf, at_origin());
    assert!(buf.cells().iter().all(|c| c.ch == ' '));
}

#[test]
fn dot_is_offset_by_its_area() {
    let mut buf = Buffer::new(3, 3);
    Dot { x: 1, y: 0, style: Style::default() }.draw(&mut buf, Rect { x: 1, y: 2, w: 0, h: 0 });
    assert_eq!(cells_with(&buf, '•'), vec![(2, 2)]);
}

#[test]
fn pane_draws_content_then_children_relative_to_itself() {
    let mut buf = Buffer::new(4, 6);
    let mut root = Pane::new(Rect { x: 1, y: 1, w: 4, h: 3 });
    root.push(Box::new(RectShape {
        area: Rect { x: 0, y: 0, w: 4, h: 3 },
        style: Style::default(),
        fill: false,
    }));
    let mut child = Pane::new(Rect { x: 1, y: 1, w: 2, h: 1 });
    child.push(Box::new(Dot { x: 0, y: 0, style: Style::default() }));
    root.add_child(child);
    // A child drawn after the content overwrites it.
    let mut corner = Pane::new(Rect { x: 0, y: 0, w: 1, h: 1 });
    corner.push(Box::new(Dot { x: 0, y: 0, style: Style::default() }));
    root.add_child(corner);
    root.draw(&mut buf, at_origin());

    assert_eq!(buf.get(1, 1).unwrap().ch, '•'); // corner overwritten by the last child
    assert_eq!(buf.get(4, 1).unwrap().ch, '┐');
    assert_eq!(buf.get(2, 2).unwrap().ch, '•'); // child at (1 + 1, 1 + 1)
    assert_eq!(buf.get(1, 3).unwrap().ch, '└');
    assert_eq!(buf.get(0, 0).unwrap().ch, ' ');
}

#[test]
fn diff_lists_changes_in_row_major_order() {
    let old = Buffer::new(2, 3);
    let mut new = old.clone();
    new.get_mut(0, 1).unwrap().ch = 'b';
    new.get_mut(2, 0).unwrap().ch = 'a';
    let d = diff(&old, &new);
    assert_eq!(d.changes.len(), 2);
    assert_eq!((d.changes[0].row, d.changes[0].col, d.changes[0].cell.ch), (0, 2, 'a'));
    assert_eq!((d.changes[1].row, d.changes[1].col, d.changes[1].cell.ch), (1, 0, 'b'));
}

#[test]
fn applying_a_diff_reproduces_the_new_frame() {
    let mut old = Buffer::new(3, 4);
    old.get_mut(1, 1).unwrap().ch = 'x';
    old.get_mut(3, 2).unwrap().ch = 'y';
    let mut new = old.clone();
    new.get_mut(1, 1).unwrap().ch = ' ';
    new.get_mut(0, 0).unwrap().style = Style { underline: true, ..Style::default() };
    new.get_mut(3, 2).unwrap().ch = 'z';
    let d = diff(&old, &new);
    assert_eq!(d.changes.len(), 3);
    let mut applied = old.clone();
    for c in &d.changes {
        *applied.get_mut(c.col, c.row).unwrap() = c.cell;
        assert_ne!(*old.get(c.col, c.row).unwrap(), c.cell);
    }
    assert_eq!(applied.cells(), new.cells());
}

#[test]
fn diff_is_empty_only_for_equal_frames() {
    let old = Buffer::new(2, 2);
    let mut new = old.clone();
    assert!(diff(&old, &new).is_empty());
    new.get_mut(1, 1).unwrap().style = Style { bold: true, ..Style::default() };
    assert!(!diff(&old, &new).is_empty());
}

#[test]
fn diff_to_ansi_emits_exact_escapes() {
    let old = Buffer::new(2, 3);
    let mut new = old.clone();
    *new.get_mut(1, 0).unwrap() = Cell {
        ch: 'Z',
        style: Style { fg: Color::Indexed(9), bg: Color::Rgb(1, 2, 3), bold: true, underline: true },
    };
    *new.get_mut(2, 1).unwrap() = Cell { ch: 'q', style: Style::default() };
    let mut out = String::from(">");
    diff_to_ansi(&diff(&old, &new), &mut out);
    assert_eq!(
        out,
        ">\x1b[1;2H\x1b[0m\x1b[1m\x1b[4m\x1b[38;5;9m\x1b[48;2;1;2;3mZ\x1b[2;3H\x1b[0mq"
    );
}

#[test]
fn write_style_resets_first() {
    let mut out = String::new();
    write_style(&Style::default(), &mut out);
    assert_eq!(out, "\x1b[0m");
    let mut out = String::new();
    write_style(&Style { fg: Color::Indexed(0), bg: Color::Indexed(255), ..Style::default() }, &mut out);
    assert_eq!(out, "\x1b[0m\x1b[38;5;0m\x1b[48;5;255m");
}

#[test]
fn renderer_emits_only_changes_and_swaps() {
    let mut r = Renderer::new(2, 2);
    assert!(r.frames_match());
    // Nothing drawn yet: nothing to emit.
    assert!(!r.prepare_frame());
    assert_eq!(r.output_str(), "");

    r.next_mut().get_mut(1, 0).unwrap().ch = 'A';
    assert!(r.prepare_frame());
    assert_eq!(r.output_str(), "\x1b[1;2H\x1b[0mA");
    r.present();

    // The old front buffer is now the one to draw into.
    assert_eq!(r.next_mut().get(1, 0).unwrap().ch, ' ');
    r.next_mut().get_mut(0, 1).unwrap().ch = 'B';
    r.next_mut().get_mut(1, 0).unwrap().ch = 'A';
    assert!(r.prepare_frame());
    // The scratch output was cleared: only this frame's change is there.
    assert_eq!(r.output_str(), "\x1b[2;1H\x1b[0mB");
    r.present();

    // Drawing the same frame again changes nothing, and the output is kept.
    r.next_mut().get_mut(0, 1).unwrap().ch = 'B';
    r.next_mut().get_mut(1, 0).unwrap().ch = 'A';
    assert!(!r.prepare_frame());
    assert_eq!(r.output_str(), "\x1b[2;1H\x1b[0mB");
}

#[test]
fn renderer_frames_must_match_in_size() {
    let mut r = Renderer::new(2, 2);
    *r.next_mut() = Buffer::new(3, 2);
    assert!(!r.frames_match());
}

#[test]
fn split_edges_of_the_percent_range() {
    let r = Rect { x: 3, y: 4, w: 100, h: 200 };
    let (top, bottom) = r.split_vertical(1);
    assert_eq!(top, Rect { x: 3, y: 4, w: 100, h: 2 });
    assert_eq!(bottom, Rect { x: 3, y: 6, w: 100, h: 198 });
    let (left, right) = r.split_horizontal(99);
    assert_eq!(left, Rect { x: 3, y: 4, w: 99, h: 200 });
    assert_eq!(right, Rect { x: 102, y: 4, w: 1, h: 200 });
}

#[test]
fn pending_frame_keeps_its_size_across_frames() {
    let mut r = Renderer::new(3, 4);
    for frame in 0..5u16 {
        let next = r.next_mut();
        assert_eq!((next.rows(), next.cols()), (3, 4));
        next.clear();
        next.get_mut(frame % 4, frame % 3).unwrap().ch = 'o';
        assert!(r.frames_match());
        if r.prepare_frame() {
            r.present();
        }
        assert_eq!((r.next_mut().rows(), r.next_mut().cols()), (3, 4));
    }
}

#[test]
fn unbroken_text_fills_the_box_row_by_row() {
    let mut buf = Buffer::new(4, 4);
    let tb = TextBox {
        text_area: Rect { x: 0, y: 0, w: 3, h: 3 },
        data: "abcdefg".to_string(),
        style: Style::default(),
    };
    tb.draw(&mut buf, at_origin());
    let row = |y: u16| -> String { (0..4).map(|x| buf.get(x, y).unwrap().ch).collect() };
    assert_eq!(row(0), "abc ");
    assert_eq!(row(1), "def ");
    assert_eq!(row(2), "g   ");
    assert_eq!(row(3), "    ");
}

#[test]
fn a_line_takes_one_step_per_cell_of_its_longer_side() {
    // Shallow: one cell in every column, rows moving by at most one.
    let shallow = draw_line(3, 6, 0, 0, 5, 2);
    assert_eq!(shallow.len(), 6);
    let mut by_col: Vec<(u16, u16)> = shallow.clone();
    by_col.sort();
    for (k, w) in by_col.windows(2).enumerate() {
        assert_eq!(w[0].0 as usize, k);
        assert_eq!(w[1].0, w[0].0 + 1);
        assert!(w[1].1 >= w[0].1 && w[1].1 - w[0].1 <= 1);
    }
    // Steep: one cell in every row.
    let steep = draw_line(6, 3, 0, 0, 2, 5);
    assert_eq!(steep.len(), 6);
    let rows: Vec<u16> = steep.iter().map(|&(_, y)| y).collect();
    assert_eq!(rows, vec![0, 1, 2, 3, 4, 5]);
}
