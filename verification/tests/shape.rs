use patchwork::buffer::{Buffer, Color, Style};
use patchwork::shape::{Dot, Line, Rect, RectShape};
use patchwork::Draw;

/// Shorthand for building a geometry rect in the split tests.
fn rect(x: u16, y: u16, w: u16, h: u16) -> Rect {
    Rect { x, y, w, h }
}

/// Zero origin: drawing against it makes relative coords equal absolute,
/// so the shape-drawing tests can keep using absolute coordinates.
fn zero() -> Rect {
    rect(0, 0, 0, 0)
}

#[test]
fn dot_draws_bullet_at_its_xy() {
    let mut buf = Buffer::new(3, 4); // 3 rows x 4 cols
    let dot = Dot {
        x: 2,
        y: 1,
        style: Style::default(),
    };
    dot.draw(&mut buf, zero());

    // The bullet lands at (x=2, y=1), and nowhere else.
    assert_eq!(buf.get(2, 1).unwrap().ch, '•');
    let drawn = buf.cells().iter().filter(|c| c.ch == '•').count();
    assert_eq!(drawn, 1);
}

#[test]
fn dot_carries_its_style() {
    let mut buf = Buffer::new(1, 1);
    let style = Style {
        fg: Color::Indexed(9),
        ..Style::default()
    };
    Dot { x: 0, y: 0, style }.draw(&mut buf, zero());
    assert_eq!(buf.get(0, 0).unwrap().style, style);
}

#[test]
fn dot_out_of_bounds_is_a_noop() {
    // y = 5 is past the 2 rows; drawing must not panic and must change nothing.
    let mut buf = Buffer::new(2, 2);
    Dot {
        x: 0,
        y: 5,
        style: Style::default(),
    }
    .draw(&mut buf, zero());
    assert!(buf.cells().iter().all(|c| c.ch != '•'));
}

#[test]
fn vertical_split_tiles_exactly() {
    let r = rect(0, 0, 80, 100);
    let (top, bottom) = r.split_vertical(30);

    assert_eq!(top, rect(0, 0, 80, 30));
    assert_eq!(bottom, rect(0, 30, 80, 70));
    // Pieces are flush and cover the whole height.
    assert_eq!(top.h + bottom.h, r.h);
    assert_eq!(bottom.y, top.y + top.h);
}

#[test]
fn horizontal_split_tiles_exactly() {
    let r = rect(5, 2, 100, 40);
    let (left, right) = r.split_horizontal(25);

    assert_eq!(left, rect(5, 2, 25, 40));
    assert_eq!(right, rect(30, 2, 75, 40));
    assert_eq!(left.w + right.w, r.w);
    assert_eq!(right.x, left.x + left.w);
}

#[test]
fn split_preserves_origin_offset() {
    // A non-zero origin must carry through to both pieces.
    let r = rect(10, 20, 50, 50);
    let (top, bottom) = r.split_vertical(50);
    assert_eq!(top.x, 10);
    assert_eq!(top.y, 20);
    assert_eq!(bottom.x, 10);
    assert_eq!(bottom.y, 45); // 20 + 25
}

#[test]
fn line_horizontal() {
    let mut buf = Buffer::new(1, 4); // 1 row, 4 cols
    Line {
        x1: 0,
        y1: 0,
        x2: 3,
        y2: 0,
        style: Style::default(),
    }
    .draw(&mut buf, zero());
    assert!(buf.cells().iter().all(|c| c.ch == '·'));
}

#[test]
fn line_vertical() {
    let mut buf = Buffer::new(3, 1); // 3 rows, 1 col
    Line {
        x1: 0,
        y1: 0,
        x2: 0,
        y2: 2,
        style: Style::default(),
    }
    .draw(&mut buf, zero());
    assert!(buf.cells().iter().all(|c| c.ch == '·'));
}

#[test]
fn line_diagonal_hits_the_diagonal_cells() {
    let mut buf = Buffer::new(3, 3);
    Line {
        x1: 0,
        y1: 0,
        x2: 2,
        y2: 2,
        style: Style::default(),
    }
    .draw(&mut buf, zero());
    // Perfect 45°: exactly the main diagonal is drawn.
    assert_eq!(buf.get(0, 0).unwrap().ch, '·');
    assert_eq!(buf.get(1, 1).unwrap().ch, '·');
    assert_eq!(buf.get(2, 2).unwrap().ch, '·');
    // Off-diagonal corners stay blank.
    assert_eq!(buf.get(2, 0).unwrap().ch, ' ');
    assert_eq!(buf.get(0, 2).unwrap().ch, ' ');
}

#[test]
fn line_endpoints_are_inclusive_and_direction_agnostic() {
    // Drawing from B to A covers the same cells as A to B.
    let mut buf = Buffer::new(1, 3);
    Line {
        x1: 2,
        y1: 0,
        x2: 0,
        y2: 0,
        style: Style::default(),
    }
    .draw(&mut buf, zero());
    assert_eq!(buf.get(0, 0).unwrap().ch, '·'); // endpoint
    assert_eq!(buf.get(1, 0).unwrap().ch, '·');
    assert_eq!(buf.get(2, 0).unwrap().ch, '·'); // other endpoint
}

#[test]
fn line_single_point() {
    let mut buf = Buffer::new(1, 1);
    Line {
        x1: 0,
        y1: 0,
        x2: 0,
        y2: 0,
        style: Style::default(),
    }
    .draw(&mut buf, zero());
    assert_eq!(buf.get(0, 0).unwrap().ch, '·');
}

#[test]
fn rect_shape_draws_outline_with_corners() {
    let mut buf = Buffer::new(3, 3); // exactly fits a 3x3 box
    RectShape {
        area: rect(0, 0, 3, 3),
        style: Style::default(),
        fill: false,
    }
    .draw(&mut buf, zero());

    // Corners.
    assert_eq!(buf.get(0, 0).unwrap().ch, '┌');
    assert_eq!(buf.get(2, 0).unwrap().ch, '┐');
    assert_eq!(buf.get(0, 2).unwrap().ch, '└');
    assert_eq!(buf.get(2, 2).unwrap().ch, '┘');
    // Edges.
    assert_eq!(buf.get(1, 0).unwrap().ch, '─');
    assert_eq!(buf.get(0, 1).unwrap().ch, '│');
    // The center stays blank (outline only).
    assert_eq!(buf.get(1, 1).unwrap().ch, ' ');
}

#[test]
fn rect_shape_fill_paints_every_cell() {
    let mut buf = Buffer::new(2, 2);
    let style = Style {
        bg: Color::Indexed(4),
        ..Style::default()
    };
    RectShape {
        area: rect(0, 0, 2, 2),
        style,
        fill: true,
    }
    .draw(&mut buf, zero());

    // Every cell is a blank painted in the fill style.
    assert!(buf.cells().iter().all(|c| c.ch == ' ' && c.style == style));
}

#[test]
fn rect_shape_1xn_outline_is_a_vertical_line() {
    let mut buf = Buffer::new(3, 1); // 3 rows, 1 col
    RectShape {
        area: rect(0, 0, 1, 3),
        style: Style::default(),
        fill: false,
    }
    .draw(&mut buf, zero());
    // No box corners — just a vertical line of '│'.
    assert!(buf.cells().iter().all(|c| c.ch == '│'));
}

#[test]
fn rect_shape_nx1_outline_is_a_horizontal_line() {
    let mut buf = Buffer::new(1, 4); // 1 row, 4 cols
    RectShape {
        area: rect(0, 0, 4, 1),
        style: Style::default(),
        fill: false,
    }
    .draw(&mut buf, zero());
    assert!(buf.cells().iter().all(|c| c.ch == '─'));
}

#[test]
fn rect_shape_1x1_outline_is_a_dot() {
    let mut buf = Buffer::new(1, 1);
    RectShape {
        area: rect(0, 0, 1, 1),
        style: Style::default(),
        fill: false,
    }
    .draw(&mut buf, zero());
    assert_eq!(buf.get(0, 0).unwrap().ch, '•');
}

#[test]
fn rect_shape_1xn_fill_still_paints_the_strip() {
    // Fill is unaffected by the degenerate-outline rules.
    let mut buf = Buffer::new(3, 1);
    RectShape {
        area: rect(0, 0, 1, 3),
        style: Style::default(),
        fill: true,
    }
    .draw(&mut buf, zero());
    assert!(buf.cells().iter().all(|c| c.ch == ' '));
}

#[test]
fn integer_rounding_still_tiles() {
    // 100 * 33 / 100 = 33, remainder 67 — must still add up, no lost cell.
    let r = rect(0, 0, 10, 100);
    let (top, bottom) = r.split_vertical(33);
    assert_eq!(top.h, 33);
    assert_eq!(bottom.h, 67);
    assert_eq!(top.h + bottom.h, r.h);
}
