use patchwork::buffer::{Color, Style};
use patchwork::demo::{
    center_dot, frame_local, inner_diagonal, interior, interior_halves, quadrants, react, solid,
    Reaction,
};
use patchwork::shape::{Dot, Line, RectShape};
use patchwork::shape::Rect;
use patchwork::terminal::{Event, Key, TermSize};

#[test]
fn quadrants_halve_the_screen_both_ways() {
    let (q1, q2, q3, q4) = quadrants(7, 9).unwrap();
    assert_eq!(q1, Rect { x: 0, y: 0, w: 4, h: 3 });
    assert_eq!(q2, Rect { x: 4, y: 0, w: 5, h: 3 });
    assert_eq!(q3, Rect { x: 0, y: 3, w: 4, h: 4 });
    assert_eq!(q4, Rect { x: 4, y: 3, w: 5, h: 4 });
}

#[test]
fn small_screens_are_not_split() {
    assert_eq!(quadrants(3, 80), None);
    assert_eq!(quadrants(24, 3), None);
    assert!(quadrants(4, 4).is_some());
    // Too small is decided before any halving, however long the other side.
    assert_eq!(quadrants(2, 60_000), None);
    assert_eq!(quadrants(60_000, 3), None);
}

#[test]
fn interior_is_one_cell_in_from_each_edge() {
    assert_eq!(interior(5, 4), Some(Rect { x: 1, y: 1, w: 3, h: 2 }));
    assert_eq!(interior(2, 9), None);
    assert_eq!(interior(9, 2), None);
}

#[test]
fn interior_halves_split_the_inside() {
    let (left, right) = interior_halves(9, 5).unwrap();
    assert_eq!(left, Rect { x: 1, y: 1, w: 3, h: 3 });
    assert_eq!(right, Rect { x: 4, y: 1, w: 4, h: 3 });
    assert_eq!(interior_halves(4, 5), None);
    assert_eq!(interior_halves(9, 2), None);
    assert_eq!(interior_halves(60_000, 2), None);
}

#[test]
fn quadrant_pieces() {
    let red = Color::Rgb(255, 0, 0);
    let style = solid(red);
    assert_eq!(style, Style { fg: red, ..Style::default() });
    assert_eq!(
        frame_local(5, 3, red),
        RectShape { area: Rect { x: 0, y: 0, w: 5, h: 3 }, style, fill: false }
    );
    assert_eq!(center_dot(5, 3, style), Dot { x: 2, y: 1, style });
    assert_eq!(inner_diagonal(6, 4, style), Line { x1: 1, y1: 1, x2: 4, y2: 2, style });
    assert_eq!(inner_diagonal(1, 0, style), Line { x1: 1, y1: 1, x2: 0, y2: 0, style });
}

#[test]
fn q_quits_resizes_restart_and_other_keys_echo() {
    assert_eq!(react(Event::Key(Key::Char('q'))), Reaction::Quit);
    assert_eq!(react(Event::Key(Key::Char('Q'))), Reaction::Echo(Key::Char('Q')));
    assert_eq!(react(Event::Key(Key::Enter)), Reaction::Echo(Key::Enter));
    let size = TermSize { rows: 30, cols: 100 };
    assert_eq!(react(Event::Resize(size)), Reaction::Resize(size));
}
