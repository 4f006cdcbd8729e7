use patchwork::buffer::{Buffer, Color};
use patchwork::renderer::{diff, diff_to_ansi, write_color};

#[test]
fn diff_of_identical_buffers_is_empty() {
    let a = Buffer::new(2, 2);
    let b = Buffer::new(2, 2);
    assert!(diff(&a, &b).is_empty());
}

#[test]
fn diff_reports_changed_cell_at_correct_coords() {
    let old = Buffer::new(2, 3);
    let mut new = old.clone();
    new.get_mut(2, 1).unwrap().ch = 'A'; // (x=2, y=1) => row 1, col 2

    let d = diff(&old, &new);
    assert_eq!(d.changes.len(), 1);
    assert_eq!(d.changes[0].row, 1);
    assert_eq!(d.changes[0].col, 2);
    assert_eq!(d.changes[0].cell.ch, 'A');
}

#[test]
fn diff_to_ansi_moves_cursor_one_based() {
    let old = Buffer::new(1, 1);
    let mut new = old.clone();
    new.get_mut(0, 0).unwrap().ch = 'X';

    let mut out = String::new();
    diff_to_ansi(&diff(&old, &new), &mut out);
    // 0-based (0,0) -> 1-based cursor move "1;1H", then reset, then the char.
    assert!(out.contains("\x1b[1;1H"));
    assert!(out.ends_with('X'));
}

#[test]
fn indexed_color_emits_256_color_escape() {
    let mut out = String::new();
    write_color(Color::Indexed(42), true, &mut out);
    assert_eq!(out, "\x1b[38;5;42m");
}

#[test]
fn rgb_color_emits_truecolor_escape() {
    let mut out = String::new();
    write_color(Color::Rgb(1, 2, 3), false, &mut out); // bg
    assert_eq!(out, "\x1b[48;2;1;2;3m");
}

#[test]
fn default_color_emits_nothing() {
    let mut out = String::new();
    write_color(Color::Default, true, &mut out);
    assert!(out.is_empty());
}
