use patchwork::buffer::{Buffer, Cell};

#[test]
fn new_buffer_is_all_default_cells() {
    let buf = Buffer::new(2, 3);
    assert_eq!(buf.rows(), 2);
    assert_eq!(buf.cols(), 3);
    assert_eq!(buf.cells().len(), 6);
    assert!(buf.cells().iter().all(|c| *c == Cell::default()));
}

#[test]
fn get_returns_none_out_of_bounds() {
    let buf = Buffer::new(2, 2);
    assert!(buf.get(0, 0).is_some());
    assert!(buf.get(2, 0).is_none()); // row out of range
    assert!(buf.get(0, 2).is_none()); // col out of range
}

#[test]
fn get_mut_writes_are_visible() {
    let mut buf = Buffer::new(1, 1);
    buf.get_mut(0, 0).unwrap().ch = 'x';
    assert_eq!(buf.get(0, 0).unwrap().ch, 'x');
}

#[test]
fn clear_resets_every_cell() {
    let mut buf = Buffer::new(1, 2);
    // Column 1 of row 0: coordinates are (x, y).
    buf.get_mut(1, 0).unwrap().ch = 'z';
    buf.clear();
    assert!(buf.cells().iter().all(|c| *c == Cell::default()));
}

#[test]
fn clear_keeps_the_size() {
    let mut buf = Buffer::new(1, 2);
    buf.get_mut(0, 0).unwrap().ch = 'y';
    buf.clear();
    assert_eq!(buf.rows(), 1);
    assert_eq!(buf.cols(), 2);
    assert_eq!(*buf.get(0, 0).unwrap(), Cell::default());
}
