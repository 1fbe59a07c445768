use diff_context_space::line_shift::{create_bitmap, shift_bitmap};

#[test]
fn bitmap_holds_a_vertical_line() {
    let v = create_bitmap();
    assert_eq!(v.len(), 16);
    assert_eq!(v[0], 0);
    assert_eq!(v[15], 0);
    assert!(v[1..15].iter().all(|r| *r == 0b_0000_0110_0000_0000));
}

#[test]
fn shifting_moves_every_row() {
    let v = create_bitmap();
    let s = shift_bitmap(&v, 1);
    assert_eq!(s[0], 0);
    assert!(s[1..15].iter().all(|r| *r == 0b_0000_0011_0000_0000));
    assert_eq!(shift_bitmap(&v, 15)[3], 0);
}
