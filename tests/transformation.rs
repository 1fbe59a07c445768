use diff_context_space::transformations::build_transformations;
use diff_context_space::{Information, Transformation};

fn info(data: Vec<u64>, width: u32) -> Information {
    Information { data, width, name: String::new() }
}

fn shift(x: i16, y: i16, data: Vec<u64>, width: u32) -> Vec<u64> {
    let t = Transformation { x, y, a: 0 };
    t.apply_shift_to(&info(data, width)).data
}

#[test]
fn can_shift_h_right() {
    let t = Transformation { x: 1, y: 0, a: 0 };
    let i = info(vec![0b_0010_0000, 0b_0010_0000, 0b_0010_0000], 8);
    let int = t.apply_shift_to(&i);
    assert_eq!(int.data, vec![0b_0001_0000, 0b_0001_0000, 0b_0001_0000]);
}

#[test]
fn can_shift_h_left() {
    let t = Transformation { x: -1, y: 0, a: 0 };
    let i = info(vec![0b_0010_0000, 0b_0010_0000, 0b_0010_0000], 32);
    let int = t.apply_shift_to(&i);
    assert_eq!(int.data, vec![0b_0100_0000, 0b_0100_0000, 0b_0100_0000]);
}

#[test]
fn can_shift_vertical_up() {
    let t = Transformation { x: 0, y: 1, a: 0 };
    let i = info(vec![0b_0000_0000, 0b_0010_0000, 0b_0000_0000], 8);
    let int = t.apply_shift_to(&i);
    assert_eq!(int.data, vec![0b_0010_0000, 0b_0000_0000, 0b_0000_0000]);
}

#[test]
fn can_shift_vertical_down() {
    let t = Transformation { x: 0, y: -1, a: 0 };
    let i = info(vec![0b_0000_0000, 0b_0010_0000, 0b_0000_0000], 32);
    let int = t.apply_shift_to(&i);
    assert_eq!(int.data, vec![0b_0000_0000, 0b_0000_0000, 0b_0010_0000]);
}

#[test]
fn can_shift_vertical_up_and_h_right() {
    let t = Transformation { x: 1, y: 1, a: 0 };
    let i = info(vec![0b_0000_0000, 0b_0010_0000, 0b_0000_0000], 8);
    let int = t.apply_shift_to(&i);
    assert_eq!(int.data, vec![0b_0001_0000, 0b_0000_0000, 0b_0000_0000]);
}

#[test]
fn can_shift_vertical_down_and_h_left() {
    let t = Transformation { x: -1, y: -1, a: 0 };
    let i = info(vec![0b_0000_0000, 0b_0010_0000, 0b_0000_0000], 8);
    let int = t.apply_shift_to(&i);
    assert_eq!(int.data, vec![0b_0000_0000, 0b_0000_0000, 0b_0100_0000]);
}

#[test]
fn shift_keeps_the_name_and_fills_with_black() {
    let t = Transformation { x: 2, y: 0, a: 0 };
    let i = Information { data: vec![0b1000_0000], width: 8, name: String::from("n") };
    let out = t.apply_shift_to(&i);
    assert_eq!(out.name, "n");
    // the uncovered columns stay black
    assert_eq!(out.data, vec![0b0010_0000]);
    let right = Transformation { x: 1, y: 0, a: 0 };
    assert_eq!(right.apply_shift_to(&info(vec![0x80], 8)).data, vec![0x40]);
    let up = Transformation { x: 0, y: 1, a: 0 };
    assert_eq!(up.apply_shift_to(&info(vec![0x80, 0x01], 8)).data, vec![0x01, 0]);
}

#[test]
fn zero_shift_is_the_identity() {
    let data = vec![0b1011_0001, 0, 0xff, 0b0100_0010];
    assert_eq!(shift(0, 0, data.clone(), 8), data);
    let wide = vec![u64::MAX, 1, 1 << 63];
    assert_eq!(shift(0, 0, wide.clone(), 64), wide);
}

#[test]
fn translations_that_keep_every_pixel_compose() {
    let row = vec![0x42];
    assert_eq!(shift(-1, 0, shift(1, 0, row.clone(), 8), 8), row);
    let data = vec![0, 0b0011_0100, 0b0000_1000, 0, 0b0100_0000, 0];
    let back = shift(-2, 1, shift(2, -1, data.clone(), 8), 8);
    assert_eq!(back, data);
    let twice = shift(1, -1, shift(2, -1, data.clone(), 8), 8);
    let once = shift(3, -2, data.clone(), 8);
    assert_eq!(twice, once);
    let left = shift(-1, 2, shift(-1, 1, data.clone(), 8), 8);
    assert_eq!(left, shift(-2, 3, data, 8));
}

#[test]
fn translations_lose_the_pixels_pushed_out() {
    // the rightmost pixel is pushed off by the first shift
    assert_eq!(shift(-1, 0, shift(1, 0, vec![0x81], 8), 8), vec![0x80]);
    let data = vec![0b0000_0001];
    let there_and_back = shift(-1, 0, shift(1, 0, data.clone(), 8), 8);
    assert_ne!(there_and_back, shift(0, 0, data, 8));
}

#[test]
fn equality_ignores_the_angle() {
    let a = Transformation { x: 1, y: -2, a: 0 };
    let b = Transformation { x: 1, y: -2, a: 3 };
    assert!(a == b);
    assert!(!a.is_within_learning_distance(&b));
    assert!(a.is_within_learning_distance(&a));
    assert!(a != Transformation { x: 2, y: -2, a: 0 });
}

fn xya(ts: &[Transformation]) -> Vec<(i16, i16, i16)> {
    ts.iter().map(|t| (t.x, t.y, t.a)).collect()
}

#[test]
fn catalog_sweeps_the_quadrant_and_its_mirrors() {
    let ts = build_transformations(2, false);
    assert_eq!(
        xya(&ts),
        vec![
            (0, 0, 0),
            (1, 0, 0),
            (-1, 0, 0),
            (0, 1, 0),
            (0, -1, 0),
            (1, 1, 0),
            (1, -1, 0),
            (-1, 1, 0),
            (-1, -1, 0),
        ]
    );
    let rotated = build_transformations(2, true);
    assert_eq!(rotated.len(), 36);
    assert_eq!(xya(&rotated[0..5]), vec![(0, 0, 0), (0, 0, 3), (0, 0, 6), (0, 0, 9), (1, 0, 0)]);
    // a 64 pixel sweep covers 33 × 33 quadrant points
    assert_eq!(build_transformations(64, false).len(), 65 * 65);
    assert_eq!(build_transformations(0, false).len(), 1);
}
