use diff_context_space::information::{
    Information, InformationError, IMAGE_THRESHOLD, MAX_WIDTH,
};
use diff_context_space::LumaImage;

fn info(data: Vec<u64>, width: u32, name: &str) -> Information {
    Information { data, width, name: String::from(name) }
}

fn as_f32(c: Result<diff_context_space::Fraction, InformationError>) -> Result<f32, &'static str> {
    c.map(|f| f.numerator as f32 / f.denominator as f32).map_err(|e| e.message())
}

/// A 16 × 16 black and white picture, `#` for white.
fn picture(rows: &[&str]) -> LumaImage {
    let mut pixels = Vec::new();
    for r in rows {
        for ch in r.chars() {
            pixels.push(if ch == '#' { 255u8 } else { 0u8 });
        }
    }
    LumaImage { width: 16, height: rows.len() as u32, pixels }
}

fn smile() -> LumaImage {
    picture(&[
        ".##############.",
        "#..............#",
        "#..............#",
        "#...#......#...#",
        "#..#.#....#.#..#",
        "#..............#",
        "#..............#",
        "#..............#",
        "#.############.#",
        "#.#.#.#.#.#.##.#",
        "#..##.#.#.#.#..#",
        "#..##.#.#.###..#",
        "#...#.#.#.##...#",
        "#....######....#",
        "#..............#",
        ".##############.",
    ])
}

fn smile_data() -> Vec<u64> {
    vec![
        0b_0111111111111110,
        0b_1000000000000001,
        0b_1000000000000001,
        0b_1000100000010001,
        0b_1001010000101001,
        0b_1000000000000001,
        0b_1000000000000001,
        0b_1000000000000001,
        0b_1011111111111101,
        0b_1010101010101101,
        0b_1001101010101001,
        0b_1001101010111001,
        0b_1000101010110001,
        0b_1000011111100001,
        0b_1000000000000001,
        0b_0111111111111110,
    ]
}

#[test]
fn can_calculate_coherence_to() {
    let i1 = info(vec![0x01, 0x01, 0x01, 0x01, 0x01], 8, "name1");
    let i2 = info(vec![0x01, 0x02, 0x01, 0x01, 0x01], 8, "name2");
    let c = i1.coherence_to(&i2);
    assert_eq!(as_f32(c), Ok(0.8));
}

#[test]
fn can_calculate_full_coherence_to() {
    let i1 = info(vec![0x01, 0x01, 0x01, 0x01, 0x01], 8, "name1");
    let i2 = info(vec![0x01, 0x01, 0x01, 0x01, 0x01], 8, "name2");
    let c = i1.coherence_to(&i2);
    assert_eq!(as_f32(c), Ok(1.0));
}

#[test]
fn can_get_error_on_coherence_to_calculation() {
    let i1 = info(vec![0x01, 0x01, 0x01, 0x01, 0x01], 8, "name1");
    let i2 = info(vec![0x01, 0x02, 0x01, 0x01], 8, "name2");
    let e = i1.coherence_to(&i2);
    assert_eq!(as_f32(e), Err("Lengths do not match"));
    assert_eq!(e, Err(InformationError::LengthsDoNotMatch));
}

#[test]
fn coherence_is_exact_and_asymmetric() {
    let a = info(vec![0b1111, 0b0001], 8, "a");
    let b = info(vec![0b0011, 0b0011], 8, "b");
    let ab = a.coherence_to(&b).unwrap();
    assert_eq!((ab.numerator, ab.denominator), (3, 4));
    let ba = b.coherence_to(&a).unwrap();
    assert_eq!((ba.numerator, ba.denominator), (3, 5));
    let empty = info(vec![0, 0], 8, "e");
    let z = a.coherence_to(&empty).unwrap();
    assert_eq!((z.numerator, z.denominator), (0, 1));
}

#[test]
fn can_build_from_image() {
    let name = String::from("smile_bw_16x16.png");
    let img = smile();
    let actual = Information::from_image(&img, name.clone());
    let expected = Information { data: smile_data(), width: 16, name };
    for r in 0..16 {
        assert_eq!(actual.data[r], expected.data[r]);
    }
}

#[test]
fn information_can_to_image() {
    let data = vec![
        0b_0111111111111110,
        0b_1000000000000001,
        0b_1000000000000001,
        0b_1000100000010001,
        0b_1001010000101001,
        0b_1000000000000001,
        0b_1000000000000001,
        0b_1000000000000001,
        0b_1011111111111101,
        0b_1011010101010101,
        0b_1001010101011001,
        0b_1001110101011001,
        0b_1000110101010001,
        0b_1000011111100001,
        0b_1000000000000001,
        0b_0111111111111110,
    ];
    let name = String::from("name1");
    let expected = Information { data, width: 16, name: name.clone() };
    let img = expected.to_image();
    let actual = Information::from_image(&img, name);
    for r in 0..16 {
        assert_eq!(actual.data[r], expected.data[r]);
    }
}

#[test]
fn to_image_draws_the_leftmost_pixel_from_the_highest_bit() {
    let i = info(vec![0b1000_0001, 0b0100_0000], 8, "x");
    let img = i.to_image();
    assert_eq!((img.width, img.height), (8, 2));
    assert_eq!(img.pixels[0], 255);
    assert_eq!(img.pixels[7], 255);
    assert_eq!(img.pixels[1], 0);
    assert_eq!(img.pixels[8 + 1], 255);
    assert_eq!(img.pixels.iter().filter(|p| **p == 255).count(), 3);
}

#[test]
fn from_image_threshold_compares_strictly() {
    let img = LumaImage { width: 4, height: 1, pixels: vec![50, 51, 0, 255] };
    let i = Information::from_image(&img, String::from("t"));
    // pixel x maps to bit 3 - x
    assert_eq!(i.data, vec![0b0101]);
    let j = Information::from_image_threshold(&img, 0, String::from("t"));
    assert_eq!(j.data, vec![0b1101]);
    assert_eq!(IMAGE_THRESHOLD, 50);
    assert_eq!(MAX_WIDTH, 64);
}

#[test]
fn can_equal() {
    let img = smile();
    let name = String::from("smile_bw_16x16.png");
    let i1 = Information::from_image(&img, name.clone());
    let i2 = Information { data: smile_data(), width: 16, name };
    let actual = i1 == i2;
    assert_eq!(actual, true);
}

#[test]
fn can_not_equal() {
    let img = smile();
    let name = String::from("smile_bw_16x16.png");
    let i1 = Information::from_image(&img, name.clone());
    let mut data = smile_data();
    data[4] = 0b_1001010000101000;
    let i2 = Information { data, width: 16, name };
    let actual = i1 != i2;
    assert_eq!(actual, true);
}

#[test]
fn equality_needs_the_same_name() {
    let a = info(vec![1, 2], 8, "a");
    let b = info(vec![1, 2], 8, "b");
    assert!(a != b);
    assert!(a == a.duplicate());
    assert_eq!(a.get_empty_elt(), 0);
}
