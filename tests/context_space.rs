use diff_context_space::{Context, ContextSpace, Fraction, Information, Rule, Transformation};

fn info(data: Vec<u64>, width: u32, name: &str) -> Information {
    Information { data, width, name: String::from(name) }
}

#[test]
fn rule_can_to_image() {
    let mut i_data = vec![0u64; 16];
    i_data[0] = 0b_0100000000000000;
    let mut int_data = vec![0u64; 16];
    int_data[0] = 0b_1000000000000000;
    let i = info(i_data, 16, "");
    let int = info(int_data, 16, "");
    let r = Rule::new(&i, &int);
    let actual = r.to_image();
    assert_eq!((actual.width, actual.height), (32, 16));
    for y in 0..16usize {
        for x in 0..32usize {
            let white = y == 0 && (x == 15 || x == 16 + 14);
            assert_eq!(actual.pixels[y * 32 + x], if white { 255 } else { 0 });
        }
    }
}

#[test]
fn context_learns_and_interprets_one_bit() {
    let mut c = Context::new(0, 0, 0);
    let i = info(vec![1 << 7, 0], 8, "i");
    let int = info(vec![1 << 6, 0], 8, "int");
    assert!(c.interpret(&i).is_none());
    c.learn(&i, &int);
    assert_eq!(c.rules.len(), 1);
    assert_eq!(c.rules[0].i.data, vec![1 << 7, 0]);
    let (out, accuracy) = c.interpret(&i).unwrap();
    assert_eq!(out.data, vec![1 << 6, 0]);
    assert_eq!(accuracy, Fraction::new(1, 1));
}

#[test]
fn context_narrows_rules_by_intersection() {
    let mut c = Context::new(1, 0, 0);
    let i = info(vec![0b1000_0001], 8, "i");
    c.learn(&i, &info(vec![0b0111_0000], 8, "a"));
    c.learn(&i, &info(vec![0b0011_1000], 8, "b"));
    // one rule per source bit, in order of the bits
    assert_eq!(c.rules.len(), 2);
    assert_eq!(c.rules[0].i.data, vec![0b0000_0001]);
    assert_eq!(c.rules[1].i.data, vec![0b1000_0000]);
    assert_eq!(c.rules[0].interp.data, vec![0b0011_0000]);
    assert_eq!(c.rules[1].interp.data, vec![0b0011_0000]);
    // two of three set bits match a rule
    let (out, accuracy) = c.interpret(&info(vec![0b1000_0011], 8, "q")).unwrap();
    assert_eq!(out.data, vec![0b0011_0000]);
    assert_eq!(accuracy, Fraction::new(2, 3));
    assert!(c.interpret(&info(vec![0b0000_0010], 8, "q")).is_none());
    assert!(c.interpret(&info(vec![0], 8, "q")).is_none());
}

#[test]
fn space_learns_one_context_per_transformation() {
    let mut cs = ContextSpace::new();
    let t = Transformation { x: 1, y: 0, a: 0 };
    let int = info(vec![0b0010_0000, 0], 8, "pic");
    let i = t.apply_shift_to(&int);
    cs.learn(&t, &i, int.duplicate());
    cs.learn(&t, &i, int.duplicate());
    assert_eq!(cs.len(), 1);
    assert_eq!(cs.interpretations.len(), 1);
    cs.learn(&Transformation { x: 1, y: 0, a: 3 }, &i, int.duplicate());
    assert_eq!(cs.len(), 2);
    cs.learn(&t, &i, info(vec![0b0010_0000, 0], 8, "other"));
    assert_eq!(cs.interpretations.len(), 2);
}

#[test]
fn space_interprets_with_the_best_context() {
    let mut cs = ContextSpace::new();
    let pic = info(vec![0b0010_0000, 0b0000_0100, 0], 8, "pic");
    let right = Transformation { x: 1, y: 0, a: 0 };
    let up = Transformation { x: 0, y: 1, a: 0 };
    for t in [right, up] {
        let i = t.apply_shift_to(&pic);
        cs.learn(&t, &i, pic.duplicate());
    }
    let seen = right.apply_shift_to(&pic);
    let (existing, tran, accuracy, actual) = cs.interpret(&seen, Fraction::new(9, 10)).unwrap();
    assert_eq!(existing.name, "pic");
    assert_eq!((tran.x, tran.y), (1, 0));
    assert_eq!(accuracy.numerator, accuracy.denominator);
    assert_eq!(actual.data, pic.data);
    let nothing = info(vec![0, 0, 0b1000_0000], 8, "x");
    assert!(cs.interpret(&nothing, Fraction::new(9, 10)).is_none());
    assert!(ContextSpace::new().interpret(&seen, Fraction::new(0, 1)).is_none());
}

#[test]
fn fractions_compare_and_multiply_exactly() {
    let a = Fraction::new(2, 3);
    let b = Fraction::new(4, 6);
    assert!(a.at_least(&b) && b.at_least(&a));
    assert!(!Fraction::new(1, 2).at_least(&a));
    let p = a.times(&Fraction::new(3, 4));
    assert_eq!(p, Fraction::new(6, 12));
}

#[test]
fn interpretations_may_have_fewer_rows() {
    let mut c = Context::new(0, 0, 0);
    let i = info(vec![0b0000_0001, 0b0000_0010], 8, "i");
    c.learn(&i, &info(vec![0b1000_0000], 8, "short"));
    let (out, accuracy) = c.interpret(&i).unwrap();
    assert_eq!(out.data, vec![0b1000_0000, 0]);
    assert_eq!(accuracy, Fraction::new(2, 2));
}

#[test]
fn floors_above_one_let_nothing_through() {
    let mut cs = ContextSpace::new();
    let t = Transformation { x: 0, y: 0, a: 0 };
    let pic = info(vec![0b0001_0000], 8, "pic");
    cs.learn(&t, &pic, pic.duplicate());
    assert!(cs.interpret(&pic, Fraction::new(1, 1)).is_some());
    assert!(cs.interpret(&pic, Fraction::new(3, 2)).is_none());
}

#[test]
fn only_near_contexts_learn() {
    let mut cs = ContextSpace::new();
    let a = Transformation { x: 1, y: 0, a: 0 };
    let b = Transformation { x: 0, y: 1, a: 0 };
    cs.learn(&a, &info(vec![1, 2, 4], 8, "i"), info(vec![1, 2, 4], 8, "three"));
    // a context with other shapes stays as it is
    cs.learn(&b, &info(vec![8], 8, "j"), info(vec![8], 8, "one"));
    assert_eq!(cs.len(), 2);
    assert_eq!(cs.contexts[0].rules.len(), 3);
    assert_eq!(cs.contexts[1].rules.len(), 1);
    assert_eq!(cs.contexts[1].rules[0].i.data, vec![8]);
}
