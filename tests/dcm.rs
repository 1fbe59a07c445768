use diff_context_space::diffspace::analytics::correlation;
use diff_context_space::diffspace::bitvector::BitVector;
use diff_context_space::diffspace::code_space::{code_space_from_seeds, generate_code_space};
use diff_context_space::diffspace::context::Context;
use diff_context_space::diffspace::context_map::generate_context_map;
use diff_context_space::diffspace::context_memory_item::ContextMemoryItem;
use diff_context_space::diffspace::{
    clamp_index, consolidate, get_learn_range, get_max_memory_size, get_winner_coordinates_for_code,
    learn, learn_with_pick, train_pass, winner_for_pick,
};

#[test]
fn random() {
    let vec = BitVector::random(15);
    println!("{:0128b}", vec.value());
    assert_eq!(vec.value().count_ones(), 15);
}

#[test]
fn random_extremes() {
    assert_eq!(BitVector::random(0).value(), 0);
    assert_eq!(BitVector::random(128).value(), u128::MAX);
    assert_eq!(BitVector::random(1).count_ones(), 1);
}

#[test]
fn test_generate_code_space() {
    let code_space = generate_code_space();
    assert!(correlation(code_space.get(1, 1, 1).value(), code_space.get(1, 1, 2).value()) > 5000);
    assert!(correlation(code_space.get(0, 0, 0).value(), code_space.get(9, 0, 0).value()) > 5000);
    assert!(correlation(code_space.get(1, 1, 1).value(), code_space.get(6, 6, 6).value()) < 5000);
}

#[test]
fn code_space_population_is_bounded() {
    let code_space = generate_code_space();
    for a in 0..10 {
        for y in 0..10 {
            for x in 0..10 {
                let n = code_space.get(a, y, x).count_ones();
                assert!(n >= 1 && n <= 27);
            }
        }
    }
}

#[test]
fn code_space_combines_neighbouring_seeds() {
    // seed (a, y, x) sets bit (a * 12 + y + x) % 128
    let mut seeds = Vec::new();
    for a in 0..10usize {
        for y in 0..12usize {
            for x in 0..12usize {
                let mut b = BitVector(0);
                b.set((a * 12 + y * 7 + x) % 128, true);
                seeds.push(b);
            }
        }
    }
    let space = code_space_from_seeds(&seeds);
    let mut expected = 0u128;
    for s in [9usize, 0, 1] {
        for dy in 0..3usize {
            for dx in 0..3usize {
                expected |= 1u128 << ((s * 12 + dy * 7 + dx) % 128);
            }
        }
    }
    assert_eq!(space.get(0, 0, 0).value(), expected);
}

#[test]
fn correlation_of_half_shared_codes() {
    // popcounts 4 and 4, two bits in common: 2 / sqrt(16) = 0.5
    assert_eq!(correlation(0b1111, 0b1100_11), 5000);
}

#[test]
fn correlation_with_empty_code_is_zero() {
    assert_eq!(correlation(0, 0b1011), 0);
    assert_eq!(correlation(0b1011, 0), 0);
    assert_eq!(correlation(0, 0), 0);
}

#[test]
fn correlation_with_itself_is_one() {
    assert_eq!(correlation(0xdead_beef, 0xdead_beef), 10000);
    // 1 / sqrt(1 * 3) = 0.57735...
    assert_eq!(correlation(0b1, 0b111), 5773);
}

#[test]
fn bitvector_set_get_and_ops() {
    let mut v = BitVector(0);
    v.set(127, true);
    v.set(3, true);
    assert!(v.get(127) && v.get(3) && !v.get(4));
    v.set(3, false);
    assert_eq!(v.value(), 1u128 << 127);
    let w = BitVector(0b1010);
    let z = BitVector(0b0110);
    assert_eq!(w.and(&z).value(), 0b0010);
    assert_eq!(w.or(&z).value(), 0b1110);
    assert_eq!(w.xor(&z).value(), 0b1100);
    assert_eq!(w.not().value(), !0b1010u128);
}

#[test]
fn covariance_weights_hits_by_correlation() {
    let mut c = Context::new();
    assert_eq!(c.covariance(&BitVector(0b1111)), 1);
    c.memory.push(ContextMemoryItem { code: BitVector(0b1111), hits: 3 });
    c.memory.push(ContextMemoryItem { code: BitVector(0b1100_11), hits: 2 });
    assert_eq!(c.covariance(&BitVector(0b1111)), 3 * 10000 + 2 * 5000);
    c.memory.push(ContextMemoryItem { code: BitVector(0b1_0000_0000), hits: 0 });
    assert_eq!(c.covariance(&BitVector(0b1_0000_0000)), 1);
}

#[test]
fn context_consolidate_keeps_frequent_items() {
    let mut c = Context::new();
    for (code, hits) in [(1u128, 0u32), (2, 3), (4, 2), (8, 7)] {
        c.memory.push(ContextMemoryItem { code: BitVector(code), hits });
    }
    c.consolidate();
    let kept: Vec<(u128, u32)> = c.memory.iter().map(|m| (m.code.value(), m.hits)).collect();
    assert_eq!(kept, vec![(2, 3), (8, 7)]);
}

#[test]
fn clamp_index_clamps() {
    assert_eq!(clamp_index(-3, 64), 0);
    assert_eq!(clamp_index(70, 64), 63);
    assert_eq!(clamp_index(5, 64), 5);
    assert_eq!(get_learn_range(), 4);
    assert_eq!(get_max_memory_size(), 20);
}

#[test]
fn learn_on_empty_map_updates_the_winner_region() {
    let mut map = generate_context_map(64);
    let code = BitVector(0b1011);
    // on an empty map every cell weighs one unit, so the running total of
    // cell k is k + 1: pick 131 selects cell 130, which is (2, 2)
    assert_eq!(winner_for_pick(&map, &code, 130), Some((2, 1)));
    assert_eq!(winner_for_pick(&map, &code, 0), Some((0, 0)));
    assert_eq!(winner_for_pick(&map, &code, 4096), Some((63, 63)));
    assert_eq!(winner_for_pick(&map, &code, 4097), None);
    let winner = learn_with_pick(&mut map, &code, 131);
    assert_eq!(winner, Some((2, 2)));
    let mut touched = 0;
    for y in 0..64usize {
        for x in 0..64usize {
            let m = &map.cell(y, x).memory;
            let dy = y as i64 - 2;
            let dx = x as i64 - 2;
            let inside = dy.abs() <= 4 && dx.abs() <= 4 && dy * dy + dx * dx <= 25;
            if inside {
                touched += 1;
                assert_eq!(m.len(), 1);
                assert_eq!(m[0].code, code);
                assert_eq!(m[0].hits, 0);
            } else {
                assert!(m.is_empty());
            }
        }
    }
    // cells of rows and columns 0 ..= 6 within distance 5 of (2, 2)
    assert_eq!(touched, 48);
    assert_eq!(learn_with_pick(&mut map, &code, 1_000_000_000), None);
}

#[test]
fn learn_touches_one_region() {
    let mut map = generate_context_map(64);
    let code = BitVector(0b1011);
    learn(&mut map, &code);
    let mut touched = Vec::new();
    for y in 0..64usize {
        for x in 0..64usize {
            let m = &map.cell(y, x).memory;
            assert!(m.len() <= 1);
            if m.len() == 1 {
                assert_eq!(m[0].hits, 0);
                touched.push((y as i64, x as i64));
            }
        }
    }
    assert!(!touched.is_empty());
    // some touched cell is the centre of a region that holds all of them
    let centre = touched.iter().find(|(cy, cx)| {
        touched
            .iter()
            .all(|(y, x)| (y - cy) * (y - cy) + (x - cx) * (x - cx) <= 25)
    });
    assert!(centre.is_some());
}

#[test]
fn repeated_learning_then_consolidation() {
    let mut map = generate_context_map(64);
    let code = BitVector(0xff00);
    for _ in 0..30 {
        learn(&mut map, &code);
    }
    let mut before = Vec::new();
    for y in 0..64usize {
        for x in 0..64usize {
            before.push(map.cell(y, x).memory.iter().map(|m| m.hits).collect::<Vec<u32>>());
        }
    }
    consolidate(&mut map);
    for y in 0..64usize {
        for x in 0..64usize {
            let m = &map.cell(y, x).memory;
            let old = &before[y * 64 + x];
            assert!(m.len() <= get_max_memory_size());
            let expected: Vec<u32> = old.iter().cloned().filter(|h| *h > 2).collect();
            let got: Vec<u32> = m.iter().map(|i| i.hits).collect();
            assert_eq!(got, expected);
        }
    }
}

#[test]
fn memory_is_bounded_and_evicts_the_least_hit() {
    let mut map = generate_context_map(1);
    // a 1 x 1 map always selects its only cell
    for k in 0..25u32 {
        let code = BitVector(1u128 << k);
        assert_eq!(learn_with_pick(&mut map, &code, 0), Some((0, 0)));
        assert!(map.cell(0, 0).memory.len() <= 20);
    }
    let codes: Vec<u128> = map.cell(0, 0).memory.iter().map(|m| m.code.value()).collect();
    // each new code evicted the earliest item with no hits
    let expected: Vec<u128> = (5..25u32).map(|k| 1u128 << k).collect();
    assert_eq!(codes, expected);
    learn_with_pick(&mut map, &BitVector(1u128 << 7), 0);
    assert_eq!(map.cell(0, 0).memory[2].hits, 1);
}

#[test]
fn training_passes_shuffle_and_consolidate() {
    let mut map = generate_context_map(8);
    let mut inputs: Vec<BitVector> = (0..6u32).map(|k| BitVector(0b111 << (3 * k))).collect();
    let mut sorted_before: Vec<u128> = inputs.iter().map(|c| c.value()).collect();
    sorted_before.sort();
    for step in 1..=30u32 {
        train_pass(&mut map, &mut inputs, step);
    }
    let mut sorted_after: Vec<u128> = inputs.iter().map(|c| c.value()).collect();
    sorted_after.sort();
    assert_eq!(sorted_before, sorted_after);
    for y in 0..8usize {
        for x in 0..8usize {
            assert!(map.cell(y, x).memory.iter().all(|m| m.hits > 2));
        }
    }
    let (wy, wx) = get_winner_coordinates_for_code(&map, &inputs[0]);
    assert!(wy < 8 && wx < 8);
}
