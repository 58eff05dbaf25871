use philox::{next_u32s, philox32x4_new, rand_i32s, Philox32x4};

#[test]
fn test_philox32x4() {
    let p32 = &mut Philox32x4::new([1, 2]);
    assert_eq!(p32.next(), [3528531794, 3528531795, 2, 0]);
}

#[test]
fn first_blocks_of_seed_one_two() {
    let mut g = philox32x4_new(1, 2);
    assert_eq!(g.next(), [3528531794, 3528531795, 2, 0]);
    assert_eq!(g.next(), [2762096294, 2762096294, 2, 0]);
    assert_eq!(g.next(), [1995660794, 1995660793, 2, 0]);
}

#[test]
fn second_word_never_repeats_within_many_steps() {
    let mut g = philox32x4_new(11, 22);
    let mut seen = std::collections::HashSet::new();
    for _ in 0..20000 {
        let b = g.next();
        assert!(seen.insert(b[1]));
    }
}

#[test]
fn upper_words_are_key_and_zero() {
    let mut g = philox32x4_new(123, 456);
    for _ in 0..1000 {
        let b = g.next();
        assert_eq!(b[2], 456);
        assert_eq!(b[3], 0);
    }
}

#[test]
fn raw_fill_drops_rest_of_last_block() {
    let mut g = philox32x4_new(1, 2);
    let mut out = vec![9u32; 8];
    next_u32s(&mut g, &mut out, 6);
    assert_eq!(
        out,
        vec![3528531794, 3528531795, 2, 0, 2762096294, 2762096294, 9, 9]
    );
    assert_eq!(g.next(), [1995660794, 1995660793, 2, 0]);
}

#[test]
fn raw_fill_with_zero_count_changes_nothing() {
    let mut g = philox32x4_new(1, 2);
    let mut out = vec![7u32; 4];
    next_u32s(&mut g, &mut out, 0);
    assert_eq!(out, vec![7, 7, 7, 7]);
    let mut v = vec![7i32; 4];
    rand_i32s(&mut g, &mut v, 0, -3, 3);
    assert_eq!(v, vec![7, 7, 7, 7]);
    assert_eq!(g.next(), [3528531794, 3528531795, 2, 0]);
}

#[test]
fn bounded_fill_exact_values() {
    let mut g = philox32x4_new(7, 9);
    let mut out = vec![0i32; 5];
    rand_i32s(&mut g, &mut out, 5, 10, 19);
    assert_eq!(out, vec![16, 15, 19, 10, 18]);
}

#[test]
fn bounded_fill_single_value_range() {
    let mut g = philox32x4_new(3, 4);
    let mut out = vec![0i32; 101];
    rand_i32s(&mut g, &mut out, 101, 5, 5);
    assert!(out.iter().all(|&x| x == 5));
}

#[test]
fn bounded_fill_stays_in_small_range() {
    for seed in 0..4u32 {
        let mut g = philox32x4_new(seed, seed * 31 + 1);
        let mut out = vec![0i32; 10001];
        rand_i32s(&mut g, &mut out, 10001, -3, 3);
        assert!(out.iter().all(|&x| (-3..=3).contains(&x)));
        for v in -3..=3 {
            assert!(out.contains(&v));
        }
    }
}

#[test]
fn bounded_fill_full_width_range() {
    let mut g = philox32x4_new(1, 2);
    let mut out = vec![0i32; 4];
    rand_i32s(&mut g, &mut out, 4, i32::MIN, i32::MAX);
    assert_eq!(out, vec![1381048146, 1381048147, i32::MIN + 2, i32::MIN]);
}

#[test]
fn same_seed_same_output() {
    let mut a = philox32x4_new(42, 43);
    let mut b = philox32x4_new(42, 43);
    let mut xa = vec![0u32; 13];
    let mut xb = vec![0u32; 13];
    next_u32s(&mut a, &mut xa, 13);
    next_u32s(&mut b, &mut xb, 13);
    assert_eq!(xa, xb);
    let mut ya = vec![0i32; 7];
    let mut yb = vec![0i32; 7];
    rand_i32s(&mut a, &mut ya, 7, -50, 50);
    rand_i32s(&mut b, &mut yb, 7, -50, 50);
    assert_eq!(ya, yb);
    assert_eq!(a.next(), b.next());
}
