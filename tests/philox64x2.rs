use philox::{next_u64s, philox64x2_new, rand_i64s, Philox64x2};

#[test]
fn test_philox64x2() {
    let p64 = &mut Philox64x2::new([1, 2]);
    assert_eq!(p64.next(), [15183679468541472402, 0]);
}

#[test]
fn first_blocks_of_seed_one_two_wide() {
    let mut g = philox64x2_new(1, 2);
    assert_eq!(g.next(), [15183679468541472402, 0]);
    assert_eq!(g.next(), [11920614863373393190, 1]);
    assert_eq!(g.next(), [8657550258205313978, 2]);
}

#[test]
fn high_word_grows_with_counter() {
    let mut g = philox64x2_new(5, 6);
    let mut prev = 0u64;
    let mut seen = std::collections::HashSet::new();
    for i in 0..20000 {
        let b = g.next();
        assert!(i == 0 || b[1] >= prev);
        prev = b[1];
        // undo the second counter word and the first key word to get the low product half
        assert!(seen.insert(b[0] ^ (i as u64) ^ 5));
    }
}

#[test]
fn raw_fill_wide_drops_rest_of_last_block() {
    let mut g = philox64x2_new(1, 2);
    let mut out = vec![9u64; 5];
    next_u64s(&mut g, &mut out, 3);
    assert_eq!(
        out,
        vec![15183679468541472402, 0, 11920614863373393190, 9, 9]
    );
    assert_eq!(g.next(), [8657550258205313978, 2]);
}

#[test]
fn raw_fill_wide_with_zero_count_changes_nothing() {
    let mut g = philox64x2_new(1, 2);
    let mut out = vec![7u64; 3];
    next_u64s(&mut g, &mut out, 0);
    assert_eq!(out, vec![7, 7, 7]);
    let mut v = vec![7i64; 3];
    rand_i64s(&mut g, &mut v, 0, -3, 3);
    assert_eq!(v, vec![7, 7, 7]);
    assert_eq!(g.next(), [15183679468541472402, 0]);
}

#[test]
fn bounded_fill_wide_exact_values() {
    let mut g = philox64x2_new(7, 9);
    let mut out = vec![0i64; 5];
    rand_i64s(&mut g, &mut out, 5, -100, 100);
    assert_eq!(out, vec![46, -100, 33, -99, 36]);
}

#[test]
fn bounded_fill_wide_single_value_range() {
    let mut g = philox64x2_new(3, 4);
    let mut out = vec![0i64; 101];
    rand_i64s(&mut g, &mut out, 101, 5, 5);
    assert!(out.iter().all(|&x| x == 5));
}

#[test]
fn bounded_fill_wide_stays_in_small_range() {
    for seed in 0..4u64 {
        let mut g = philox64x2_new(seed, seed * 31 + 1);
        let mut out = vec![0i64; 10001];
        rand_i64s(&mut g, &mut out, 10001, -3, 3);
        assert!(out.iter().all(|&x| (-3..=3).contains(&x)));
        for v in -3..=3 {
            assert!(out.contains(&v));
        }
    }
}

#[test]
fn bounded_fill_wide_full_width_range() {
    let mut g = philox64x2_new(1, 2);
    let mut out = vec![0i64; 2];
    rand_i64s(&mut g, &mut out, 2, i64::MIN, i64::MAX);
    assert_eq!(out, vec![5960307431686696594, i64::MIN]);
}

#[test]
fn same_seed_same_output_wide() {
    let mut a = philox64x2_new(42, 43);
    let mut b = philox64x2_new(42, 43);
    let mut xa = vec![0u64; 13];
    let mut xb = vec![0u64; 13];
    next_u64s(&mut a, &mut xa, 13);
    next_u64s(&mut b, &mut xb, 13);
    assert_eq!(xa, xb);
    let mut ya = vec![0i64; 7];
    let mut yb = vec![0i64; 7];
    rand_i64s(&mut a, &mut ya, 7, -50, 50);
    rand_i64s(&mut b, &mut yb, 7, -50, 50);
    assert_eq!(ya, yb);
    assert_eq!(a.next(), b.next());
}
