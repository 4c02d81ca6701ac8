use evergreen::random_cs::Random;

fn samples(seed: i32, n: usize) -> Vec<i32> {
    let mut r = Random::with_seed(seed);
    (0..n).map(|_| r.internal_sample()).collect()
}

#[test]
fn random_seed_zero_samples() {
    assert_eq!(samples(0, 3), vec![1559595546, 1755192844, 1649316166]);
}

#[test]
fn random_other_seed_samples() {
    assert_eq!(samples(42, 3), vec![1434747710, 302596119, 269548474]);
    assert_eq!(samples(-7, 3), vec![822959691, 1871007331, 1419354884]);
    assert_eq!(samples(123456789, 3), vec![1091672793, 381850644, 1335622286]);
}

#[test]
fn random_extreme_seeds() {
    assert_eq!(samples(i32::MAX, 3), vec![1559595546, 1755192844, 1649316172]);
    assert_eq!(samples(i32::MIN, 3), vec![1559595546, 1755192844, 1649316172]);
}

#[test]
fn random_samples_repeat_every_55_draws() {
    let s = samples(0, 120);
    for i in 0..65 {
        assert_eq!(s[i], s[i + 55]);
    }
}

#[test]
fn next_safe_uint64_known_values() {
    assert_eq!(Random::with_seed(0).next_safe_uint64(), 13396823736352909312);
    assert_eq!(Random::with_seed(12345).next_safe_uint64(), 1231263624214652672);
    let mut r = Random::with_seed(7);
    assert_eq!(r.next_safe_uint64(), 7069169920834369536);
    assert_eq!(r.next_safe_uint64(), 16071830601926522880);
    assert_eq!(r.next_safe_uint64(), 12192165622073167872);
}

#[test]
fn next_safe_uint64_matches_double_arithmetic() {
    for seed in [0i32, 1, -1, 42, 1000, 99999, i32::MAX, i32::MIN, 1700000000, -123456] {
        let mut a = Random::with_seed(seed);
        let mut b = Random::with_seed(seed);
        for _ in 0..200 {
            let s = a.internal_sample();
            let expected = ((s as f64) * (1.0 / (i32::MAX as f64)) * (u64::MAX as f64)) as u64;
            assert_eq!(b.next_safe_uint64(), expected);
        }
    }
}

#[test]
fn random_from_the_clock_draws() {
    let mut r = Random::new();
    let s = r.internal_sample();
    assert!(s >= -1 && s < i32::MAX);
}

#[test]
fn seeds_of_equal_magnitude_agree() {
    assert_eq!(samples(5, 60), samples(-5, 60));
    assert_eq!(samples(i32::MAX, 60), samples(i32::MIN, 60));
    assert_eq!(samples(-i32::MAX, 60), samples(i32::MAX, 60));
}

#[test]
fn larger_samples_scale_larger() {
    let mut pairs = Vec::new();
    for seed in [3i32, 77, 1234, -9] {
        let mut a = Random::with_seed(seed);
        let mut b = Random::with_seed(seed);
        for _ in 0..55 {
            pairs.push((a.internal_sample(), b.next_safe_uint64()));
        }
    }
    pairs.sort();
    for w in pairs.windows(2) {
        assert!(w[0].1 <= w[1].1);
    }
}
