use rat_king::rng::{Rng, SimpleRng};

fn reference_next_f64(state: &mut u64) -> f64 {
    *state = state.wrapping_mul(6364136223846793005).wrapping_add(1442695040888963407);
    (*state >> 11) as f64 / (1u64 << 53) as f64
}

#[test]
fn deterministic() {
    let mut rng1 = Rng::new(42);
    let mut rng2 = Rng::new(42);

    for _ in 0..100 {
        assert_eq!(rng1.next_u64(), rng2.next_u64());
    }
}

#[test]
fn different_seeds_differ() {
    let mut rng1 = Rng::new(1);
    let mut rng2 = Rng::new(2);

    let vals1: Vec<_> = (0..10).map(|_| rng1.next_u64()).collect();
    let vals2: Vec<_> = (0..10).map(|_| rng2.next_u64()).collect();

    assert_ne!(vals1, vals2);
}

#[test]
fn index_in_bounds() {
    let mut rng = Rng::new(12345);
    for _ in 0..1000 {
        let idx = rng.next_index(10);
        assert!(idx < 10);
    }
}

#[test]
fn next_u64_is_the_lcg_step() {
    let mut rng = Rng::new(0);
    let expected = 1u64.wrapping_mul(6364136223846793005).wrapping_add(1442695040888963407);
    assert_eq!(rng.next_u64(), expected);
    let mut d = Rng::default();
    assert_eq!(d.next_u64(), expected);
    let mut wrap = Rng::new(u64::MAX);
    assert_eq!(wrap.next_u64(), 1442695040888963407);
}

#[test]
fn next_index_matches_double_precision_formula() {
    let lens: [usize; 12] = [
        0,
        1,
        2,
        3,
        10,
        1000,
        123_456_789,
        (1usize << 53) - 1,
        1usize << 53,
        (1usize << 53) + 1,
        usize::MAX - 1,
        usize::MAX,
    ];
    for seed in [0u64, 1, 7, 42, 12345, u64::MAX] {
        let mut rng = Rng::new(seed);
        let mut state = seed.wrapping_add(1);
        for _ in 0..200 {
            for &len in lens.iter() {
                let got = rng.next_index(len);
                let expected = (reference_next_f64(&mut state) * len as f64) as usize;
                assert_eq!(got, expected, "seed {} len {}", seed, len);
            }
        }
    }
}

#[test]
fn next_index_of_zero_is_zero() {
    let mut rng = Rng::new(99);
    for _ in 0..50 {
        assert_eq!(rng.next_index(0), 0);
    }
}

#[test]
fn simple_rng_xorshift() {
    let mut rng = SimpleRng::new(1);
    let mut s: u64 = 1;
    for _ in 0..100 {
        s ^= s << 13;
        s ^= s >> 7;
        s ^= s << 17;
        assert_eq!(rng.next(), s);
    }
    let mut a = SimpleRng::new(88172645463325252);
    let mut b = SimpleRng::new(88172645463325252);
    for _ in 0..100 {
        let v = b.next();
        assert_eq!(a.next_bool(), v % 2 == 0);
    }
}

#[test]
fn simple_rng_zero_stays_zero() {
    let mut rng = SimpleRng::new(0);
    assert_eq!(rng.next(), 0);
    assert!(rng.next_bool());
}
