use lib::rng::{EpochRng, LcgRng, XorShift};

#[test]
fn epoch_rng_from_seed_steps_the_lcg() {
    let mut rng = EpochRng::from_seed(1);
    assert_eq!(rng.next_u64(), 7806831264735756412);
    assert_eq!(rng.next_u64(), 9396908728118811419);
    assert_eq!(rng.next_u64(), 11960119808228829710);
}

#[test]
fn epoch_rng_next_u32_takes_the_high_half() {
    let mut rng = EpochRng::from_seed(42);
    assert_eq!(rng.next_u32(), 2440530669);
    assert_eq!(rng.next_u64(), {
        let mut again = EpochRng::from_seed(42);
        again.next_u64();
        again.next_u64()
    });
}

#[test]
fn epoch_rng_ranges() {
    let mut a = EpochRng::from_seed(5);
    assert_eq!(a.gen_range_usize(3, 10), 5);
    let mut b = EpochRng::from_seed(5);
    assert_eq!(b.gen_range_i32(-5, 5), 0);
    let mut c = EpochRng::from_seed(123);
    for _ in 0..1000 {
        let x = c.gen_range_usize(7, 9);
        assert!(x == 7 || x == 8);
        let y = c.gen_range_i32(-3, -1);
        assert!(y == -3 || y == -2);
    }
}

#[test]
fn epoch_rng_shuffle_is_fisher_yates() {
    let mut rng = EpochRng::from_seed(7);
    let mut v = vec![10, 20, 30, 40, 50];
    rng.shuffle(&mut v);
    assert_eq!(v, vec![50, 40, 30, 20, 10]);
}

#[test]
fn epoch_rng_shuffle_keeps_the_items() {
    let mut rng = EpochRng::from_seed(2024);
    let mut v: Vec<usize> = (0..50).collect();
    rng.shuffle(&mut v);
    let mut sorted = v.clone();
    sorted.sort();
    assert_eq!(sorted, (0..50).collect::<Vec<usize>>());
    let mut empty: Vec<u8> = Vec::new();
    rng.shuffle(&mut empty);
    assert!(empty.is_empty());
}

#[test]
fn epoch_rng_from_clock_is_usable() {
    let mut rng = EpochRng::new();
    let x = rng.gen_range_usize(0, 4);
    assert!(x < 4);
    let mut d = EpochRng::default();
    assert!(d.gen_range_usize(10, 11) == 10);
}

#[test]
fn lcg_rng_default_parameters() {
    let mut rng = LcgRng::from_seed(1);
    assert_eq!(rng.next_u64(), 1103527590);
    assert_eq!(rng.next_u64(), 2524885223);
    assert_eq!(rng.next_u32(), 662824084);
}

#[test]
fn lcg_rng_with_params_and_ranges() {
    let mut rng = LcgRng::with_params(10, 3, 4, 100);
    assert_eq!(rng.next_u64(), 34);
    let mut a = LcgRng::from_seed(1);
    assert_eq!(a.gen_range_usize(0, 6), 0);
    let mut b = LcgRng::from_seed(1);
    assert_eq!(b.gen_range_i32(1, 4), 1);
    let mut c = LcgRng::new();
    assert!(c.next_u64() < (1u64 << 32));
    let mut d = LcgRng::default();
    assert!(d.gen_range_usize(2, 5) >= 2);
}

#[test]
fn xorshift_seed_zero_becomes_one() {
    let a = XorShift::new(0);
    assert_eq!(a.state, 1);
    let b = XorShift::new(9);
    assert_eq!(b.state, 9);
}

#[test]
fn xorshift_steps() {
    let mut rng = XorShift::new(1);
    assert_eq!(rng.next(), 1082269761);
    assert_eq!(rng.next(), 1152992998833853505);
    assert_eq!(rng.state, 1152992998833853505);
}

#[test]
fn xorshift_rand_tenure() {
    let mut rng = XorShift::new(1);
    assert_eq!(rng.rand_tenure(0), 1);
    assert_eq!(rng.state, 1);
    assert_eq!(rng.rand_tenure(7), 7);
    let mut other = XorShift::new(77);
    for _ in 0..500 {
        let t = other.rand_tenure(3);
        assert!(1 <= t && t <= 3);
    }
}
