use spriterize::prng::Prng;

fn random(rng: &mut Prng) -> f64 {
    rng.next_mantissa() as f64 * (1.0 / (1u64 << 53) as f64)
}

#[test]
fn is_deterministic() {
    let mut a = Prng::new(11);
    let mut b = Prng::new(11);
    for _ in 0..1000 {
        assert_eq!(random(&mut a), random(&mut b));
    }
}

#[test]
fn values_are_in_unit_interval() {
    let mut rng = Prng::new(0);
    for _ in 0..100_000 {
        let v = random(&mut rng);
        assert!((0.0..1.0).contains(&v), "out of range: {v}");
    }
}

#[test]
fn sequential_seeds_diverge_immediately() {
    let first = |seed: u64| random(&mut Prng::new(seed));
    let a = first(7);
    let b = first(7 + 977);
    let c = first(7 + 2 * 977);
    assert!((a - b).abs() > 0.01);
    assert!((b - c).abs() > 0.01);
    assert!((a - c).abs() > 0.01);
}

#[test]
fn mean_is_roughly_half() {
    let mut rng = Prng::new(42);
    let n = 200_000;
    let sum: f64 = (0..n).map(|_| random(&mut rng)).sum();
    let mean = sum / n as f64;
    assert!((mean - 0.5).abs() < 0.01, "mean {mean} not near 0.5");
}

#[test]
fn the_first_draw_of_seed_zero_is_splitmix() {
    assert_eq!(Prng::new(0).next_u64(), 0xE220_A839_7B1D_CDAF);
}
