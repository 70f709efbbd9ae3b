use sim_core::sim_rng::SimRng;

#[test]
fn determinism_same_seed_same_sequence() {
    let mut a = SimRng::new(42);
    let mut b = SimRng::new(42);
    for _ in 0..64 {
        assert_eq!(a.next_u64(), b.next_u64());
    }
}

#[test]
fn different_seeds_diverge() {
    let mut a = SimRng::new(1);
    let mut b = SimRng::new(2);
    let xs: Vec<u64> = (0..4).map(|_| a.next_u64()).collect();
    let ys: Vec<u64> = (0..4).map(|_| b.next_u64()).collect();
    assert_ne!(xs, ys);
    let mut d = SimRng::default();
    let mut e = SimRng::new(0x9E37_79B9_7F4A_7C15);
    assert_eq!(d.next_u64(), e.next_u64());
}
