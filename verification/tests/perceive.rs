use swarm::perceive::{DetectionKind, Rng};

#[test]
fn the_stream_matches_splitmix64() {
    let mut rng = Rng::seed(0);
    assert_eq!(rng.next_u64(), 0xE220_A839_7B1D_CDAF);
    assert_eq!(rng.next_u64(), 0x6E78_9E6A_A1B9_65F4);
    assert_eq!(rng.next_u64(), 0x06C4_5D18_8009_454F);
}

#[test]
fn same_seed_same_stream() {
    let mut a = Rng::seed(12345);
    let mut b = Rng::seed(12345);
    let mut c = Rng::seed(12346);
    let xs: Vec<u64> = (0..8).map(|_| a.next_u64()).collect();
    let ys: Vec<u64> = (0..8).map(|_| b.next_u64()).collect();
    let zs: Vec<u64> = (0..8).map(|_| c.next_u64()).collect();
    assert_eq!(xs, ys);
    assert_ne!(xs, zs);
}

#[test]
fn the_state_wraps_instead_of_overflowing() {
    let mut rng = Rng::seed(u64::MAX);
    let first = rng.next_u64();
    let mut again = Rng::seed(u64::MAX);
    assert_eq!(again.next_u64(), first);
    assert_ne!(DetectionKind::Agent, DetectionKind::Static);
}

#[test]
fn different_seeds_give_different_first_outputs() {
    let firsts: Vec<u64> = [0u64, 1, 2, u64::MAX, 0x9E37_79B9_7F4A_7C15]
        .iter()
        .map(|&s| Rng::seed(s).next_u64())
        .collect();
    for i in 0..firsts.len() {
        for j in i + 1..firsts.len() {
            assert_ne!(firsts[i], firsts[j]);
        }
    }
}

#[test]
fn a_seed_one_step_ahead_runs_one_step_ahead() {
    let seed = 42u64;
    let mut r1 = Rng::seed(seed);
    let mut r2 = Rng::seed(seed.wrapping_add(0x9E37_79B9_7F4A_7C15));
    r1.next_u64();
    for _ in 0..5 {
        assert_eq!(r1.next_u64(), r2.next_u64());
    }
}
