use midas_rs::rng::Rng;

#[test]
fn same_seed_gives_the_same_draws() {
    let mut one = Rng::new(40);
    let mut other = Rng::new(40);
    for _ in 0..100 {
        assert_eq!(one.rand(), other.rand());
    }
}

#[test]
fn draws_fit_in_thirty_two_bits() {
    let mut rng = Rng::new(539);
    for _ in 0..1000 {
        assert!(rng.rand() <= u32::MAX as u64);
    }
}

#[test]
fn draws_are_not_all_alike() {
    let mut rng = Rng::new(1);
    let first = rng.rand();
    let mut differs = false;
    for _ in 0..64 {
        if rng.rand() != first {
            differs = true;
        }
    }
    assert!(differs);
}

#[test]
fn pairs_come_in_the_order_of_the_draws() {
    let mut single = Rng::new(5);
    let mut paired = Rng::new(5);
    let pairs = paired.draw_pairs(3);
    assert_eq!(pairs.len(), 3);
    for pair in pairs {
        assert_eq!(pair.0, single.rand());
        assert_eq!(pair.1, single.rand());
    }
    assert_eq!(Rng::new(5).draw_pairs(0).len(), 0);
}
