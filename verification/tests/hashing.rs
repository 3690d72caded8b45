use midas_rs::hashing::RowHash;
use midas_rs::rng::Rng;

#[test]
fn hash_is_the_affine_form_reduced_to_the_buckets() {
    // a = 10 % 768 + 1 = 11, b = 20 % 769 = 20
    let hash = RowHash::from_draws(769, 10, 20);
    // ((773 * 2 + 1) * 11 + 20) % 769
    assert_eq!(hash.hash(773, 1, 2), 119);
}

#[test]
fn draws_are_reduced_to_the_ranges_of_the_coefficients() {
    // a = 998 % 999 + 1 = 999, b = 999 % 1000 = 999
    let hash = RowHash::from_draws(1000, 998, 999);
    assert_eq!(hash.hash(0, 0, 0), 999);
    assert_eq!(hash.hash(0, 1, 0), 998);
    assert_eq!(hash.hash(773, 1, 2), 452);
    // a = 999 % 999 + 1 = 1, b = 1000 % 1000 = 0
    let hash = RowHash::from_draws(1000, 999, 1000);
    assert_eq!(hash.hash(0, 0, 0), 0);
    assert_eq!(hash.hash(0, 1, 0), 1);
}

#[test]
fn hash_wraps_at_the_word_size() {
    // a = 3, b = 7
    let hash = RowHash::from_draws(769, 2, 7);
    assert_eq!(hash.hash(9223372036854775809, 5, 3), 596);
    assert_eq!(hash.hash(u64::MAX, u64::MAX, u64::MAX), 7);
    assert_eq!(hash.hash(773, u64::MAX, 1), 16);
    assert_eq!(
        hash.hash(16045690984503098046, 1311768467463790320, 1147797409030816545),
        533
    );
}

#[test]
fn two_buckets_are_enough() {
    // a = 1 whatever the draw, b = 1
    let hash = RowHash::from_draws(2, 12345, 3);
    assert_eq!(hash.num_buckets(), 2);
    assert_eq!(hash.hash(0, 0, 0), 1);
    assert_eq!(hash.hash(0, 1, 0), 0);
    assert_eq!(hash.hash(5, 1, 1), 1);
}

#[test]
fn mixing_makes_the_hash_tell_source_from_dest() {
    let hash = RowHash::from_draws(769, 10, 20);
    assert_ne!(hash.hash(773, 1, 2), hash.hash(773, 2, 1));
}

#[test]
fn drawn_hash_is_always_a_bucket() {
    let mut rng = Rng::new(7);
    for buckets in [2u64, 3, 10, 769, 1 << 40] {
        let hash = RowHash::new(buckets, &mut rng);
        assert_eq!(hash.num_buckets(), buckets);
        // b, and a + b reduced: a is never zero
        let b = hash.hash(0, 0, 0);
        let a_plus_b = hash.hash(0, 1, 0);
        assert!(b < buckets);
        assert_ne!(a_plus_b, b);
        for key in [0u64, 1, 2, 768, 769, u64::MAX] {
            assert!(hash.hash(773, key, key / 2) < buckets);
        }
    }
}

#[test]
fn drawn_hash_follows_the_draws() {
    let mut draws = Rng::new(41);
    let first = draws.rand();
    let second = draws.rand();
    let mut rng = Rng::new(41);
    let drawn = RowHash::new(769, &mut rng);
    let given = RowHash::from_draws(769, first, second);
    for key in 0u64..50 {
        assert_eq!(drawn.hash(773, key, key + 1), given.hash(773, key, key + 1));
    }
}
