use midas_rs::rng::Rng;
use midas_rs::row::{Row, COUNT_LIMIT};

#[test]
fn row_starts_at_zero() {
    let row = Row::from_draws(769, 10, 20);
    assert_eq!(row.num_buckets(), 769);
    for key in 0u64..2000 {
        assert_eq!(row.count(773, key, 1), 0);
    }
}

#[test]
fn insert_adds_the_weight_to_the_counter_of_the_pair() {
    let mut row = Row::from_draws(769, 10, 20);
    row.insert(773, 1, 2, 1);
    assert_eq!(row.count(773, 1, 2), 1);
    row.insert(773, 1, 2, 5);
    assert_eq!(row.count(773, 1, 2), 6);
    // another bucket: ((773 * 1 + 2) * 11 + 20) % 769
    assert_eq!(row.hash(773, 2, 1), 86);
    assert_eq!(row.count(773, 2, 1), 0);
}

#[test]
fn pairs_that_share_a_bucket_share_a_counter() {
    let mut row = Row::from_draws(769, 10, 20);
    assert_eq!(row.hash(773, 1, 1), row.hash(773, 770, 1));
    row.insert(773, 1, 1, 1);
    row.insert(773, 770, 1, 1);
    assert_eq!(row.count(773, 1, 1), 2);
    assert_eq!(row.count(773, 770, 1), 2);
}

#[test]
fn counter_stands_still_at_the_limit() {
    assert_eq!(COUNT_LIMIT, 9007199254740992);
    let mut row = Row::from_draws(769, 10, 20);
    row.insert(773, 1, 2, COUNT_LIMIT - 1);
    assert_eq!(row.count(773, 1, 2), COUNT_LIMIT - 1);
    row.insert(773, 1, 2, 1);
    assert_eq!(row.count(773, 1, 2), COUNT_LIMIT);
    // one more is not felt, as in double precision
    row.insert(773, 1, 2, 1);
    assert_eq!(row.count(773, 1, 2), COUNT_LIMIT);
    assert_eq!((COUNT_LIMIT as f64 + 1.0) as u64, COUNT_LIMIT);
    row.insert(773, 1, 2, 0);
    assert_eq!(row.count(773, 1, 2), COUNT_LIMIT);
}

#[test]
fn counter_holds_the_sum_of_the_weights() {
    let mut row = Row::from_draws(769, 10, 20);
    let mut sum: u64 = 0;
    for weight in [0u64, 1, 2, 1 << 20, 1 << 40, (1 << 52) + 12345, 7] {
        row.insert(773, 1, 2, weight);
        sum += weight;
        assert_eq!(row.count(773, 1, 2), sum);
    }
    row.insert(773, 1, 2, COUNT_LIMIT - sum);
    assert_eq!(row.count(773, 1, 2), COUNT_LIMIT);
}

#[test]
fn clear_sets_every_counter_to_zero() {
    let mut row = Row::from_draws(16, 3, 4);
    for key in 0u64..100 {
        row.insert(7, key, key, 3);
    }
    row.clear();
    assert_eq!(row.num_buckets(), 16);
    for key in 0u64..100 {
        assert_eq!(row.count(7, key, key), 0);
    }
    // the hash function is kept: a = 3 % 15 + 1 = 4, b = 4
    assert_eq!(row.hash(0, 1, 0), 8);
}

#[test]
fn node_counter_is_keyed_by_the_node_alone() {
    let mut row = Row::from_draws(769, 10, 20);
    row.node_insert(5, 2);
    assert_eq!(row.node_count(5), 2);
    assert_eq!(row.count(0, 5, 0), 2);
    assert_eq!(row.count(773, 5, 0), 2);
    // (5 * 11 + 20) % 769
    assert_eq!(row.hash(0, 5, 0), 75);
    assert_eq!(row.node_count(6), 0);
}

#[test]
fn drawn_row_is_empty_and_of_the_size_asked_for() {
    let mut rng = Rng::new(3);
    let row = Row::new(769, &mut rng);
    assert_eq!(row.num_buckets(), 769);
    for key in 0u64..769 {
        assert_eq!(row.node_count(key), 0);
        assert!(row.hash(773, key, 1) < 769);
    }
}
