use midas_rs::default::{M_VALUE, NUM_BUCKETS, NUM_ROWS};
use midas_rs::sketch::EdgeHash;
use midas_rs::{Evidence, Midas, MidasParams};

fn pinned() -> Midas {
    Midas::from_sketches(
        EdgeHash::from_draws(769, 773, &vec![(10, 20), (2, 7)]),
        EdgeHash::from_draws(769, 773, &vec![(5, 6), (7, 8)]),
    )
}

fn counts(total: u64, current: u64, time: u64) -> Evidence {
    Evidence::Counts { total, current, time }
}

#[test]
fn defaults_are_two_rows_of_769_buckets() {
    let params = MidasParams::default();
    assert_eq!(params.rows, 2);
    assert_eq!(params.buckets, 769);
    assert_eq!(params.m_value, 773);
    assert_eq!((NUM_ROWS, NUM_BUCKETS, M_VALUE), (2, 769, 773));
}

#[test]
fn detector_starts_at_time_zero() {
    let midas = Midas::new(MidasParams::default());
    assert_eq!(midas.current_time(), 0);
    assert_eq!(pinned().current_time(), 0);
}

#[test]
fn first_tick_has_no_history() {
    let mut midas = Midas::new(MidasParams::default());
    assert_eq!(midas.insert((1, 1, 1)), Evidence::FirstTick);
    assert_eq!(midas.insert((1, 2, 1)), Evidence::FirstTick);
    assert_eq!(midas.query(1, 1), Evidence::FirstTick);
    assert_eq!(midas.current_time(), 1);
}

#[test]
fn answers_follow_the_stream() {
    let mut midas = pinned();
    assert_eq!(midas.insert((1, 1, 1)), Evidence::FirstTick);
    assert_eq!(midas.insert((1, 2, 1)), Evidence::FirstTick);
    assert_eq!(midas.insert((1, 1, 2)), counts(2, 1, 2));
    assert_eq!(midas.insert((1, 1, 2)), counts(3, 2, 2));
    assert_eq!(midas.insert((1, 2, 3)), counts(2, 1, 3));
    assert_eq!(midas.query(1, 1), counts(3, 0, 3));
    assert_eq!(midas.current_time(), 3);
}

#[test]
fn window_is_emptied_when_time_moves_on() {
    let mut midas = pinned();
    midas.insert((1, 1, 2));
    midas.insert((1, 1, 2));
    assert_eq!(midas.query(1, 1), counts(2, 2, 2));
    midas.insert((1, 2, 3));
    // nothing for (1, 1) in the new tick, and its total is kept
    assert_eq!(midas.query(1, 1), counts(2, 0, 3));
    assert_eq!(midas.query(1, 2), counts(1, 1, 3));
}

#[test]
fn window_is_kept_within_a_tick() {
    let mut midas = pinned();
    midas.insert((1, 1, 5));
    midas.insert((1, 2, 5));
    assert_eq!(midas.insert((1, 1, 5)), counts(2, 2, 5));
    assert_eq!(midas.query(1, 2), counts(1, 1, 5));
}

#[test]
fn window_over_counts_an_edge_that_collides_in_every_row() {
    let mut midas = pinned();
    midas.insert((1, 1, 2));
    // (770, 1) has the buckets of (1, 1) in every row
    assert_eq!(midas.insert((770, 1, 3)), counts(2, 1, 3));
    assert_eq!(midas.query(1, 1), counts(2, 1, 3));
}

#[test]
fn time_may_stand_still_or_jump() {
    let mut midas = pinned();
    midas.insert((1, 1, 0));
    assert_eq!(midas.current_time(), 0);
    assert_eq!(midas.query(1, 1), counts(1, 1, 0));
    midas.insert((1, 1, 7));
    midas.insert((1, 1, 7));
    assert_eq!(midas.current_time(), 7);
    midas.insert((1, 1, u64::MAX));
    assert_eq!(midas.current_time(), u64::MAX);
    assert_eq!(midas.query(1, 1), counts(4, 1, u64::MAX));
}

#[test]
fn query_is_repeatable() {
    let mut midas = Midas::new(MidasParams::default());
    for event in [(1, 1, 1), (1, 2, 1), (1, 1, 2), (1, 2, 3)] {
        midas.insert(event);
    }
    let first = midas.query(1, 2);
    for _ in 0..10 {
        assert_eq!(midas.query(1, 2), first);
    }
    assert_eq!(midas.current_time(), 3);
}

#[test]
fn insert_answers_what_query_then_answers() {
    let mut midas = Midas::new(MidasParams::default());
    for event in [(1, 1, 1), (1, 2, 1), (1, 1, 2), (1, 2, 3)] {
        midas.insert(event);
    }
    let answer = midas.insert((1, 2, 4));
    assert_eq!(answer, midas.query(1, 2));
}

#[test]
fn detectors_of_one_geometry_answer_alike() {
    let params = MidasParams { rows: 3, buckets: 100, m_value: 773 };
    let mut one = Midas::new(params);
    let mut other = Midas::new(params);
    let mut x: u64 = 1;
    for tick in 1u64..200 {
        x = x.wrapping_mul(6364136223846793005).wrapping_add(1442695040888963407);
        let event = ((x >> 40) % 300, (x >> 20) % 300, tick / 5);
        assert_eq!(one.insert(event), other.insert(event));
    }
}

#[test]
fn total_is_never_below_the_true_count() {
    let mut midas = Midas::new(MidasParams { rows: 2, buckets: 32, m_value: 773 });
    let mut truth = std::collections::HashMap::new();
    let mut x: u64 = 7;
    for tick in 2u64..2000 {
        x = x.wrapping_mul(6364136223846793005).wrapping_add(1442695040888963407);
        let (source, dest) = ((x >> 40) % 50, (x >> 20) % 50);
        *truth.entry((source, dest)).or_insert(0u64) += 1;
        match midas.insert((source, dest, tick / 10)) {
            Evidence::Counts { total, current, time } => {
                assert!(total >= truth[&(source, dest)]);
                assert!(current >= 1);
                assert_eq!(time, tick / 10);
            }
            Evidence::FirstTick => assert_eq!(tick / 10, 1),
        }
    }
}

#[test]
fn iterate_answers_each_event_in_order() {
    let data = vec![(1, 1, 1), (1, 2, 1), (1, 1, 3), (1, 2, 4)];
    let answers = Midas::iterate(data.clone(), MidasParams::default());
    let mut midas = Midas::new(MidasParams::default());
    let by_hand: Vec<Evidence> = data.iter().map(|event| midas.insert(*event)).collect();
    assert_eq!(answers, by_hand);
    assert_eq!(answers.len(), 4);
    assert_eq!(answers[0], Evidence::FirstTick);
    assert_eq!(Midas::iterate(vec![], MidasParams::default()), vec![]);
}

#[test]
fn feed_goes_on_from_where_the_detector_is() {
    let mut fed = pinned();
    let first = fed.feed(&vec![(1, 1, 1), (1, 2, 1)]);
    let second = fed.feed(&vec![(1, 1, 2), (1, 1, 2), (1, 2, 3)]);
    assert_eq!(first, vec![Evidence::FirstTick, Evidence::FirstTick]);
    assert_eq!(second, vec![counts(2, 1, 2), counts(3, 2, 2), counts(2, 1, 3)]);
    assert_eq!(fed.current_time(), 3);
}

#[test]
fn detector_without_rows_bounds_nothing() {
    let mut midas = Midas::new(MidasParams { rows: 0, buckets: 769, m_value: 773 });
    assert_eq!(midas.insert((1, 1, 2)), counts(u64::MAX, u64::MAX, 2));
}

#[test]
fn event_before_the_detectors_time_is_refused() {
    let mut midas = pinned();
    assert_eq!(midas.try_insert((1, 1, 2)), Some(counts(1, 1, 2)));
    assert_eq!(midas.try_insert((1, 1, 5)), Some(counts(2, 1, 5)));
    // time may not go back: nothing is counted and the clock stays
    assert_eq!(midas.try_insert((1, 1, 4)), None);
    assert_eq!(midas.try_insert((1, 2, 0)), None);
    assert_eq!(midas.current_time(), 5);
    assert_eq!(midas.query(1, 1), counts(2, 1, 5));
    assert_eq!(midas.query(1, 2), counts(0, 0, 5));
    // an equal or later time is taken
    assert_eq!(midas.try_insert((1, 1, 5)), Some(counts(3, 2, 5)));
    assert_eq!(midas.try_insert((1, 1, 6)), Some(counts(4, 1, 6)));
}
