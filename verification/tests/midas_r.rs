use midas_rs::layout::Layout;
use midas_rs::sketch::{EdgeHash, NodeHash};
use midas_rs::{MidasR, MidasRParams, Reading, Step};

fn pinned() -> MidasR {
    MidasR::from_sketches(
        Layout::from_draws(769, 773, &vec![(10, 20), (2, 7)]),
        EdgeHash::from_draws(769, 773, &vec![(5, 6), (7, 8)]),
        Layout::from_draws(769, 0, &vec![(1, 2), (3, 4)]),
        Layout::from_draws(769, 0, &vec![(11, 12), (13, 14)]),
        NodeHash::from_draws(769, &vec![(21, 22), (23, 24)]),
        NodeHash::from_draws(769, &vec![(31, 32), (33, 34)]),
    )
}

fn reading(time: u64, totals: (u64, u64, u64), cells: [[u64; 2]; 3]) -> Reading {
    Reading {
        time,
        edge_total: totals.0,
        source_total: totals.1,
        dest_total: totals.2,
        edge_cells: cells[0].to_vec(),
        source_cells: cells[1].to_vec(),
        dest_cells: cells[2].to_vec(),
    }
}

#[test]
fn decayed_defaults_are_two_rows_of_769_buckets() {
    let params = MidasRParams::default();
    assert_eq!(params.rows, 2);
    assert_eq!(params.buckets, 769);
    assert_eq!(params.m_value, 773);
}

#[test]
fn decayed_detector_starts_at_time_zero() {
    assert_eq!(MidasR::new(MidasRParams::default()).current_time(), 0);
    assert_eq!(pinned().current_time(), 0);
}

#[test]
fn steps_follow_the_stream() {
    let mut midas = pinned();
    assert_eq!(
        midas.insert((1, 1, 1)),
        Step { elapsed: 1, reading: reading(1, (1, 1, 1), [[75, 22], [4, 8], [24, 28]]) }
    );
    assert_eq!(
        midas.insert((1, 2, 1)),
        Step { elapsed: 0, reading: reading(1, (1, 2, 1), [[119, 34], [4, 8], [36, 42]]) }
    );
    assert_eq!(
        midas.insert((1, 1, 2)),
        Step { elapsed: 1, reading: reading(2, (2, 3, 2), [[75, 22], [4, 8], [24, 28]]) }
    );
    assert_eq!(
        midas.insert((1, 2, 3)),
        Step { elapsed: 1, reading: reading(3, (2, 4, 2), [[119, 34], [4, 8], [36, 42]]) }
    );
    assert_eq!(
        midas.insert((1, 2, 4)),
        Step { elapsed: 1, reading: reading(4, (3, 5, 3), [[119, 34], [4, 8], [36, 42]]) }
    );
    assert_eq!(midas.current_time(), 4);
}

#[test]
fn gap_is_decayed_in_one_step() {
    let mut midas = pinned();
    midas.insert((1, 2, 4));
    let step = midas.insert((5, 2, 9));
    assert_eq!(step.elapsed, 5);
    assert_eq!(step.reading, reading(9, (1, 1, 2), [[163, 46], [12, 24], [36, 42]]));
    // nothing more is due within the tick
    assert_eq!(midas.insert((5, 2, 9)).elapsed, 0);
    assert_eq!(midas.insert((5, 2, u64::MAX)).elapsed, u64::MAX - 9);
}

#[test]
fn totals_do_not_decay() {
    let mut midas = pinned();
    for time in [1u64, 1, 2, 50, 1000, 1000000] {
        midas.insert((1, 2, time));
    }
    let now = midas.query(1, 2);
    assert_eq!((now.edge_total, now.source_total, now.dest_total), (6, 6, 6));
    assert_eq!(now.time, 1000000);
}

#[test]
fn query_reads_without_counting() {
    let mut midas = pinned();
    for event in [(1, 1, 1), (1, 2, 1), (1, 1, 2), (1, 2, 3), (1, 2, 4), (5, 2, 9), (5, 2, 9)] {
        midas.insert(event);
    }
    let seen = reading(9, (3, 5, 5), [[119, 34], [4, 8], [36, 42]]);
    let unseen = reading(9, (0, 0, 0), [[405, 112], [16, 32], [96, 112]]);
    for _ in 0..5 {
        assert_eq!(midas.query(1, 2), seen);
        assert_eq!(midas.query(7, 7), unseen);
    }
    assert_eq!(midas.current_time(), 9);
}

#[test]
fn insert_answers_what_query_then_answers_for_the_decayed_detector() {
    let mut midas = MidasR::new(MidasRParams::default());
    midas.insert((1, 1, 1));
    midas.insert((1, 2, 1));
    midas.insert((1, 1, 2));
    midas.insert((1, 2, 3));
    let step = midas.insert((1, 2, 4));
    assert_eq!(step.reading, midas.query(1, 2));
    assert_eq!(step.elapsed, 1);
    assert_eq!(step.reading.time, 4);
}

#[test]
fn cells_are_one_per_row_and_within_the_row() {
    let params = MidasRParams { rows: 5, buckets: 10, m_value: 773 };
    let mut midas = MidasR::new(params);
    for source in 0u64..100 {
        let step = midas.insert((source, source * 7 + 1, source / 3));
        for cells in [&step.reading.edge_cells, &step.reading.source_cells, &step.reading.dest_cells]
        {
            assert_eq!(cells.len(), 5);
            assert!(cells.iter().all(|cell| *cell < 10));
        }
    }
}

#[test]
fn node_cells_depend_on_the_node_alone() {
    let mut midas = MidasR::new(MidasRParams::default());
    let one = midas.insert((3, 8, 1)).reading;
    let other = midas.insert((3, 9, 2)).reading;
    let third = midas.insert((4, 9, 2)).reading;
    assert_eq!(one.source_cells, other.source_cells);
    assert_eq!(other.dest_cells, third.dest_cells);
    assert_eq!(midas.query(3, 8).edge_cells, one.edge_cells);
}

#[test]
fn decayed_totals_are_never_below_the_true_counts() {
    let mut midas = MidasR::new(MidasRParams { rows: 2, buckets: 32, m_value: 773 });
    let mut edges = std::collections::HashMap::new();
    let mut sources = std::collections::HashMap::new();
    let mut dests = std::collections::HashMap::new();
    let mut x: u64 = 7;
    for tick in 0u64..2000 {
        x = x.wrapping_mul(6364136223846793005).wrapping_add(1442695040888963407);
        let (source, dest) = ((x >> 40) % 50, (x >> 20) % 50);
        *edges.entry((source, dest)).or_insert(0u64) += 1;
        *sources.entry(source).or_insert(0u64) += 1;
        *dests.entry(dest).or_insert(0u64) += 1;
        let now = midas.insert((source, dest, tick / 10)).reading;
        assert!(now.edge_total >= edges[&(source, dest)]);
        assert!(now.source_total >= sources[&source]);
        assert!(now.dest_total >= dests[&dest]);
    }
}

#[test]
fn decayed_detectors_of_one_geometry_answer_alike() {
    let params = MidasRParams { rows: 3, buckets: 100, m_value: 773 };
    let mut one = MidasR::new(params);
    let mut other = MidasR::new(params);
    let mut x: u64 = 1;
    for tick in 1u64..200 {
        x = x.wrapping_mul(6364136223846793005).wrapping_add(1442695040888963407);
        let event = ((x >> 40) % 300, (x >> 20) % 300, tick / 5);
        assert_eq!(one.insert(event), other.insert(event));
    }
}

#[test]
fn decayed_iterate_answers_each_event_in_order() {
    let data = vec![(1, 1, 1), (1, 2, 1), (1, 1, 3), (1, 2, 4)];
    let answers = MidasR::iterate(data.clone(), MidasRParams::default());
    let mut midas = MidasR::new(MidasRParams::default());
    let by_hand: Vec<Step> = data.iter().map(|event| midas.insert(*event)).collect();
    assert_eq!(answers, by_hand);
    let elapsed: Vec<u64> = answers.iter().map(|step| step.elapsed).collect();
    assert_eq!(elapsed, vec![1, 0, 2, 1]);
    assert_eq!(MidasR::iterate(vec![], MidasRParams::default()), vec![]);
}

#[test]
fn decayed_feed_goes_on_from_where_the_detector_is() {
    let mut fed = pinned();
    let first = fed.feed(&vec![(1, 1, 1), (1, 2, 1)]);
    let second = fed.feed(&vec![(1, 1, 2)]);
    assert_eq!(first.len(), 2);
    assert_eq!(
        second,
        vec![Step { elapsed: 1, reading: reading(2, (2, 3, 2), [[75, 22], [4, 8], [24, 28]]) }]
    );
    assert_eq!(fed.current_time(), 2);
}

#[test]
fn event_before_the_decayed_detectors_time_is_refused() {
    let mut midas = pinned();
    let taken = midas.try_insert((1, 1, 3));
    assert_eq!(
        taken,
        Some(Step { elapsed: 3, reading: reading(3, (1, 1, 1), [[75, 22], [4, 8], [24, 28]]) })
    );
    // time may not go back: nothing is counted and the clock stays
    assert_eq!(midas.try_insert((1, 1, 2)), None);
    assert_eq!(midas.current_time(), 3);
    assert_eq!(midas.query(1, 1), reading(3, (1, 1, 1), [[75, 22], [4, 8], [24, 28]]));
    // an equal or later time is taken
    assert_eq!(midas.try_insert((1, 1, 3)).map(|step| step.elapsed), Some(0));
    assert_eq!(midas.try_insert((1, 1, 10)).map(|step| step.elapsed), Some(7));
    assert_eq!(midas.query(1, 1).edge_total, 3);
}
