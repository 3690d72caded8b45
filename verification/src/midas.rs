use vstd::prelude::*;
use crate::default::{M_VALUE, NUM_BUCKETS, NUM_ROWS};
use crate::sketch::{
    capped, lemma_clear_wf, lemma_edge_count_never_falls, lemma_edge_count_never_short,
    lemma_emptied_sketch_exact,
    lemma_insert_each_wf, EdgeHash, EdgeHashView,
};
use crate::stream::{at_tick, edges_of, in_order};

verus! {

/// Seed from which the two sketches of a detector derive theirs.
const SEED: u64 = 39;

/// Geometry of the fixed-window detector.
#[derive(Clone, Copy, Debug, PartialEq, Eq)]
pub struct MidasParams {
    /// Number of rows of buckets in each sketch.
    pub rows: u64,
    /// Number of buckets in each row.
    pub buckets: u64,
    /// Mixing constant that places an edge in a row.
    pub m_value: u64,
}

impl Default for MidasParams {
    fn default() -> (params: Self)
        ensures
            params == (MidasParams { rows: NUM_ROWS, buckets: NUM_BUCKETS, m_value: M_VALUE }),
    {
        MidasParams { rows: NUM_ROWS, buckets: NUM_BUCKETS, m_value: M_VALUE }
    }
}

/// What the score of an edge is made of. The score itself is a ratio of these
/// counts and is left to arithmetic outside the integers.
#[derive(Clone, Copy, Debug, PartialEq, Eq)]
pub enum Evidence {
    /// The detector is in its first tick: there is no history to compare
    /// with, and the score is zero.
    FirstTick,
    /// The estimated number of events on the edge since the start (`total`)
    /// and in the current tick (`current`), at tick `time`.
    Counts { total: u64, current: u64, time: u64 },
}

/// The fixed-window detector as the contracts see it.
pub struct MidasView {
    pub current_time: u64,
    pub current_count: EdgeHashView,
    pub total_count: EdgeHashView,
}

impl MidasView {
    pub open spec fn wf(self) -> bool {
        &&& self.current_count.wf()
        &&& self.total_count.wf()
    }

    /// A detector that has seen nothing: time zero and zeroed sketches of the
    /// geometry that `params` asks for.
    pub open spec fn fresh(self, params: MidasParams) -> bool {
        &&& self.current_time == 0
        &&& self.current_count.fresh(params.rows as nat, params.buckets as nat, params.m_value)
        &&& self.total_count.fresh(params.rows as nat, params.buckets as nat, params.m_value)
    }

    pub open spec fn query(self, source: u64, dest: u64) -> Evidence {
        if self.current_time == 1 {
            Evidence::FirstTick
        } else {
            Evidence::Counts {
                total: self.total_count.count(source, dest),
                current: self.current_count.count(source, dest),
                time: self.current_time,
            }
        }
    }

    /// The detector after the event `(source, dest, time)`: a later time
    /// empties the current window before the event is counted.
    pub open spec fn insert(self, source: u64, dest: u64, time: u64) -> MidasView {
        let advanced = time > self.current_time;
        let window = if advanced {
            self.current_count.clear()
        } else {
            self.current_count
        };
        MidasView {
            current_time: if advanced {
                time
            } else {
                self.current_time
            },
            current_count: window.insert(source, dest, 1),
            total_count: self.total_count.insert(source, dest, 1),
        }
    }

    /// The detector after each of `events` in turn.
    pub open spec fn after(self, events: Seq<(u64, u64, u64)>) -> MidasView
        decreases events.len(),
    {
        if events.len() == 0 {
            self
        } else {
            let last = events.last();
            self.after(events.drop_last()).insert(last.0, last.1, last.2)
        }
    }

    /// What each of `events` is answered with when they are inserted in turn.
    pub open spec fn scores(self, events: Seq<(u64, u64, u64)>) -> Seq<Evidence> {
        Seq::new(
            events.len(),
            |i: int| self.after(events.take(i + 1)).query(events[i].0, events[i].1),
        )
    }
}

/// Fixed-window anomaly detector: an edge sketch for the current tick, which
/// is emptied whenever time moves on, and one for all time.
pub struct Midas {
    current_time: u64,
    current_count: EdgeHash,
    total_count: EdgeHash,
}

impl View for Midas {
    type V = MidasView;

    closed spec fn view(&self) -> MidasView {
        MidasView {
            current_time: self.current_time,
            current_count: self.current_count@,
            total_count: self.total_count@,
        }
    }
}

impl Midas {
    pub fn new(params: MidasParams) -> (midas: Self)
        requires
            2 <= params.buckets <= usize::MAX,
        ensures
            midas@.fresh(params),
            midas@.wf(),
    {
        Midas {
            current_time: 0,
            current_count: EdgeHash::new(params.rows, params.buckets, params.m_value, SEED + 1),
            total_count: EdgeHash::new(params.rows, params.buckets, params.m_value, SEED + 2),
        }
    }

    /// A detector at time zero over two given sketches.
    pub fn from_sketches(current_count: EdgeHash, total_count: EdgeHash) -> (midas: Self)
        requires
            current_count@.wf(),
            total_count@.wf(),
        ensures
            midas@ == (MidasView {
                current_time: 0,
                current_count: current_count@,
                total_count: total_count@,
            }),
            midas@.wf(),
    {
        Midas { current_time: 0, current_count, total_count }
    }

    pub fn current_time(&self) -> (time: u64)
        ensures
            time == self@.current_time,
    {
        self.current_time
    }

    /// Takes in the event `(source, dest, time)` and answers with what the
    /// score of its edge is then made of.
    pub fn insert(&mut self, event: (u64, u64, u64)) -> (evidence: Evidence)
        requires
            old(self)@.wf(),
            old(self)@.current_time <= event.2,
        ensures
            final(self)@ == old(self)@.insert(event.0, event.1, event.2),
            final(self)@.wf(),
            final(self)@.current_time == event.2,
            evidence == final(self)@.query(event.0, event.1),
    {
        let (source, dest, time) = event;
        if time > self.current_time {
            self.current_count.clear();
            self.current_time = time;
        }
        self.current_count.insert(source, dest, 1);
        self.total_count.insert(source, dest, 1);
        self.query(source, dest)
    }

    /// Takes in the event if its time is not before the detector's, as
    /// `insert` does, and refuses it otherwise, leaving the detector as it was.
    pub fn try_insert(&mut self, event: (u64, u64, u64)) -> (answer: Option<Evidence>)
        requires
            old(self)@.wf(),
        ensures
            final(self)@.wf(),
            answer is Some <==> old(self)@.current_time <= event.2,
            answer matches Some(evidence) ==> final(self)@ == old(self)@.insert(
                event.0,
                event.1,
                event.2,
            ) && final(self)@.current_time == event.2 && evidence == final(self)@.query(
                event.0,
                event.1,
            ),
            answer is None ==> final(self)@ == old(self)@,
    {
        if event.2 < self.current_time {
            None
        } else {
            Some(self.insert(event))
        }
    }

    /// Inserts each of `data` in turn and collects the answers.
    pub fn feed(&mut self, data: &Vec<(u64, u64, u64)>) -> (answers: Vec<Evidence>)
        requires
            old(self)@.wf(),
            in_order(old(self)@.current_time, data@),
        ensures
            final(self)@ == old(self)@.after(data@),
            final(self)@.wf(),
            answers@ == old(self)@.scores(data@),
    {
        let mut answers: Vec<Evidence> = Vec::new();
        let n: usize = data.len();
        let mut i: usize = 0;
        while i < n
            invariant
                i <= n,
                n == data.len(),
                in_order(old(self)@.current_time, data@),
                self@.wf(),
                self@ == old(self)@.after(data@.take(i as int)),
                i == 0 ==> self@.current_time == old(self)@.current_time,
                i > 0 ==> self@.current_time == data[i - 1].2,
                answers@.len() == i,
                forall|k: int|
                    0 <= k < i ==> answers[k] == old(self)@.after(data@.take(k + 1)).query(
                        data[k].0,
                        data[k].1,
                    ),
            decreases n - i,
        {
            let event: (u64, u64, u64) = data[i];
            assert(data@.take(i + 1).drop_last() =~= data@.take(i as int));
            let evidence = self.insert(event);
            answers.push(evidence);
            i += 1;
        }
        assert(data@.take(n as int) =~= data@);
        assert(answers@ =~= old(self)@.scores(data@));
        answers
    }

    /// Builds a detector, inserts each of `data` in turn and collects the
    /// answers.
    pub fn iterate(data: Vec<(u64, u64, u64)>, params: MidasParams) -> (answers: Vec<Evidence>)
        requires
            2 <= params.buckets <= usize::MAX,
            in_order(0, data@),
        ensures
            exists|start: MidasView|
                #[trigger] start.fresh(params) && start.wf() && answers@ == start.scores(data@),
    {
        let mut midas = Midas::new(params);
        let ghost start = midas@;
        let answers = midas.feed(&data);
        assert(start.fresh(params) && start.wf() && answers@ == start.scores(data@));
        answers
    }

    /// What the score of the edge `(source, dest)` is made of now.
    pub fn query(&self, source: u64, dest: u64) -> (evidence: Evidence)
        requires
            self@.wf(),
        ensures
            evidence == self@.query(source, dest),
    {
        if self.current_time == 1 {
            Evidence::FirstTick
        } else {
            Evidence::Counts {
                total: self.total_count.count(source, dest),
                current: self.current_count.count(source, dest),
                time: self.current_time,
            }
        }
    }
}

/// An event leaves a well-formed detector well formed.
pub proof fn lemma_insert_wf(state: MidasView, source: u64, dest: u64, time: u64)
    requires
        state.wf(),
    ensures
        state.insert(source, dest, time).wf(),
{
    lemma_clear_wf(state.current_count);
    let window = if time > state.current_time {
        state.current_count.clear()
    } else {
        state.current_count
    };
    lemma_insert_each_wf(window.rows, window.m_value, source, dest, 1);
    lemma_insert_each_wf(state.total_count.rows, state.total_count.m_value, source, dest, 1);
}

/// The sketch of all time has counted every event, whatever its time.
pub proof fn lemma_total_counts_all(state: MidasView, events: Seq<(u64, u64, u64)>)
    requires
        state.wf(),
    ensures
        state.after(events).wf(),
        state.after(events).total_count == state.total_count.insert_all(edges_of(events)),
    decreases events.len(),
{
    let edges = edges_of(events);
    if events.len() > 0 {
        let earlier = events.drop_last();
        let last = events.last();
        let before = state.after(earlier);
        lemma_total_counts_all(state, earlier);
        lemma_insert_wf(before, last.0, last.1, last.2);
        assert(state.after(events) == before.insert(last.0, last.1, last.2));
        assert(edges.len() == events.len());
        assert(edges.last() == (last.0, last.1));
        assert(edges.drop_last() =~= edges_of(earlier));
        assert(state.total_count.insert_all(edges) == state.total_count.insert_all(
            edges_of(earlier),
        ).insert(last.0, last.1, 1));
        assert(before.insert(last.0, last.1, last.2).total_count == before.total_count.insert(
            last.0,
            last.1,
            1,
        ));
    } else {
        assert(edges.len() == 0);
        assert(state.after(events) == state);
        assert(state.total_count.insert_all(edges) == state.total_count);
    }
}

/// The sketch of the current window has counted the events of the current
/// tick and no others: where all of `events` happen at one time, later than
/// the detector's, it was emptied before the first of them was counted; where
/// they happen at the detector's time, they were added to what it held.
pub proof fn lemma_window_counts_tick(state: MidasView, events: Seq<(u64, u64, u64)>, time: u64)
    requires
        state.wf(),
        events.len() > 0,
        at_tick(events, time),
        time >= state.current_time,
    ensures
        state.after(events).current_time == time,
        state.after(events).current_count == (if time > state.current_time {
            state.current_count.clear()
        } else {
            state.current_count
        }).insert_all(edges_of(events)),
    decreases events.len(),
{
    let earlier = events.drop_last();
    let last = events.last();
    let edges = edges_of(events);
    let window = if time > state.current_time {
        state.current_count.clear()
    } else {
        state.current_count
    };
    let before = state.after(earlier);

    // the last event, and the edges before it
    assert(last == events[events.len() - 1]);
    assert(last.2 == time);
    assert(edges.len() == events.len());
    assert(edges.last() == (last.0, last.1));
    assert(edges.drop_last() =~= edges_of(earlier));

    // one step of each fold
    assert(state.after(events) == before.insert(last.0, last.1, time));
    assert(window.insert_all(edges) == window.insert_all(edges_of(earlier)).insert(
        last.0,
        last.1,
        1,
    ));

    if earlier.len() > 0 {
        assert forall|i: int| 0 <= i < earlier.len() implies (#[trigger] earlier[i]).2 == time by {
            assert(earlier[i] == events[i]);
        }
        lemma_window_counts_tick(state, earlier, time);
        // the detector is at `time` already: the window is kept
        assert(before.current_time == time);
        assert(before.current_count == window.insert_all(edges_of(earlier)));
        assert(before.insert(last.0, last.1, time).current_time == time);
        assert(before.insert(last.0, last.1, time).current_count == before.current_count.insert(
            last.0,
            last.1,
            1,
        ));
    } else {
        // the first event of the tick: the window is emptied if time moves on
        assert(edges_of(earlier).len() == 0);
        assert(before == state);
        assert(window.insert_all(edges_of(earlier)) == window);
        assert(state.insert(last.0, last.1, time).current_time == time);
        assert(state.insert(last.0, last.1, time).current_count == window.insert(
            last.0,
            last.1,
            1,
        ));
    }
}

/// The estimate of the total never falls short: after `events`, the total
/// estimated for an edge is at least what it was before plus the number of
/// `events` on that edge, as far as a counter can hold it.
pub proof fn lemma_total_never_short(
    state: MidasView,
    events: Seq<(u64, u64, u64)>,
    source: u64,
    dest: u64,
)
    requires
        state.wf(),
    ensures
        state.after(events).total_count.count(source, dest) >= capped(
            state.total_count.count(source, dest) + edges_of(events).to_multiset().count(
                (source, dest),
            ),
        ),
{
    lemma_total_counts_all(state, events);
    lemma_edge_count_never_short(state.total_count, edges_of(events), source, dest);
}

/// The window starts anew when time moves on: after events that all happen at
/// one time later than the detector's, the current window holds for an edge
/// that some row keeps alone among those events the number of them on that
/// edge, as far as a counter can hold it (nothing, where there is none),
/// while the total estimated for the edge is no less than it was.
pub proof fn lemma_new_tick_counts_afresh(
    state: MidasView,
    events: Seq<(u64, u64, u64)>,
    time: u64,
    row: int,
    source: u64,
    dest: u64,
)
    requires
        state.wf(),
        events.len() > 0,
        at_tick(events, time),
        time > state.current_time,
        0 <= row < state.current_count.rows.len(),
        state.current_count.keeps_alone(row, source, dest, edges_of(events)),
    ensures
        state.after(events).current_time == time,
        state.after(events).current_count.count(source, dest) == capped(
            edges_of(events).to_multiset().count((source, dest)) as int,
        ),
        state.after(events).total_count.count(source, dest) >= state.total_count.count(
            source,
            dest,
        ),
{
    lemma_window_counts_tick(state, events, time);
    lemma_emptied_sketch_exact(state.current_count, edges_of(events), row, source, dest);
    lemma_total_counts_all(state, events);
    lemma_edge_count_never_falls(state.total_count, edges_of(events), source, dest);
}

/// The window never falls short either: after events that all happen at one
/// time later than the detector's, it holds for every edge at least the
/// number of them on that edge, as far as a counter can hold it.
pub proof fn lemma_window_never_short(
    state: MidasView,
    events: Seq<(u64, u64, u64)>,
    time: u64,
    source: u64,
    dest: u64,
)
    requires
        state.wf(),
        events.len() > 0,
        at_tick(events, time),
        time > state.current_time,
    ensures
        state.after(events).current_count.count(source, dest) >= capped(
            edges_of(events).to_multiset().count((source, dest)) as int,
        ),
{
    lemma_window_counts_tick(state, events, time);
    lemma_clear_wf(state.current_count);
    lemma_edge_count_never_short(state.current_count.clear(), edges_of(events), source, dest);
}

/// The answers are determined by the geometry: two detectors that have seen
/// nothing, built for the same parameters with the same hash functions, are
/// one and the same, and answer the same events alike.
pub proof fn lemma_same_geometry_same_answers(
    one: MidasView,
    other: MidasView,
    params: MidasParams,
    events: Seq<(u64, u64, u64)>,
)
    requires
        one.fresh(params),
        other.fresh(params),
        forall|i: int|
            0 <= i < params.rows ==> (#[trigger] one.current_count.rows[i]).geometry
                == other.current_count.rows[i].geometry,
        forall|i: int|
            0 <= i < params.rows ==> (#[trigger] one.total_count.rows[i]).geometry
                == other.total_count.rows[i].geometry,
    ensures
        one == other,
        one.scores(events) == other.scores(events),
        one.after(events) == other.after(events),
{
    assert(one.current_count.rows =~= other.current_count.rows);
    assert(one.total_count.rows =~= other.total_count.rows);
}

} // verus!
