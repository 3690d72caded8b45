use vstd::prelude::*;
use crate::default::{M_VALUE, NUM_BUCKETS, NUM_ROWS};
use crate::layout::{Layout, LayoutView};
use crate::stream::{dests_of, edges_of, in_order, sources_of};
use crate::sketch::{
    capped, lemma_edge_count_never_short, lemma_insert_each_wf, lemma_node_count_never_short,
    EdgeHash, EdgeHashView, NodeHash, NodeHashView,
};

verus! {

/// Seed from which the six sketches of a detector derive theirs.
const SEED: u64 = 538;

/// Geometry of the decayed detector. The decay factor is a real number and is
/// configured where the decayed counters are kept.
#[derive(Clone, Copy, Debug, PartialEq, Eq)]
pub struct MidasRParams {
    /// Number of rows of buckets in each sketch.
    pub rows: u64,
    /// Number of buckets in each row.
    pub buckets: u64,
    /// Mixing constant that places an edge in a row.
    pub m_value: u64,
}

impl Default for MidasRParams {
    fn default() -> (params: Self)
        ensures
            params == (MidasRParams { rows: NUM_ROWS, buckets: NUM_BUCKETS, m_value: M_VALUE }),
    {
        MidasRParams { rows: NUM_ROWS, buckets: NUM_BUCKETS, m_value: M_VALUE }
    }
}

/// What the score of an edge is made of: the tick, the exact estimates of
/// the three totals, and the cells, one per row, in which the decayed
/// counters of the edge, of its source and of its destination are kept.
#[derive(Debug, PartialEq, Eq)]
pub struct Reading {
    pub time: u64,
    pub edge_total: u64,
    pub source_total: u64,
    pub dest_total: u64,
    pub edge_cells: Vec<u64>,
    pub source_cells: Vec<u64>,
    pub dest_cells: Vec<u64>,
}

pub struct ReadingView {
    pub time: u64,
    pub edge_total: u64,
    pub source_total: u64,
    pub dest_total: u64,
    pub edge_cells: Seq<u64>,
    pub source_cells: Seq<u64>,
    pub dest_cells: Seq<u64>,
}

impl View for Reading {
    type V = ReadingView;

    open spec fn view(&self) -> ReadingView {
        ReadingView {
            time: self.time,
            edge_total: self.edge_total,
            source_total: self.source_total,
            dest_total: self.dest_total,
            edge_cells: self.edge_cells@,
            source_cells: self.source_cells@,
            dest_cells: self.dest_cells@,
        }
    }
}

/// What one event asks of the keeper of the decayed counters: first to
/// scale every counter by the decay factor raised to `elapsed` (nothing to do
/// when that is zero), then to add one in each cell of `reading`, then to
/// score from `reading`.
#[derive(Debug, PartialEq, Eq)]
pub struct Step {
    pub elapsed: u64,
    pub reading: Reading,
}

pub struct StepView {
    pub elapsed: u64,
    pub reading: ReadingView,
}

impl View for Step {
    type V = StepView;

    open spec fn view(&self) -> StepView {
        StepView { elapsed: self.elapsed, reading: self.reading@ }
    }
}

/// The decayed detector as the contracts see it.
pub struct MidasRView {
    pub current_time: u64,
    pub current_count: LayoutView,
    pub total_count: EdgeHashView,
    pub source_score: LayoutView,
    pub dest_score: LayoutView,
    pub source_total: NodeHashView,
    pub dest_total: NodeHashView,
}

impl MidasRView {
    pub open spec fn wf(self) -> bool {
        &&& self.current_count.wf()
        &&& self.total_count.wf()
        &&& self.source_score.wf()
        &&& self.dest_score.wf()
        &&& self.source_total.wf()
        &&& self.dest_total.wf()
    }

    /// A detector that has seen nothing: time zero, zeroed totals, and all six
    /// sketches of the geometry that `params` asks for.
    pub open spec fn fresh(self, params: MidasRParams) -> bool {
        let rows = params.rows as nat;
        let buckets = params.buckets as nat;
        &&& self.current_time == 0
        &&& self.current_count.shaped(rows, buckets, params.m_value)
        &&& self.total_count.fresh(rows, buckets, params.m_value)
        &&& self.source_score.shaped(rows, buckets, 0)
        &&& self.dest_score.shaped(rows, buckets, 0)
        &&& self.source_total.fresh(rows, buckets)
        &&& self.dest_total.fresh(rows, buckets)
    }

    pub open spec fn query(self, source: u64, dest: u64) -> ReadingView {
        ReadingView {
            time: self.current_time,
            edge_total: self.total_count.count(source, dest),
            source_total: self.source_total.count(source),
            dest_total: self.dest_total.count(dest),
            edge_cells: self.current_count.cells(source, dest),
            source_cells: self.source_score.cells(source, 0),
            dest_cells: self.dest_score.cells(dest, 0),
        }
    }

    /// The number of ticks by which an event at `time` moves the detector on.
    pub open spec fn elapsed(self, time: u64) -> u64 {
        if time > self.current_time {
            (time - self.current_time) as u64
        } else {
            0
        }
    }

    /// The detector after the event `(source, dest, time)`.
    pub open spec fn insert(self, source: u64, dest: u64, time: u64) -> MidasRView {
        MidasRView {
            current_time: if time > self.current_time {
                time
            } else {
                self.current_time
            },
            current_count: self.current_count,
            total_count: self.total_count.insert(source, dest, 1),
            source_score: self.source_score,
            dest_score: self.dest_score,
            source_total: self.source_total.insert(source, 1),
            dest_total: self.dest_total.insert(dest, 1),
        }
    }

    /// What the event `(source, dest, time)` is answered with.
    pub open spec fn step(self, source: u64, dest: u64, time: u64) -> StepView {
        StepView {
            elapsed: self.elapsed(time),
            reading: self.insert(source, dest, time).query(source, dest),
        }
    }

    /// The detector after each of `events` in turn.
    pub open spec fn after(self, events: Seq<(u64, u64, u64)>) -> MidasRView
        decreases events.len(),
    {
        if events.len() == 0 {
            self
        } else {
            let last = events.last();
            self.after(events.drop_last()).insert(last.0, last.1, last.2)
        }
    }

    /// What each of `events` is answered with when they are inserted in turn.
    pub open spec fn steps(self, events: Seq<(u64, u64, u64)>) -> Seq<StepView> {
        Seq::new(
            events.len(),
            |i: int| self.after(events.take(i)).step(events[i].0, events[i].1, events[i].2),
        )
    }
}

/// The ticks of decay that `steps` ask for, all together.
pub open spec fn elapsed_in_all(steps: Seq<StepView>) -> int
    decreases steps.len(),
{
    if steps.len() == 0 {
        0
    } else {
        elapsed_in_all(steps.drop_last()) + steps.last().elapsed
    }
}

/// Decayed anomaly detector, as far as it is exact: the clock, the sketches
/// of the totals, which never decay, and the placement of the decayed
/// counters of edges, sources and destinations. The decayed counters are
/// real-valued and kept by the caller, whom each `Step` tells what to do.
pub struct MidasR {
    current_time: u64,
    current_count: Layout,
    total_count: EdgeHash,
    source_score: Layout,
    dest_score: Layout,
    source_total: NodeHash,
    dest_total: NodeHash,
}

impl View for MidasR {
    type V = MidasRView;

    closed spec fn view(&self) -> MidasRView {
        MidasRView {
            current_time: self.current_time,
            current_count: self.current_count@,
            total_count: self.total_count@,
            source_score: self.source_score@,
            dest_score: self.dest_score@,
            source_total: self.source_total@,
            dest_total: self.dest_total@,
        }
    }
}

impl MidasR {
    pub fn new(params: MidasRParams) -> (midas: Self)
        requires
            2 <= params.buckets <= usize::MAX,
        ensures
            midas@.fresh(params),
            midas@.wf(),
    {
        let MidasRParams { rows, buckets, m_value } = params;
        MidasR {
            current_time: 0,
            current_count: Layout::new(rows, buckets, m_value, SEED + 1),
            total_count: EdgeHash::new(rows, buckets, m_value, SEED + 2),
            source_score: Layout::new(rows, buckets, 0, SEED + 3),
            dest_score: Layout::new(rows, buckets, 0, SEED + 4),
            source_total: NodeHash::new(rows, buckets, SEED + 5),
            dest_total: NodeHash::new(rows, buckets, SEED + 6),
        }
    }

    /// A detector at time zero over six given sketches.
    pub fn from_sketches(
        current_count: Layout,
        total_count: EdgeHash,
        source_score: Layout,
        dest_score: Layout,
        source_total: NodeHash,
        dest_total: NodeHash,
    ) -> (midas: Self)
        requires
            current_count@.wf(),
            total_count@.wf(),
            source_score@.wf(),
            dest_score@.wf(),
            source_total@.wf(),
            dest_total@.wf(),
        ensures
            midas@ == (MidasRView {
                current_time: 0,
                current_count: current_count@,
                total_count: total_count@,
                source_score: source_score@,
                dest_score: dest_score@,
                source_total: source_total@,
                dest_total: dest_total@,
            }),
            midas@.wf(),
    {
        MidasR {
            current_time: 0,
            current_count,
            total_count,
            source_score,
            dest_score,
            source_total,
            dest_total,
        }
    }

    pub fn current_time(&self) -> (time: u64)
        ensures
            time == self@.current_time,
    {
        self.current_time
    }

    /// Takes in the event `(source, dest, time)`: moves the clock on, counts the
    /// event in the three totals, and answers with the decay that is due and
    /// with what the score of the edge is then made of.
    pub fn insert(&mut self, event: (u64, u64, u64)) -> (step: Step)
        requires
            old(self)@.wf(),
            old(self)@.current_time <= event.2,
        ensures
            final(self)@ == old(self)@.insert(event.0, event.1, event.2),
            final(self)@.wf(),
            final(self)@.current_time == event.2,
            step@ == old(self)@.step(event.0, event.1, event.2),
            step.elapsed == event.2 - old(self)@.current_time,
    {
        let (source, dest, time) = event;
        let mut elapsed: u64 = 0;
        if time > self.current_time {
            elapsed = time - self.current_time;
            self.current_time = time;
        }
        self.total_count.insert(source, dest, 1);
        self.source_total.insert(source, 1);
        self.dest_total.insert(dest, 1);
        Step { elapsed, reading: self.query(source, dest) }
    }

    /// Takes in the event if its time is not before the detector's, as
    /// `insert` does, and refuses it otherwise, leaving the detector as it was.
    pub fn try_insert(&mut self, event: (u64, u64, u64)) -> (answer: Option<Step>)
        requires
            old(self)@.wf(),
        ensures
            final(self)@.wf(),
            answer is Some <==> old(self)@.current_time <= event.2,
            answer matches Some(step) ==> final(self)@ == old(self)@.insert(
                event.0,
                event.1,
                event.2,
            ) && final(self)@.current_time == event.2 && step@ == old(self)@.step(
                event.0,
                event.1,
                event.2,
            ),
            answer is None ==> final(self)@ == old(self)@,
    {
        if event.2 < self.current_time {
            None
        } else {
            Some(self.insert(event))
        }
    }

    /// What the score of the edge `(source, dest)` is made of now.
    pub fn query(&self, source: u64, dest: u64) -> (reading: Reading)
        requires
            self@.wf(),
        ensures
            reading@ == self@.query(source, dest),
    {
        Reading {
            time: self.current_time,
            edge_total: self.total_count.count(source, dest),
            source_total: self.source_total.count(source),
            dest_total: self.dest_total.count(dest),
            edge_cells: self.current_count.cells(source, dest),
            source_cells: self.source_score.cells(source, 0),
            dest_cells: self.dest_score.cells(dest, 0),
        }
    }

    /// Inserts each of `data` in turn and collects the answers.
    pub fn feed(&mut self, data: &Vec<(u64, u64, u64)>) -> (answers: Vec<Step>)
        requires
            old(self)@.wf(),
            in_order(old(self)@.current_time, data@),
        ensures
            final(self)@ == old(self)@.after(data@),
            final(self)@.wf(),
            answers@.len() == data@.len(),
            forall|i: int| 0 <= i < data@.len() ==> (#[trigger] answers[i])@ == old(self)@.steps(data@)[i],
    {
        let mut answers: Vec<Step> = Vec::new();
        let n: usize = data.len();
        let mut i: usize = 0;
        while i < n
            invariant
                i <= n,
                n == data.len(),
                in_order(old(self)@.current_time, data@),
                self@.wf(),
                self@ == old(self)@.after(data@.take(i as int)),
                i == 0 ==> self@.current_time == old(self)@.current_time,
                i > 0 ==> self@.current_time == data[i - 1].2,
                answers@.len() == i,
                forall|k: int|
                    0 <= k < i ==> (#[trigger] answers[k])@ == old(self)@.after(
                        data@.take(k),
                    ).step(data[k].0, data[k].1, data[k].2),
            decreases n - i,
        {
            let event: (u64, u64, u64) = data[i];
            assert(data@.take(i + 1).drop_last() =~= data@.take(i as int));
            let step = self.insert(event);
            answers.push(step);
            i += 1;
        }
        assert(data@.take(n as int) =~= data@);
        answers
    }

    /// Builds a detector, inserts each of `data` in turn and collects the
    /// answers.
    pub fn iterate(data: Vec<(u64, u64, u64)>, params: MidasRParams) -> (answers: Vec<Step>)
        requires
            2 <= params.buckets <= usize::MAX,
            in_order(0, data@),
        ensures
            answers@.len() == data@.len(),
            exists|start: MidasRView|
                #[trigger] start.fresh(params) && start.wf() && forall|i: int|
                    0 <= i < data@.len() ==> (#[trigger] answers[i])@ == start.steps(data@)[i],
    {
        let mut midas = MidasR::new(params);
        let ghost start = midas@;
        let answers = midas.feed(&data);
        assert(start.fresh(params) && start.wf() && forall|i: int|
            0 <= i < data@.len() ==> (#[trigger] answers[i])@ == start.steps(data@)[i]);
        answers
    }
}

/// An event leaves a well-formed detector well formed.
pub proof fn lemma_insert_wf(state: MidasRView, source: u64, dest: u64, time: u64)
    requires
        state.wf(),
    ensures
        state.insert(source, dest, time).wf(),
{
    lemma_insert_each_wf(state.total_count.rows, state.total_count.m_value, source, dest, 1);
    lemma_insert_each_wf(state.source_total.rows, 0, source, 0, 1);
    lemma_insert_each_wf(state.dest_total.rows, 0, dest, 0, 1);
}

/// The three sketches of totals have counted every event, whatever its time,
/// and no event moves a decayed counter to another cell.
pub proof fn lemma_totals_count_all(state: MidasRView, events: Seq<(u64, u64, u64)>)
    requires
        state.wf(),
    ensures
        state.after(events).wf(),
        state.after(events).total_count == state.total_count.insert_all(edges_of(events)),
        state.after(events).source_total == state.source_total.insert_all(sources_of(events)),
        state.after(events).dest_total == state.dest_total.insert_all(dests_of(events)),
        state.after(events).current_count == state.current_count,
        state.after(events).source_score == state.source_score,
        state.after(events).dest_score == state.dest_score,
    decreases events.len(),
{
    let edges = edges_of(events);
    let sources = sources_of(events);
    let dests = dests_of(events);
    if events.len() > 0 {
        let earlier = events.drop_last();
        let last = events.last();
        let before = state.after(earlier);
        lemma_totals_count_all(state, earlier);
        lemma_insert_wf(before, last.0, last.1, last.2);
        assert(state.after(events) == before.insert(last.0, last.1, last.2));
        assert(edges.last() == (last.0, last.1));
        assert(sources.last() == last.0);
        assert(dests.last() == last.1);
        assert(edges.drop_last() =~= edges_of(earlier));
        assert(sources.drop_last() =~= sources_of(earlier));
        assert(dests.drop_last() =~= dests_of(earlier));
        assert(state.total_count.insert_all(edges) == state.total_count.insert_all(
            edges_of(earlier),
        ).insert(last.0, last.1, 1));
        assert(state.source_total.insert_all(sources) == state.source_total.insert_all(
            sources_of(earlier),
        ).insert(last.0, 1));
        assert(state.dest_total.insert_all(dests) == state.dest_total.insert_all(
            dests_of(earlier),
        ).insert(last.1, 1));
    } else {
        assert(edges.len() == 0);
        assert(sources.len() == 0);
        assert(dests.len() == 0);
        assert(state.after(events) == state);
    }
}

/// The estimates of the totals never fall short: after `events`, the total
/// estimated for an edge, for a source and for a destination is at least what
/// it was before plus the number of `events` on that edge, from that source
/// and to that destination, as far as a counter can hold it.
pub proof fn lemma_totals_never_short(
    state: MidasRView,
    events: Seq<(u64, u64, u64)>,
    source: u64,
    dest: u64,
)
    requires
        state.wf(),
    ensures
        state.after(events).query(source, dest).edge_total >= capped(
            state.query(source, dest).edge_total + edges_of(events).to_multiset().count(
                (source, dest),
            ),
        ),
        state.after(events).query(source, dest).source_total >= capped(
            state.query(source, dest).source_total + sources_of(events).to_multiset().count(
                source,
            ),
        ),
        state.after(events).query(source, dest).dest_total >= capped(
            state.query(source, dest).dest_total + dests_of(events).to_multiset().count(dest),
        ),
{
    lemma_totals_count_all(state, events);
    lemma_edge_count_never_short(state.total_count, edges_of(events), source, dest);
    lemma_node_count_never_short(state.source_total, sources_of(events), source);
    lemma_node_count_never_short(state.dest_total, dests_of(events), dest);
}

/// The clock follows the events: after events whose times never fall, the
/// detector is at the time of the last of them.
pub proof fn lemma_clock_follows(state: MidasRView, events: Seq<(u64, u64, u64)>)
    requires
        in_order(state.current_time, events),
    ensures
        state.after(events).current_time == if events.len() == 0 {
            state.current_time
        } else {
            events.last().2
        },
    decreases events.len(),
{
    if events.len() > 0 {
        let earlier = events.drop_last();
        assert forall|i: int| 0 <= i < earlier.len() implies state.current_time <= (
        #[trigger] earlier[i]).2 by {
            assert(earlier[i] == events[i]);
        }
        assert forall|i: int, j: int| 0 <= i <= j < earlier.len() implies (#[trigger] earlier[i]).2
            <= (#[trigger] earlier[j]).2 by {
            assert(earlier[i] == events[i]);
            assert(earlier[j] == events[j]);
        }
        lemma_clock_follows(state, earlier);
        assert(events.last() == events[events.len() - 1]);
        if earlier.len() > 0 {
            assert(earlier.last() == events[events.len() - 2]);
        }
    }
}

/// Decay is asked for once for every tick that passes: over events whose times
/// never fall, the ticks of decay asked for add up to the time that has passed.
pub proof fn lemma_elapsed_adds_up(state: MidasRView, events: Seq<(u64, u64, u64)>)
    requires
        in_order(state.current_time, events),
    ensures
        elapsed_in_all(state.steps(events)) == state.after(events).current_time
            - state.current_time,
    decreases events.len(),
{
    if events.len() > 0 {
        let earlier = events.drop_last();
        let last = events.last();
        assert forall|i: int| 0 <= i < earlier.len() implies state.current_time <= (
        #[trigger] earlier[i]).2 by {
            assert(earlier[i] == events[i]);
        }
        assert forall|i: int, j: int| 0 <= i <= j < earlier.len() implies (#[trigger] earlier[i]).2
            <= (#[trigger] earlier[j]).2 by {
            assert(earlier[i] == events[i]);
            assert(earlier[j] == events[j]);
        }
        lemma_elapsed_adds_up(state, earlier);
        lemma_clock_follows(state, earlier);
        assert(last == events[events.len() - 1]);
        if earlier.len() > 0 {
            assert(earlier.last() == events[events.len() - 2]);
        }
        assert(state.steps(events).drop_last() =~= state.steps(earlier)) by {
            assert forall|i: int| 0 <= i < earlier.len() implies #[trigger] events.take(i)
                =~= earlier.take(i) by {}
        }
        assert(events.take(events.len() - 1) =~= earlier);
    }
}

/// A gap is decayed in one step: an event that comes some ticks after the
/// one before it asks for exactly that many ticks of decay, and the counters
/// of every edge and node are then in the cells in which they were before.
pub proof fn lemma_gap_decays_once(
    state: MidasRView,
    first: (u64, u64, u64),
    second: (u64, u64, u64),
    source: u64,
    dest: u64,
)
    requires
        state.current_time <= first.2 <= second.2,
    ensures
        state.insert(first.0, first.1, first.2).step(second.0, second.1, second.2).elapsed
            == second.2 - first.2,
        state.after(seq![first, second]).query(source, dest).edge_cells == state.query(
            source,
            dest,
        ).edge_cells,
        state.after(seq![first, second]).query(source, dest).source_cells == state.query(
            source,
            dest,
        ).source_cells,
        state.after(seq![first, second]).query(source, dest).dest_cells == state.query(
            source,
            dest,
        ).dest_cells,
{
    reveal_with_fuel(MidasRView::after, 3);
}

/// The answers are determined by the geometry: two detectors that have seen
/// nothing, built for the same parameters with the same hash functions, are
/// one and the same, and answer the same events alike.
pub proof fn lemma_same_geometry_same_answers(
    one: MidasRView,
    other: MidasRView,
    params: MidasRParams,
    events: Seq<(u64, u64, u64)>,
)
    requires
        one.fresh(params),
        other.fresh(params),
        one.current_count.rows == other.current_count.rows,
        one.source_score.rows == other.source_score.rows,
        one.dest_score.rows == other.dest_score.rows,
        forall|i: int|
            0 <= i < params.rows ==> (#[trigger] one.total_count.rows[i]).geometry
                == other.total_count.rows[i].geometry,
        forall|i: int|
            0 <= i < params.rows ==> (#[trigger] one.source_total.rows[i]).geometry
                == other.source_total.rows[i].geometry,
        forall|i: int|
            0 <= i < params.rows ==> (#[trigger] one.dest_total.rows[i]).geometry
                == other.dest_total.rows[i].geometry,
    ensures
        one == other,
        one.steps(events) == other.steps(events),
        one.after(events) == other.after(events),
{
    assert(one.total_count.rows =~= other.total_count.rows);
    assert(one.source_total.rows =~= other.source_total.rows);
    assert(one.dest_total.rows =~= other.dest_total.rows);
}

} // verus!
