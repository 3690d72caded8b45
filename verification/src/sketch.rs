use vstd::prelude::*;
use crate::hashing::Geometry;
use crate::rng::Rng;
use crate::row::{bump, Row, RowView, COUNT_LIMIT};

verus! {

/// The least of the counters that the rows hold for `(source, dest)`; with no
/// row to bound it, the largest value there is.
pub open spec fn min_count(rows: Seq<RowView>, m_value: u64, source: u64, dest: u64) -> u64
    decreases rows.len(),
{
    if rows.len() == 0 {
        u64::MAX
    } else {
        let rest = min_count(rows.drop_last(), m_value, source, dest);
        let last = rows.last().count(m_value, source, dest);
        if rest <= last {
            rest
        } else {
            last
        }
    }
}

/// The rows that result from adding `weight` for `(source, dest)` in every row.
pub open spec fn insert_each(
    rows: Seq<RowView>,
    m_value: u64,
    source: u64,
    dest: u64,
    weight: u64,
) -> Seq<RowView> {
    Seq::new(rows.len(), |i: int| rows[i].insert(m_value, source, dest, weight))
}

/// Whether in every row the counter of `(source, dest)` counts `weight` as a
/// double-precision counter does.
pub open spec fn takes_each(
    rows: Seq<RowView>,
    m_value: u64,
    source: u64,
    dest: u64,
    weight: u64,
) -> bool {
    forall|i: int| 0 <= i < rows.len() ==> (#[trigger] rows[i]).takes(m_value, source, dest, weight)
}

/// The rows with every counter back at zero.
pub open spec fn clear_each(rows: Seq<RowView>) -> Seq<RowView> {
    Seq::new(rows.len(), |i: int| rows[i].clear())
}

/// Zeroed rows of `buckets` buckets, the hash function of each taken from a
/// pair of draws.
pub open spec fn rows_from_draws(buckets: u64, draws: Seq<(u64, u64)>) -> Seq<RowView> {
    Seq::new(
        draws.len(),
        |i: int| RowView::empty(Geometry::from_draws(buckets, draws[i].0, draws[i].1)),
    )
}

/// Every row is well formed and all have `buckets` buckets.
pub open spec fn rows_wf(rows: Seq<RowView>, buckets: nat) -> bool {
    forall|i: int|
        0 <= i < rows.len() ==> (#[trigger] rows[i]).wf() && rows[i].geometry.buckets == buckets
}

/// Every row is well formed.
pub open spec fn each_wf(rows: Seq<RowView>) -> bool {
    forall|i: int| 0 <= i < rows.len() ==> (#[trigger] rows[i]).wf()
}

/// All rows have the same number of buckets.
pub open spec fn same_buckets(rows: Seq<RowView>) -> bool {
    forall|i: int, j: int|
        0 <= i < rows.len() && 0 <= j < rows.len() ==> (#[trigger] rows[i]).geometry.buckets == (
        #[trigger] rows[j]).geometry.buckets
}

/// Every row is zeroed.
pub open spec fn rows_empty(rows: Seq<RowView>) -> bool {
    forall|i: int| 0 <= i < rows.len() ==> #[trigger] rows[i] == RowView::empty(rows[i].geometry)
}

/// What the contracts see of a vector of rows.
spec fn views(rows: Seq<Row>) -> Seq<RowView> {
    Seq::new(rows.len(), |i: int| rows[i]@)
}

fn build_rows(buckets: u64, draws: &Vec<(u64, u64)>) -> (rows: Vec<Row>)
    requires
        2 <= buckets <= usize::MAX,
    ensures
        views(rows@) == rows_from_draws(buckets, draws@),
        rows_wf(views(rows@), buckets as nat),
{
    let mut rows: Vec<Row> = Vec::new();
    let n: usize = draws.len();
    let mut i: usize = 0;
    while i < n
        invariant
            i <= n,
            n == draws.len(),
            2 <= buckets <= usize::MAX,
            rows@.len() == i,
            forall|k: int|
                0 <= k < i ==> (#[trigger] rows[k])@ == RowView::empty(
                    Geometry::from_draws(buckets, draws[k].0, draws[k].1),
                ) && rows[k]@.wf(),
        decreases n - i,
    {
        let pair: (u64, u64) = draws[i];
        rows.push(Row::from_draws(buckets, pair.0, pair.1));
        i += 1;
    }
    assert(views(rows@) =~= rows_from_draws(buckets, draws@));
    rows
}

fn insert_rows(rows: &mut Vec<Row>, m_value: u64, source: u64, dest: u64, weight: u64)
    requires
        each_wf(views(old(rows)@)),
        takes_each(views(old(rows)@), m_value, source, dest, weight),
    ensures
        views(final(rows)@) == insert_each(views(old(rows)@), m_value, source, dest, weight),
        each_wf(views(final(rows)@)),
{
    assert forall|k: int| 0 <= k < old(rows).len() implies (#[trigger] old(rows)[k])@.wf()
        && old(rows)[k]@.takes(m_value, source, dest, weight) by {
        assert(views(old(rows)@)[k].wf());
        assert(views(old(rows)@)[k].takes(m_value, source, dest, weight));
    }
    let n: usize = rows.len();
    let mut i: usize = 0;
    while i < n
        invariant
            i <= n,
            n == rows.len(),
            n == old(rows).len(),
            forall|k: int|
                0 <= k < i ==> (#[trigger] rows[k])@ == old(rows)[k]@.insert(
                    m_value,
                    source,
                    dest,
                    weight,
                ) && rows[k]@.wf(),
            forall|k: int| i <= k < n ==> (#[trigger] rows[k]) == old(rows)[k],
            forall|k: int|
                0 <= k < n ==> (#[trigger] old(rows)[k])@.wf() && old(rows)[k]@.takes(
                    m_value,
                    source,
                    dest,
                    weight,
                ),
        decreases n - i,
    {
        rows[i].insert(m_value, source, dest, weight);
        i += 1;
    }
    assert(views(rows@) =~= insert_each(views(old(rows)@), m_value, source, dest, weight));
}

fn clear_rows(rows: &mut Vec<Row>)
    requires
        each_wf(views(old(rows)@)),
    ensures
        views(final(rows)@) == clear_each(views(old(rows)@)),
        each_wf(views(final(rows)@)),
{
    assert forall|k: int| 0 <= k < old(rows).len() implies (#[trigger] old(rows)[k])@.wf() by {
        assert(views(old(rows)@)[k].wf());
    }
    let n: usize = rows.len();
    let mut i: usize = 0;
    while i < n
        invariant
            i <= n,
            n == rows.len(),
            n == old(rows).len(),
            forall|k: int| 0 <= k < i ==> (#[trigger] rows[k])@ == old(rows)[k]@.clear() && rows[k]@.wf(),
            forall|k: int| i <= k < n ==> (#[trigger] rows[k]) == old(rows)[k],
            forall|k: int| 0 <= k < n ==> (#[trigger] old(rows)[k])@.wf(),
        decreases n - i,
    {
        rows[i].clear();
        i += 1;
    }
    assert(views(rows@) =~= clear_each(views(old(rows)@)));
}

fn min_rows(rows: &Vec<Row>, m_value: u64, source: u64, dest: u64) -> (least: u64)
    requires
        each_wf(views(rows@)),
    ensures
        least == min_count(views(rows@), m_value, source, dest),
{
    assert forall|k: int| 0 <= k < rows.len() implies (#[trigger] rows[k])@.wf() by {
        assert(views(rows@)[k].wf());
    }
    let n: usize = rows.len();
    let mut least: u64 = u64::MAX;
    let mut i: usize = 0;
    while i < n
        invariant
            i <= n,
            n == rows.len(),
            least == min_count(views(rows@).take(i as int), m_value, source, dest),
            forall|k: int| 0 <= k < n ==> (#[trigger] rows[k])@.wf(),
        decreases n - i,
    {
        let count: u64 = rows[i].count(m_value, source, dest);
        proof {
            let seen = views(rows@).take(i + 1);
            assert(seen.drop_last() =~= views(rows@).take(i as int));
            assert(seen.last() == rows[i as int]@);
        }
        if count < least {
            least = count;
        }
        i += 1;
    }
    assert(views(rows@).take(n as int) =~= views(rows@));
    least
}

/// The estimate is no more than the counter of any one row.
pub proof fn lemma_min_count_at_most(
    rows: Seq<RowView>,
    m_value: u64,
    source: u64,
    dest: u64,
    i: int,
)
    requires
        0 <= i < rows.len(),
    ensures
        min_count(rows, m_value, source, dest) <= rows[i].count(m_value, source, dest),
    decreases rows.len(),
{
    if i < rows.len() - 1 {
        lemma_min_count_at_most(rows.drop_last(), m_value, source, dest, i);
    }
}

/// Where every row of `after` holds at least what the same row of `before`
/// holds for a pair, the estimate for that pair has not gone down.
pub proof fn lemma_min_count_monotone(
    before: Seq<RowView>,
    after: Seq<RowView>,
    m_value: u64,
    source: u64,
    dest: u64,
)
    requires
        before.len() == after.len(),
        forall|i: int|
            0 <= i < before.len() ==> (#[trigger] before[i]).count(m_value, source, dest)
                <= after[i].count(m_value, source, dest),
    ensures
        min_count(before, m_value, source, dest) <= min_count(after, m_value, source, dest),
    decreases before.len(),
{
    if before.len() > 0 {
        assert(before.last() == before[before.len() - 1]);
        lemma_min_count_monotone(before.drop_last(), after.drop_last(), m_value, source, dest);
    }
}

/// Where every row of `after` holds for a pair what the same row of `before`
/// holds with `weight` added, the estimate for that pair is the old estimate
/// with `weight` added.
pub proof fn lemma_min_count_bumped(
    before: Seq<RowView>,
    after: Seq<RowView>,
    m_value: u64,
    source: u64,
    dest: u64,
    weight: u64,
)
    requires
        0 < before.len() == after.len(),
        forall|i: int|
            0 <= i < before.len() ==> (#[trigger] after[i]).count(m_value, source, dest) == bump(
                before[i].count(m_value, source, dest),
                weight,
            ),
    ensures
        min_count(after, m_value, source, dest) == bump(
            min_count(before, m_value, source, dest),
            weight,
        ),
    decreases before.len(),
{
    assert(after.last() == after[after.len() - 1]);
    assert(before.last() == before[before.len() - 1]);
    if before.len() > 1 {
        lemma_min_count_bumped(
            before.drop_last(),
            after.drop_last(),
            m_value,
            source,
            dest,
            weight,
        );
    } else {
        reveal_with_fuel(min_count, 2);
    }
}

/// Adding for a pair leaves every row well formed and as wide as it was.
pub proof fn lemma_insert_each_wf(
    rows: Seq<RowView>,
    m_value: u64,
    source: u64,
    dest: u64,
    weight: u64,
)
    requires
        each_wf(rows),
        same_buckets(rows),
    ensures
        each_wf(insert_each(rows, m_value, source, dest, weight)),
        same_buckets(insert_each(rows, m_value, source, dest, weight)),
{
    let after = insert_each(rows, m_value, source, dest, weight);
    assert forall|i: int| 0 <= i < after.len() implies (#[trigger] after[i]).wf()
        && after[i].geometry == rows[i].geometry by {
        assert(rows[i].wf());
    }
}

/// Adding `weight` for a pair raises the estimate for that pair by `weight`.
pub proof fn lemma_insert_each_counts(
    rows: Seq<RowView>,
    m_value: u64,
    source: u64,
    dest: u64,
    weight: u64,
)
    requires
        each_wf(rows),
        rows.len() > 0,
    ensures
        min_count(insert_each(rows, m_value, source, dest, weight), m_value, source, dest) == bump(
            min_count(rows, m_value, source, dest),
            weight,
        ),
{
    let after = insert_each(rows, m_value, source, dest, weight);
    assert forall|i: int| 0 <= i < rows.len() implies (#[trigger] after[i]).count(
        m_value,
        source,
        dest,
    ) == bump(rows[i].count(m_value, source, dest), weight) by {
        assert(rows[i].wf());
    }
    lemma_min_count_bumped(rows, after, m_value, source, dest, weight);
}

/// Adding for one pair never lowers the estimate for any pair.
pub proof fn lemma_insert_each_never_lowers(
    rows: Seq<RowView>,
    m_value: u64,
    source: u64,
    dest: u64,
    weight: u64,
    other_source: u64,
    other_dest: u64,
)
    requires
        each_wf(rows),
    ensures
        min_count(rows, m_value, other_source, other_dest) <= min_count(
            insert_each(rows, m_value, source, dest, weight),
            m_value,
            other_source,
            other_dest,
        ),
{
    let after = insert_each(rows, m_value, source, dest, weight);
    assert forall|i: int| 0 <= i < rows.len() implies (#[trigger] rows[i]).count(
        m_value,
        other_source,
        other_dest,
    ) <= after[i].count(m_value, other_source, other_dest) by {
        assert(rows[i].wf());
    }
    lemma_min_count_monotone(rows, after, m_value, other_source, other_dest);
}

/// A true count as a counter can hold it.
pub open spec fn capped(count: int) -> u64 {
    if count >= COUNT_LIMIT {
        COUNT_LIMIT
    } else if count <= 0 {
        0
    } else {
        count as u64
    }
}

/// An edge sketch as the contracts see it.
pub struct EdgeHashView {
    pub m_value: u64,
    pub rows: Seq<RowView>,
}

impl EdgeHashView {
    /// Every row is well formed, and all rows have the same number of buckets.
    pub open spec fn wf(self) -> bool {
        &&& each_wf(self.rows)
        &&& same_buckets(self.rows)
    }

    /// A sketch of `rows` zeroed rows of `buckets` buckets each.
    pub open spec fn fresh(self, rows: nat, buckets: nat, m_value: u64) -> bool {
        &&& self.m_value == m_value
        &&& self.rows.len() == rows
        &&& rows_wf(self.rows, buckets)
        &&& rows_empty(self.rows)
    }

    /// The count-min estimate for the edge `(source, dest)`.
    pub open spec fn count(self, source: u64, dest: u64) -> u64 {
        min_count(self.rows, self.m_value, source, dest)
    }

    /// Whether every row counts `weight` for the edge `(source, dest)` as a
    /// double-precision counter does: one unit always, more where no counter
    /// of the edge would pass `COUNT_LIMIT`.
    pub open spec fn takes(self, source: u64, dest: u64, weight: u64) -> bool {
        takes_each(self.rows, self.m_value, source, dest, weight)
    }

    /// The sketch after `weight` has been added for the edge `(source, dest)`.
    pub open spec fn insert(self, source: u64, dest: u64, weight: u64) -> EdgeHashView {
        EdgeHashView {
            m_value: self.m_value,
            rows: insert_each(self.rows, self.m_value, source, dest, weight),
        }
    }

    pub open spec fn clear(self) -> EdgeHashView {
        EdgeHashView { m_value: self.m_value, rows: clear_each(self.rows) }
    }

    /// The sketch after one unit has been added for each of `edges` in turn.
    pub open spec fn insert_all(self, edges: Seq<(u64, u64)>) -> EdgeHashView
        decreases edges.len(),
    {
        if edges.len() == 0 {
            self
        } else {
            self.insert_all(edges.drop_last()).insert(edges.last().0, edges.last().1, 1)
        }
    }

    /// Row `row` gives the edge `(source, dest)` a bucket that it gives to no
    /// other edge among `edges`.
    pub open spec fn keeps_alone(
        self,
        row: int,
        source: u64,
        dest: u64,
        edges: Seq<(u64, u64)>,
    ) -> bool {
        forall|j: int|
            0 <= j < edges.len() && (#[trigger] edges[j]) != (source, dest)
                ==> self.rows[row].geometry.slot(self.m_value, edges[j].0, edges[j].1)
                != self.rows[row].geometry.slot(self.m_value, source, dest)
    }
}

/// Adding for edges changes neither the mixing constant nor the number of
/// rows nor the hash function of any row, and keeps the sketch well formed.
pub proof fn lemma_insert_all_keeps_shape(sketch: EdgeHashView, edges: Seq<(u64, u64)>)
    requires
        sketch.wf(),
    ensures
        sketch.insert_all(edges).wf(),
        sketch.insert_all(edges).m_value == sketch.m_value,
        sketch.insert_all(edges).rows.len() == sketch.rows.len(),
        forall|i: int|
            0 <= i < sketch.rows.len() ==> (#[trigger] sketch.insert_all(edges).rows[i]).geometry
                == sketch.rows[i].geometry,
    decreases edges.len(),
{
    if edges.len() > 0 {
        let before = sketch.insert_all(edges.drop_last());
        lemma_insert_all_keeps_shape(sketch, edges.drop_last());
        lemma_insert_each_wf(before.rows, before.m_value, edges.last().0, edges.last().1, 1);
    }
}

/// An estimate never falls while edges are added.
pub proof fn lemma_edge_count_never_falls(
    sketch: EdgeHashView,
    edges: Seq<(u64, u64)>,
    source: u64,
    dest: u64,
)
    requires
        sketch.wf(),
    ensures
        sketch.insert_all(edges).count(source, dest) >= sketch.count(source, dest),
    decreases edges.len(),
{
    if edges.len() > 0 {
        let before = sketch.insert_all(edges.drop_last());
        lemma_edge_count_never_falls(sketch, edges.drop_last(), source, dest);
        lemma_insert_all_keeps_shape(sketch, edges.drop_last());
        lemma_insert_each_never_lowers(
            before.rows,
            before.m_value,
            edges.last().0,
            edges.last().1,
            1,
            source,
            dest,
        );
    }
}

/// A row that keeps an edge alone counts it exactly: after one unit has been
/// added for each of `edges`, its counter for the edge is what it was before
/// plus the number of times that the edge occurs among them, as far as a
/// counter can hold it.
pub proof fn lemma_alone_counter_exact(
    sketch: EdgeHashView,
    edges: Seq<(u64, u64)>,
    row: int,
    source: u64,
    dest: u64,
)
    requires
        sketch.wf(),
        0 <= row < sketch.rows.len(),
        sketch.keeps_alone(row, source, dest, edges),
    ensures
        sketch.insert_all(edges).rows[row].count(sketch.m_value, source, dest) == capped(
            sketch.rows[row].count(sketch.m_value, source, dest) + edges.to_multiset().count(
                (source, dest),
            ),
        ),
    decreases edges.len(),
{
    broadcast use vstd::seq_lib::group_to_multiset_ensures;

    assert(sketch.rows[row].wf());
    if edges.len() == 0 {
        assert(edges.to_multiset().len() == 0);
    } else {
        let earlier = edges.drop_last();
        let last = edges.last();
        let before = sketch.insert_all(earlier);
        assert forall|j: int| 0 <= j < earlier.len() && (#[trigger] earlier[j]) != (
            source,
            dest,
        ) implies sketch.rows[row].geometry.slot(sketch.m_value, earlier[j].0, earlier[j].1)
            != sketch.rows[row].geometry.slot(sketch.m_value, source, dest) by {
            assert(earlier[j] == edges[j]);
        }
        lemma_alone_counter_exact(sketch, earlier, row, source, dest);
        lemma_insert_all_keeps_shape(sketch, earlier);
        assert(last == edges[edges.len() - 1]);
        assert(edges =~= earlier.push(last));
        assert(edges.to_multiset() =~= earlier.to_multiset().insert(last));
        assert(before.rows[row].wf());
    }
}

/// An emptied sketch counts exactly what some row keeps alone: after one unit
/// has been added for each of `edges`, the estimate for such an edge is the
/// number of times that it occurs among them, as far as a counter can hold it;
/// for an edge that does not occur, nothing.
pub proof fn lemma_emptied_sketch_exact(
    sketch: EdgeHashView,
    edges: Seq<(u64, u64)>,
    row: int,
    source: u64,
    dest: u64,
)
    requires
        sketch.wf(),
        0 <= row < sketch.rows.len(),
        sketch.keeps_alone(row, source, dest, edges),
    ensures
        sketch.clear().insert_all(edges).count(source, dest) == capped(
            edges.to_multiset().count((source, dest)) as int,
        ),
{
    let emptied = sketch.clear();
    lemma_clear_wf(sketch);
    assert(sketch.rows[row].wf());
    assert(emptied.rows[row].geometry == sketch.rows[row].geometry);
    assert(emptied.keeps_alone(row, source, dest, edges));
    lemma_alone_counter_exact(emptied, edges, row, source, dest);
    lemma_insert_all_keeps_shape(emptied, edges);
    lemma_min_count_at_most(emptied.insert_all(edges).rows, sketch.m_value, source, dest, row);
    lemma_edge_count_never_short(emptied, edges, source, dest);
    lemma_min_count_at_most(emptied.rows, sketch.m_value, source, dest, row);
}

/// A sketch that has counted nothing counts exactly what some row keeps
/// alone: after one unit has been added for each of `edges`, the estimate for
/// such an edge is the number of times that it occurs among them, as far as a
/// counter can hold it.
pub proof fn lemma_fresh_sketch_exact(
    sketch: EdgeHashView,
    rows: nat,
    buckets: nat,
    edges: Seq<(u64, u64)>,
    row: int,
    source: u64,
    dest: u64,
)
    requires
        sketch.fresh(rows, buckets, sketch.m_value),
        0 <= row < rows,
        sketch.keeps_alone(row, source, dest, edges),
    ensures
        sketch.insert_all(edges).count(source, dest) == capped(
            edges.to_multiset().count((source, dest)) as int,
        ),
{
    assert(sketch.clear().rows =~= sketch.rows);
    lemma_emptied_sketch_exact(sketch, edges, row, source, dest);
}

/// Emptying keeps a sketch well formed.
pub proof fn lemma_clear_wf(sketch: EdgeHashView)
    requires
        sketch.wf(),
    ensures
        sketch.clear().wf(),
{
    let emptied = sketch.clear();
    assert forall|i: int| 0 <= i < emptied.rows.len() implies (#[trigger] emptied.rows[i]).wf()
        && emptied.rows[i].geometry == sketch.rows[i].geometry by {
        assert(sketch.rows[i].wf());
    }
}

/// A count-min estimate never falls short: after one unit has been added for
/// each of `edges`, the estimate for an edge is at least what it was before
/// plus the number of times that the edge occurs among them, as far as a
/// counter can hold it.
pub proof fn lemma_edge_count_never_short(
    sketch: EdgeHashView,
    edges: Seq<(u64, u64)>,
    source: u64,
    dest: u64,
)
    requires
        sketch.wf(),
    ensures
        sketch.insert_all(edges).wf(),
        sketch.insert_all(edges).count(source, dest) >= capped(
            sketch.count(source, dest) + edges.to_multiset().count((source, dest)),
        ),
    decreases edges.len(),
{
    broadcast use vstd::seq_lib::group_to_multiset_ensures;

    if edges.len() == 0 {
        assert(edges.to_multiset().len() == 0);
    } else {
        let earlier = edges.drop_last();
        let last = edges.last();
        let before = sketch.insert_all(earlier);
        lemma_edge_count_never_short(sketch, earlier, source, dest);
        assert(edges =~= earlier.push(last));
        assert(edges.to_multiset() =~= earlier.to_multiset().insert(last));
        lemma_insert_each_wf(before.rows, before.m_value, last.0, last.1, 1);
        if last == (source, dest) && before.rows.len() > 0 {
            lemma_insert_each_counts(before.rows, before.m_value, source, dest, 1);
        } else {
            lemma_insert_each_never_lowers(
                before.rows,
                before.m_value,
                last.0,
                last.1,
                1,
                source,
                dest,
            );
        }
    }
}

/// Approximate counts of edges: independent rows that share a mixing constant.
pub struct EdgeHash {
    m_value: u64,
    rows: Vec<Row>,
}

impl View for EdgeHash {
    type V = EdgeHashView;

    closed spec fn view(&self) -> EdgeHashView {
        EdgeHashView { m_value: self.m_value, rows: views(self.rows@) }
    }
}

impl EdgeHash {
    /// A zeroed sketch with one row per pair of draws.
    pub fn from_draws(buckets: u64, m_value: u64, draws: &Vec<(u64, u64)>) -> (sketch: Self)
        requires
            2 <= buckets <= usize::MAX,
        ensures
            sketch@ == (EdgeHashView { m_value, rows: rows_from_draws(buckets, draws@) }),
            sketch@.fresh(draws@.len(), buckets as nat, m_value),
            sketch@.wf(),
    {
        EdgeHash { m_value, rows: build_rows(buckets, draws) }
    }

    /// A zeroed sketch of `rows` rows whose hash functions are drawn from a
    /// generator seeded with `seed`.
    pub fn new(rows: u64, buckets: u64, m_value: u64, seed: u64) -> (sketch: Self)
        requires
            2 <= buckets <= usize::MAX,
        ensures
            sketch@.fresh(rows as nat, buckets as nat, m_value),
            sketch@.wf(),
    {
        let mut rng = Rng::new(seed);
        let draws = rng.draw_pairs(rows);
        EdgeHash::from_draws(buckets, m_value, &draws)
    }

    /// Sets every counter to zero.
    pub fn clear(&mut self)
        requires
            old(self)@.wf(),
        ensures
            final(self)@ == old(self)@.clear(),
            final(self)@.wf(),
    {
        clear_rows(&mut self.rows);
    }

    /// Adds `weight` for the edge `(source, dest)` in every row.
    pub fn insert(&mut self, source: u64, dest: u64, weight: u64)
        requires
            old(self)@.wf(),
            old(self)@.takes(source, dest, weight),
        ensures
            final(self)@ == old(self)@.insert(source, dest, weight),
            final(self)@.wf(),
            old(self)@.rows.len() > 0 ==> final(self)@.count(source, dest) == bump(
                old(self)@.count(source, dest),
                weight,
            ),
            forall|other_source: u64, other_dest: u64|
                old(self)@.count(other_source, other_dest) <= #[trigger] final(self)@.count(
                    other_source,
                    other_dest,
                ),
    {
        let m_value: u64 = self.m_value;
        insert_rows(&mut self.rows, m_value, source, dest, weight);
        proof {
            let before = old(self)@;
            if before.rows.len() > 0 {
                lemma_insert_each_counts(before.rows, m_value, source, dest, weight);
            }
            assert forall|other_source: u64, other_dest: u64|
                before.count(other_source, other_dest) <= #[trigger] self@.count(
                    other_source,
                    other_dest,
                ) by {
                lemma_insert_each_never_lowers(
                    before.rows,
                    m_value,
                    source,
                    dest,
                    weight,
                    other_source,
                    other_dest,
                );
            }
        }
    }

    /// The least counter that any row holds for the edge `(source, dest)`.
    pub fn count(&self, source: u64, dest: u64) -> (count: u64)
        requires
            self@.wf(),
        ensures
            count == self@.count(source, dest),
    {
        min_rows(&self.rows, self.m_value, source, dest)
    }
}

/// A node sketch as the contracts see it.
pub struct NodeHashView {
    pub rows: Seq<RowView>,
}

impl NodeHashView {
    /// Every row is well formed, and all rows have the same number of buckets.
    pub open spec fn wf(self) -> bool {
        &&& each_wf(self.rows)
        &&& same_buckets(self.rows)
    }

    /// A sketch of `rows` zeroed rows of `buckets` buckets each.
    pub open spec fn fresh(self, rows: nat, buckets: nat) -> bool {
        &&& self.rows.len() == rows
        &&& rows_wf(self.rows, buckets)
        &&& rows_empty(self.rows)
    }

    /// The count-min estimate for `node`.
    pub open spec fn count(self, node: u64) -> u64 {
        min_count(self.rows, 0, node, 0)
    }

    /// Whether every row counts `weight` for `node` as a double-precision
    /// counter does: one unit always, more where no counter of the node would
    /// pass `COUNT_LIMIT`.
    pub open spec fn takes(self, node: u64, weight: u64) -> bool {
        takes_each(self.rows, 0, node, 0, weight)
    }

    /// The sketch after `weight` has been added for `node`.
    pub open spec fn insert(self, node: u64, weight: u64) -> NodeHashView {
        NodeHashView { rows: insert_each(self.rows, 0, node, 0, weight) }
    }

    /// The sketch after one unit has been added for each of `nodes` in turn.
    pub open spec fn insert_all(self, nodes: Seq<u64>) -> NodeHashView
        decreases nodes.len(),
    {
        if nodes.len() == 0 {
            self
        } else {
            self.insert_all(nodes.drop_last()).insert(nodes.last(), 1)
        }
    }
}

/// A count-min estimate never falls short: after one unit has been added for
/// each of `nodes`, the estimate for a node is at least what it was before
/// plus the number of times that the node occurs among them, as far as a
/// counter can hold it.
pub proof fn lemma_node_count_never_short(sketch: NodeHashView, nodes: Seq<u64>, node: u64)
    requires
        sketch.wf(),
    ensures
        sketch.insert_all(nodes).wf(),
        sketch.insert_all(nodes).count(node) >= capped(
            sketch.count(node) + nodes.to_multiset().count(node),
        ),
    decreases nodes.len(),
{
    broadcast use vstd::seq_lib::group_to_multiset_ensures;

    if nodes.len() == 0 {
        assert(nodes.to_multiset().len() == 0);
    } else {
        let earlier = nodes.drop_last();
        let last = nodes.last();
        let before = sketch.insert_all(earlier);
        lemma_node_count_never_short(sketch, earlier, node);
        assert(nodes =~= earlier.push(last));
        assert(nodes.to_multiset() =~= earlier.to_multiset().insert(last));
        lemma_insert_each_wf(before.rows, 0, last, 0, 1);
        if last == node && before.rows.len() > 0 {
            lemma_insert_each_counts(before.rows, 0, node, 0, 1);
        } else {
            lemma_insert_each_never_lowers(before.rows, 0, last, 0, 1, node, 0);
        }
    }
}

/// Approximate counts of nodes: independent rows, each keyed by the node alone.
pub struct NodeHash {
    rows: Vec<Row>,
}

impl View for NodeHash {
    type V = NodeHashView;

    closed spec fn view(&self) -> NodeHashView {
        NodeHashView { rows: views(self.rows@) }
    }
}

impl NodeHash {
    /// A zeroed sketch with one row per pair of draws.
    pub fn from_draws(buckets: u64, draws: &Vec<(u64, u64)>) -> (sketch: Self)
        requires
            2 <= buckets <= usize::MAX,
        ensures
            sketch@ == (NodeHashView { rows: rows_from_draws(buckets, draws@) }),
            sketch@.fresh(draws@.len(), buckets as nat),
            sketch@.wf(),
    {
        NodeHash { rows: build_rows(buckets, draws) }
    }

    /// A zeroed sketch of `rows` rows whose hash functions are drawn from a
    /// generator seeded with `seed`.
    pub fn new(rows: u64, buckets: u64, seed: u64) -> (sketch: Self)
        requires
            2 <= buckets <= usize::MAX,
        ensures
            sketch@.fresh(rows as nat, buckets as nat),
            sketch@.wf(),
    {
        let mut rng = Rng::new(seed);
        let draws = rng.draw_pairs(rows);
        NodeHash::from_draws(buckets, &draws)
    }

    /// The least counter that any row holds for `node`.
    pub fn count(&self, node: u64) -> (count: u64)
        requires
            self@.wf(),
        ensures
            count == self@.count(node),
    {
        min_rows(&self.rows, 0, node, 0)
    }

    /// Adds `weight` for `node` in every row.
    pub fn insert(&mut self, node: u64, weight: u64)
        requires
            old(self)@.wf(),
            old(self)@.takes(node, weight),
        ensures
            final(self)@ == old(self)@.insert(node, weight),
            final(self)@.wf(),
            old(self)@.rows.len() > 0 ==> final(self)@.count(node) == bump(
                old(self)@.count(node),
                weight,
            ),
            forall|other: u64| old(self)@.count(other) <= #[trigger] final(self)@.count(other),
    {
        insert_rows(&mut self.rows, 0, node, 0, weight);
        proof {
            let before = old(self)@;
            if before.rows.len() > 0 {
                lemma_insert_each_counts(before.rows, 0, node, 0, weight);
            }
            assert forall|other: u64| before.count(other) <= #[trigger] self@.count(other) by {
                lemma_insert_each_never_lowers(before.rows, 0, node, 0, weight, other, 0);
            }
        }
    }
}

} // verus!
