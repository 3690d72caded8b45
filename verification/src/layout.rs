use vstd::prelude::*;
use crate::hashing::{Geometry, RowHash};
use crate::rng::Rng;

verus! {

/// The placement of a sketch as the contracts see it.
pub struct LayoutView {
    pub m_value: u64,
    pub rows: Seq<Geometry>,
}

impl LayoutView {
    /// Every row is well formed, and all rows have the same number of buckets.
    pub open spec fn wf(self) -> bool {
        &&& forall|i: int| 0 <= i < self.rows.len() ==> (#[trigger] self.rows[i]).wf()
        &&& forall|i: int, j: int|
            0 <= i < self.rows.len() && 0 <= j < self.rows.len() ==> (
            #[trigger] self.rows[i]).buckets == (#[trigger] self.rows[j]).buckets
    }

    /// A placement over `rows` rows of `buckets` buckets each.
    pub open spec fn shaped(self, rows: nat, buckets: nat, m_value: u64) -> bool {
        &&& self.m_value == m_value
        &&& self.rows.len() == rows
        &&& forall|i: int| 0 <= i < self.rows.len() ==> (#[trigger] self.rows[i]).buckets == buckets
    }

    /// The placement that the draws give: one row per pair.
    pub open spec fn from_draws(buckets: u64, m_value: u64, draws: Seq<(u64, u64)>) -> LayoutView {
        LayoutView {
            m_value,
            rows: Seq::new(
                draws.len(),
                |i: int| Geometry::from_draws(buckets, draws[i].0, draws[i].1),
            ),
        }
    }

    /// The bucket of `(source, dest)` in each row, first row first.
    pub open spec fn cells(self, source: u64, dest: u64) -> Seq<u64> {
        Seq::new(self.rows.len(), |i: int| self.rows[i].slot(self.m_value, source, dest) as u64)
    }
}

/// Where a sketch keeps the counter of each pair in each of its rows, without
/// the counters: for a sketch whose counters are kept elsewhere.
pub struct Layout {
    m_value: u64,
    rows: Vec<RowHash>,
}

impl View for Layout {
    type V = LayoutView;

    closed spec fn view(&self) -> LayoutView {
        LayoutView { m_value: self.m_value, rows: Seq::new(self.rows@.len(), |i: int| self.rows[i]@) }
    }
}

impl Layout {
    /// The placement with one row per pair of draws.
    pub fn from_draws(buckets: u64, m_value: u64, draws: &Vec<(u64, u64)>) -> (layout: Self)
        requires
            buckets >= 2,
        ensures
            layout@ == LayoutView::from_draws(buckets, m_value, draws@),
            layout@.shaped(draws@.len(), buckets as nat, m_value),
            layout@.wf(),
    {
        let mut rows: Vec<RowHash> = Vec::new();
        let n: usize = draws.len();
        let mut i: usize = 0;
        while i < n
            invariant
                i <= n,
                n == draws.len(),
                buckets >= 2,
                rows@.len() == i,
                forall|k: int|
                    0 <= k < i ==> (#[trigger] rows[k])@ == Geometry::from_draws(
                        buckets,
                        draws[k].0,
                        draws[k].1,
                    ) && rows[k]@.wf(),
            decreases n - i,
        {
            let pair: (u64, u64) = draws[i];
            rows.push(RowHash::from_draws(buckets, pair.0, pair.1));
            i += 1;
        }
        let layout = Layout { m_value, rows };
        assert(layout@.rows =~= LayoutView::from_draws(buckets, m_value, draws@).rows);
        layout
    }

    /// A placement over `rows` rows whose hash functions are drawn from a
    /// generator seeded with `seed`.
    pub fn new(rows: u64, buckets: u64, m_value: u64, seed: u64) -> (layout: Self)
        requires
            buckets >= 2,
        ensures
            layout@.shaped(rows as nat, buckets as nat, m_value),
            layout@.wf(),
    {
        let mut rng = Rng::new(seed);
        let draws = rng.draw_pairs(rows);
        Layout::from_draws(buckets, m_value, &draws)
    }

    /// The bucket of `(source, dest)` in each row, first row first.
    pub fn cells(&self, source: u64, dest: u64) -> (cells: Vec<u64>)
        requires
            self@.wf(),
        ensures
            cells@ == self@.cells(source, dest),
            forall|i: int| 0 <= i < cells@.len() ==> cells[i] < (#[trigger] self@.rows[i]).buckets,
    {
        let mut cells: Vec<u64> = Vec::new();
        let n: usize = self.rows.len();
        let mut i: usize = 0;
        while i < n
            invariant
                i <= n,
                n == self.rows.len(),
                self@.wf(),
                cells@.len() == i,
                forall|k: int|
                    0 <= k < i ==> cells[k] == (#[trigger] self@.rows[k]).slot(
                        self.m_value,
                        source,
                        dest,
                    ) && cells[k] < self@.rows[k].buckets,
            decreases n - i,
        {
            assert(self@.rows[i as int].wf());
            cells.push(self.rows[i].hash(self.m_value, source, dest));
            i += 1;
        }
        assert(cells@ =~= self@.cells(source, dest));
        cells
    }
}

} // verus!
