use vstd::prelude::*;
use crate::hashing::{Geometry, RowHash};
use crate::rng::Rng;

verus! {

/// Where a counter stops counting. Below it every integer is exactly a
/// double-precision value, and a double-precision counter that is raised by
/// one at a time stands still once it gets here; so does this one.
pub const COUNT_LIMIT: u64 = 0x20_0000_0000_0000;

/// Whether a counter at `count` counts `weight` as a double-precision counter
/// does: the sum is within `COUNT_LIMIT`, or the weight is one unit, which a
/// counter at `COUNT_LIMIT` does not feel.
pub open spec fn takes(count: u64, weight: u64) -> bool {
    weight == 1 || count + weight <= COUNT_LIMIT
}

/// A counter that held `count` after `weight` has been added to it: the sum,
/// and never more than `COUNT_LIMIT`.
pub open spec fn bump(count: u64, weight: u64) -> u64 {
    if count + weight >= COUNT_LIMIT {
        COUNT_LIMIT
    } else {
        (count + weight) as u64
    }
}

/// A row as the contracts see it: its hash function and its counters.
pub struct RowView {
    pub geometry: Geometry,
    pub cells: Seq<u64>,
}

impl RowView {
    /// One counter per bucket, none above `COUNT_LIMIT`.
    pub open spec fn wf(self) -> bool {
        &&& self.geometry.wf()
        &&& self.cells.len() == self.geometry.buckets
        &&& forall|i: int| 0 <= i < self.cells.len() ==> self.cells[i] <= COUNT_LIMIT
    }

    /// A row of this geometry with every counter at zero.
    pub open spec fn empty(geometry: Geometry) -> RowView {
        RowView { geometry, cells: Seq::new(geometry.buckets, |i: int| 0u64) }
    }

    /// The counter of `(source, dest)`.
    pub open spec fn count(self, m_value: u64, source: u64, dest: u64) -> u64 {
        self.cells[self.geometry.slot(m_value, source, dest)]
    }

    /// Whether the counter of `(source, dest)` counts `weight` as a
    /// double-precision counter does.
    pub open spec fn takes(self, m_value: u64, source: u64, dest: u64, weight: u64) -> bool {
        takes(self.count(m_value, source, dest), weight)
    }

    /// The row after `weight` has been added to the counter of `(source, dest)`.
    pub open spec fn insert(self, m_value: u64, source: u64, dest: u64, weight: u64) -> RowView {
        let slot = self.geometry.slot(m_value, source, dest);
        RowView {
            geometry: self.geometry,
            cells: self.cells.update(slot, bump(self.cells[slot], weight)),
        }
    }

    /// The row with every counter back at zero.
    pub open spec fn clear(self) -> RowView {
        RowView::empty(self.geometry)
    }
}

/// One hashed counting array.
pub struct Row {
    hash: RowHash,
    buckets: Vec<u64>,
}

impl View for Row {
    type V = RowView;

    closed spec fn view(&self) -> RowView {
        RowView { geometry: self.hash@, cells: self.buckets@ }
    }
}

impl Row {
    /// A row of `buckets` zeroed counters whose hash function comes from two
    /// given draws.
    pub fn from_draws(buckets: u64, first: u64, second: u64) -> (row: Self)
        requires
            2 <= buckets <= usize::MAX,
        ensures
            row@ == RowView::empty(Geometry::from_draws(buckets, first, second)),
            row@.wf(),
    {
        let hash = RowHash::from_draws(buckets, first, second);
        let row = Row { hash, buckets: vec![0u64; buckets as usize] };
        assert(row@.cells =~= RowView::empty(hash@).cells);
        row
    }

    /// A row of `buckets` zeroed counters whose hash function comes from the
    /// next two draws of `rng`.
    pub fn new(buckets: u64, rng: &mut Rng) -> (row: Self)
        requires
            2 <= buckets <= usize::MAX,
        ensures
            row@ == RowView::empty(row@.geometry),
            row@.geometry.buckets == buckets,
            row@.wf(),
    {
        let first: u64 = rng.rand();
        let second: u64 = rng.rand();
        Row::from_draws(buckets, first, second)
    }

    /// The bucket of `(source, dest)` in this row.
    pub fn hash(&self, m_value: u64, source: u64, dest: u64) -> (index: u64)
        requires
            self@.wf(),
        ensures
            index == self@.geometry.slot(m_value, source, dest),
            index < self@.cells.len(),
    {
        self.hash.hash(m_value, source, dest)
    }

    /// Adds `weight` to the counter of `(source, dest)`.
    pub fn insert(&mut self, m_value: u64, source: u64, dest: u64, weight: u64)
        requires
            old(self)@.wf(),
            old(self)@.takes(m_value, source, dest, weight),
        ensures
            final(self)@ == old(self)@.insert(m_value, source, dest, weight),
            final(self)@.wf(),
            final(self)@.count(m_value, source, dest) == bump(
                old(self)@.count(m_value, source, dest),
                weight,
            ),
    {
        let slot: u64 = self.hash(m_value, source, dest);
        assert(slot < self.buckets.len());
        let index: usize = slot as usize;
        let count: u64 = self.buckets[index];
        let raised: u64 = if weight >= COUNT_LIMIT - count {
            COUNT_LIMIT
        } else {
            count + weight
        };
        self.buckets[index] = raised;
    }

    /// Adds `weight` to the counter of a single node.
    pub fn node_insert(&mut self, node: u64, weight: u64)
        requires
            old(self)@.wf(),
            old(self)@.takes(0, node, 0, weight),
        ensures
            final(self)@ == old(self)@.insert(0, node, 0, weight),
            final(self)@.wf(),
            final(self)@.count(0, node, 0) == bump(old(self)@.count(0, node, 0), weight),
    {
        self.insert(0, node, 0, weight)
    }

    /// The counter of `(source, dest)`.
    pub fn count(&self, m_value: u64, source: u64, dest: u64) -> (count: u64)
        requires
            self@.wf(),
        ensures
            count == self@.count(m_value, source, dest),
            count <= COUNT_LIMIT,
    {
        let slot: u64 = self.hash(m_value, source, dest);
        assert(slot < self.buckets.len());
        self.buckets[slot as usize]
    }

    /// The counter of a single node.
    pub fn node_count(&self, node: u64) -> (count: u64)
        requires
            self@.wf(),
        ensures
            count == self@.count(0, node, 0),
            count <= COUNT_LIMIT,
    {
        self.count(0, node, 0)
    }

    /// Sets every counter to zero.
    pub fn clear(&mut self)
        requires
            old(self)@.wf(),
        ensures
            final(self)@ == old(self)@.clear(),
            final(self)@.wf(),
    {
        let n: usize = self.buckets.len();
        let mut i: usize = 0;
        while i < n
            invariant
                i <= n,
                n == self.buckets.len(),
                self.hash == old(self).hash,
                forall|k: int| 0 <= k < i ==> self.buckets[k] == 0,
            decreases n - i,
        {
            self.buckets[i] = 0;
            i += 1;
        }
        assert(self@.cells =~= old(self)@.clear().cells);
    }

    /// The number of counters in the row.
    pub fn num_buckets(&self) -> (n: usize)
        ensures
            n == self@.cells.len(),
    {
        self.buckets.len()
    }
}

} // verus!
