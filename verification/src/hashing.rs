use vstd::prelude::*;
use vstd::arithmetic::div_mod::lemma_mul_mod_noop_left;
use crate::rng::Rng;

verus! {

/// Number of values of a 64-bit word: hashing is carried out modulo this.
pub open spec fn word() -> int {
    0x1_0000_0000_0000_0000
}

/// The bucket that a row with coefficients `a` and `b` and `buckets` counters
/// gives to the pair `(source, dest)` under the mixing constant `m_value`:
/// the affine form `(m_value * dest + source) * a + b`, reduced to a 64-bit
/// word and then to the number of buckets.
pub open spec fn bucket_of(
    a: u64,
    b: u64,
    buckets: int,
    m_value: u64,
    source: u64,
    dest: u64,
) -> int {
    (((m_value * dest + source) * a + b) % word()) % buckets
}

/// What a row's hash function is made of.
pub struct Geometry {
    pub a: u64,
    pub b: u64,
    pub buckets: nat,
}

impl Geometry {
    /// At least two buckets, `a` in `[1, buckets - 1]`, `b` in `[0, buckets - 1]`.
    pub open spec fn wf(self) -> bool {
        &&& 2 <= self.buckets <= u64::MAX
        &&& 1 <= self.a < self.buckets
        &&& self.b < self.buckets
    }

    /// The geometry that two draws give a row of `buckets` buckets.
    pub open spec fn from_draws(buckets: u64, first: u64, second: u64) -> Geometry {
        Geometry {
            a: (first % ((buckets - 1) as u64) + 1) as u64,
            b: second % buckets,
            buckets: buckets as nat,
        }
    }

    /// The bucket of the pair `(source, dest)`.
    pub open spec fn slot(self, m_value: u64, source: u64, dest: u64) -> int {
        bucket_of(self.a, self.b, self.buckets as int, m_value, source, dest)
    }
}

/// The affine hash function of one row.
#[derive(Clone, Copy, Debug)]
pub struct RowHash {
    a: u64,
    b: u64,
    buckets: u64,
}

impl View for RowHash {
    type V = Geometry;

    closed spec fn view(&self) -> Geometry {
        Geometry { a: self.a, b: self.b, buckets: self.buckets as nat }
    }
}

impl RowHash {
    /// Builds the hash function from two given draws.
    pub fn from_draws(buckets: u64, first: u64, second: u64) -> (hash: Self)
        requires
            buckets >= 2,
        ensures
            hash@ == Geometry::from_draws(buckets, first, second),
            hash@.wf(),
    {
        RowHash { a: first % (buckets - 1) + 1, b: second % buckets, buckets }
    }

    /// Builds the hash function from the next two draws of `rng`.
    pub fn new(buckets: u64, rng: &mut Rng) -> (hash: Self)
        requires
            buckets >= 2,
        ensures
            hash@.wf(),
            hash@.buckets == buckets,
    {
        let first: u64 = rng.rand();
        let second: u64 = rng.rand();
        RowHash::from_draws(buckets, first, second)
    }

    /// The number of buckets that the function hashes into.
    pub fn num_buckets(&self) -> (n: u64)
        ensures
            n == self@.buckets,
    {
        self.buckets
    }

    /// The bucket of `(source, dest)`, computed with wrapping 64-bit arithmetic.
    pub fn hash(&self, m_value: u64, source: u64, dest: u64) -> (index: u64)
        requires
            self@.wf(),
        ensures
            index == self@.slot(m_value, source, dest),
            index < self@.buckets,
    {
        let mixed: u64 = m_value.wrapping_mul(dest).wrapping_add(source);
        let scaled: u64 = mixed.wrapping_mul(self.a).wrapping_add(self.b);
        proof {
            let key = m_value * dest + source;
            assert(mixed == key % word());
            assert((mixed * self.a) % word() == (key * self.a) % word()) by {
                lemma_mul_mod_noop_left(key, self.a as int, word());
            }
            assert(scaled == (key * self.a + self.b) % word());
        }
        scaled % self.buckets
    }
}

} // verus!
