use vstd::prelude::*;

verus! {

/// `rand::rngs::SmallRng`, the small fast generator of the `rand` crate, held
/// as an opaque value.
#[verifier::external_type_specification]
#[verifier::external_body]
pub struct ExSmallRng(rand::rngs::SmallRng);

/// `SmallRng::seed_from_u64` of the `rand` crate. The generator it returns is
/// fixed by the seed on a given platform and release of `rand`, but `rand`
/// does not promise the same stream elsewhere, so nothing is claimed of it.
#[verifier::external_body]
fn seeded(seed: u64) -> rand::rngs::SmallRng {
    rand::SeedableRng::seed_from_u64(seed)
}

/// `RngCore::next_u32` on a `SmallRng`. Any 32-bit value may come back.
#[verifier::external_body]
fn next_u32(rng: &mut rand::rngs::SmallRng) -> u32 {
    rand::RngCore::next_u32(rng)
}

/// Source of the draws from which the rows of a sketch take their hash
/// coefficients. One is made per sketch and dropped once the rows are built.
pub struct Rng {
    inner: rand::rngs::SmallRng,
}

impl Rng {
    /// A generator seeded with `seed`. Which draws it will give is left open:
    /// `rand` fixes them by the seed only for one platform and one release.
    /// What is made of the draws is stated where they are taken as arguments,
    /// in the `from_draws` constructors.
    pub fn new(seed: u64) -> Self {
        Rng { inner: seeded(seed) }
    }

    /// The next draw, widened to 64 bits. It may be any 32-bit value.
    pub fn rand(&mut self) -> (draw: u64)
        ensures
            draw <= u32::MAX,
    {
        let word: u32 = next_u32(&mut self.inner);
        word as u64
    }

    /// The next `pairs` pairs of draws, in the order in which they are drawn.
    pub fn draw_pairs(&mut self, pairs: u64) -> (draws: Vec<(u64, u64)>)
        ensures
            draws@.len() == pairs,
            forall|i: int|
                0 <= i < draws@.len() ==> (#[trigger] draws[i]).0 <= u32::MAX && draws[i].1
                    <= u32::MAX,
    {
        let mut draws: Vec<(u64, u64)> = Vec::new();
        let mut i: u64 = 0;
        while i < pairs
            invariant
                i <= pairs,
                draws@.len() == i,
                forall|k: int|
                    0 <= k < draws@.len() ==> (#[trigger] draws[k]).0 <= u32::MAX && draws[k].1
                        <= u32::MAX,
            decreases pairs - i,
        {
            let first: u64 = self.rand();
            let second: u64 = self.rand();
            draws.push((first, second));
            i += 1;
        }
        draws
    }
}

} // verus!
