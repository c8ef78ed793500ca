//! The deterministic randomness stream.
//!
//! Every randomness need of a run is served by one xorshift stream seeded
//! from the run's 16-byte seed, drawn in 16-byte blocks. The stream is a
//! pure function of the seed, so a run is reproducible given the same seed;
//! `xs_block` names the block at each position of that function.

use vstd::prelude::*;

verus! {

/// Declares `rand_xorshift::XorShiftRng` so it can stand in a field; its
/// state stays opaque, and only the wrappers below touch it.
#[verifier::external_type_specification]
#[verifier::external_body]
pub struct ExXorShiftRng(rand_xorshift::XorShiftRng);

/// The 16-byte block at position `idx` of the xorshift byte stream seeded
/// with `seed`. The generator is a pure function of its seed, so the block
/// is determined by `seed` and `idx` alone.
pub uninterp spec fn xs_block(seed: Seq<u8>, idx: int) -> Seq<u8>;

/// Relies on rand's `SeedableRng::from_seed` for
/// `rand_xorshift::XorShiftRng`: construction is a pure function of the
/// 16-byte seed.
#[verifier::external_body]
fn xs_from_seed(seed: [u8; 16]) -> (r: rand_xorshift::XorShiftRng) {
    <rand_xorshift::XorShiftRng as rand::SeedableRng>::from_seed(seed)
}

/// The exclusively owned randomness stream of one prover. Draws advance
/// the position irreversibly; two streams built from equal seeds yield
/// equal blocks at equal positions.
pub struct RandStream {
    inner: rand_xorshift::XorShiftRng,
    seed_g: Ghost<Seq<u8>>,
    drawn_g: Ghost<int>,
}

impl RandStream {
    /// The seed the stream was built from.
    pub closed spec fn seed(self) -> Seq<u8> {
        self.seed_g@
    }

    /// How many 16-byte blocks have been drawn so far.
    pub closed spec fn drawn(self) -> int {
        self.drawn_g@
    }

    /// Start the deterministic stream at position zero.
    pub fn from_seed(seed: [u8; 16]) -> (r: RandStream)
        ensures
            r.seed() == seed@,
            r.drawn() == 0,
    {
        RandStream { inner: xs_from_seed(seed), seed_g: Ghost(seed@), drawn_g: Ghost(0int) }
    }

    /// Draw the next 16-byte block of the stream.
    ///
    /// Relies on `rand::RngCore::fill_bytes` for
    /// `rand_xorshift::XorShiftRng`: filling 16 bytes consumes exactly four
    /// 32-bit words of the generator, so successive 16-byte draws read the
    /// seed's byte stream block by block, a pure function of the seed and
    /// of how many blocks were drawn before.
    #[verifier::external_body]
    pub fn fill16(&mut self) -> (r: [u8; 16])
        ensures
            r@ == xs_block(old(self).seed(), old(self).drawn()),
            final(self).seed() == old(self).seed(),
            final(self).drawn() == old(self).drawn() + 1,
    {
        let mut buf = [0u8; 16];
        rand::RngCore::fill_bytes(&mut self.inner, &mut buf);
        buf
    }
}

} // verus!
