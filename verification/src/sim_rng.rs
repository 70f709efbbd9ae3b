//! The simulation's deterministic random number generator: a 128-bit
//! multiplicative PCG (`Pcg64Mcg`, also known as `Mcg128Xsl64`), seeded
//! from a `u64`. Same seed, same sequence, on every platform.

use vstd::prelude::*;
use rand_core::{RngCore, SeedableRng};
use rand_pcg::Mcg128Xsl64;

verus! {

#[verifier::external_type_specification]
#[verifier::external_body]
pub struct ExMcg128Xsl64(Mcg128Xsl64);

/// The generator `seed_from_u64` builds from `seed`: a function of the
/// seed alone.
pub uninterp spec fn pcg_seeded(seed: u64) -> Mcg128Xsl64;

/// The output `next_u64` draws from a generator in state `g`: a function
/// of the state alone.
pub uninterp spec fn pcg_out(g: Mcg128Xsl64) -> u64;

/// The state `next_u64` leaves a generator in that was in state `g`.
pub uninterp spec fn pcg_advance(g: Mcg128Xsl64) -> Mcg128Xsl64;

/// `<Mcg128Xsl64 as SeedableRng>::seed_from_u64`: fills the 128-bit state
/// from the seed by a fixed PCG32 expansion, so the generator depends on
/// the seed alone.
#[verifier::external_body]
fn pcg_seed_from_u64(seed: u64) -> (g: Mcg128Xsl64)
    ensures
        g == pcg_seeded(seed),
{
    Mcg128Xsl64::seed_from_u64(seed)
}

/// `<Mcg128Xsl64 as RngCore>::next_u64`: multiplies the state by the
/// generator's constant (wrapping) and returns the XSL-RR output of the new
/// state; both depend on the old state alone.
#[verifier::external_body]
fn pcg_next_u64(g: &mut Mcg128Xsl64) -> (v: u64)
    ensures
        v == pcg_out(*old(g)),
        *final(g) == pcg_advance(*old(g)),
{
    g.next_u64()
}

/// `<Mcg128Xsl64 as Clone>::clone`, derived: the copy has the same state.
pub assume_specification[ <Mcg128Xsl64 as Clone>::clone ](g: &Mcg128Xsl64) -> (c: Mcg128Xsl64)
    ensures
        c == *g,
;

/// The simulation's generator.
#[derive(Clone, Debug)]
pub struct SimRng(pub Mcg128Xsl64);

/// Seed of the default generator.
pub const DEFAULT_SEED: u64 = 0x9E37_79B9_7F4A_7C15;

impl SimRng {
    /// A generator seeded from `seed`.
    pub fn new(seed: u64) -> (r: SimRng)
        ensures
            r.0 == pcg_seeded(seed),
    {
        SimRng(pcg_seed_from_u64(seed))
    }

    /// The next raw 64-bit draw.
    pub fn next_u64(&mut self) -> (v: u64)
        ensures
            v == pcg_out(old(self).0),
            final(self).0 == pcg_advance(old(self).0),
    {
        pcg_next_u64(&mut self.0)
    }
}

impl Default for SimRng {
    /// The generator seeded with `DEFAULT_SEED`.
    fn default() -> (r: SimRng)
        ensures
            r.0 == pcg_seeded(DEFAULT_SEED),
    {
        SimRng::new(DEFAULT_SEED)
    }
}

/// The generator `g` after `k` draws.
pub open spec fn pcg_after(g: Mcg128Xsl64, k: nat) -> Mcg128Xsl64
    decreases k,
{
    if k == 0 {
        g
    } else {
        pcg_advance(pcg_after(g, (k - 1) as nat))
    }
}

/// The `k`-th draw (from 0) of a generator seeded from `seed`.
pub open spec fn seeded_draw(seed: u64, k: nat) -> u64 {
    pcg_out(pcg_after(pcg_seeded(seed), k))
}

/// Same seed, same sequence: two generators seeded alike and drawn from
/// the same number of times are in the same state, and every further draw
/// is the same; the `k`-th draw of either is `seeded_draw(seed, k)`.
pub proof fn lemma_same_seed_same_sequence(a: SimRng, b: SimRng, seed: u64, k: nat)
    requires
        a.0 == pcg_after(pcg_seeded(seed), k),
        b.0 == pcg_after(pcg_seeded(seed), k),
    ensures
        a.0 == b.0,
        pcg_out(a.0) == pcg_out(b.0),
        pcg_out(a.0) == seeded_draw(seed, k),
        pcg_advance(a.0) == pcg_after(pcg_seeded(seed), k + 1),
{
}

} // verus!
