//! Named random decisions with fixed probabilities, drawn from a seeded
//! source.
use vstd::prelude::*;

use rand::rngs::StdRng;
use rand::{Rng, SeedableRng};

use crate::hash::TxHash;

verus! {

#[verifier::external_type_specification]
#[verifier::external_body]
pub struct ExStdRng(StdRng);

/// A source of uniform draws.
pub trait RandomSource {
    /// A uniform value in `0..limit`.
    fn below(&mut self, limit: u64) -> (r: u64)
        requires
            limit > 0,
        ensures
            r < limit,
    ;

    /// 32 uniform random bytes.
    fn random_hash(&mut self) -> TxHash;
}

/// The seeded generator.
pub struct RandomGenerator {
    rng: StdRng,
}

/// Relies on rand's `SeedableRng::seed_from_u64`: a generator whose draws are
/// fixed by the seed.
#[verifier::external_body]
fn seeded_rng(seed: u64) -> StdRng {
    StdRng::seed_from_u64(seed)
}

/// Relies on rand's `Rng::gen_range`, which for a non-empty range returns a
/// value inside it.
#[verifier::external_body]
fn draw_below(rng: &mut StdRng, limit: u64) -> (r: u64)
    requires
        limit > 0,
    ensures
        r < limit,
{
    rng.gen_range(0..limit)
}

/// Relies on rand's `Rng::fill` on a 32-byte array.
#[verifier::external_body]
fn draw_bytes(rng: &mut StdRng) -> TxHash {
    let mut bytes = [0u8; 32];
    rng.fill(&mut bytes[..]);
    bytes
}

impl RandomGenerator {
    pub fn new(seed: u64) -> (r: Self) {
        RandomGenerator { rng: seeded_rng(seed) }
    }
}

impl RandomSource for RandomGenerator {
    fn below(&mut self, limit: u64) -> (r: u64) {
        draw_below(&mut self.rng, limit)
    }

    fn random_hash(&mut self) -> TxHash {
        draw_bytes(&mut self.rng)
    }
}

/// Draws a value in `smallest..limit`.
pub fn u64_between<R: RandomSource>(rg: &mut R, smallest: u64, limit: u64) -> (r: u64)
    requires
        smallest < limit,
    ensures
        smallest <= r < limit,
{
    smallest + rg.below(limit - smallest)
}

/// Draws a value in `0..limit`.
pub fn usize_less_than<R: RandomSource>(rg: &mut R, limit: usize) -> (r: usize)
    requires
        limit > 0,
    ensures
        r < limit,
{
    rg.below(limit as u64) as usize
}

/// A "go on" decision fires on every draw but 0.
pub fn continue_outcome(t: u64) -> (r: bool)
    ensures
        r == (t > 0),
{
    t > 0
}

/// A rare decision fires on draw 0 only.
pub fn rare_outcome(t: u64) -> (r: bool)
    ensures
        r == (t == 0),
{
    t == 0
}

/// Another transaction in the round: nine in ten.
pub fn has_next_transaction<R: RandomSource>(rg: &mut R) -> bool {
    continue_outcome(rg.below(10))
}

/// A transaction without inputs: one in a thousand.
pub fn no_inputs<R: RandomSource>(rg: &mut R) -> bool {
    rare_outcome(rg.below(1000))
}

/// A transaction without outputs: one in a thousand.
pub fn no_outputs<R: RandomSource>(rg: &mut R) -> bool {
    rare_outcome(rg.below(1000))
}

/// Outputs worth more than the inputs: one in a thousand.
pub fn allow_capacity_overflow<R: RandomSource>(rg: &mut R) -> bool {
    rare_outcome(rg.below(1000))
}

/// Another input: six in seven.
pub fn has_next_input<R: RandomSource>(rg: &mut R) -> bool {
    continue_outcome(rg.below(7))
}

/// A burned cell as input: one in two hundred.
pub fn could_has_burned_input<R: RandomSource>(rg: &mut R) -> bool {
    rare_outcome(rg.below(200))
}

/// A dead cell as input: one in two hundred.
pub fn could_has_dead_input<R: RandomSource>(rg: &mut R) -> bool {
    rare_outcome(rg.below(200))
}

/// An input from a failed transaction: one in two hundred.
pub fn could_be_from_failed_tx<R: RandomSource>(rg: &mut R) -> bool {
    rare_outcome(rg.below(200))
}

/// A cell already chosen in this transaction, chosen again: one in two hundred.
pub fn allow_duplicated<R: RandomSource>(rg: &mut R) -> bool {
    rare_outcome(rg.below(200))
}

/// Lock-script outcome of a draw in `0..100`: none for 0, failing for 1..10,
/// succeeding otherwise.
pub fn lock_outcome(t: u64) -> (r: Option<bool>)
    ensures
        t == 0 ==> r == None::<bool>,
        1 <= t < 10 ==> r == Some(false),
        t >= 10 ==> r == Some(true),
{
    if t == 0 {
        None
    } else if t < 10 {
        Some(false)
    } else {
        Some(true)
    }
}

/// Type-script outcome of a draw in `0..100`: none below 40, failing for
/// 40..46, succeeding otherwise.
pub fn type_outcome(t: u64) -> (r: Option<bool>)
    ensures
        t < 40 ==> r == None::<bool>,
        40 <= t < 46 ==> r == Some(false),
        t >= 46 ==> r == Some(true),
{
    if t < 40 {
        None
    } else if t < 46 {
        Some(false)
    } else {
        Some(true)
    }
}

/// Hash type of a synthetic script from a draw in `0..100`: `Data` below 40.
pub fn data_hash_type_outcome(t: u64) -> (r: bool)
    ensures
        r == (t < 40),
{
    t < 40
}

/// Lock-script outcome: none 1%, failing 9%, succeeding 90%.
pub fn lock_status<R: RandomSource>(rg: &mut R) -> Option<bool> {
    lock_outcome(rg.below(100))
}

/// Type-script outcome: none 40%, failing 6%, succeeding 54%.
pub fn type_status<R: RandomSource>(rg: &mut R) -> Option<bool> {
    type_outcome(rg.below(100))
}

/// Synthetic scripts refer to the anchor by data hash 40% of the time.
pub fn is_data_hash_type<R: RandomSource>(rg: &mut R) -> bool {
    data_hash_type_outcome(rg.below(100))
}

} // verus!
