//! The random source of the scheduler.
use vstd::prelude::*;
use rand::rngs::OsRng;
use rand::{Rng, RngCore, SeedableRng};
use rand_chacha::ChaCha8Rng;

verus! {

#[verifier::external_type_specification]
#[verifier::external_body]
pub struct ExChaCha8Rng(ChaCha8Rng);

/// A random source that seeds itself from the host.
pub trait JsRandom: Sized {
    fn new() -> Option<Self>;
}

impl JsRandom for ChaCha8Rng {
    fn new() -> Option<Self> {
        match host_seed() {
            Some(seed) => Some(seeded(seed)),
            None => None,
        }
    }
}

/// `OsRng::try_fill_bytes` on thirty-two bytes: the bytes that the host's
/// random source gives, or `None` when that source fails. Nothing is known
/// of the bytes.
#[verifier::external_body]
fn host_seed() -> Option<[u8; 32]> {
    let mut seed = [0u8;32];
    match OsRng.try_fill_bytes(&mut seed) {
        Ok(()) => Some(seed),
        Err(_) => None,
    }
}

/// `ChaCha8Rng::from_seed`: a generator that starts from the seed. Nothing
/// is said of what the generator will give.
#[verifier::external_body]
fn seeded(seed: [u8; 32]) -> ChaCha8Rng {
    ChaCha8Rng::from_seed(seed)
}

/// `Rng::gen_range` over `0..bound`: some number below `bound`. `rand`
/// panics on an empty range, so `bound` is not zero.
#[verifier::external_body]
pub(crate) fn random_below(rng: &mut ChaCha8Rng, bound: usize) -> (r: usize)
    requires
        bound > 0,
    ensures
        r < bound,
{
    rng.gen_range(0..bound)
}

} // verus!
