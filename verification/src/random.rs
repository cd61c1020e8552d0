//! The random numbers that the library draws, from the generator of the
//! calling thread.

use rand::distributions::Alphanumeric;
use rand::rngs::{SmallRng, ThreadRng};
use rand::{Rng, SeedableRng};
use vstd::prelude::*;

verus! {

/// The generator of the calling thread, `rand::rngs::ThreadRng`, as a value
/// that is only handed on.
#[verifier::external_type_specification]
#[verifier::external_body]
pub struct ExThreadRng(ThreadRng);

/// A small fast generator, `rand::rngs::SmallRng`, as a value that is only
/// handed on.
#[verifier::external_type_specification]
#[verifier::external_body]
pub struct ExSmallRng(SmallRng);

/// The error of a generator, `rand::Error`, as a value that is only handed
/// on.
#[verifier::external_type_specification]
#[verifier::external_body]
pub struct ExRandError(rand::Error);

/// Whether `byte` is a letter of either case or a digit, in ASCII.
pub open spec fn is_alphanumeric(byte: u8) -> bool {
    ||| 0x30 <= byte <= 0x39
    ||| 0x41 <= byte <= 0x5a
    ||| 0x61 <= byte <= 0x7a
}

/// Calls `rand::SeedableRng::from_rng` for a `SmallRng` on the generator of
/// the thread. The seed is filled by the thread generator's
/// `try_fill_bytes`, which fills and then returns `Ok`; so the call is
/// claimed to succeed.
#[verifier::external_body]
pub(crate) fn small_generator(rng: ThreadRng) -> (made: Result<SmallRng, rand::Error>)
    ensures
        made is Ok,
{
    SmallRng::from_rng(rng)
}

/// Calls `rand::Rng::sample` with the distribution `Alphanumeric`, which
/// picks a byte out of the upper-case letters, the lower-case letters and
/// the digits.
#[verifier::external_body]
pub(crate) fn random_alphanumeric(rng: &mut SmallRng) -> (byte: u8)
    ensures
        is_alphanumeric(byte),
{
    rng.sample(Alphanumeric)
}

/// Calls `rand::thread_rng`, which hands out the generator of the calling
/// thread. Nothing is claimed of it.
#[verifier::external_body]
pub(crate) fn thread_generator() -> ThreadRng {
    rand::thread_rng()
}

/// Calls `rand::Rng::gen_range` on the range from zero up to, not
/// including, `bound`. The range must not be empty; the number drawn lies in
/// it, which is all that is claimed.
#[verifier::external_body]
pub(crate) fn random_below(rng: &mut ThreadRng, bound: usize) -> (drawn: usize)
    requires
        bound > 0,
    ensures
        drawn < bound,
{
    rng.gen_range(0..bound)
}

} // verus!
