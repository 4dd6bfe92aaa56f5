//! Random draws.
use vstd::prelude::*;
use rand::rngs::StdRng;
use rand::seq::SliceRandom;
use rand::SeedableRng;
use crate::model::Value;

verus! {

/// The random generator of the `rand` crate that the draws use.
#[verifier::external_type_specification]
#[verifier::external_body]
pub struct ExStdRng(rand::rngs::StdRng);

/// Calls `SeedableRng::from_rng` of `StdRng` with the operating system's
/// generator `OsRng`. Its source fills a seed from `OsRng` with
/// `try_fill_bytes` and returns the error, in place of panicking, when the
/// operating system cannot supply the bytes; the result is `None` then.
/// Whether that happens depends on the machine, so the contract says
/// nothing of which outcome comes back.
#[verifier::external_body]
pub(crate) fn seeded_rng() -> (r: Option<StdRng>) {
    StdRng::from_rng(rand::rngs::OsRng).ok()
}

/// Calls `SliceRandom::choose` of the `rand` crate on `domain`, with the
/// generator `rng`. Its source returns `None` for an empty slice and
/// otherwise a reference to one of the slice's elements, drawn uniformly; the
/// contract states that much and nothing of which element it is, nor of the
/// generator's state afterwards.
#[verifier::external_body]
pub(crate) fn choose_value<'a>(domain: &'a Vec<Value>, rng: &mut StdRng) -> (r: Option<&'a Value>)
    ensures
        r is None <==> domain@.len() == 0,
        r matches Some(v) ==> domain@.contains(*v),
{
    domain.as_slice().choose(rng)
}

} // verus!
