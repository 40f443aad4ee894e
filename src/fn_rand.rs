//! The randomness capability that the sampling iterator draws ranks from.
use vstd::prelude::*;
use std::ops::Range;
use rand::rngs::{OsRng, StdRng, ThreadRng};
use rand::Rng;

verus! {

/// A source of random values. Given a non-empty half-open range it should
/// return a value inside it; the sampling iterator checks that it did.
pub trait FnRand {
    fn rand(&mut self, range: Range<i64>) -> i64
        requires
            range.start < range.end,
    ;
}

#[verifier::external_type_specification]
#[verifier::external_body]
pub struct ExThreadRng(ThreadRng);

#[verifier::external_type_specification]
#[verifier::external_body]
pub struct ExOsRng(OsRng);

#[verifier::external_type_specification]
#[verifier::external_body]
pub struct ExStdRng(StdRng);

/// Relies on `rand::Rng::gen_range` for `ThreadRng`, which panics only on an
/// empty range, and returns a value of the range.
#[verifier::external_body]
fn thread_gen_range(rng: &mut ThreadRng, range: Range<i64>) -> (r: i64)
    requires
        range.start < range.end,
    ensures
        range.start <= r < range.end,
{
    rng.gen_range(range)
}

/// Relies on `rand::Rng::gen_range` for `OsRng`, which panics only on an
/// empty range, and returns a value of the range.
#[verifier::external_body]
fn os_gen_range(rng: &mut OsRng, range: Range<i64>) -> (r: i64)
    requires
        range.start < range.end,
    ensures
        range.start <= r < range.end,
{
    rng.gen_range(range)
}

/// Relies on `rand::Rng::gen_range` for `StdRng`, which panics only on an
/// empty range, and returns a value of the range.
#[verifier::external_body]
fn std_gen_range(rng: &mut StdRng, range: Range<i64>) -> (r: i64)
    requires
        range.start < range.end,
    ensures
        range.start <= r < range.end,
{
    rng.gen_range(range)
}

impl FnRand for ThreadRng {
    fn rand(&mut self, range: Range<i64>) -> (r: i64)
        ensures
            range.start <= r < range.end,
    {
        thread_gen_range(self, range)
    }
}

impl FnRand for OsRng {
    fn rand(&mut self, range: Range<i64>) -> (r: i64)
        ensures
            range.start <= r < range.end,
    {
        os_gen_range(self, range)
    }
}

impl FnRand for StdRng {
    fn rand(&mut self, range: Range<i64>) -> (r: i64)
        ensures
            range.start <= r < range.end,
    {
        std_gen_range(self, range)
    }
}

} // verus!
