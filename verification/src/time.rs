//! Timing a computation.
use std::time::{Duration, Instant};
use vstd::prelude::*;

verus! {

/// `std::time::Instant`: a moment on a clock that only moves forward.
/// Nothing is known of what it holds.
#[verifier::external_type_specification]
#[verifier::external_body]
pub struct ExInstant(Instant);

/// `std::time::Instant::now`: the present moment. Nothing is said of it.
#[verifier::external_body]
fn now() -> Instant {
    Instant::now()
}

/// `std::time::Instant::elapsed`: the time that has passed since `start`.
/// Nothing is said of it.
#[verifier::external_body]
fn elapsed(start: &Instant) -> Duration {
    start.elapsed()
}

/// Runs `func` and returns what it returns, with the time that it took.
pub fn time<T: FnOnce() -> V, V>(func: T) -> (r: (V, Duration))
    requires
        call_requires(func, ()),
    ensures
        call_ensures(func, (), r.0),
{
    let start = now();
    let result = func();
    (result, elapsed(&start))
}

/// A result that a duration can be put beside.
pub trait Timing<T> {
    type Out;

    fn with_duration(self, duration: Duration) -> Self::Out;
}

impl<T> Timing<T> for Option<T> {
    type Out = Option<(T, Duration)>;

    /// The value with the duration beside it, where there is a value.
    fn with_duration(self, duration: Duration) -> (r: Self::Out)
        ensures
            r == match self {
                Some(v) => Some((v, duration)),
                None => None,
            },
    {
        match self {
            Some(v) => Some((v, duration)),
            None => None,
        }
    }
}

impl<T, E> Timing<T> for Result<T, E> {
    type Out = Result<(T, Duration), E>;

    /// The value with the duration beside it, or the error as it is.
    fn with_duration(self, duration: Duration) -> (r: Self::Out)
        ensures
            r == match self {
                Ok(v) => Ok::<(T, Duration), E>((v, duration)),
                Err(e) => Err::<(T, Duration), E>(e),
            },
    {
        match self {
            Ok(v) => Ok((v, duration)),
            Err(e) => Err(e),
        }
    }
}

/// Runs `func` and puts the time that it took beside what it returns.
pub fn time_try<I: Timing<T>, T, F: FnOnce() -> I>(func: F) -> (r: I::Out)
    requires
        call_requires(func, ()),
    ensures
        exists|made: I, took: Duration|
            call_ensures(func, (), made) && call_ensures(I::with_duration, (made, took), r),
{
    let start = now();
    let result = func();
    result.with_duration(elapsed(&start))
}

} // verus!
