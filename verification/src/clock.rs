//! The wall clock.
use std::time::SystemTime;
use vstd::prelude::*;

verus! {

/// A point in time of the system clock.
#[verifier::external_type_specification]
#[verifier::external_body]
pub struct ExSystemTime(std::time::SystemTime);

/// `SystemTime::now`: the time on the system clock, of which nothing is claimed.
pub assume_specification[ std::time::SystemTime::now ]() -> (r: SystemTime)
;

/// `SystemTime::duration_since` with the UNIX epoch, in whole seconds; `None` for a
/// time before it. Nothing is claimed of the result: what a point in time holds
/// is up to the system.
#[verifier::external_body]
pub(crate) fn since_epoch(t: SystemTime) -> (r: Option<u64>) {
    match t.duration_since(std::time::UNIX_EPOCH) {
        Ok(d) => Some(d.as_secs()),
        Err(_) => None,
    }
}

/// The reading of a clock that stands `since` seconds after the UNIX epoch; a clock
/// set before it reads zero.
pub fn reading(since: Option<u64>) -> (r: u64)
    ensures
        r == (match since {
            Some(secs) => secs,
            None => 0,
        }),
{
    match since {
        Some(secs) => secs,
        None => 0,
    }
}

/// Whether the system clock can read `now`: some point in time that `SystemTime::now` gives
/// lies `now` whole seconds after the UNIX epoch, or before it and `now` is zero.
pub closed spec fn clock_reads(now: u64) -> bool {
    exists|t: SystemTime, since: Option<u64>|
        {
            &&& #[trigger] call_ensures(SystemTime::now, (), t)
            &&& #[trigger] call_ensures(since_epoch, (t,), since)
            &&& now == (match since {
                Some(secs) => secs,
                None => 0,
            })
        }
}

/// A reading of the clock is the number of whole seconds between the UNIX epoch and a point in
/// time that the system gives, in no other unit, and zero for a clock set before the epoch.
/// Every such number is a reading.
pub(crate) proof fn law_clock_reads(now: u64)
    ensures
        clock_reads(now) <==> exists|t: SystemTime| #[trigger]
            call_ensures(SystemTime::now, (), t) && (call_ensures(since_epoch, (t,), Some(now)) || (
            now == 0 && call_ensures(since_epoch, (t,), None::<u64>))),
{
    if clock_reads(now) {
        let (t, since) = choose|t: SystemTime, since: Option<u64>|
            {
                &&& #[trigger] call_ensures(SystemTime::now, (), t)
                &&& #[trigger] call_ensures(since_epoch, (t,), since)
                &&& now == (match since {
                    Some(secs) => secs,
                    None => 0,
                })
            };
        assert(call_ensures(SystemTime::now, (), t));
        assert(since == Some(now) || since is None);
    }
}

/// Calls a function without arguments.
fn called<T, F: Fn() -> T>(f: F) -> (r: T)
    requires
        call_requires(f, ()),
    ensures
        call_ensures(f, (), r),
{
    f()
}

/// Calls a function on an argument.
fn called_on<A, T, F: Fn(A) -> T>(f: F, a: A) -> (r: T)
    requires
        call_requires(f, (a,)),
    ensures
        call_ensures(f, (a,), r),
{
    f(a)
}

/// Current UNIX time in whole seconds (monotonic-enough for TTL accounting).
pub fn now_secs() -> (r: u64)
    ensures
        clock_reads(r),
{
    let t: SystemTime = called(SystemTime::now);
    let since: Option<u64> = called_on(since_epoch, t);
    reading(since)
}

} // verus!
