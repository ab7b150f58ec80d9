//! A stopwatch with a name, for reporting how long a step took.

use vstd::prelude::*;
use std::time::Instant;

verus! {

/// A point in time, as the standard library's monotonic clock gives it.
/// Nothing is known of what it holds.
#[verifier::external_type_specification]
#[verifier::external_body]
pub struct ExInstant(Instant);

/// The present moment, read from `std::time::Instant::now`. Nothing is
/// claimed of it: it differs from call to call.
#[verifier::external_body]
fn now() -> (moment: Instant) {
    Instant::now()
}

/// The line `"<name> took <elapsed>"`, where the elapsed time is what
/// `std::time::Instant::elapsed` gives for `start`, in its debug form.
/// The claim is only that the line begins with the name and `" took "`;
/// the rest depends on the clock.
#[verifier::external_body]
fn took_line(name: &str, start: &Instant) -> (line: String)
    ensures
        line@.len() >= name@.len() + 6,
        line@.subrange(0, name@.len() as int) == name@,
        line@.subrange(name@.len() as int, name@.len() as int + 6) == " took "@,
{
    format!("{} took {:?}", name, start.elapsed())
}

/// A stopwatch that was started when it was made.
pub struct Timer {
    start: Instant,
    name: String,
}

impl Timer {
    /// The name that the stopwatch was given.
    pub closed spec fn label(&self) -> Seq<char> {
        self.name@
    }

    /// Starts a stopwatch with the given name.
    pub fn new(name: &str) -> (timer: Timer)
        ensures
            timer.label() == name@,
    {
        Timer { start: now(), name: name.to_owned() }
    }

    /// The name that the stopwatch was given.
    pub fn name(&self) -> (name: &str)
        ensures
            name@ == self.label(),
    {
        self.name.as_str()
    }

    /// The line that reports the time since the stopwatch was started:
    /// the name, `" took "`, and the elapsed time.
    pub fn report(&self) -> (line: String)
        ensures
            line@.len() >= self.label().len() + 6,
            line@.subrange(0, self.label().len() as int) == self.label(),
            line@.subrange(self.label().len() as int, self.label().len() as int + 6) == " took "@,
    {
        took_line(self.name.as_str(), &self.start)
    }
}

} // verus!
