//! The wall clock, in milliseconds.
use vstd::prelude::*;

verus! {

/// Wraps `std::time::SystemTime::elapsed` on `UNIX_EPOCH`: `None` when the system clock
/// reads a time before the epoch. Nothing is promised of the value, which depends on the
/// clock.
#[verifier::external_body]
fn elapsed_since_epoch() -> (r: Option<std::time::Duration>) {
    std::time::UNIX_EPOCH.elapsed().ok()
}

/// Wraps `std::time::Duration::as_millis`: the whole milliseconds of `d`. Nothing is
/// claimed of the value, a duration being opaque here.
#[verifier::external_body]
fn whole_millis(d: std::time::Duration) -> (r: u128) {
    d.as_millis()
}

/// Milliseconds since the Unix epoch on the system clock: a clock set before the epoch
/// reads as zero, and one past what 64 bits hold reads as the largest value.
pub(crate) fn now_millis() -> u64 {
    match elapsed_since_epoch() {
        Some(d) => {
            let ms = whole_millis(d);
            if ms <= u64::MAX as u128 {
                ms as u64
            } else {
                u64::MAX
            }
        },
        None => 0,
    }
}


/// The count of readings after `n` more one: counting wraps around past the largest value.
pub open spec fn next_count(n: u64) -> u64 {
    if n < u64::MAX {
        (n + 1) as u64
    } else {
        0
    }
}

/// A clock that never goes back: a reading is the system clock's, or the latest reading
/// when the system clock lies behind it. It counts the readings taken.
#[derive(Debug)]
pub struct Clock {
    latest: u64,
    reads: u64,
}

impl Clock {
    /// The latest reading, or the latest time the clock was moved on to.
    pub closed spec fn latest(self) -> u64 {
        self.latest
    }

    /// How many readings were taken (counting wraps around).
    pub closed spec fn reads(self) -> u64 {
        self.reads
    }

    /// A clock that has read nothing yet.
    pub fn new() -> (r: Self)
        ensures
            r.latest() == 0,
            r.reads() == 0,
    {
        Clock { latest: 0, reads: 0 }
    }

    /// Takes a reading: never earlier than the latest one, and the latest from now on.
    pub fn read(&mut self) -> (r: u64)
        ensures
            r >= old(self).latest(),
            final(self).latest() == r,
            final(self).reads() == next_count(old(self).reads()),
    {
        let raw = now_millis();
        let r = if raw > self.latest {
            raw
        } else {
            self.latest
        };
        self.latest = r;
        self.reads = if self.reads < u64::MAX {
            self.reads + 1
        } else {
            0
        };
        r
    }

    /// The time now, never earlier than the latest reading; nothing is recorded.
    pub fn peek(&self) -> (r: u64)
        ensures
            r >= self.latest(),
    {
        let raw = now_millis();
        if raw > self.latest {
            raw
        } else {
            self.latest
        }
    }

    /// Moves the clock on to `t` when `t` lies ahead of it.
    pub fn advance_to(&mut self, t: u64)
        ensures
            final(self).latest() == if t > old(self).latest() {
                t
            } else {
                old(self).latest()
            },
            final(self).reads() == old(self).reads(),
    {
        if t > self.latest {
            self.latest = t;
        }
    }
}

} // verus!
