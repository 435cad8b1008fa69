//! Scoped wall-clock measurement.  A timer remembers its label and the
//! clock reading at construction; when its scope ends, the elapsed time is
//! read off and one timing record is emitted by the surrounding program.

use crate::text::dec_str;
use vstd::prelude::*;
use vstd::string::StringExecFns;

verus! {

/// Relies on std::time::SystemTime::now and duration_since the unix
/// epoch, in milliseconds.  The clock may read anything, so nothing is
/// promised of the result; a clock before the epoch reads zero.
#[verifier::external_body]
pub fn now_unix_millis() -> u64 {
    match std::time::SystemTime::now().duration_since(std::time::UNIX_EPOCH) {
        Ok(d) => d.as_millis() as u64,
        Err(_) => 0,
    }
}

/// Elapsed time between two clock readings; a clock that moved backwards
/// counts as no time passed.
pub fn elapsed_between(start: u64, end: u64) -> (r: u64)
    ensures
        r == if start <= end {
            (end - start) as int
        } else {
            0int
        },
{
    if start <= end {
        end - start
    } else {
        0
    }
}

/// One timing record: the timer's label and the elapsed milliseconds.
pub open spec fn timer_line(label: Seq<char>, elapsed_ms: nat) -> Seq<char> {
    "timer["@ + label + "],"@ + dec_str(elapsed_ms) + "ms"@
}

/// Scoped wall-clock timer.
pub struct ScopedTimer {
    /// Label named in the emitted record.
    pub event_id: String,
    /// Clock reading at construction, in milliseconds since the unix epoch.
    pub start_time: u64,
}

impl ScopedTimer {
    /// Starts a timer for the given label now.
    pub fn new(event_id: String) -> (r: ScopedTimer)
        ensures
            r.event_id@ == event_id@,
    {
        let start_time = now_unix_millis();
        ScopedTimer { event_id, start_time }
    }

    /// Milliseconds since construction, by the clock now.
    pub fn elapsed_millis(&self) -> (r: u64) {
        let now = now_unix_millis();
        elapsed_between(self.start_time, now)
    }

    /// The timing record for this timer after `elapsed` milliseconds.
    pub fn record_line(&self, elapsed: u64) -> (r: String)
        ensures
            r@ == timer_line(self.event_id@, elapsed as nat),
    {
        let mut s = "timer[".to_owned();
        s.append(self.event_id.as_str());
        s.append("],");
        let dec = crate::text::u64_to_dec(elapsed);
        s.append(dec.as_str());
        s.append("ms");
        s
    }
}

} // verus!
