//! Where a value comes from that no argument gives: the clocks, the random source, the
//! directories of the machine.
//!
//! Nothing is claimed of the values themselves, so each of these holds of every value. But
//! none can be opened from without: elsewhere one is known of a value only where the call
//! that asked the outside has handed it out, and of nothing computed from it.

use vstd::prelude::*;

use crate::clock::ClockError;

verus! {

/// Whether the system clock has been read as `reading`: the whole seconds since the Unix
/// epoch, or that it is before it.
pub closed spec fn time_of_day(reading: Result<u64, ClockError>) -> bool {
    true
}

/// Whether the monotonic clock has been read `nanos` nanoseconds after `start`.
pub closed spec fn time_since(start: std::time::Instant, nanos: u128) -> bool {
    true
}

/// Whether the random source has given `bytes`.
pub closed spec fn drawn(bytes: Seq<u8>) -> bool {
    true
}

/// Whether the random source has failed with the message `detail`.
pub closed spec fn draw_failed(detail: Seq<char>) -> bool {
    true
}

/// Whether the machine has named `dir` as the user's home directory.
pub closed spec fn home_dir(dir: Option<Seq<u8>>) -> bool {
    true
}

/// Whether the machine has named `dir` as the user's configuration directory.
pub closed spec fn config_dir(dir: Option<Seq<u8>>) -> bool {
    true
}

} // verus!
