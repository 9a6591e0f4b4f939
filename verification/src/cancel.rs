//! The flag by which a caller asks a running search to stop.

use vstd::prelude::*;
use std::sync::atomic::AtomicBool;
use std::sync::atomic::Ordering;

verus! {

/// Whether the caller has asked the search to stop. Another thread may set
/// the flag at any time, so nothing is known of the answer.
pub fn abort_requested(abort: &AtomicBool) -> bool {
    abort.load(Ordering::Acquire)
}

} // verus!
