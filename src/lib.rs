pub mod cache;
pub mod error;
pub mod message;
pub mod pool;
pub mod race;
pub mod registry;

use vstd::prelude::*;

verus! {

/// Seconds an upstream waits for an answer when its configuration names no timeout.
pub fn default_timeout() -> (r: u64)
    ensures
        r == 5,
{
    5
}

} // verus!
