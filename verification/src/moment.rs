//! The time at which an operation runs.

use vstd::prelude::*;

verus! {

/// The height and the clock of the chain at one moment: the ledger sequence
/// number, by which grants expire, and the timestamp in seconds, by which
/// deadlines pass.
#[derive(Clone, Copy, Debug, PartialEq, Eq, Structural)]
pub struct Moment {
    pub sequence: u32,
    pub timestamp: u64,
}

} // verus!
