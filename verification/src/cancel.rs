//! The cancellation flag of a scan: set once by whoever asks the scan to
//! stop, polled by the scan at its checkpoints, and never cleared. Every
//! scan gets a flag of its own.

use vstd::prelude::*;
use std::sync::Arc;
use std::sync::atomic::AtomicBool;
use std::sync::atomic::Ordering;

verus! {

/// A flag shared between the one who may cancel and the scan.
///
/// Another thread may set the flag at any moment, so nothing is promised
/// of what a poll returns.
pub struct CancelFlag {
    flag: Arc<AtomicBool>,
}

/// `Arc::clone`: another pointer to the same allocation, so what the
/// result points to is what `flag` points to.
#[verifier::external_body]
fn share_flag(flag: &Arc<AtomicBool>) -> (shared: Arc<AtomicBool>)
    ensures
        shared == *flag,
{
    Arc::clone(flag)
}

impl CancelFlag {
    /// A flag that is not set.
    pub fn new() -> (flag: CancelFlag) {
        CancelFlag { flag: Arc::new(AtomicBool::new(false)) }
    }

    /// Another handle to this flag, for the other side: the two are one
    /// flag, so a request to stop made through either is seen through both.
    pub fn share(&self) -> (shared: CancelFlag)
        ensures
            shared == *self,
    {
        CancelFlag { flag: share_flag(&self.flag) }
    }

    /// Asks the scan to stop.
    pub fn cancel(&self) {
        self.flag.store(true, Ordering::Relaxed);
    }

    /// Whether the scan was asked to stop.
    pub fn is_cancelled(&self) -> (cancelled: bool) {
        self.flag.load(Ordering::Relaxed)
    }
}

} // verus!
