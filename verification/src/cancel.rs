//! Cooperative cancellation: a flag that a signal handler sets and long-running stages check.

use std::sync::atomic::AtomicBool;
use std::sync::Arc;

use vstd::prelude::*;

use crate::text::owned;

verus! {

/// The error a stage returns once the run has been interrupted.
#[derive(Debug, Clone, Copy, PartialEq, Eq, Structural)]
pub struct Cancelled;

impl Cancelled {
    /// The error's message.
    pub fn message(&self) -> (r: String)
        ensures
            r@ == "interrupted"@,
    {
        owned("interrupted")
    }
}

/// A flag shared by every clone of the token: setting it through one is seen through all.
#[derive(Debug, Clone, Default)]
pub struct CancellationToken {
    cancelled: Arc<AtomicBool>,
}

/// What a check answers, given whether the flag was found set.
pub open spec fn check_outcome(cancelled: bool) -> Result<(), Cancelled> {
    if cancelled {
        Err(Cancelled)
    } else {
        Ok(())
    }
}

/// What a check answers when the flag was read as `cancelled`.
pub fn cancellation_outcome(cancelled: bool) -> (r: Result<(), Cancelled>)
    ensures
        r == check_outcome(cancelled),
{
    if cancelled {
        Err(Cancelled)
    } else {
        Ok(())
    }
}

impl CancellationToken {
    /// Set the flag.
    pub fn cancel(&self) {
        self.cancelled.store(true, std::sync::atomic::Ordering::SeqCst);
    }

    /// Whether the flag is set. Another thread may set it at any moment, so nothing is
    /// promised of the answer beyond what it read.
    pub fn is_cancelled(&self) -> (r: bool) {
        self.cancelled.load(std::sync::atomic::Ordering::SeqCst)
    }

    /// `Err(Cancelled)` when the flag is found set, `Ok(())` otherwise; which of the two
    /// depends on when another thread sets the flag, so `cancellation_outcome` states it.
    pub fn check(&self) -> Result<(), Cancelled> {
        let seen = self.is_cancelled();
        cancellation_outcome(seen)
    }
}

} // verus!
