//! Cooperative cancellation: a process-wide boolean flag with weak and strong
//! read forms, and the `Cancelled`-versus-`Failed` outcome split that the
//! compute paths propagate.

use core::sync::atomic::{AtomicBool, Ordering};
use vstd::prelude::*;

verus! {

/// The outcome of a cancelable operation that did not succeed: either the
/// operation observed the stop signal, or it genuinely failed.
/// Cancellation is a control signal, not an error.
pub enum CancelError {
    Cancelled,
    Failed(crate::error::Error),
}

pub type CancelResult<T> = Result<T, CancelError>;

impl CancelError {
    /// Collapses the outcome at the process boundary: cancellation is a clean
    /// exit, failure carries its error out.
    pub fn into_result(self) -> (r: Result<(), crate::error::Error>)
        ensures
            match self {
                CancelError::Cancelled => r is Ok,
                CancelError::Failed(e) => r == Result::<(), crate::error::Error>::Err(e),
            },
    {
        match self {
            CancelError::Cancelled => Ok(()),
            CancelError::Failed(e) => Err(e),
        }
    }
}

/// A monotonic stop signal: once set it never clears. The renderer polls it
/// with the cheap weak form once per tile; drivers poll the strong form at
/// pass boundaries. The value read by either form is decided by whichever
/// threads may have set the flag, so no contract pins it; every caller must
/// be correct for both outcomes.
pub struct CancelToken(AtomicBool);

impl CancelToken {
    pub fn new() -> Self {
        CancelToken(AtomicBool::new(false))
    }

    /// Publishes the stop signal with sequential consistency.
    pub fn set(&self) {
        self.0.store(true, Ordering::SeqCst);
    }

    /// Polls the flag; the only error it can report is `Cancelled`.
    fn try_impl(&self, ord: Ordering) -> (r: CancelResult<()>)
        ensures
            r matches Err(e) ==> e is Cancelled,
    {
        if self.0.load(ord) {
            Err(CancelError::Cancelled)
        } else {
            Ok(())
        }
    }

    /// Relaxed-ordering poll: cheap, may observe a concurrent `set` late.
    pub fn try_weak(&self) -> (r: CancelResult<()>)
        ensures
            r matches Err(e) ==> e is Cancelled,
    {
        self.try_impl(Ordering::Relaxed)
    }

    /// Sequentially consistent poll: a `set` that happened before this call
    /// is observed by it.
    pub fn try_strong(&self) -> (r: CancelResult<()>)
        ensures
            r matches Err(e) ==> e is Cancelled,
    {
        self.try_impl(Ordering::SeqCst)
    }
}

} // verus!
