//! A request to stop that is shared between threads.

use crate::error::AppError;
use std::sync::atomic::{AtomicBool, Ordering};
use std::sync::Arc;
use vstd::prelude::*;

verus! {

/// A flag that any holder of a copy can raise.
#[derive(Clone, Debug)]
pub struct Cancellation(Arc<AtomicBool>);

/// What a look at the flag means.
pub fn outcome(cancelled: bool) -> (r: Result<(), AppError>)
    ensures
        cancelled ==> r == Err::<(), AppError>(AppError::Cancelled),
        !cancelled ==> r == Ok::<(), AppError>(()),
{
    if cancelled {
        Err(AppError::Cancelled)
    } else {
        Ok(())
    }
}

impl Cancellation {
    /// Makes a flag that is not raised.
    pub fn new() -> Self {
        Cancellation(Arc::new(AtomicBool::new(false)))
    }

    /// Whether the flag is raised. Other threads may raise it at any time.
    pub fn is_cancelled(&self) -> bool {
        self.0.load(Ordering::SeqCst)
    }

    /// Fails once the flag is raised.
    pub fn check(&self) -> (r: Result<(), AppError>)
        ensures
            r is Err ==> r->Err_0 is Cancelled,
    {
        outcome(self.is_cancelled())
    }

    /// Raises the flag.
    pub fn cancel(&self) {
        self.0.store(true, Ordering::SeqCst);
    }
}

impl Default for Cancellation {
    fn default() -> Self {
        Cancellation::new()
    }
}

} // verus!
