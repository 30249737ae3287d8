//! The library's error taxonomy. Cancellation is deliberately *not* here:
//! it travels as `cancel::CancelError::Cancelled`, distinct from failure.

use vstd::prelude::*;

verus! {

/// A failure surfaced by the library's compute paths.
#[derive(Clone, Copy, PartialEq, Eq, Structural, Debug)]
pub enum Error {
    /// A cache header, lock or codec problem.
    Cache(crate::cache::CacheError),
    /// An invalid size override: the scaled size collapsed to zero or does
    /// not fit the output dimensions.
    InvalidSizeOverride,
    /// A failure of an outside collaborator (a file, a watcher, an output
    /// sink); its details stay with the caller that saw it.
    External,
}

} // verus!
