//! The cancelable runner's decision core. The binary owns the cooperative
//! scheduler, the interrupt listener and the filesystem watcher; every
//! decision they act on — how an outcome collapses at the process boundary,
//! whether the stop token must be set, which watcher events dispatch a new
//! pass — is taken here.

use vstd::prelude::*;

use crate::cancel::{CancelError, CancelResult};
use crate::error::Error;

verus! {

/// What ended the race between the user's work and the interrupt listener.
pub enum RunnerEvent<T> {
    /// The interrupt arrived first.
    Interrupted,
    /// The work finished first, with this outcome.
    Finished(CancelResult<T>),
}

/// What the runner must do on its way out.
pub struct RunnerVerdict<T> {
    /// The stop token must be set before leaving the scope, so subsidiary
    /// background tasks observe cancellation. This holds on every exit
    /// path.
    pub set_token: bool,
    /// A short acknowledgement may be shown to the operator (only after an
    /// interrupt; whether it is printed depends on the terminal, which the
    /// binary checks).
    pub acknowledge: bool,
    /// The collapsed outcome: cancellation — by interrupt or observed by
    /// the work itself — is a clean exit carrying no value; only a genuine
    /// failure is an error.
    pub outcome: Result<Option<T>, Error>,
}

/// Collapses the race's outcome at the runner boundary.
pub fn conclude<T>(ev: RunnerEvent<T>) -> (r: RunnerVerdict<T>)
    ensures
        r.set_token,
        match ev {
            RunnerEvent::Interrupted => r.acknowledge && (r.outcome matches Ok(v) && v is None),
            RunnerEvent::Finished(out) => !r.acknowledge && (match out {
                Ok(v) => r.outcome matches Ok(o) && o == Some(v),
                Err(CancelError::Cancelled) => r.outcome matches Ok(o) && o is None,
                Err(CancelError::Failed(e)) => r.outcome matches Err(e2) && e2 == e,
            }),
        },
{
    match ev {
        RunnerEvent::Interrupted => RunnerVerdict {
            set_token: true,
            acknowledge: true,
            outcome: Ok(None),
        },
        RunnerEvent::Finished(out) => RunnerVerdict {
            set_token: true,
            acknowledge: false,
            outcome: match out {
                Ok(v) => Ok(Some(v)),
                Err(e) => match e.into_result() {
                    Ok(()) => Ok(None),
                    Err(e2) => Err(e2),
                },
            },
        },
    }
}

/// The kind of a filesystem event on the watched directory, as far as the
/// watch loop cares: a data modification of some file, or anything else.
#[derive(Clone, Copy, PartialEq, Eq, Structural, Debug)]
pub enum FsEventKind {
    DataModify,
    Other,
}

/// What the watch loop does with one watcher message.
#[derive(Clone, Copy, PartialEq, Eq, Structural, Debug)]
pub enum WatchAction {
    /// Dispatch a new compute pass.
    Rerun,
    /// Keep listening.
    Wait,
    /// Abort the watch loop: the watcher failed.
    Abort,
}

/// Decides what one watcher message triggers: only a data-modify event for
/// the watched configuration file dispatches a new pass; events for other
/// files and other kinds of events are ignored; a watcher error aborts.
pub fn watch_step(msg: &Result<(FsEventKind, Vec<u8>), Error>, config_path: &[u8]) -> (r:
    WatchAction)
    ensures
        match msg {
            Ok((kind, path)) => r == (if kind is DataModify && path@ == config_path@ {
                WatchAction::Rerun
            } else {
                WatchAction::Wait
            }),
            Err(_) => r == WatchAction::Abort,
        },
{
    match msg {
        Ok((kind, path)) => {
            let relevant = match kind {
                FsEventKind::DataModify => bytes_eq(path.as_slice(), config_path),
                FsEventKind::Other => false,
            };
            if relevant {
                WatchAction::Rerun
            } else {
                WatchAction::Wait
            }
        },
        Err(_) => WatchAction::Abort,
    }
}

/// Byte-string equality.
fn bytes_eq(a: &[u8], b: &[u8]) -> (r: bool)
    ensures
        r == (a@ == b@),
{
    if a.len() != b.len() {
        return false;
    }
    let mut i: usize = 0;
    while i < a.len()
        invariant
            i <= a@.len() == b@.len() <= usize::MAX,
            forall|m: int| 0 <= m < i ==> a@[m] == b@[m],
        decreases a@.len() - i,
    {
        if a[i] != b[i] {
            return false;
        }
        i = i + 1;
    }
    proof {
        assert(a@ =~= b@);
    }
    true
}

} // verus!
