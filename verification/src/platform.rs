//! Watching resources for changes so they can be hot-reloaded.

use vstd::prelude::*;

verus! {

/// Watches resources for changes so they can be hot-reloaded.
///
/// Natively this watches files on disk; where there is nothing to watch, an
/// implementation never reports a change.
pub trait Watcher: Sized {
    /// Starts watching the given resources (file paths natively).
    fn watch(paths: &[&str]) -> Self;

    /// Whether a watched resource changed since the last call.
    fn changed(&self) -> bool;
}

} // verus!
