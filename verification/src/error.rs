//! The error taxonomy of a sync run. Per-episode and per-subscription
//! failures never abort sibling work; only configuration failures are fatal
//! at startup. Non-fatal errors are collected and reported at the end of the
//! run alongside the success count, never thrown away silently.

use vstd::prelude::*;

verus! {

/// What went wrong with one unit of a sync run.
#[derive(Debug)]
pub enum SyncError {
    /// The run cannot proceed safely: the ledger path or the name filter is
    /// unusable. Fatal to the whole run.
    ConfigError { detail: String },
    /// One subscription's feed could not be retrieved. Isolated to that
    /// subscription; the run continues for the others.
    FetchError { subscription: String, detail: String },
    /// One episode's transfer failed. Isolated to that episode; the run
    /// continues with the remaining episodes and subscriptions.
    DownloadError { subscription: String, episode_id: String, detail: String },
    /// A durable append failed after a successful download: the file now
    /// exists without a matching ledger entry, a known re-download risk on
    /// the next run. Surfaced distinctly from a download failure.
    LedgerWriteError { episode_id: String, detail: String },
}

} // verus!
