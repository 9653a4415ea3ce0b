//! The sync orchestrator's shared state: the single serialization point that
//! concurrent per-subscription workers funnel their decisions through. The
//! caller owns the concurrency (one unit of work per filtered subscription)
//! and all I/O; every decision — which subscriptions to process, which
//! episodes are new, whether an id may still be recorded — is made here,
//! one call at a time.

use crate::error::SyncError;
use crate::filter::{filter_pattern, spec_name_matches, NameFilter, Subscription};
use crate::ledger::{record_line, DownloadedEpisodes};
use crate::selector::{select, spec_select, CandidateEpisode, EpisodeJob};
use vstd::prelude::*;

verus! {

use vstd::string::StringExecFns;
use vstd::string::StringSliceAdditionalSpecFns;

/// Applies the name filter to the subscription mapping, failing fast when
/// the surviving set is empty and the caller required non-emptiness.
pub fn plan_subscriptions(
    subs: Vec<Subscription>,
    filter: Option<&NameFilter>,
    require_nonempty: bool,
) -> (r: Result<Vec<Subscription>, SyncError>)
    ensures
        r matches Ok(v) ==> v@ == subs@.filter(
            |s: Subscription| spec_name_matches(filter_pattern(filter), s),
        ),
        (r is Err <==> require_nonempty && subs@.filter(
            |s: Subscription| spec_name_matches(filter_pattern(filter), s),
        ).len() == 0),
        r matches Err(e) ==> e is ConfigError,
{
    let kept = crate::filter::filter_subscriptions(subs, filter);
    if require_nonempty && kept.len() == 0 {
        return Err(
            SyncError::ConfigError {
                detail: String::from_str("no subscription matches the filter"),
            },
        );
    }
    Ok(kept)
}

/// The state one sync run accumulates: the growing ledger, the local paths
/// of completed downloads, and the non-fatal errors to report at the end.
pub struct SyncState {
    ledger: DownloadedEpisodes,
    catch_up: bool,
    now: u64,
    downloaded: Vec<String>,
    errors: Vec<SyncError>,
}

impl SyncState {
    /// The ids recorded so far: the loaded ledger united with everything
    /// this run has committed.
    pub closed spec fn recorded(&self) -> Set<Seq<u8>> {
        self.ledger@
    }

    /// Whether this run marks already-published episodes done instead of
    /// downloading them.
    pub closed spec fn catch_up_run(&self) -> bool {
        self.catch_up
    }

    /// The moment the sync began, seconds since the Unix epoch; under
    /// catch-up, episodes published at or before it are not downloaded.
    pub closed spec fn began_at(&self) -> u64 {
        self.now
    }

    /// The local paths of the downloads completed so far, in commit order.
    pub closed spec fn downloaded_paths(&self) -> Seq<String> {
        self.downloaded@
    }

    /// The non-fatal errors reported so far, in arrival order.
    pub closed spec fn reported_errors(&self) -> Seq<SyncError> {
        self.errors@
    }

    /// Starts a run over a loaded ledger. The ledger is loaded once; all
    /// workers of the run share this state.
    pub fn begin(ledger: DownloadedEpisodes, catch_up: bool, now: u64) -> (r: Self)
        ensures
            r.recorded() == ledger@,
            r.catch_up_run() == catch_up,
            r.began_at() == now,
            r.downloaded_paths() =~= Seq::<String>::empty(),
            r.reported_errors() =~= Seq::<SyncError>::empty(),
    {
        SyncState { ledger, catch_up, now, downloaded: Vec::new(), errors: Vec::new() }
    }

    /// Decides, for one fetched feed, which candidates are new against the
    /// ids recorded at this moment, and what to do with each, in feed order.
    pub fn plan_feed(&self, candidates: Vec<CandidateEpisode>) -> (r: Vec<EpisodeJob>)
        ensures
            r@ == spec_select(candidates@, self.recorded(), self.catch_up_run(), self.began_at()),
    {
        select(&self.ledger, candidates, self.catch_up, self.now)
    }

    /// Commits one handled episode: re-validates that the id is still
    /// unrecorded — another worker may have won the race since the feed was
    /// planned — and records it. Returns the durable record bytes to append
    /// to the store when the id was new, `None` when it was already
    /// recorded.
    pub fn commit(&mut self, episode_id: &str, timestamp: u64, title: &str) -> (r: Option<Vec<u8>>)
        ensures
            final(self).recorded() =~= old(self).recorded().insert(episode_id.spec_bytes()),
            r is Some <==> !old(self).recorded().contains(episode_id.spec_bytes()),
            r matches Some(rec) ==> rec@ == record_line(
                episode_id.spec_bytes(),
                timestamp,
                title.spec_bytes(),
            ),
            final(self).catch_up_run() == old(self).catch_up_run(),
            final(self).began_at() == old(self).began_at(),
            final(self).downloaded_paths() == old(self).downloaded_paths(),
            final(self).reported_errors() == old(self).reported_errors(),
    {
        self.ledger.append(episode_id, timestamp, title)
    }

    /// Collects the local path of one completed download for the caller's
    /// final report.
    pub fn record_path(&mut self, path: String)
        ensures
            final(self).downloaded_paths() == old(self).downloaded_paths().push(path),
            final(self).recorded() == old(self).recorded(),
            final(self).catch_up_run() == old(self).catch_up_run(),
            final(self).began_at() == old(self).began_at(),
            final(self).reported_errors() == old(self).reported_errors(),
    {
        self.downloaded.push(path);
    }

    /// Collects one non-fatal error; it is reported at the end of the run,
    /// never thrown away, and aborts no sibling work.
    pub fn record_error(&mut self, error: SyncError)
        ensures
            final(self).reported_errors() == old(self).reported_errors().push(error),
            final(self).recorded() == old(self).recorded(),
            final(self).catch_up_run() == old(self).catch_up_run(),
            final(self).began_at() == old(self).began_at(),
            final(self).downloaded_paths() == old(self).downloaded_paths(),
    {
        self.errors.push(error);
    }

    /// Ends the run: the full set of local paths successfully downloaded
    /// across all subscriptions, and every error encountered on the way.
    pub fn into_report(self) -> (r: (Vec<String>, Vec<SyncError>))
        ensures
            r.0@ == self.downloaded_paths(),
            r.1@ == self.reported_errors(),
    {
        let SyncState { ledger: _, catch_up: _, now: _, downloaded, errors } = self;
        (downloaded, errors)
    }
}

} // verus!
