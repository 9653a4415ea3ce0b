use talecast::error::SyncError;
use talecast::filter::{filter_subscriptions, NameFilter, Subscription};
use talecast::ledger::DownloadedEpisodes;
use talecast::selector::{CandidateEpisode, JobKind};
use talecast::sync::{plan_subscriptions, SyncState};

fn subscription(name: &str) -> Subscription {
    Subscription { name: name.to_string(), url: format!("https://example.org/{}/feed.xml", name) }
}

fn candidate(id: &str, publish_time: u64) -> CandidateEpisode {
    CandidateEpisode {
        id: id.to_string(),
        title: format!("title of {}", id),
        publish_time,
        enclosure_url: format!("https://example.org/{}.mp3", id),
    }
}

const NOW: u64 = 1_700_000_000;

#[test]
fn filter_is_case_insensitive() {
    let subs = vec![subscription("Alpha"), subscription("Beta")];
    let filter = NameFilter::new("alp").unwrap();
    let kept = plan_subscriptions(subs, Some(&filter), true).unwrap();
    assert_eq!(kept.len(), 1);
    assert_eq!(kept[0].name, "Alpha");
}

#[test]
fn no_filter_keeps_all_in_order() {
    let subs = vec![subscription("Alpha"), subscription("Beta")];
    let kept = filter_subscriptions(subs, None);
    assert_eq!(kept.len(), 2);
    assert_eq!(kept[0].name, "Alpha");
    assert_eq!(kept[1].name, "Beta");
}

#[test]
fn filter_matches_anywhere_in_name() {
    let subs = vec![subscription("Alpha"), subscription("Beta"), subscription("alphabet")];
    let filter = NameFilter::new("bet").unwrap();
    let kept = filter_subscriptions(subs, Some(&filter));
    let names: Vec<&str> = kept.iter().map(|s| s.name.as_str()).collect();
    assert_eq!(names, vec!["Beta", "alphabet"]);
}

#[test]
fn empty_match_fails_fast_when_required() {
    let subs = vec![subscription("Alpha"), subscription("Beta")];
    let filter = NameFilter::new("gamma").unwrap();
    let r = plan_subscriptions(subs, Some(&filter), true);
    assert!(matches!(r, Err(SyncError::ConfigError { .. })));
}

#[test]
fn empty_match_is_allowed_when_not_required() {
    let subs = vec![subscription("Alpha")];
    let filter = NameFilter::new("gamma").unwrap();
    let kept = plan_subscriptions(subs, Some(&filter), false).unwrap();
    assert_eq!(kept.len(), 0);
}

#[test]
fn invalid_pattern_is_a_config_error() {
    assert!(matches!(NameFilter::new("("), Err(SyncError::ConfigError { .. })));
}

#[test]
fn sync_run_downloads_and_records() {
    let mut state = SyncState::begin(DownloadedEpisodes::new(), false, NOW);
    let jobs = state.plan_feed(vec![candidate("ep1", 10), candidate("ep2", 20)]);
    let mut store: Vec<u8> = Vec::new();
    for job in &jobs {
        assert_eq!(job.kind, JobKind::Download);
        // the download executor succeeded; commit and collect the path
        let rec = state.commit(&job.episode.id, NOW, &job.episode.title).unwrap();
        store.extend(rec);
        state.record_path(format!("/downloads/{}.mp3", job.episode.id));
    }
    let (paths, errors) = state.into_report();
    assert_eq!(paths, vec!["/downloads/ep1.mp3", "/downloads/ep2.mp3"]);
    assert!(errors.is_empty());

    // the durable store round-trips into the next run's ledger
    let reloaded = DownloadedEpisodes::load(Some(&String::from_utf8(store).unwrap()));
    assert!(reloaded.contains_episode("ep1"));
    assert!(reloaded.contains_episode("ep2"));
}

#[test]
fn catch_up_run_yields_entries_but_no_paths() {
    let mut state = SyncState::begin(DownloadedEpisodes::new(), true, NOW);
    let jobs = state.plan_feed(vec![candidate("ep1", NOW - 10), candidate("ep2", NOW - 5)]);
    let mut entries = 0;
    for job in &jobs {
        assert_eq!(job.kind, JobKind::MarkDone);
        if state.commit(&job.episode.id, NOW, &job.episode.title).is_some() {
            entries += 1;
        }
    }
    let (paths, errors) = state.into_report();
    assert_eq!(entries, 2);
    assert!(paths.is_empty());
    assert!(errors.is_empty());
}

#[test]
fn racing_workers_commit_an_id_once() {
    // Two subscriptions coincidentally reference the same episode id, and
    // both plan their feeds before either commits: the re-validation before
    // the append lets exactly one record it.
    let mut state = SyncState::begin(DownloadedEpisodes::new(), false, NOW);
    let jobs_a = state.plan_feed(vec![candidate("shared", 10)]);
    let jobs_b = state.plan_feed(vec![candidate("shared", 10)]);
    assert_eq!(jobs_a.len(), 1);
    assert_eq!(jobs_b.len(), 1);
    assert!(state.commit("shared", NOW, "t").is_some());
    assert!(state.commit("shared", NOW, "t").is_none());
}

#[test]
fn later_worker_never_plans_a_committed_id() {
    let mut state = SyncState::begin(DownloadedEpisodes::new(), false, NOW);
    let jobs_a = state.plan_feed(vec![candidate("shared", 10)]);
    assert_eq!(jobs_a.len(), 1);
    assert!(state.commit("shared", NOW, "t").is_some());
    let jobs_b = state.plan_feed(vec![candidate("shared", 10)]);
    assert_eq!(jobs_b.len(), 0);
}

#[test]
fn errors_are_collected_not_fatal() {
    let mut state = SyncState::begin(DownloadedEpisodes::new(), false, NOW);
    state.record_error(SyncError::FetchError {
        subscription: "Alpha".to_string(),
        detail: "feed unreachable".to_string(),
    });
    let jobs = state.plan_feed(vec![candidate("ep1", 10)]);
    assert_eq!(jobs.len(), 1);
    state.record_error(SyncError::DownloadError {
        subscription: "Beta".to_string(),
        episode_id: "ep1".to_string(),
        detail: "timeout".to_string(),
    });
    let (paths, errors) = state.into_report();
    assert!(paths.is_empty());
    assert_eq!(errors.len(), 2);
    assert!(matches!(errors[0], SyncError::FetchError { .. }));
    assert!(matches!(errors[1], SyncError::DownloadError { .. }));
}

#[test]
fn ledger_write_failure_is_distinct() {
    let mut state = SyncState::begin(DownloadedEpisodes::new(), false, NOW);
    let rec = state.commit("ep1", NOW, "t");
    assert!(rec.is_some());
    // the durable append of `rec` failed in the caller: reported loudly,
    // distinctly from a download failure
    state.record_error(SyncError::LedgerWriteError {
        episode_id: "ep1".to_string(),
        detail: "disk full".to_string(),
    });
    let (_, errors) = state.into_report();
    assert!(matches!(errors[0], SyncError::LedgerWriteError { .. }));
}
