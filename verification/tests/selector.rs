use talecast::ledger::DownloadedEpisodes;
use talecast::selector::{select, CandidateEpisode, JobKind};

fn candidate(id: &str, publish_time: u64) -> CandidateEpisode {
    CandidateEpisode {
        id: id.to_string(),
        title: format!("title of {}", id),
        publish_time,
        enclosure_url: format!("https://example.org/{}.mp3", id),
    }
}

const NOW: u64 = 1_700_000_000;

#[test]
fn select_all_new_for_download() {
    let ledger = DownloadedEpisodes::new();
    let jobs = select(&ledger, vec![candidate("ep1", 10), candidate("ep2", 20)], false, NOW);
    assert_eq!(jobs.len(), 2);
    assert_eq!(jobs[0].episode.id, "ep1");
    assert_eq!(jobs[1].episode.id, "ep2");
    assert_eq!(jobs[0].kind, JobKind::Download);
    assert_eq!(jobs[1].kind, JobKind::Download);
}

#[test]
fn select_skips_recorded() {
    let mut ledger = DownloadedEpisodes::new();
    ledger.append("ep1", 1, "t").unwrap();
    let jobs = select(&ledger, vec![candidate("ep1", 10), candidate("ep2", 20)], false, NOW);
    assert_eq!(jobs.len(), 1);
    assert_eq!(jobs[0].episode.id, "ep2");
}

#[test]
fn second_run_with_no_new_content_selects_nothing() {
    let mut ledger = DownloadedEpisodes::new();
    let feed = || vec![candidate("ep1", 10), candidate("ep2", 20)];
    let jobs = select(&ledger, feed(), false, NOW);
    for job in &jobs {
        assert!(ledger.append(&job.episode.id, NOW, &job.episode.title).is_some());
    }
    let again = select(&ledger, feed(), false, NOW);
    assert_eq!(again.len(), 0);
}

#[test]
fn catch_up_marks_published_episodes_done() {
    let ledger = DownloadedEpisodes::new();
    let jobs = select(&ledger, vec![candidate("ep1", NOW - 5), candidate("ep2", NOW)], true, NOW);
    assert_eq!(jobs.len(), 2);
    assert_eq!(jobs[0].kind, JobKind::MarkDone);
    assert_eq!(jobs[1].kind, JobKind::MarkDone);
}

#[test]
fn catch_up_still_downloads_future_episodes() {
    let ledger = DownloadedEpisodes::new();
    let jobs = select(&ledger, vec![candidate("old", NOW - 5), candidate("new", NOW + 5)], true, NOW);
    assert_eq!(jobs.len(), 2);
    assert_eq!(jobs[0].kind, JobKind::MarkDone);
    assert_eq!(jobs[1].kind, JobKind::Download);
}

#[test]
fn repeated_id_within_one_fetch_selected_once() {
    let ledger = DownloadedEpisodes::new();
    let jobs = select(&ledger, vec![candidate("ep1", 10), candidate("ep1", 11)], false, NOW);
    assert_eq!(jobs.len(), 1);
    assert_eq!(jobs[0].episode.publish_time, 10);
}

#[test]
fn resume_downloads_exactly_the_remainder() {
    // Of three eligible episodes, one is recorded before the interruption;
    // the next run owes exactly the two that remained, in feed order.
    let feed = || vec![candidate("ep1", 10), candidate("ep2", 20), candidate("ep3", 30)];
    let mut ledger = DownloadedEpisodes::new();
    let jobs = select(&ledger, feed(), false, NOW);
    assert_eq!(jobs.len(), 3);
    assert!(ledger.append(&jobs[0].episode.id, NOW, &jobs[0].episode.title).is_some());

    let resumed = select(&ledger, feed(), false, NOW);
    assert_eq!(resumed.len(), 2);
    assert_eq!(resumed[0].episode.id, "ep2");
    assert_eq!(resumed[1].episode.id, "ep3");
}

#[test]
fn feed_order_is_kept() {
    let ledger = DownloadedEpisodes::new();
    let jobs = select(
        &ledger,
        vec![candidate("c", 3), candidate("a", 1), candidate("b", 2)],
        false,
        NOW,
    );
    let ids: Vec<&str> = jobs.iter().map(|j| j.episode.id.as_str()).collect();
    assert_eq!(ids, vec!["c", "a", "b"]);
}
