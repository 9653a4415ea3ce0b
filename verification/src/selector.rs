//! The episode selector: for one feed's candidate sequence, decides which
//! episodes are new relative to the ledger and what is to be done with each,
//! in feed order. Under catch-up, episodes already published when the sync
//! began are marked as handled without being downloaded; everything else new
//! is queued for download. A repeated id within one fetch is treated as
//! already seen after its first occurrence.

use crate::ledger::DownloadedEpisodes;
use vstd::prelude::*;

verus! {

use vstd::utf8::encode_utf8;

/// One episode as the feed source reports it, produced fresh on every fetch
/// and not persisted beyond the ledger's minimal record.
pub struct CandidateEpisode {
    /// Uniquely identifies the episode within the lifetime of the ledger.
    pub id: String,
    pub title: String,
    /// Publication time, seconds since the Unix epoch.
    pub publish_time: u64,
    /// Where the audio enclosure is to be fetched from.
    pub enclosure_url: String,
}

/// What the orchestrator is to do with one selected episode.
#[derive(Clone, Copy, PartialEq, Eq, Structural, Debug)]
pub enum JobKind {
    /// Invoke the download executor, then record the episode.
    Download,
    /// Record the episode as handled without downloading it (catch-up).
    MarkDone,
}

/// One selected episode together with its disposition.
pub struct EpisodeJob {
    pub episode: CandidateEpisode,
    pub kind: JobKind,
}

/// The key an episode is tracked under in the ledger: its id's UTF-8 bytes.
pub open spec fn episode_key(c: CandidateEpisode) -> Seq<u8> {
    encode_utf8(c.id@)
}

/// The disposition of one new episode: under catch-up, an episode already
/// published when the sync began is marked done rather than downloaded.
pub open spec fn job_for(c: CandidateEpisode, catch_up: bool, now: u64) -> EpisodeJob {
    EpisodeJob {
        kind: if catch_up && c.publish_time <= now {
            JobKind::MarkDone
        } else {
            JobKind::Download
        },
        episode: c,
    }
}

/// The jobs a sync run owes for `cands` given the ids in `recorded`:
/// candidates are taken in feed order, ones already recorded are dropped,
/// and each selected id counts as recorded for the candidates after it.
pub open spec fn spec_select(
    cands: Seq<CandidateEpisode>,
    recorded: Set<Seq<u8>>,
    catch_up: bool,
    now: u64,
) -> Seq<EpisodeJob>
    decreases cands.len(),
{
    if cands.len() == 0 {
        Seq::empty()
    } else {
        let key = episode_key(cands[0]);
        if recorded.contains(key) {
            spec_select(cands.drop_first(), recorded, catch_up, now)
        } else {
            seq![job_for(cands[0], catch_up, now)] + spec_select(
                cands.drop_first(),
                recorded.insert(key),
                catch_up,
                now,
            )
        }
    }
}

/// Produces the subsequence of `candidates` not already present in the
/// ledger, each with its disposition, in the order the feed produced them.
pub fn select(
    ledger: &DownloadedEpisodes,
    candidates: Vec<CandidateEpisode>,
    catch_up: bool,
    now: u64,
) -> (r: Vec<EpisodeJob>)
    ensures
        r@ == spec_select(candidates@, ledger@, catch_up, now),
{
    let mut rest = candidates;
    let mut jobs: Vec<EpisodeJob> = Vec::new();
    let mut seen = DownloadedEpisodes::new();
    proof {
        assert(ledger@.union(seen@) =~= ledger@);
        assert(jobs@ + spec_select(rest@, ledger@.union(seen@), catch_up, now) =~= spec_select(
            candidates@,
            ledger@,
            catch_up,
            now,
        ));
    }
    while rest.len() > 0
        invariant
            spec_select(candidates@, ledger@, catch_up, now) =~= jobs@ + spec_select(
                rest@,
                ledger@.union(seen@),
                catch_up,
                now,
            ),
        decreases rest.len(),
    {
        let ghost pre_rest = rest@;
        let ghost recorded = ledger@.union(seen@);
        let c = rest.remove(0);
        proof {
            assert(rest@ =~= pre_rest.drop_first());
        }
        if ledger.contains_episode(c.id.as_str()) || seen.contains_episode(c.id.as_str()) {
            proof {
                assert(recorded.contains(episode_key(c)));
            }
        } else {
            let kind = if catch_up && c.publish_time <= now {
                JobKind::MarkDone
            } else {
                JobKind::Download
            };
            seen.mark_handled(c.id.as_str());
            proof {
                assert(ledger@.union(seen@) =~= recorded.insert(episode_key(c)));
            }
            let ghost pre_jobs = jobs@;
            jobs.push(EpisodeJob { episode: c, kind });
            proof {
                assert(jobs@ =~= pre_jobs + seq![job_for(pre_rest[0], catch_up, now)]);
                assert(pre_jobs + (seq![job_for(pre_rest[0], catch_up, now)] + spec_select(
                    rest@,
                    ledger@.union(seen@),
                    catch_up,
                    now,
                )) =~= jobs@ + spec_select(rest@, ledger@.union(seen@), catch_up, now));
            }
        }
    }
    jobs
}

/// At-most-once: once an id is recorded in the ledger, no selection pass
/// ever yields a job for it again, however many runs follow. Together with
/// `DownloadedEpisodes::append`, which returns a record exactly when the id
/// was absent and adds it, the download executor is invoked at most once per
/// id after the first successful append records it.
pub proof fn lemma_at_most_once(
    cands: Seq<CandidateEpisode>,
    recorded: Set<Seq<u8>>,
    catch_up: bool,
    now: u64,
    key: Seq<u8>,
)
    requires
        recorded.contains(key),
    ensures
        forall|i: int|
            0 <= i < spec_select(cands, recorded, catch_up, now).len() ==> episode_key(
                #[trigger] spec_select(cands, recorded, catch_up, now)[i].episode,
            ) != key,
    decreases cands.len(),
{
    if cands.len() > 0 {
        let k0 = episode_key(cands[0]);
        if recorded.contains(k0) {
            lemma_at_most_once(cands.drop_first(), recorded, catch_up, now, key);
        } else {
            lemma_at_most_once(cands.drop_first(), recorded.insert(k0), catch_up, now, key);
        }
    }
}

/// Every selected job is for an id the ledger did not record, and no two
/// selected jobs are for the same id: within one selection pass an id is
/// downloaded or marked at most once.
pub proof fn lemma_select_fresh_and_distinct(
    cands: Seq<CandidateEpisode>,
    recorded: Set<Seq<u8>>,
    catch_up: bool,
    now: u64,
)
    ensures
        forall|i: int|
            0 <= i < spec_select(cands, recorded, catch_up, now).len() ==> !recorded.contains(
                episode_key(#[trigger] spec_select(cands, recorded, catch_up, now)[i].episode),
            ),
        forall|i: int, j: int|
            0 <= i < j < spec_select(cands, recorded, catch_up, now).len() ==> episode_key(
                #[trigger] spec_select(cands, recorded, catch_up, now)[i].episode,
            ) != episode_key(#[trigger] spec_select(cands, recorded, catch_up, now)[j].episode),
    decreases cands.len(),
{
    if cands.len() > 0 {
        let sel = spec_select(cands, recorded, catch_up, now);
        let k0 = episode_key(cands[0]);
        if recorded.contains(k0) {
            lemma_select_fresh_and_distinct(cands.drop_first(), recorded, catch_up, now);
        } else {
            let sub = spec_select(cands.drop_first(), recorded.insert(k0), catch_up, now);
            lemma_select_fresh_and_distinct(cands.drop_first(), recorded.insert(k0), catch_up, now);
            lemma_at_most_once(cands.drop_first(), recorded.insert(k0), catch_up, now, k0);
            assert forall|i: int| 0 <= i < sel.len() implies !recorded.contains(
                episode_key(sel[i].episode),
            ) by {
                if i > 0 {
                    assert(sel[i] == sub[i - 1]);
                }
            }
            assert forall|i: int, j: int| 0 <= i < j < sel.len() implies episode_key(
                sel[i].episode,
            ) != episode_key(sel[j].episode) by {
                assert(sel[j] == sub[j - 1]);
                if i > 0 {
                    assert(sel[i] == sub[i - 1]);
                }
            }
        }
    }
}

/// Idempotent resume: when every candidate's id is already recorded — as
/// after a completed run with no new feed content — selection owes nothing:
/// zero downloads and zero new ledger entries.
pub proof fn lemma_select_idempotent(
    cands: Seq<CandidateEpisode>,
    recorded: Set<Seq<u8>>,
    catch_up: bool,
    now: u64,
)
    requires
        forall|i: int| 0 <= i < cands.len() ==> recorded.contains(episode_key(#[trigger] cands[i])),
    ensures
        spec_select(cands, recorded, catch_up, now) =~= Seq::<EpisodeJob>::empty(),
    decreases cands.len(),
{
    if cands.len() > 0 {
        assert(recorded.contains(episode_key(cands[0])));
        assert forall|i: int| 0 <= i < cands.drop_first().len() implies recorded.contains(
            episode_key(#[trigger] cands.drop_first()[i]),
        ) by {
            assert(cands.drop_first()[i] == cands[i + 1]);
        }
        lemma_select_idempotent(cands.drop_first(), recorded, catch_up, now);
    }
}

/// Catch-up skip: with catch-up enabled, every candidate already published
/// when the sync began is marked done, never downloaded. A feed holding only
/// such episodes thus yields zero downloaded paths, while each new id still
/// earns a ledger entry through its mark-done job.
pub proof fn lemma_select_catch_up(
    cands: Seq<CandidateEpisode>,
    recorded: Set<Seq<u8>>,
    now: u64,
)
    requires
        forall|i: int| 0 <= i < cands.len() ==> (#[trigger] cands[i]).publish_time <= now,
    ensures
        forall|i: int|
            0 <= i < spec_select(cands, recorded, true, now).len() ==> (#[trigger] spec_select(
                cands,
                recorded,
                true,
                now,
            )[i]).kind is MarkDone,
    decreases cands.len(),
{
    if cands.len() > 0 {
        let k0 = episode_key(cands[0]);
        assert forall|i: int| 0 <= i < cands.drop_first().len() implies (#[trigger] cands
            .drop_first()[i]).publish_time <= now by {
            assert(cands.drop_first()[i] == cands[i + 1]);
        }
        if recorded.contains(k0) {
            lemma_select_catch_up(cands.drop_first(), recorded, now);
        } else {
            lemma_select_catch_up(cands.drop_first(), recorded.insert(k0), now);
            let sel = spec_select(cands, recorded, true, now);
            let sub = spec_select(cands.drop_first(), recorded.insert(k0), true, now);
            assert forall|i: int| 0 <= i < sel.len() implies (sel[i]).kind is MarkDone by {
                assert(cands[0].publish_time <= now);
                if i > 0 {
                    assert(sel[i] == sub[i - 1]);
                }
            }
        }
    }
}

/// Idempotent resume, the other half: once every owed job of a run has been
/// committed, a second pass over the same feed content owes nothing — zero
/// downloads and, through `DownloadedEpisodes::append`, zero new ledger
/// entries.
pub proof fn lemma_completed_run_owes_nothing(
    cands: Seq<CandidateEpisode>,
    recorded: Set<Seq<u8>>,
    catch_up: bool,
    now: u64,
)
    ensures
        spec_select(
            cands,
            recorded.union(
                job_keys(
                    spec_select(cands, recorded, catch_up, now),
                    spec_select(cands, recorded, catch_up, now).len() as int,
                ),
            ),
            catch_up,
            now,
        ) =~= Seq::<EpisodeJob>::empty(),
{
    let sel = spec_select(cands, recorded, catch_up, now);
    lemma_select_resume(cands, recorded, catch_up, now, sel.len() as int);
    assert(sel.skip(sel.len() as int) =~= Seq::<EpisodeJob>::empty());
}

/// The ids of the first `n` jobs of `jobs`.
pub open spec fn job_keys(jobs: Seq<EpisodeJob>, n: int) -> Set<Seq<u8>> {
    Set::new(
        |key: Seq<u8>| exists|i: int| 0 <= i < n && i < jobs.len() && episode_key(jobs[i].episode) == key,
    )
}

/// Durability under interruption: if a run is stopped after the first `n` of
/// the owed jobs have been recorded, selecting again over the grown ledger
/// owes exactly the jobs that remained — no job is repeated and none is
/// lost, whatever `n` the interruption left behind.
pub proof fn lemma_select_resume(
    cands: Seq<CandidateEpisode>,
    recorded: Set<Seq<u8>>,
    catch_up: bool,
    now: u64,
    n: int,
)
    requires
        0 <= n <= spec_select(cands, recorded, catch_up, now).len(),
    ensures
        spec_select(
            cands,
            recorded.union(job_keys(spec_select(cands, recorded, catch_up, now), n)),
            catch_up,
            now,
        ) =~= spec_select(cands, recorded, catch_up, now).skip(n),
    decreases cands.len(),
{
    let sel = spec_select(cands, recorded, catch_up, now);
    let grown = recorded.union(job_keys(sel, n));
    if cands.len() == 0 {
        assert(grown =~= recorded);
    } else {
        let k0 = episode_key(cands[0]);
        let rest = cands.drop_first();
        if recorded.contains(k0) {
            lemma_select_resume(rest, recorded, catch_up, now, n);
            assert(job_keys(spec_select(rest, recorded, catch_up, now), n) =~= job_keys(sel, n));
            assert(grown.contains(k0));
        } else {
            let sub = spec_select(rest, recorded.insert(k0), catch_up, now);
            assert(sel =~= seq![job_for(cands[0], catch_up, now)] + sub);
            if n == 0 {
                assert(job_keys(sel, 0) =~= Set::<Seq<u8>>::empty());
                assert(grown =~= recorded);
                assert(sel.skip(0) =~= sel);
            } else {
                lemma_select_resume(rest, recorded.insert(k0), catch_up, now, n - 1);
                assert(grown =~= recorded.insert(k0).union(job_keys(sub, n - 1))) by {
                    assert forall|key: Seq<u8>| grown.contains(key) implies recorded.insert(
                        k0,
                    ).union(job_keys(sub, n - 1)).contains(key) by {
                        if job_keys(sel, n).contains(key) {
                            let i = choose|i: int|
                                0 <= i < n && i < sel.len() && episode_key(sel[i].episode) == key;
                            if i > 0 {
                                assert(sel[i] == sub[i - 1]);
                                assert(job_keys(sub, n - 1).contains(key));
                            }
                        }
                    }
                    assert forall|key: Seq<u8>| recorded.insert(k0).union(
                        job_keys(sub, n - 1),
                    ).contains(key) implies grown.contains(key) by {
                        if key == k0 {
                            assert(episode_key(sel[0].episode) == key);
                            assert(job_keys(sel, n).contains(key));
                        } else if job_keys(sub, n - 1).contains(key) {
                            let i = choose|i: int|
                                0 <= i < n - 1 && i < sub.len() && episode_key(sub[i].episode)
                                    == key;
                            assert(sel[i + 1] == sub[i]);
                            assert(job_keys(sel, n).contains(key));
                        }
                    }
                }
                assert(grown.contains(k0));
                assert(spec_select(cands, grown, catch_up, now) == spec_select(
                    rest,
                    grown,
                    catch_up,
                    now,
                ));
                assert(sel.skip(n) =~= sub.skip(n - 1));
            }
        }
    }
}

} // verus!
