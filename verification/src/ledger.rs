//! The download ledger: a durable, append-only record of episode identifiers
//! that have been downloaded or deliberately marked as handled.
//!
//! The durable form is line-oriented UTF-8 text, one record per line:
//! `<episode_id> <unix_timestamp> "<title>"`. Only the first
//! whitespace-delimited token of each line (the episode id) is significant
//! when loading; the rest of the line is informational payload, which keeps
//! the loader forward-compatible with extra trailing fields.
//!
//! This module holds the in-memory lookup structure and the exact byte-level
//! model of the file format. Reading and writing the file itself is the
//! caller's job: `load` takes the file's contents, `append` returns the
//! record bytes the caller must write durably.

use vstd::prelude::*;

verus! {

use vstd::string::StringSliceAdditionalSpecFns;

/// An ASCII whitespace byte other than the line separator; these delimit
/// fields within one ledger record.
pub open spec fn is_space(b: u8) -> bool {
    b == 32 || b == 9 || b == 13
}

/// The line separator of the ledger file.
pub open spec fn is_newline(b: u8) -> bool {
    b == 10
}

/// Index of the first line separator in `s`, or `s.len()` if there is none.
pub open spec fn find_nl(s: Seq<u8>) -> int
    decreases s.len(),
{
    if s.len() == 0 {
        0
    } else if is_newline(s[0]) {
        0
    } else {
        1 + find_nl(s.drop_first())
    }
}

/// `s` without its leading run of field-delimiting whitespace.
pub open spec fn skip_spaces(s: Seq<u8>) -> Seq<u8>
    decreases s.len(),
{
    if s.len() == 0 {
        s
    } else if is_space(s[0]) {
        skip_spaces(s.drop_first())
    } else {
        s
    }
}

/// The maximal whitespace-free prefix of `s`.
pub open spec fn token_prefix(s: Seq<u8>) -> Seq<u8>
    decreases s.len(),
{
    if s.len() == 0 || is_space(s[0]) {
        Seq::empty()
    } else {
        seq![s[0]] + token_prefix(s.drop_first())
    }
}

/// The first whitespace-delimited token of one ledger line, if the line has
/// one. For a record written by this module that token is the episode id.
pub open spec fn first_token(line: Seq<u8>) -> Option<Seq<u8>> {
    let t = token_prefix(skip_spaces(line));
    if t.len() == 0 {
        None
    } else {
        Some(t)
    }
}

/// The set of episode ids a ledger file with contents `s` records: the first
/// token of every line that has one.
pub open spec fn ledger_ids(s: Seq<u8>) -> Set<Seq<u8>>
    decreases s.len(),
{
    if s.len() == 0 {
        Set::empty()
    } else {
        let k = find_nl(s);
        if 0 <= k < s.len() {
            let rest = ledger_ids(s.subrange(k + 1, s.len() as int));
            match first_token(s.subrange(0, k)) {
                Some(t) => rest.insert(t),
                None => rest,
            }
        } else {
            match first_token(s) {
                Some(t) => Set::empty().insert(t),
                None => Set::empty(),
            }
        }
    }
}

/// `find_nl` points at the first line separator: everything before it is not
/// one, and it is one unless it is the end of `s`.
proof fn lemma_find_nl_bounds(s: Seq<u8>)
    ensures
        0 <= find_nl(s) <= s.len(),
        forall|i: int| 0 <= i < find_nl(s) ==> !is_newline(s[i]),
        find_nl(s) < s.len() ==> is_newline(s[find_nl(s)]),
    decreases s.len(),
{
    if s.len() == 0 || is_newline(s[0]) {
    } else {
        lemma_find_nl_bounds(s.drop_first());
        assert forall|i: int| 0 <= i < find_nl(s) implies !is_newline(s[i]) by {
            if i > 0 {
                assert(!is_newline(s.drop_first()[i - 1]));
            }
        }
        if find_nl(s) < s.len() {
            assert(is_newline(s.drop_first()[find_nl(s) - 1]));
        }
    }
}

/// Any position with no line separator before it, and a line separator (or
/// the end of `s`) at it, is `find_nl`.
proof fn lemma_find_nl_at(s: Seq<u8>, k: int)
    requires
        0 <= k <= s.len(),
        forall|i: int| 0 <= i < k ==> !is_newline(s[i]),
        k < s.len() ==> is_newline(s[k]),
    ensures
        find_nl(s) == k,
    decreases s.len(),
{
    if s.len() == 0 {
    } else if is_newline(s[0]) {
    } else {
        assert(k > 0);
        lemma_find_nl_at(s.drop_first(), k - 1);
    }
}

/// A leading all-whitespace run of known extent pins down `skip_spaces`.
proof fn lemma_skip_spaces_at(s: Seq<u8>, k: int)
    requires
        0 <= k <= s.len(),
        forall|i: int| 0 <= i < k ==> is_space(s[i]),
        k < s.len() ==> !is_space(s[k]),
    ensures
        skip_spaces(s) == s.subrange(k, s.len() as int),
    decreases s.len(),
{
    if k == 0 {
        assert(s.subrange(0, s.len() as int) =~= s);
    } else {
        let df = s.drop_first();
        assert forall|i: int| 0 <= i < k - 1 implies is_space(df[i]) by {
            assert(is_space(s[i + 1]));
        }
        lemma_skip_spaces_at(df, k - 1);
        assert(df.subrange(k - 1, df.len() as int) =~= s.subrange(k, s.len() as int));
    }
}

/// A whitespace-free prefix of known extent pins down `token_prefix`.
proof fn lemma_token_prefix_at(s: Seq<u8>, k: int)
    requires
        0 <= k <= s.len(),
        forall|i: int| 0 <= i < k ==> !is_space(s[i]),
        k < s.len() ==> is_space(s[k]),
    ensures
        token_prefix(s) == s.subrange(0, k),
    decreases s.len(),
{
    if k == 0 {
        assert(s.subrange(0, 0) =~= Seq::<u8>::empty());
    } else {
        let df = s.drop_first();
        assert forall|i: int| 0 <= i < k - 1 implies !is_space(df[i]) by {
            assert(!is_space(s[i + 1]));
        }
        lemma_token_prefix_at(df, k - 1);
        assert(seq![s[0]] + df.subrange(0, k - 1) =~= s.subrange(0, k));
    }
}

/// The set of views of the elements of `ids`.
spec fn ids_set(ids: Seq<Vec<u8>>) -> Set<Seq<u8>> {
    Set::new(|id: Seq<u8>| exists|i: int| 0 <= i < ids.len() && ids[i]@ == id)
}

proof fn lemma_ids_set_push(ids: Seq<Vec<u8>>, v: Vec<u8>)
    ensures
        ids_set(ids.push(v)) =~= ids_set(ids).insert(v@),
{
    assert forall|id: Seq<u8>| ids_set(ids).insert(v@).contains(id) implies ids_set(
        ids.push(v),
    ).contains(id) by {
        if id == v@ {
            assert(ids.push(v)[ids.len() as int]@ == id);
        } else {
            let i = choose|i: int| 0 <= i < ids.len() && ids[i]@ == id;
            assert(ids.push(v)[i]@ == id);
        }
    }
    assert forall|id: Seq<u8>| ids_set(ids.push(v)).contains(id) implies ids_set(ids).insert(
        v@,
    ).contains(id) by {
        let i = choose|i: int| 0 <= i < ids.push(v).len() && ids.push(v)[i]@ == id;
        if i < ids.len() {
            assert(ids[i]@ == id);
        }
    }
}

/// Whether `b` delimits fields within a ledger record.
fn is_space_byte(b: u8) -> (r: bool)
    ensures
        r == is_space(b),
{
    b == 32 || b == 9 || b == 13
}

/// Whether a byte slice and a byte vector hold the same bytes.
fn bytes_eq(a: &[u8], b: &Vec<u8>) -> (r: bool)
    ensures
        r == (a@ == b@),
{
    if a.len() != b.len() {
        return false;
    }
    let n: usize = a.len();
    let mut i: usize = 0;
    while i < n
        invariant
            i <= n,
            n == a@.len() == b@.len(),
            forall|k: int| 0 <= k < i ==> a@[k] == b@[k],
        decreases n - i,
    {
        if a[i] != b[i] {
            return false;
        }
        i += 1;
    }
    proof {
        assert(a@ =~= b@);
    }
    true
}

/// The decimal digits of `n`, most significant first, as ASCII bytes.
pub open spec fn dec_rep(n: nat) -> Seq<u8>
    decreases n,
{
    if n < 10 {
        seq![(48 + n) as u8]
    } else {
        dec_rep(n / 10) + seq![(48 + n % 10) as u8]
    }
}

/// Decimal digits are ASCII digits: never field or line delimiters.
proof fn lemma_dec_rep_digits(n: nat)
    ensures
        dec_rep(n).len() >= 1,
        forall|i: int| 0 <= i < dec_rep(n).len() ==> 48 <= #[trigger] dec_rep(n)[i] <= 57,
    decreases n,
{
    if n >= 10 {
        lemma_dec_rep_digits(n / 10);
    }
}

/// The decimal digits of `n`, most significant first.
fn u64_to_dec(n: u64) -> (r: Vec<u8>)
    ensures
        r@ == dec_rep(n as nat),
{
    let mut rev: Vec<u8> = Vec::new();
    let mut m: u64 = n;
    proof {
        assert(dec_rep(n as nat) =~= dec_rep(m as nat) + rev@.reverse());
    }
    while m >= 10
        invariant
            dec_rep(n as nat) =~= dec_rep(m as nat) + rev@.reverse(),
        decreases m,
    {
        let d: u8 = 48 + (m % 10) as u8;
        proof {
            assert(dec_rep(m as nat) == dec_rep((m as nat) / 10) + seq![d]);
            assert(rev@.push(d).reverse() =~= seq![d] + rev@.reverse());
            assert(dec_rep(n as nat) =~= dec_rep((m / 10) as nat) + rev@.push(d).reverse());
        }
        rev.push(d);
        m = m / 10;
    }
    let d0: u8 = 48 + m as u8;
    proof {
        assert(dec_rep(m as nat) == seq![d0]);
        assert(rev@.push(d0).reverse() =~= seq![d0] + rev@.reverse());
        assert(dec_rep(n as nat) =~= rev@.push(d0).reverse());
    }
    rev.push(d0);
    let k: usize = rev.len();
    let mut out: Vec<u8> = Vec::new();
    let mut i: usize = 0;
    while i < k
        invariant
            i <= k,
            k == rev@.len(),
            out@ =~= rev@.reverse().subrange(0, i as int),
        decreases k - i,
    {
        let b = rev[k - 1 - i];
        proof {
            assert(rev@.reverse().subrange(0, i as int).push(rev@[k - 1 - i]) =~= rev@
                .reverse()
                .subrange(0, i + 1));
        }
        out.push(b);
        i += 1;
    }
    proof {
        assert(rev@.reverse().subrange(0, k as int) =~= rev@.reverse());
    }
    out
}

/// Appends the bytes of `b` to `out`.
fn push_bytes(out: &mut Vec<u8>, b: &[u8])
    ensures
        final(out)@ == old(out)@ + b@,
{
    let n: usize = b.len();
    let mut i: usize = 0;
    proof {
        assert(out@ =~= old(out)@ + b@.subrange(0, 0));
    }
    while i < n
        invariant
            i <= n,
            n == b@.len(),
            out@ =~= old(out)@ + b@.subrange(0, i as int),
        decreases n - i,
    {
        proof {
            assert((old(out)@ + b@.subrange(0, i as int)).push(b@[i as int]) =~= old(out)@ + b@
                .subrange(0, i + 1));
        }
        out.push(b[i]);
        i += 1;
    }
    proof {
        assert(b@.subrange(0, n as int) =~= b@);
    }
}

/// One durable ledger record for an episode: the id, the time it was
/// recorded, and the quoted title, whitespace-separated and ended by the
/// line separator. The title is quoted but not escaped: feed titles are
/// trusted not to contain the delimiter pattern.
pub open spec fn record_line(id: Seq<u8>, timestamp: u64, title: Seq<u8>) -> Seq<u8> {
    id + seq![32u8] + dec_rep(timestamp as nat) + seq![32u8, 34u8] + title + seq![34u8, 10u8]
}

/// An episode id the record format can carry faithfully: nonempty and free
/// of field and line delimiters.
pub open spec fn id_wf(id: Seq<u8>) -> bool {
    id.len() > 0 && forall|i: int| 0 <= i < id.len() ==> !is_space(id[i]) && !is_newline(id[i])
}

/// A title the record format can carry on one line: free of the line
/// separator.
pub open spec fn title_wf(title: Seq<u8>) -> bool {
    forall|i: int| 0 <= i < title.len() ==> !is_newline(title[i])
}

/// True iff this episode id can stand in a ledger record: nonempty and free
/// of whitespace. Callers check this before recording an id.
pub fn id_recordable(episode_id: &str) -> (r: bool)
    ensures
        r == id_wf(episode_id.spec_bytes()),
{
    let b: &[u8] = episode_id.as_bytes();
    let n: usize = b.len();
    if n == 0 {
        return false;
    }
    let mut i: usize = 0;
    while i < n
        invariant
            i <= n,
            n == b@.len(),
            b@ == episode_id.spec_bytes(),
            forall|k: int| 0 <= k < i ==> !is_space(b@[k]) && !is_newline(b@[k]),
        decreases n - i,
    {
        let c = b[i];
        if c == 32 || c == 9 || c == 13 || c == 10 {
            return false;
        }
        i += 1;
    }
    true
}

/// True iff this title can stand in a ledger record: it spans no line break.
pub fn title_recordable(title: &str) -> (r: bool)
    ensures
        r == title_wf(title.spec_bytes()),
{
    let b: &[u8] = title.as_bytes();
    let n: usize = b.len();
    let mut i: usize = 0;
    while i < n
        invariant
            i <= n,
            n == b@.len(),
            b@ == title.spec_bytes(),
            forall|k: int| 0 <= k < i ==> !is_newline(b@[k]),
        decreases n - i,
    {
        if b[i] == 10 {
            return false;
        }
        i += 1;
    }
    true
}

/// The bytes of one ledger record, exactly as `append` would emit them.
pub fn format_record(episode_id: &str, timestamp: u64, title: &str) -> (r: Vec<u8>)
    ensures
        r@ == record_line(episode_id.spec_bytes(), timestamp, title.spec_bytes()),
{
    let mut out: Vec<u8> = Vec::new();
    push_bytes(&mut out, episode_id.as_bytes());
    out.push(32);
    let mut digits = u64_to_dec(timestamp);
    out.append(&mut digits);
    out.push(32);
    out.push(34);
    push_bytes(&mut out, title.as_bytes());
    out.push(34);
    out.push(10);
    proof {
        assert(out@ =~= record_line(
            episode_id.spec_bytes(),
            timestamp,
            title.spec_bytes(),
        ));
    }
    out
}

/// Keeps track of which episodes have already been downloaded or marked as
/// handled. The view is the set of recorded episode ids, each as its UTF-8
/// bytes.
pub struct DownloadedEpisodes {
    ids: Vec<Vec<u8>>,
}

impl View for DownloadedEpisodes {
    type V = Set<Seq<u8>>;

    closed spec fn view(&self) -> Set<Seq<u8>> {
        ids_set(self.ids@)
    }
}

impl DownloadedEpisodes {
    /// The empty ledger: no episode recorded.
    pub fn new() -> (r: Self)
        ensures
            r@ =~= Set::<Seq<u8>>::empty(),
    {
        DownloadedEpisodes { ids: Vec::new() }
    }

    /// True iff an entry with this episode id has been recorded.
    pub fn contains_episode(&self, episode_id: &str) -> (r: bool)
        ensures
            r == self@.contains(episode_id.spec_bytes()),
    {
        let needle: &[u8] = episode_id.as_bytes();
        let n: usize = self.ids.len();
        let mut i: usize = 0;
        while i < n
            invariant
                i <= n,
                n == self.ids@.len(),
                needle@ == episode_id.spec_bytes(),
                forall|k: int| 0 <= k < i ==> self.ids@[k]@ != needle@,
            decreases n - i,
        {
            if bytes_eq(needle, &self.ids[i]) {
                return true;
            }
            i += 1;
        }
        false
    }

    /// Builds the in-memory ledger from the durable store's contents.
    /// `None` stands for a store that does not exist yet (a first run):
    /// that is an empty ledger, not an error. Any other read failure is the
    /// caller's to handle, and fatal to the run.
    pub fn load(contents: Option<&str>) -> (r: Self)
        ensures
            contents is None ==> r@ =~= Set::<Seq<u8>>::empty(),
            contents matches Some(s) ==> r@ =~= ledger_ids(s.spec_bytes()),
    {
        let s = match contents {
            None => {
                return Self::new();
            },
            Some(s) => s,
        };
        let bytes: &[u8] = s.as_bytes();
        let n: usize = bytes.len();
        let mut ids: Vec<Vec<u8>> = Vec::new();
        let mut pos: usize = 0;
        proof {
            assert(bytes@.subrange(0, n as int) =~= bytes@);
            assert(ledger_ids(bytes@) =~= ids_set(ids@).union(
                ledger_ids(bytes@.subrange(pos as int, n as int)),
            ));
        }
        while pos < n
            invariant
                pos <= n,
                n == bytes@.len(),
                bytes@ == s.spec_bytes(),
                ledger_ids(bytes@) =~= ids_set(ids@).union(
                    ledger_ids(bytes@.subrange(pos as int, n as int)),
                ),
            decreases n - pos,
        {
            let ghost rem = bytes@.subrange(pos as int, n as int);
            let mut end: usize = pos;
            while end < n && bytes[end] != 10
                invariant
                    pos <= end <= n,
                    n == bytes@.len(),
                    forall|i: int| pos <= i < end ==> !is_newline(bytes@[i]),
                decreases n - end,
            {
                end += 1;
            }
            proof {
                assert forall|i: int| 0 <= i < end - pos implies !is_newline(rem[i]) by {
                    assert(!is_newline(bytes@[pos + i]));
                }
                lemma_find_nl_at(rem, end - pos);
            }
            let ghost line = bytes@.subrange(pos as int, end as int);
            let ghost rest = if end < n {
                bytes@.subrange(end + 1, n as int)
            } else {
                Seq::<u8>::empty()
            };
            proof {
                if end < n {
                    assert(rem.subrange(0, end - pos) =~= line);
                    assert(rem.subrange(end - pos + 1, rem.len() as int) =~= rest);
                } else {
                    assert(rem =~= line);
                }
                assert(ledger_ids(rem) == match first_token(line) {
                    Some(t) => ledger_ids(rest).insert(t),
                    None => ledger_ids(rest),
                });
            }
            let mut i: usize = pos;
            while i < end && is_space_byte(bytes[i])
                invariant
                    pos <= i <= end <= n,
                    n == bytes@.len(),
                    forall|k: int| pos <= k < i ==> is_space(bytes@[k]),
                decreases end - i,
            {
                i += 1;
            }
            proof {
                assert forall|k: int| 0 <= k < i - pos implies is_space(line[k]) by {
                    assert(is_space(bytes@[pos + k]));
                }
                lemma_skip_spaces_at(line, i - pos);
            }
            if i < end {
                let ghost tail = bytes@.subrange(i as int, end as int);
                proof {
                    assert(line.subrange(i - pos, line.len() as int) =~= tail);
                }
                let mut j: usize = i;
                let mut tok: Vec<u8> = Vec::new();
                while j < end && !is_space_byte(bytes[j])
                    invariant
                        i <= j <= end <= n,
                        n == bytes@.len(),
                        tok@ =~= bytes@.subrange(i as int, j as int),
                        forall|k: int| i <= k < j ==> !is_space(bytes@[k]),
                    decreases end - j,
                {
                    tok.push(bytes[j]);
                    proof {
                        assert(bytes@.subrange(i as int, j as int).push(bytes@[j as int]) =~= bytes@
                            .subrange(i as int, j + 1));
                    }
                    j += 1;
                }
                proof {
                    assert(j > i);
                    assert forall|k: int| 0 <= k < j - i implies !is_space(tail[k]) by {
                        assert(!is_space(bytes@[i + k]));
                    }
                    if j < end {
                        assert(is_space(tail[j - i]));
                    }
                    lemma_token_prefix_at(tail, j - i);
                    assert(tail.subrange(0, j - i) =~= tok@);
                    assert(first_token(line) == Some(tok@));
                }
                let ghost old_ids = ids@;
                ids.push(tok);
                proof {
                    lemma_ids_set_push(old_ids, ids@[old_ids.len() as int]);
                    assert(ids_set(ids@).union(ledger_ids(rest)) =~= ids_set(old_ids).union(
                        ledger_ids(rem),
                    ));
                }
            } else {
                proof {
                    assert(skip_spaces(line) =~= line.subrange(i - pos, line.len() as int));
                    assert(skip_spaces(line).len() == 0);
                    assert(first_token(line) is None);
                }
            }
            if end < n {
                pos = end + 1;
            } else {
                pos = n;
                proof {
                    assert(bytes@.subrange(n as int, n as int) =~= Seq::<u8>::empty());
                }
            }
        }
        proof {
            assert(bytes@.subrange(n as int, n as int) =~= Seq::<u8>::empty());
        }
        DownloadedEpisodes { ids }
    }

    /// Notes an episode id in the in-memory set only, without producing a
    /// durable record. The selector uses a scratch instance of this to treat
    /// a repeated id within one fetch as already seen.
    pub fn mark_handled(&mut self, episode_id: &str)
        ensures
            final(self)@ =~= old(self)@.insert(episode_id.spec_bytes()),
    {
        let mut id: Vec<u8> = Vec::new();
        push_bytes(&mut id, episode_id.as_bytes());
        let ghost old_ids = self.ids@;
        self.ids.push(id);
        proof {
            lemma_ids_set_push(old_ids, self.ids@[old_ids.len() as int]);
        }
    }

    /// Records one episode, re-validating the membership check first so that
    /// check-then-append is atomic per id at this single serialization
    /// point. Returns the record bytes the caller must append to the durable
    /// store when the id was new, and `None` when it was already recorded
    /// (then nothing is to be written). The id joins the in-memory set
    /// immediately, so no duplicate download of the same id can happen later
    /// within the same run, even if the caller's durable write then fails.
    pub fn append(&mut self, episode_id: &str, timestamp: u64, title: &str) -> (r: Option<
        Vec<u8>,
    >)
        ensures
            final(self)@ =~= old(self)@.insert(episode_id.spec_bytes()),
            r is Some <==> !old(self)@.contains(episode_id.spec_bytes()),
            r matches Some(rec) ==> rec@ == record_line(
                episode_id.spec_bytes(),
                timestamp,
                title.spec_bytes(),
            ),
    {
        if self.contains_episode(episode_id) {
            proof {
                assert(old(self)@.insert(episode_id.spec_bytes()) =~= old(self)@);
            }
            return None;
        }
        self.mark_handled(episode_id);
        Some(format_record(episode_id, timestamp, title))
    }
}

/// Concatenating whole files concatenates their id sets: a suffix appended
/// after a final line separator never disturbs the records before it.
pub proof fn lemma_ledger_ids_concat(c1: Seq<u8>, c2: Seq<u8>)
    requires
        c1.len() == 0 || is_newline(c1.last()),
    ensures
        ledger_ids(c1 + c2) =~= ledger_ids(c1).union(ledger_ids(c2)),
    decreases c1.len(),
{
    if c1.len() == 0 {
        assert(c1 + c2 =~= c2);
    } else {
        lemma_find_nl_bounds(c1);
        let k = find_nl(c1);
        assert(k < c1.len()) by {
            if k == c1.len() {
                assert(!is_newline(c1[c1.len() - 1]));
            }
        }
        let whole = c1 + c2;
        lemma_find_nl_at(whole, k);
        assert(whole.subrange(0, k) =~= c1.subrange(0, k));
        let r1 = c1.subrange(k + 1, c1.len() as int);
        assert(whole.subrange(k + 1, whole.len() as int) =~= r1 + c2);
        if r1.len() > 0 {
            assert(r1.last() == c1.last());
        }
        lemma_ledger_ids_concat(r1, c2);
    }
}

/// One record by itself records exactly its episode id.
pub proof fn lemma_ledger_ids_single_record(id: Seq<u8>, timestamp: u64, title: Seq<u8>)
    requires
        id_wf(id),
        title_wf(title),
    ensures
        ledger_ids(record_line(id, timestamp, title)) =~= Set::<Seq<u8>>::empty().insert(id),
{
    let rec = record_line(id, timestamp, title);
    let digits = dec_rep(timestamp as nat);
    lemma_dec_rep_digits(timestamp as nat);
    let dlen = digits.len() as int;
    let ilen = id.len() as int;
    let tlen = title.len() as int;
    assert forall|i: int| 0 <= i < rec.len() - 1 implies !is_newline(rec[i]) by {
        if i < ilen {
            assert(rec[i] == id[i]);
        } else if i == ilen {
            assert(rec[i] == 32u8);
        } else if i < ilen + 1 + dlen {
            assert(rec[i] == digits[i - ilen - 1]);
        } else if i < ilen + 1 + dlen + 2 {
            assert(rec[i] == 32u8 || rec[i] == 34u8);
        } else if i < ilen + 1 + dlen + 2 + tlen {
            assert(rec[i] == title[i - (ilen + 1 + dlen + 2)]);
        } else {
            assert(rec[i] == 34u8);
        }
    }
    assert(is_newline(rec[rec.len() - 1]));
    lemma_find_nl_at(rec, rec.len() - 1);
    let line = rec.subrange(0, rec.len() - 1);
    lemma_skip_spaces_at(line, 0);
    assert(line.subrange(0, line.len() as int) =~= line);
    assert forall|i: int| 0 <= i < ilen implies !is_space(line[i]) by {
        assert(line[i] == id[i]);
    }
    assert(is_space(line[ilen]));
    lemma_token_prefix_at(line, ilen);
    assert(line.subrange(0, ilen) =~= id);
    assert(first_token(line) == Some(id));
    assert(rec.subrange(rec.len() - 1 + 1, rec.len() as int) =~= Seq::<u8>::empty());
    assert(ledger_ids(rec.subrange(rec.len() - 1 + 1, rec.len() as int)) =~= Set::<Seq<u8>>::empty());
    assert(ledger_ids(rec) == ledger_ids(rec.subrange(rec.len() - 1 + 1, rec.len() as int)).insert(
        id,
    ));
}

/// Appending one record to the store adds exactly that episode id to what a
/// reload yields, and leaves the store again ending on a line separator, so
/// that further appends chain. Together with `load` and `append` this says
/// the ledger round-trips: what was appended is contained after a reload.
pub proof fn lemma_append_round_trip(content: Seq<u8>, id: Seq<u8>, timestamp: u64, title: Seq<u8>)
    requires
        id_wf(id),
        title_wf(title),
        content.len() == 0 || is_newline(content.last()),
    ensures
        ledger_ids(content + record_line(id, timestamp, title)) =~= ledger_ids(content).insert(id),
        is_newline((content + record_line(id, timestamp, title)).last()),
{
    let rec = record_line(id, timestamp, title);
    lemma_ledger_ids_concat(content, rec);
    lemma_ledger_ids_single_record(id, timestamp, title);
    assert((content + rec).last() == rec.last());
}

/// The store contents after appending one record per entry of `records`, in
/// order; an entry is an episode id, a timestamp, and a title.
pub open spec fn store_after(content: Seq<u8>, records: Seq<(Seq<u8>, u64, Seq<u8>)>) -> Seq<u8>
    decreases records.len(),
{
    if records.len() == 0 {
        content
    } else {
        store_after(
            content + record_line(records[0].0, records[0].1, records[0].2),
            records.drop_first(),
        )
    }
}

/// The episode ids of a batch of records.
pub open spec fn record_ids(records: Seq<(Seq<u8>, u64, Seq<u8>)>) -> Set<Seq<u8>> {
    Set::new(
        |key: Seq<u8>| exists|i: int| 0 <= i < records.len() && (#[trigger] records[i]).0 == key,
    )
}

/// Durability of any prefix of completed appends: however many records a run
/// managed to append before it was stopped, reloading the store yields
/// exactly the ids it held before plus the ids of those records — no record
/// is lost and none is invented. An interrupted run simply leaves fewer
/// entries than a completed one.
pub proof fn lemma_store_round_trip(content: Seq<u8>, records: Seq<(Seq<u8>, u64, Seq<u8>)>)
    requires
        content.len() == 0 || is_newline(content.last()),
        forall|i: int|
            0 <= i < records.len() ==> id_wf((#[trigger] records[i]).0) && title_wf(records[i].2),
    ensures
        ledger_ids(store_after(content, records)) =~= ledger_ids(content).union(
            record_ids(records),
        ),
    decreases records.len(),
{
    if records.len() == 0 {
        assert(record_ids(records) =~= Set::<Seq<u8>>::empty());
    } else {
        let first = records[0];
        let rest = records.drop_first();
        lemma_append_round_trip(content, first.0, first.1, first.2);
        assert forall|i: int| 0 <= i < rest.len() implies id_wf((#[trigger] rest[i]).0)
            && title_wf(rest[i].2) by {
            assert(rest[i] == records[i + 1]);
        }
        lemma_store_round_trip(content + record_line(first.0, first.1, first.2), rest);
        assert forall|key: Seq<u8>| record_ids(records).contains(key) implies Set::empty().insert(
            first.0,
        ).union(record_ids(rest)).contains(key) by {
            let i = choose|i: int| 0 <= i < records.len() && (#[trigger] records[i]).0 == key;
            if i > 0 {
                assert(rest[i - 1].0 == key);
            }
        }
        assert forall|key: Seq<u8>| Set::empty().insert(first.0).union(record_ids(rest)).contains(
            key,
        ) implies record_ids(records).contains(key) by {
            if key == first.0 {
                assert(records[0].0 == key);
            } else {
                let i = choose|i: int| 0 <= i < rest.len() && (#[trigger] rest[i]).0 == key;
                assert(records[i + 1].0 == key);
            }
        }
        assert(record_ids(records) =~= Set::empty().insert(first.0).union(record_ids(rest)));
    }
}

} // verus!
