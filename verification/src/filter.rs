//! Subscriptions and the case-insensitive name filter a sync run applies to
//! them before fanning out. The regular-expression engine is an outside
//! collaborator: the compiled matcher is kept beside the pattern it was
//! compiled from, and what it accepts is named, not restated.

use crate::error::SyncError;
use vstd::prelude::*;

verus! {

use vstd::string::StringExecFns;

/// One named podcast feed configuration: a mapping entry of a unique name to
/// where the feed is fetched from. Read-only during a sync run.
pub struct Subscription {
    pub name: String,
    pub url: String,
}

/// regex::Regex, the engine's compiled expression, declared opaquely so a
/// value of it can stand in a field and be carried through.
#[verifier::external_type_specification]
#[verifier::external_body]
pub struct ExRegex(regex::Regex);

/// regex::Error, what the engine reports for a pattern it rejects, declared
/// opaquely so compilation can return it before it is mapped to this
/// library's own error.
#[verifier::external_type_specification]
#[verifier::external_body]
pub struct ExRegexError(regex::Error);

/// Whether the regular expression `pattern`, compiled with the engine's
/// default configuration, matches anywhere in `text`. A function of the two
/// texts alone; what it holds for given values is the engine's to decide.
pub uninterp spec fn regex_accepts(pattern: Seq<char>, text: Seq<char>) -> bool;

/// Whether the engine accepts `pattern` as a regular expression under its
/// default configuration: compilation fails only for an invalid pattern or
/// one beyond the fixed default size limit, so success is a function of the
/// pattern alone. Which patterns it holds for is the engine's to decide.
pub uninterp spec fn regex_compiles(pattern: Seq<char>) -> bool;

/// A compiled, case-insensitive subscription-name filter. The matcher was
/// compiled from exactly the pattern kept beside it: the fields are private
/// and only `compile` constructs a value, so the pair never comes apart.
pub struct NameFilter {
    regex: regex::Regex,
    pattern: String,
}

/// Relies on regex::Regex::new: compiles `pattern` under the default
/// configuration, succeeding exactly when the engine accepts the pattern
/// (`regex_compiles` names that condition); on success the returned matcher
/// decides matches by that pattern, which the filter keeps beside it.
#[verifier::external_body]
fn compile(pattern: &str) -> (r: Result<NameFilter, regex::Error>)
    ensures
        r is Ok <==> regex_compiles(pattern@),
        r matches Ok(f) ==> f.pattern_view() == pattern@,
{
    regex::Regex::new(pattern).map(
        |regex|
            NameFilter { regex, pattern: pattern.to_owned() },
    )
}

impl NameFilter {
    /// The pattern this filter's matcher was compiled from.
    pub closed spec fn pattern_view(&self) -> Seq<char> {
        self.pattern@
    }

    /// Compiles the name filter of a sync run: `pattern` wrapped as
    /// `(?i)pattern`, so subscription names match case-insensitively. It
    /// succeeds exactly when the engine accepts that wrapped pattern; one
    /// the engine rejects is a fatal configuration error.
    pub fn new(pattern: &str) -> (r: Result<NameFilter, SyncError>)
        ensures
            r is Ok <==> regex_compiles("(?i)"@ + pattern@),
            r matches Ok(f) ==> f.pattern_view() == "(?i)"@ + pattern@,
            r matches Err(e) ==> e is ConfigError,
    {
        let mut full = String::from_str("(?i)");
        full.append(pattern);
        match compile(full.as_str()) {
            Ok(f) => Ok(f),
            Err(_) => Err(
                SyncError::ConfigError { detail: String::from_str("invalid filter pattern") },
            ),
        }
    }

    /// Relies on regex::Regex::is_match: true iff the pattern this filter
    /// was compiled from matches anywhere in `text`.
    #[verifier::external_body]
    fn is_match(&self, text: &str) -> (r: bool)
        ensures
            r == regex_accepts(self.pattern_view(), text@),
    {
        self.regex.is_match(text)
    }
}

/// The pattern of an optional name filter, if one is given.
pub open spec fn filter_pattern(filter: Option<&NameFilter>) -> Option<Seq<char>> {
    match filter {
        None => None,
        Some(f) => Some(f.pattern_view()),
    }
}

/// Whether a subscription survives the name filter: with no filter every
/// subscription does; with one, exactly those whose name the pattern
/// matches.
pub open spec fn spec_name_matches(pattern: Option<Seq<char>>, s: Subscription) -> bool {
    match pattern {
        None => true,
        Some(p) => regex_accepts(p, s.name@),
    }
}

/// Keeps exactly the subscriptions whose name the filter matches, in their
/// given order; with no filter, keeps them all.
pub fn filter_subscriptions(subs: Vec<Subscription>, filter: Option<&NameFilter>) -> (r: Vec<
    Subscription,
>)
    ensures
        r@ == subs@.filter(
            |s: Subscription| spec_name_matches(filter_pattern(filter), s),
        ),
{
    let ghost orig = subs@;
    let mut rest = subs;
    let mut out: Vec<Subscription> = Vec::new();
    proof {
        reveal(Seq::filter);
        assert(orig.take(0) =~= Seq::<Subscription>::empty());
        assert(orig.skip(0) =~= orig);
    }
    while rest.len() > 0
        invariant
            rest@.len() <= orig.len(),
            rest@ =~= orig.skip(orig.len() - rest@.len()),
            out@ =~= orig.take(orig.len() - rest@.len()).filter(
                |s: Subscription| spec_name_matches(filter_pattern(filter), s),
            ),
        decreases rest.len(),
    {
        let ghost i = orig.len() - rest@.len();
        let ghost pre_rest = rest@;
        let s = rest.remove(0);
        proof {
            assert(pre_rest =~= orig.skip(i));
            assert(rest@ =~= pre_rest.remove(0));
            assert(rest@ =~= orig.skip(i + 1));
            assert(s == pre_rest[0]);
            assert(s == orig[i]);
            reveal(Seq::filter);
            assert(orig.take(i + 1).drop_last() =~= orig.take(i));
            assert(orig.take(i + 1).last() == orig[i]);
        }
        let keep = match filter {
            None => true,
            Some(f) => f.is_match(s.name.as_str()),
        };
        if keep {
            out.push(s);
        }
    }
    proof {
        assert(orig.take(orig.len() as int) =~= orig);
    }
    out
}

} // verus!
