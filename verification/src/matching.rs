//! Pattern matching through the `regex` crate.
//!
//! Everything the library needs from the regex engine comes through the
//! wrappers below. Their contracts speak of four named results (`regex_ok`,
//! `regex_gaps`, `regex_hits`, `escaped`), all functions of their arguments
//! alone, and, for an escaped pattern, tie the engine's answers to the
//! literal-matching semantics spelled out in [`crate::model`].

use vstd::prelude::*;
use crate::model::{interleave, lit_gaps, lit_hits};

verus! {

/// Whether the regex engine accepts `pat` as a valid pattern.
pub uninterp spec fn regex_ok(pat: Seq<char>) -> bool;

/// The parts of `text` between successive non-overlapping matches of `pat`,
/// in order: one part before each match and one after the last, so one part
/// more than there are matches.
pub uninterp spec fn regex_gaps(pat: Seq<char>, text: Seq<char>) -> Seq<Seq<char>>;

/// The successive non-overlapping matches of `pat` in `text`, left to right.
pub uninterp spec fn regex_hits(pat: Seq<char>, text: Seq<char>) -> Seq<Seq<char>>;

/// The pattern that escaping builds from `s`: `s` with every regex meta
/// character quoted, so that it matches exactly the literal occurrences of `s`.
pub uninterp spec fn escaped(s: Seq<char>) -> Seq<char>;

/// Relies on `regex::Regex::new`: whether a pattern compiles depends on the
/// pattern alone.
#[verifier::external_body]
pub(crate) fn regex_is_valid(pat: &str) -> (r: bool)
    ensures
        r == regex_ok(pat@),
{
    regex::Regex::new(pat).is_ok()
}

/// Relies on `regex::Regex::is_match`: true exactly when the pattern matches
/// somewhere in the text, that is, when the match list is non-empty; on an
/// escaped pattern the matches are the literal occurrences.
#[verifier::external_body]
pub(crate) fn regex_is_match(pat: &str, text: &str) -> (r: bool)
    requires
        regex_ok(pat@),
    ensures
        r == (regex_hits(pat@, text@).len() > 0),
        forall|s: Seq<char>|
            s.len() > 0 && pat@ == #[trigger] escaped(s) ==> r == (lit_hits(s, text@).len() > 0),
{
    regex::Regex::new(pat).unwrap().is_match(text)
}

/// Relies on `regex::Regex::split`: yields the parts of the text that are not
/// matched, delimited by the successive non-overlapping matches, one part
/// more than there are matches; matches and parts interleave to the whole
/// text. On an escaped pattern the matches are the literal occurrences.
#[verifier::external_body]
pub(crate) fn regex_split(pat: &str, text: &str) -> (r: Vec<String>)
    requires
        regex_ok(pat@),
    ensures
        r.deep_view() == regex_gaps(pat@, text@),
        r.deep_view().len() == regex_hits(pat@, text@).len() + 1,
        interleave(r.deep_view(), regex_hits(pat@, text@)).flatten() == text@,
        forall|s: Seq<char>|
            s.len() > 0 && pat@ == #[trigger] escaped(s) ==> r.deep_view() == lit_gaps(s, text@),
{
    let re = regex::Regex::new(pat).unwrap();
    re.split(text).map(|p| p.to_string()).collect()
}

/// Relies on `regex::Regex::find_iter`: yields the successive non-overlapping
/// matches, left to right; the parts between them interleave with the matches
/// to the whole text. On an escaped pattern the matches are the literal
/// occurrences.
#[verifier::external_body]
pub(crate) fn regex_find_all(pat: &str, text: &str) -> (r: Vec<String>)
    requires
        regex_ok(pat@),
    ensures
        r.deep_view() == regex_hits(pat@, text@),
        regex_gaps(pat@, text@).len() == r.deep_view().len() + 1,
        interleave(regex_gaps(pat@, text@), r.deep_view()).flatten() == text@,
        forall|s: Seq<char>|
            s.len() > 0 && pat@ == #[trigger] escaped(s) ==> r.deep_view() == lit_hits(s, text@),
{
    let re = regex::Regex::new(pat).unwrap();
    re.find_iter(text).map(|m| m.as_str().to_string()).collect()
}

/// Relies on `regex::escape`: the escaped string matches the input
/// literally, and it is empty only for an empty input. Whether the engine
/// accepts it as a pattern is not promised here — compilation enforces a
/// size limit that a long enough literal exceeds — so callers establish
/// `regex_ok` of the escaped string through [`regex_is_valid`].
#[verifier::external_body]
pub(crate) fn regex_escape(s: &str) -> (r: String)
    ensures
        r@ == escaped(s@),
        s@.len() > 0 ==> r@.len() > 0,
{
    regex::escape(s)
}

} // verus!
