//! Cross-check matcher backed by the `regex` crate.
//!
//! This mirrors the library's own engine with an independent one: a pattern
//! is validated by the library's converter (so both engines reject the same
//! patterns), then anchored and handed to `regex::bytes::Regex`. Anchoring
//! wraps the pattern so that the regex crate's unanchored search must cover
//! the whole haystack, matching this library's full-string semantics.
//!
//! The regex crate's work is named, not restated: `regex_compiles`,
//! `regex_pattern` and `regex_verdict` stand for what its compiler and
//! matcher return, which are functions of the pattern text and haystack
//! alone. Note that the regex crate reads the anchored text under its own,
//! richer syntax, so a byte this library treats as an ordinary literal
//! (a brace, a bracket, a backslash) can carry meaning there; the contracts
//! here accordingly speak of the crate's verdict on the anchored text and
//! promise no agreement between the two engines.

use vstd::prelude::*;

use crate::parser::{re2post, spec_re2post, LPAREN, QMARK, RPAREN};

verus! {

/// The anchor bytes wrapped around a pattern: `^(?:` before and `)$` after.
pub const CARET: u8 = 94;

pub const COLON: u8 = 58;

pub const DOLLAR: u8 = 36;

#[verifier::external_type_specification]
#[verifier::external_body]
pub struct ExRegex(regex::bytes::Regex);

/// Whether `regex::bytes::Regex::new` accepts a pattern: true when the
/// bytes are valid UTF-8 and the crate compiles them.
pub uninterp spec fn regex_compiles(pat: Seq<u8>) -> bool;

/// The pattern text a `regex::bytes::Regex` was compiled from.
pub uninterp spec fn regex_pattern(re: regex::bytes::Regex) -> Seq<u8>;

/// What `regex::bytes::Regex::is_match` answers for a regex compiled from
/// `pat`, run over `hay`.
pub uninterp spec fn regex_verdict(pat: Seq<u8>, hay: Seq<u8>) -> bool;

/// Relies on `regex::bytes::Regex::new`: compilation is deterministic in
/// the pattern text, and a compiled regex is a value of its pattern alone.
#[verifier::external_body]
fn regex_compile(pat: &Vec<u8>) -> (r: Option<regex::bytes::Regex>)
    ensures
        (r is Some) == regex_compiles(pat@),
        r matches Some(re) ==> regex_pattern(re) == pat@,
{
    match core::str::from_utf8(pat.as_slice()) {
        Ok(s) => regex::bytes::Regex::new(s).ok(),
        Err(_) => None,
    }
}

/// Relies on `regex::bytes::Regex::is_match`: the verdict is a function of
/// the compiled pattern and the haystack alone.
#[verifier::external_body]
fn regex_matches(re: &regex::bytes::Regex, hay: &Vec<u8>) -> (r: bool)
    ensures
        r == regex_verdict(regex_pattern(*re), hay@),
{
    re.is_match(hay.as_slice())
}

/// The anchored form of a pattern: `^(?:` + pattern + `)$`.
pub open spec fn spec_anchored(pat: Seq<u8>) -> Seq<u8> {
    seq![CARET, LPAREN, QMARK, COLON] + pat + seq![RPAREN, DOLLAR]
}

/// Wrap a pattern in the anchors that turn the regex crate's substring
/// search into a full-string match.
pub fn anchored(pat: &Vec<u8>) -> (r: Vec<u8>)
    ensures
        r@ == spec_anchored(pat@),
{
    let mut v: Vec<u8> = Vec::new();
    v.push(CARET);
    v.push(LPAREN);
    v.push(QMARK);
    v.push(COLON);
    let mut i: usize = 0;
    while i < pat.len()
        invariant
            i <= pat@.len(),
            v@ == seq![CARET, LPAREN, QMARK, COLON] + pat@.take(i as int),
        decreases pat@.len() - i,
    {
        let b = pat[i];
        v.push(b);
        proof {
            assert(pat@.take(i as int + 1) =~= pat@.take(i as int).push(b));
            assert((seq![CARET, LPAREN, QMARK, COLON] + pat@.take(i as int)).push(b)
                =~= seq![CARET, LPAREN, QMARK, COLON] + pat@.take(i as int + 1));
        }
        i += 1;
    }
    proof {
        assert(pat@.take(pat@.len() as int) =~= pat@);
    }
    v.push(RPAREN);
    v.push(DOLLAR);
    proof {
        assert(v@ =~= spec_anchored(pat@));
    }
    v
}

/// Compile a pattern for cross-checking: the library's converter validates
/// it first, so this engine rejects exactly the patterns the library's own
/// engine rejects, then the anchored form goes to the regex crate.
pub fn crosscheck_compile(pat: &Vec<u8>) -> (r: Option<regex::bytes::Regex>)
    ensures
        (r is Some) == (spec_re2post(pat@) is Some && regex_compiles(spec_anchored(pat@))),
        r matches Some(re) ==> regex_pattern(re) == spec_anchored(pat@),
{
    match re2post(pat.as_slice()) {
        None => None,
        Some(_) => {
            let a = anchored(pat);
            regex_compile(&a)
        },
    }
}

/// Ask the regex crate for its verdict on one haystack.
pub fn crosscheck_is_match(re: &regex::bytes::Regex, hay: &Vec<u8>) -> (r: bool)
    ensures
        r == regex_verdict(regex_pattern(*re), hay@),
{
    regex_matches(re, hay)
}

} // verus!
