//! Regular expressions and wildcard patterns, as far as the scanners use
//! them.

use regex::Regex;
use vstd::prelude::*;
use wildmatch::WildMatch;

verus! {

/// `regex::Regex`, a compiled regular expression. Its inside is not looked
/// at: the scanners only hand it on to `Regex::is_match`.
#[verifier::external_type_specification]
#[verifier::external_body]
pub struct ExRegex(Regex);

/// Whether a compiled regular expression finds a match anywhere in a text,
/// as `Regex::is_match` reports it.
pub uninterp spec fn regex_accepts(re: Regex, haystack: Seq<char>) -> bool;

/// `Regex::is_match`: whether there is a match anywhere in `haystack`. The
/// answer depends on the expression and the text alone.
#[verifier::external_body]
pub(crate) fn regex_is_match(re: &Regex, haystack: &str) -> (b: bool)
    ensures
        b == regex_accepts(*re, haystack@),
{
    re.is_match(haystack)
}

/// Whether the wildcard pattern `p` matches the whole of `s`: `?` stands for
/// exactly one character, `*` for any run of characters, the empty run
/// included, and every other character for itself.
pub open spec fn glob_matches(p: Seq<char>, s: Seq<char>) -> bool
    decreases p.len(), s.len(),
{
    if p.len() == 0 {
        s.len() == 0
    } else if p[0] == '*' {
        glob_matches(p.drop_first(), s) || (s.len() > 0 && glob_matches(p, s.drop_first()))
    } else {
        s.len() > 0 && (p[0] == '?' || p[0] == s[0]) && glob_matches(
            p.drop_first(),
            s.drop_first(),
        )
    }
}

/// `WildMatch::new(pattern).matches(input)`: whether the pattern matches the
/// entire input, with `?` for one character and `*` for any run; no escape
/// characters exist and the comparison is case sensitive.
#[verifier::external_body]
pub(crate) fn wildcard_match(pattern: &str, input: &str) -> (r: bool)
    ensures
        r == glob_matches(pattern@, input@),
{
    WildMatch::new(pattern).matches(input)
}

} // verus!
