//! Pattern matching: with look-around from `fancy_regex`, without from
//! `regex`. What a matcher finds is named here; the code that uses a match
//! tests its bounds before it cuts the text there.

use fancy_regex::Regex;
use vstd::prelude::*;
use vstd::string::StringSliceAdditionalSpecFns;
use vstd::utf8::is_char_boundary;

verus! {

#[verifier::external_type_specification]
#[verifier::external_body]
pub struct ExLookaroundRegex(fancy_regex::Regex);

#[verifier::external_type_specification]
#[verifier::external_body]
pub struct ExLookaroundError(fancy_regex::Error);

/// Whether `Regex::new` accepts the pattern.
pub uninterp spec fn lookaround_compiles(pattern: Seq<char>) -> bool;

/// The pattern from which `Regex::new` built the expression, with the
/// options that `new` gives it. Of an expression that was built in another
/// way nothing is said.
pub uninterp spec fn lookaround_source(re: Regex) -> Seq<char>;

/// What `Regex::find_iter` yields on the text: the byte spans of the matches
/// that come before the first failure of the matcher, and whether it failed.
pub uninterp spec fn lookaround_matches(re: Regex, text: Seq<char>) -> (Seq<(usize, usize)>, bool);

/// What `Regex::find_from_pos` returns for the text and a byte position: the
/// span of the first match from there on, if there is one; `Err` where the
/// matcher fails.
pub uninterp spec fn lookaround_match_from(re: Regex, text: Seq<char>, pos: usize) -> Result<Option<(usize, usize)>, ()>;

/// The characters that `escape` puts a backslash before.
pub open spec fn is_pattern_special(c: char) -> bool {
    c == '\\' || c == '.' || c == '+' || c == '*' || c == '?' || c == '(' || c == ')' || c == '|'
        || c == '[' || c == ']' || c == '{' || c == '}' || c == '^' || c == '$' || c == '#'
}

/// The text with a backslash before each special character.
pub open spec fn escaped(text: Seq<char>) -> Seq<char>
    decreases text.len(),
{
    if text.len() == 0 {
        text
    } else if is_pattern_special(text.last()) {
        escaped(text.drop_last()) + seq!['\\', text.last()]
    } else {
        escaped(text.drop_last()) + seq![text.last()]
    }
}

/// `Regex::new`: compiles the pattern with the default options. Whether it
/// succeeds depends on the pattern alone, and the expression keeps the
/// pattern.
#[verifier::external_body]
pub(crate) fn lookaround_compile(pattern: &str) -> (r: Result<Regex, fancy_regex::Error>)
    ensures
        r is Ok <==> lookaround_compiles(pattern@),
        r is Ok ==> lookaround_source(r->Ok_0) == pattern@,
{
    Regex::new(pattern)
}

/// `Regex::find_iter`: the matches in the order in which the iterator yields
/// them, each as its start and end, up to the first failure, which is
/// returned beside them.
#[verifier::external_body]
pub(crate) fn lookaround_find_all(re: &Regex, text: &str) -> (r: (Vec<(usize, usize)>, Option<fancy_regex::Error>))
    ensures
        r.0@ == lookaround_matches(*re, text@).0,
        r.1 is Some <==> lookaround_matches(*re, text@).1,
{
    let mut spans = Vec::new();
    for found in re.find_iter(text) {
        match found {
            Ok(m) => spans.push((m.start(), m.end())),
            Err(e) => return (spans, Some(e)),
        }
    }
    (spans, None)
}

/// `Regex::find_from_pos`: the first match at or after a byte position that
/// lies on a character boundary of the text.
#[verifier::external_body]
pub(crate) fn lookaround_find_from(re: &Regex, text: &str, pos: usize) -> (r: Result<Option<(usize, usize)>, fancy_regex::Error>)
    requires
        pos <= text.spec_bytes().len(),
        is_char_boundary(text.spec_bytes(), pos as int),
    ensures
        r is Ok <==> lookaround_match_from(*re, text@, pos) is Ok,
        r is Ok ==> r->Ok_0 == lookaround_match_from(*re, text@, pos)->Ok_0,
{
    re.find_from_pos(text, pos).map(|found| found.map(|m| (m.start(), m.end())))
}

/// `escape`: a pattern that matches exactly the text, made by putting a
/// backslash before each character that a pattern reads as an operator.
#[verifier::external_body]
pub(crate) fn lookaround_escape(text: &str) -> (r: String)
    ensures
        r@ == escaped(text@),
{
    fancy_regex::escape(text).into_owned()
}

/// The `Display` text of a matcher error.
#[verifier::external_body]
pub(crate) fn lookaround_error_text(e: &fancy_regex::Error) -> (r: String)
{
    format!("{}", e)
}

#[verifier::external_type_specification]
#[verifier::external_body]
pub struct ExRegex(regex::Regex);

#[verifier::external_type_specification]
#[verifier::external_body]
pub struct ExRegexError(regex::Error);

/// Whether `regex::Regex::new` accepts the pattern.
pub uninterp spec fn regex_compiles(pattern: Seq<char>) -> bool;

/// The pattern from which `regex::Regex::new` built the expression, with
/// the options that `new` gives it. Of an expression that was built in
/// another way nothing is said.
pub uninterp spec fn regex_source(re: regex::Regex) -> Seq<char>;

/// What `regex::Regex::find_iter` yields on the text: the byte spans of the
/// matches, in their order.
pub uninterp spec fn regex_matches(re: regex::Regex, text: Seq<char>) -> Seq<(usize, usize)>;

/// `regex::Regex::new`: compiles the pattern with the default options.
/// Whether it succeeds depends on the pattern alone, and the expression
/// keeps the pattern.
#[verifier::external_body]
pub(crate) fn regex_compile(pattern: &str) -> (r: Result<regex::Regex, regex::Error>)
    ensures
        r is Ok <==> regex_compiles(pattern@),
        r is Ok ==> regex_source(r->Ok_0) == pattern@,
{
    regex::Regex::new(pattern)
}

/// `regex::Regex::find_iter`: the matches in the order in which the
/// iterator yields them, each as its start and end.
#[verifier::external_body]
pub(crate) fn regex_find_all(re: &regex::Regex, text: &str) -> (r: Vec<(usize, usize)>)
    ensures
        r@ == regex_matches(*re, text@),
{
    re.find_iter(text).map(|m| (m.start(), m.end())).collect()
}

} // verus!
