//! Cleaning a page before it is cut: control characters go, long runs of
//! line breaks and of blanks shrink, and the ends are trimmed.

use crate::patterns::{regex_compile, regex_compiles, regex_source};
use crate::text::{lemma_trimmed_ends, trim, trimmed, white_space};
use regex::Regex;
use vstd::prelude::*;

verus! {

/// A control character that is taken out of a page: any but tab, line feed
/// and carriage return, and the delete character.
pub open spec fn stripped_control(c: char) -> bool {
    let u = c as u32;
    u <= 0x08 || u == 0x0B || u == 0x0C || (0x0E <= u <= 0x1F) || u == 0x7F
}

/// The text without the control characters that are taken out.
pub open spec fn without_controls(text: Seq<char>) -> Seq<char>
    decreases text.len(),
{
    if text.len() == 0 {
        text
    } else if stripped_control(text[0]) {
        without_controls(text.skip(1))
    } else {
        seq![text[0]] + without_controls(text.skip(1))
    }
}

/// The number of line feeds in the white space that the text starts with.
pub open spec fn leading_newlines(text: Seq<char>) -> nat
    decreases text.len(),
{
    if text.len() == 0 || !white_space(text[0]) {
        0
    } else if text[0] == '\n' {
        1 + leading_newlines(text.skip(1))
    } else {
        leading_newlines(text.skip(1))
    }
}

/// The index after the last line feed in the white space that the text
/// starts with; 0 where that white space holds no line feed.
pub open spec fn newline_run_end(text: Seq<char>) -> nat
    decreases text.len(),
{
    if text.len() == 0 || !white_space(text[0]) {
        0
    } else {
        let later = newline_run_end(text.skip(1));
        if later > 0 {
            later + 1
        } else if text[0] == '\n' {
            1
        } else {
            0
        }
    }
}

/// The text in which every stretch of white space that starts with a line
/// feed and holds three or more of them is cut down, from that line feed
/// to its last one, to two line feeds.
pub open spec fn collapse_newlines(text: Seq<char>) -> Seq<char>
    decreases text.len(),
{
    if text.len() == 0 {
        text
    } else if text[0] == '\n' && leading_newlines(text) >= 3 && 0 < newline_run_end(text) <= text.len() {
        seq!['\n', '\n'] + collapse_newlines(text.skip(newline_run_end(text) as int))
    } else {
        seq![text[0]] + collapse_newlines(text.skip(1))
    }
}

/// A space or a tab.
pub open spec fn blank_char(c: char) -> bool {
    c == ' ' || c == '\t'
}

/// The number of spaces and tabs that the text starts with.
pub open spec fn leading_blanks(text: Seq<char>) -> nat
    decreases text.len(),
{
    if text.len() == 0 || !blank_char(text[0]) {
        0
    } else {
        1 + leading_blanks(text.skip(1))
    }
}

/// The text in which every run of spaces and tabs is one space.
pub open spec fn collapse_blanks(text: Seq<char>) -> Seq<char>
    decreases text.len(),
{
    if text.len() == 0 {
        text
    } else if blank_char(text[0]) && 0 < leading_blanks(text) <= text.len() {
        seq![' '] + collapse_blanks(text.skip(leading_blanks(text) as int))
    } else {
        seq![text[0]] + collapse_blanks(text.skip(1))
    }
}

/// The number of white space characters that the text starts with.
pub open spec fn leading_white(text: Seq<char>) -> nat
    decreases text.len(),
{
    if text.len() == 0 || !white_space(text[0]) {
        0
    } else {
        1 + leading_white(text.skip(1))
    }
}

/// The text in which every run of white space is one space.
pub open spec fn collapse_white(text: Seq<char>) -> Seq<char>
    decreases text.len(),
{
    if text.len() == 0 {
        text
    } else if white_space(text[0]) && 0 < leading_white(text) <= text.len() {
        seq![' '] + collapse_white(text.skip(leading_white(text) as int))
    } else {
        seq![text[0]] + collapse_white(text.skip(1))
    }
}

/// `regex::Regex::replace_all` with a replacement that holds no `$`: every
/// match, leftmost first and none overlapping another, gives way to the
/// replacement. For the four patterns of this library that is: the class of
/// control characters matches each such character; `[ \t]+` matches each
/// run of spaces and tabs as a whole, and `\s+` each run of white space;
/// `\n\s*\n\s*\n+` matches from a line feed to the last line feed of the
/// white space that follows it, where that white space holds three or
/// more line feeds with the first (`\s` is Unicode white space).
#[verifier::external_body]
pub(crate) fn regex_replace_all(re: &Regex, text: &str, replacement: &str) -> (r: String)
    ensures
        regex_source(*re) == r"[\x00-\x08\x0B\x0C\x0E-\x1F\x7F]"@ && replacement@ == ""@ ==> r@ == without_controls(text@),
        regex_source(*re) == r"\n\s*\n\s*\n+"@ && replacement@ == "\n\n"@ ==> r@ == collapse_newlines(text@),
        regex_source(*re) == r"[ \t]+"@ && replacement@ == " "@ ==> r@ == collapse_blanks(text@),
        regex_source(*re) == r"\s+"@ && replacement@ == " "@ ==> r@ == collapse_white(text@),
{
    re.replace_all(text, replacement).into_owned()
}

/// The compiled pattern, where the pattern compiles.
pub(crate) fn compiled(pattern: &str) -> (r: Option<Regex>)
    ensures
        r is Some <==> regex_compiles(pattern@),
        r is Some ==> regex_source(r->Some_0) == pattern@,
{
    match regex_compile(pattern) {
        Ok(re) => Some(re),
        Err(_) => None,
    }
}

/// Cleans page text before it is cut into segments.
pub struct TextPreprocessor {
    excessive_newlines_regex: Option<Regex>,
    whitespace_cleanup_regex: Option<Regex>,
    control_chars_regex: Option<Regex>,
}

impl TextPreprocessor {
    /// Whether the step that takes control characters out is there.
    pub closed spec fn strips_controls(&self) -> bool {
        self.control_chars_regex is Some
    }

    /// Whether the step that cuts down line feeds is there.
    pub closed spec fn cuts_newlines(&self) -> bool {
        self.excessive_newlines_regex is Some
    }

    /// Whether the step that cuts down spaces and tabs is there.
    pub closed spec fn cuts_blanks(&self) -> bool {
        self.whitespace_cleanup_regex is Some
    }

    /// All three steps are there.
    pub open spec fn complete(&self) -> bool {
        self.strips_controls() && self.cuts_newlines() && self.cuts_blanks()
    }

    #[verifier::type_invariant]
    spec fn inv(&self) -> bool {
        &&& self.excessive_newlines_regex is Some ==> regex_source(self.excessive_newlines_regex->Some_0)
            == r"\n\s*\n\s*\n+"@
        &&& self.whitespace_cleanup_regex is Some ==> regex_source(self.whitespace_cleanup_regex->Some_0)
            == r"[ \t]+"@
        &&& self.control_chars_regex is Some ==> regex_source(self.control_chars_regex->Some_0)
            == r"[\x00-\x08\x0B\x0C\x0E-\x1F\x7F]"@
    }

    /// The clean text: control characters out, line feeds cut down, spaces
    /// and tabs cut down, in this order and each where the step is there;
    /// then the ends trimmed.
    pub open spec fn preprocess_spec(&self, text: Seq<char>) -> Seq<char> {
        let no_control = if self.strips_controls() {
            without_controls(text)
        } else {
            text
        };
        let clean_newlines = if self.cuts_newlines() {
            collapse_newlines(no_control)
        } else {
            no_control
        };
        let clean_spaces = if self.cuts_blanks() {
            collapse_blanks(clean_newlines)
        } else {
            clean_newlines
        };
        trimmed(clean_spaces)
    }

    /// Each step is there if and only if its pattern compiles.
    pub open spec fn as_built(&self) -> bool {
        &&& self.cuts_newlines() <==> regex_compiles(r"\n\s*\n\s*\n+"@)
        &&& self.cuts_blanks() <==> regex_compiles(r"[ \t]+"@)
        &&& self.strips_controls() <==> regex_compiles(r"[\x00-\x08\x0B\x0C\x0E-\x1F\x7F]"@)
    }

    /// A preprocessor with its three patterns. A step is there where its
    /// pattern compiles.
    pub fn new() -> (r: Self)
        ensures
            r.as_built(),
    {
        TextPreprocessor {
            excessive_newlines_regex: compiled(r"\n\s*\n\s*\n+"),
            whitespace_cleanup_regex: compiled(r"[ \t]+"),
            control_chars_regex: compiled(r"[\x00-\x08\x0B\x0C\x0E-\x1F\x7F]"),
        }
    }

    /// Cleans a text before it is cut into chunks.
    pub fn preprocess(&self, text: &str) -> (r: String)
        ensures
            r@ == self.preprocess_spec(text@),
    {
        proof {
            use_type_invariant(self);
        }
        let no_control = match &self.control_chars_regex {
            Some(re) => regex_replace_all(re, text, ""),
            None => text.to_owned(),
        };
        let clean_newlines = match &self.excessive_newlines_regex {
            Some(re) => regex_replace_all(re, no_control.as_str(), "\n\n"),
            None => no_control,
        };
        let clean_spaces = match &self.whitespace_cleanup_regex {
            Some(re) => regex_replace_all(re, clean_newlines.as_str(), " "),
            None => clean_newlines,
        };
        trim(clean_spaces.as_str())
    }
}

/// The text holds no control character that is taken out.
pub open spec fn no_controls(text: Seq<char>) -> bool {
    forall|i: int| 0 <= i < text.len() ==> !stripped_control(#[trigger] text[i])
}

/// No line feed of the text starts white space with three or more line
/// feeds.
pub open spec fn tidy_newlines(text: Seq<char>) -> bool
    decreases text.len(),
{
    text.len() == 0 || ((text[0] == '\n' ==> leading_newlines(text) < 3) && tidy_newlines(text.skip(1)))
}

/// Every space or tab of the text is a space, and none follows it.
pub open spec fn tidy_blanks(text: Seq<char>) -> bool
    decreases text.len(),
{
    text.len() == 0 || ((blank_char(text[0]) ==> text[0] == ' ' && (text.len() > 1 ==> !blank_char(text[1])))
        && tidy_blanks(text.skip(1)))
}

/// Text without control characters has none after any number of its
/// characters.
proof fn lemma_no_controls_skip(text: Seq<char>, k: int)
    requires
        no_controls(text),
        0 <= k <= text.len(),
    ensures
        no_controls(text.skip(k)),
{
    assert forall|i: int| 0 <= i < text.skip(k).len() implies !stripped_control(#[trigger] text.skip(k)[i]) by {
        assert(text.skip(k)[i] == text[k + i]);
    }
}

/// A character before text without control characters gives such text,
/// if it is none itself.
proof fn lemma_no_controls_cons(c: char, text: Seq<char>)
    requires
        no_controls(text),
        !stripped_control(c),
    ensures
        no_controls(seq![c] + text),
{
    assert forall|i: int| 0 <= i < (seq![c] + text).len() implies !stripped_control(#[trigger] (seq![c] + text)[i]) by {
        if i > 0 {
            assert((seq![c] + text)[i] == text[i - 1]);
        }
    }
}

/// Taking control characters out leaves none.
pub proof fn lemma_without_controls_clean(text: Seq<char>)
    ensures
        no_controls(without_controls(text)),
    decreases text.len(),
{
    if text.len() > 0 {
        lemma_without_controls_clean(text.skip(1));
        if !stripped_control(text[0]) {
            lemma_no_controls_cons(text[0], without_controls(text.skip(1)));
        }
    }
}

/// Taking control characters out of text that has none changes nothing.
pub proof fn lemma_without_controls_same(text: Seq<char>)
    requires
        no_controls(text),
    ensures
        without_controls(text) == text,
    decreases text.len(),
{
    if text.len() > 0 {
        lemma_no_controls_skip(text, 1);
        lemma_without_controls_same(text.skip(1));
        assert(seq![text[0]] + text.skip(1) =~= text);
    }
}

/// The line feeds of text that starts with a given character.
proof fn lemma_leading_newlines_cons(c: char, text: Seq<char>)
    ensures
        leading_newlines(seq![c] + text) == (if !white_space(c) {
            0
        } else if c == '\n' {
            1 + leading_newlines(text)
        } else {
            leading_newlines(text)
        }),
        tidy_newlines(seq![c] + text) == ((c == '\n' ==> leading_newlines(seq![c] + text) < 3) && tidy_newlines(text)),
{
    assert((seq![c] + text).skip(1) =~= text);
    assert((seq![c] + text)[0] == c);
}

/// The end of the line feeds lies in the text; it is 0 exactly where the
/// text starts with no line feed among its white space; and no line feed
/// is among the white space after it.
proof fn lemma_newline_run_end(text: Seq<char>)
    ensures
        newline_run_end(text) <= text.len(),
        newline_run_end(text) == 0 <==> leading_newlines(text) == 0,
        leading_newlines(text.skip(newline_run_end(text) as int)) == 0,
    decreases text.len(),
{
    if text.len() == 0 || !white_space(text[0]) {
        assert(text.skip(0) =~= text);
    } else {
        let rest = text.skip(1);
        lemma_newline_run_end(rest);
        let later = newline_run_end(rest);
        if later > 0 {
            assert(text.skip((later + 1) as int) =~= rest.skip(later as int));
        } else if text[0] == '\n' {
        } else {
            assert(text.skip(0) =~= text);
        }
    }
}

/// Cutting down line feeds leaves text that is tidy, and that starts with
/// no more line feeds than before, and with at most two.
pub proof fn lemma_collapse_newlines_tidy(text: Seq<char>)
    ensures
        tidy_newlines(collapse_newlines(text)),
        leading_newlines(collapse_newlines(text)) <= leading_newlines(text),
        leading_newlines(collapse_newlines(text)) <= 2,
    decreases text.len(),
{
    if text.len() == 0 {
    } else {
        lemma_newline_run_end(text);
        if text[0] == '\n' && leading_newlines(text) >= 3 && 0 < newline_run_end(text) <= text.len() {
            let rest = text.skip(newline_run_end(text) as int);
            lemma_collapse_newlines_tidy(rest);
            let tail = collapse_newlines(rest);
            lemma_leading_newlines_cons('\n', tail);
            lemma_leading_newlines_cons('\n', seq!['\n'] + tail);
            assert(seq!['\n', '\n'] + tail =~= seq!['\n'] + (seq!['\n'] + tail));
        } else {
            lemma_collapse_newlines_tidy(text.skip(1));
            lemma_leading_newlines_cons(text[0], collapse_newlines(text.skip(1)));
        }
    }
}

/// Tidy text is tidy after any number of its characters.
proof fn lemma_tidy_newlines_skip(text: Seq<char>, k: int)
    requires
        tidy_newlines(text),
        0 <= k <= text.len(),
    ensures
        tidy_newlines(text.skip(k)),
    decreases k,
{
    if k == 0 {
        assert(text.skip(0) =~= text);
    } else {
        lemma_tidy_newlines_skip(text, k - 1);
        assert(text.skip(k - 1).skip(1) =~= text.skip(k));
    }
}

/// Cutting down line feeds in tidy text changes nothing.
pub proof fn lemma_collapse_newlines_same(text: Seq<char>)
    requires
        tidy_newlines(text),
    ensures
        collapse_newlines(text) == text,
    decreases text.len(),
{
    if text.len() > 0 {
        lemma_collapse_newlines_same(text.skip(1));
        assert(seq![text[0]] + text.skip(1) =~= text);
    }
}

/// Cutting down line feeds brings no control character in.
pub proof fn lemma_collapse_newlines_clean(text: Seq<char>)
    requires
        no_controls(text),
    ensures
        no_controls(collapse_newlines(text)),
    decreases text.len(),
{
    if text.len() > 0 {
        lemma_newline_run_end(text);
        if text[0] == '\n' && leading_newlines(text) >= 3 && 0 < newline_run_end(text) <= text.len() {
            let rest = text.skip(newline_run_end(text) as int);
            lemma_no_controls_skip(text, newline_run_end(text) as int);
            lemma_collapse_newlines_clean(rest);
            lemma_no_controls_cons('\n', collapse_newlines(rest));
            lemma_no_controls_cons('\n', seq!['\n'] + collapse_newlines(rest));
            assert(seq!['\n', '\n'] + collapse_newlines(rest) =~= seq!['\n'] + (seq!['\n'] + collapse_newlines(rest)));
        } else {
            lemma_no_controls_skip(text, 1);
            lemma_collapse_newlines_clean(text.skip(1));
            lemma_no_controls_cons(text[0], collapse_newlines(text.skip(1)));
        }
    }
}

/// Whether text that starts with a given character is tidy.
proof fn lemma_tidy_blanks_cons(c: char, text: Seq<char>)
    ensures
        tidy_blanks(seq![c] + text) == ((blank_char(c) ==> c == ' ' && (text.len() > 0 ==> !blank_char(text[0])))
            && tidy_blanks(text)),
{
    assert((seq![c] + text).skip(1) =~= text);
    assert((seq![c] + text)[0] == c);
    if text.len() > 0 {
        assert((seq![c] + text)[1] == text[0]);
    }
}

/// The spaces and tabs that the text starts with lie in the text, and what
/// follows them is neither.
proof fn lemma_leading_blanks(text: Seq<char>)
    ensures
        leading_blanks(text) <= text.len(),
        text.len() > 0 && blank_char(text[0]) ==> leading_blanks(text) >= 1,
        forall|i: int| 0 <= i < leading_blanks(text) ==> blank_char(#[trigger] text[i]),
        leading_blanks(text) < text.len() ==> !blank_char(text[leading_blanks(text) as int]),
    decreases text.len(),
{
    if text.len() > 0 && blank_char(text[0]) {
        lemma_leading_blanks(text.skip(1));
        assert forall|i: int| 0 <= i < leading_blanks(text) implies blank_char(#[trigger] text[i]) by {
            if i > 0 {
                assert(text[i] == text.skip(1)[i - 1]);
            }
        }
        if leading_blanks(text) < text.len() {
            assert(text[leading_blanks(text) as int] == text.skip(1)[leading_blanks(text.skip(1)) as int]);
        }
    }
}

/// Spaces and tabs at the start of the text hold no line feed.
proof fn lemma_leading_newlines_skip_blanks(text: Seq<char>, k: int)
    requires
        0 <= k <= text.len(),
        forall|i: int| 0 <= i < k ==> blank_char(#[trigger] text[i]),
    ensures
        leading_newlines(text) == leading_newlines(text.skip(k)),
    decreases k,
{
    if k == 0 {
        assert(text.skip(0) =~= text);
    } else {
        assert(blank_char(text[0]));
        assert forall|i: int| 0 <= i < k - 1 implies blank_char(#[trigger] text.skip(1)[i]) by {
            assert(text.skip(1)[i] == text[i + 1]);
        }
        lemma_leading_newlines_skip_blanks(text.skip(1), k - 1);
        assert(text.skip(1).skip(k - 1) =~= text.skip(k));
    }
}

/// Cutting down spaces and tabs leaves tidy text, which is empty only
/// where the text was, and which starts with a space where the text
/// started with a space or a tab, and as the text where it did not.
pub proof fn lemma_collapse_blanks_tidy(text: Seq<char>)
    ensures
        tidy_blanks(collapse_blanks(text)),
        collapse_blanks(text).len() == 0 <==> text.len() == 0,
        text.len() > 0 ==> collapse_blanks(text)[0] == (if blank_char(text[0]) {
            ' '
        } else {
            text[0]
        }),
    decreases text.len(),
{
    if text.len() > 0 {
        lemma_leading_blanks(text);
        if blank_char(text[0]) && 0 < leading_blanks(text) <= text.len() {
            let rest = text.skip(leading_blanks(text) as int);
            lemma_collapse_blanks_tidy(rest);
            if rest.len() > 0 {
                assert(rest[0] == text[leading_blanks(text) as int]);
            }
            lemma_tidy_blanks_cons(' ', collapse_blanks(rest));
        } else {
            lemma_collapse_blanks_tidy(text.skip(1));
            lemma_tidy_blanks_cons(text[0], collapse_blanks(text.skip(1)));
        }
    }
}

/// Cutting down spaces and tabs in tidy text changes nothing.
pub proof fn lemma_collapse_blanks_same(text: Seq<char>)
    requires
        tidy_blanks(text),
    ensures
        collapse_blanks(text) == text,
    decreases text.len(),
{
    if text.len() > 0 {
        lemma_collapse_blanks_same(text.skip(1));
        if blank_char(text[0]) {
            if text.len() > 1 {
                assert(text.skip(1)[0] == text[1]);
            }
            assert(leading_blanks(text.skip(1)) == 0);
            assert(leading_blanks(text) == 1);
        }
        assert(seq![text[0]] + text.skip(1) =~= text);
    }
}

/// Cutting down spaces and tabs brings no control character in.
pub proof fn lemma_collapse_blanks_clean(text: Seq<char>)
    requires
        no_controls(text),
    ensures
        no_controls(collapse_blanks(text)),
    decreases text.len(),
{
    if text.len() > 0 {
        lemma_leading_blanks(text);
        if blank_char(text[0]) && 0 < leading_blanks(text) <= text.len() {
            let rest = text.skip(leading_blanks(text) as int);
            lemma_no_controls_skip(text, leading_blanks(text) as int);
            lemma_collapse_blanks_clean(rest);
            lemma_no_controls_cons(' ', collapse_blanks(rest));
        } else {
            lemma_no_controls_skip(text, 1);
            lemma_collapse_blanks_clean(text.skip(1));
            lemma_no_controls_cons(text[0], collapse_blanks(text.skip(1)));
        }
    }
}

/// Cutting down spaces and tabs keeps the line feeds that the text starts
/// with, and keeps text tidy in its line feeds.
pub proof fn lemma_collapse_blanks_newlines(text: Seq<char>)
    ensures
        leading_newlines(collapse_blanks(text)) == leading_newlines(text),
        tidy_newlines(text) ==> tidy_newlines(collapse_blanks(text)),
    decreases text.len(),
{
    if text.len() > 0 {
        lemma_leading_blanks(text);
        if blank_char(text[0]) && 0 < leading_blanks(text) <= text.len() {
            let rest = text.skip(leading_blanks(text) as int);
            lemma_collapse_blanks_newlines(rest);
            lemma_leading_newlines_skip_blanks(text, leading_blanks(text) as int);
            lemma_leading_newlines_cons(' ', collapse_blanks(rest));
            if tidy_newlines(text) {
                lemma_tidy_newlines_skip(text, leading_blanks(text) as int);
            }
        } else {
            lemma_collapse_blanks_newlines(text.skip(1));
            lemma_leading_newlines_cons(text[0], collapse_blanks(text.skip(1)));
        }
    }
}

/// Text without its last character starts with no more line feeds.
proof fn lemma_leading_newlines_drop_last(text: Seq<char>)
    requires
        text.len() > 0,
    ensures
        leading_newlines(text.drop_last()) <= leading_newlines(text),
    decreases text.len(),
{
    if text.len() > 1 && white_space(text[0]) {
        assert(text.drop_last()[0] == text[0]);
        assert(text.drop_last().skip(1) =~= text.skip(1).drop_last());
        lemma_leading_newlines_drop_last(text.skip(1));
    }
}

/// Tidy text without its last character is tidy.
proof fn lemma_tidy_drop_last(text: Seq<char>)
    requires
        text.len() > 0,
    ensures
        tidy_newlines(text) ==> tidy_newlines(text.drop_last()),
        tidy_blanks(text) ==> tidy_blanks(text.drop_last()),
    decreases text.len(),
{
    if text.len() > 1 {
        assert(text.drop_last()[0] == text[0]);
        assert(text.drop_last().skip(1) =~= text.skip(1).drop_last());
        lemma_tidy_drop_last(text.skip(1));
        lemma_leading_newlines_drop_last(text);
        if text.len() > 2 {
            assert(text.drop_last()[1] == text[1]);
        }
    }
}

/// Trimming keeps text free of control characters and tidy.
pub proof fn lemma_trimmed_keeps(text: Seq<char>)
    ensures
        no_controls(text) ==> no_controls(trimmed(text)),
        tidy_newlines(text) ==> tidy_newlines(trimmed(text)),
        tidy_blanks(text) ==> tidy_blanks(trimmed(text)),
    decreases text.len(),
{
    if text.len() == 0 {
    } else if white_space(text[0]) {
        lemma_trimmed_keeps(text.drop_first());
        if no_controls(text) {
            lemma_no_controls_skip(text, 1);
        }
    } else if white_space(text.last()) {
        lemma_trimmed_keeps(text.drop_last());
        lemma_tidy_drop_last(text);
        if no_controls(text) {
            assert forall|i: int| 0 <= i < text.drop_last().len() implies !stripped_control(
                #[trigger] text.drop_last()[i],
            ) by {
                assert(text.drop_last()[i] == text[i]);
            }
        }
    } else {
    }
}

/// Trimming text that has no white space at its ends changes nothing.
pub proof fn lemma_trimmed_same(text: Seq<char>)
    requires
        text.len() > 0 ==> !white_space(text[0]) && !white_space(text.last()),
    ensures
        trimmed(text) == text,
{
}

/// Tidy text holds no three line feeds in a row, and no two spaces or tabs.
pub proof fn lemma_tidy_means_no_runs(text: Seq<char>, i: int)
    requires
        0 <= i < text.len(),
    ensures
        tidy_newlines(text) && i + 2 < text.len() ==> !(text[i] == '\n' && text[i + 1] == '\n' && text[i + 2]
            == '\n'),
        tidy_blanks(text) && i + 1 < text.len() ==> !(blank_char(text[i]) && blank_char(text[i + 1])),
    decreases i,
{
    if i == 0 {
        if text.len() > 2 && text[0] == '\n' && text[1] == '\n' && text[2] == '\n' {
            let one = text.skip(1);
            let two = one.skip(1);
            assert(one[0] == text[1]);
            assert(two[0] == text[2]);
            assert(leading_newlines(two) >= 1);
            assert(leading_newlines(one) >= 2);
            assert(leading_newlines(text) >= 3);
        }
    } else {
        lemma_tidy_means_no_runs(text.skip(1), i - 1);
        assert(text.skip(1)[i - 1] == text[i]);
        if i + 1 < text.len() {
            assert(text.skip(1)[i] == text[i + 1]);
        }
        if i + 2 < text.len() {
            assert(text.skip(1)[i + 1] == text[i + 2]);
        }
    }
}

/// The clean text of a preprocessor with all its steps has no control
/// character that is taken out, is tidy in its line feeds and in its
/// spaces and tabs, and has no white space at its ends.
pub proof fn lemma_clean_text(preprocessor: &TextPreprocessor, text: Seq<char>)
    requires
        preprocessor.complete(),
    ensures
        no_controls(preprocessor.preprocess_spec(text)),
        tidy_newlines(preprocessor.preprocess_spec(text)),
        tidy_blanks(preprocessor.preprocess_spec(text)),
        preprocessor.preprocess_spec(text).len() > 0 ==> !white_space(preprocessor.preprocess_spec(text)[0])
            && !white_space(preprocessor.preprocess_spec(text).last()),
{
    let no_control = without_controls(text);
    let clean_newlines = collapse_newlines(no_control);
    let clean_spaces = collapse_blanks(clean_newlines);
    lemma_without_controls_clean(text);
    lemma_collapse_newlines_clean(no_control);
    lemma_collapse_newlines_tidy(no_control);
    lemma_collapse_blanks_clean(clean_newlines);
    lemma_collapse_blanks_newlines(clean_newlines);
    lemma_collapse_blanks_tidy(clean_newlines);
    lemma_trimmed_keeps(clean_spaces);
    lemma_trimmed_ends(clean_spaces);
}

/// Cleaning a text that is clean changes nothing: for every text, to
/// preprocess what `preprocess` gave gives the same again.
pub proof fn law_preprocess_idempotent(preprocessor: &TextPreprocessor, text: Seq<char>)
    requires
        preprocessor.complete(),
    ensures
        preprocessor.preprocess_spec(preprocessor.preprocess_spec(text)) == preprocessor.preprocess_spec(text),
{
    let clean = preprocessor.preprocess_spec(text);
    lemma_clean_text(preprocessor, text);
    lemma_without_controls_same(clean);
    lemma_collapse_newlines_same(clean);
    lemma_collapse_blanks_same(clean);
    lemma_trimmed_same(clean);
}

/// Clean text holds no three line feeds in a row, no two spaces or tabs in
/// a row, and no control character but tab, line feed and carriage return.
pub proof fn law_clean_text_has_no_runs(preprocessor: &TextPreprocessor, text: Seq<char>)
    requires
        preprocessor.complete(),
    ensures
        forall|i: int|
            0 <= i && i + 2 < preprocessor.preprocess_spec(text).len() ==> !(
            #[trigger] preprocessor.preprocess_spec(text)[i] == '\n' && preprocessor.preprocess_spec(text)[i + 1]
                == '\n' && preprocessor.preprocess_spec(text)[i + 2] == '\n'),
        forall|i: int|
            0 <= i && i + 1 < preprocessor.preprocess_spec(text).len() ==> !(blank_char(
                #[trigger] preprocessor.preprocess_spec(text)[i],
            ) && blank_char(preprocessor.preprocess_spec(text)[i + 1])),
        forall|i: int|
            0 <= i < preprocessor.preprocess_spec(text).len() ==> !stripped_control(
                #[trigger] preprocessor.preprocess_spec(text)[i],
            ),
{
    let clean = preprocessor.preprocess_spec(text);
    lemma_clean_text(preprocessor, text);
    assert forall|i: int| 0 <= i && i + 2 < clean.len() implies !(#[trigger] clean[i] == '\n' && clean[i + 1] == '\n'
        && clean[i + 2] == '\n') by {
        lemma_tidy_means_no_runs(clean, i);
    }
    assert forall|i: int| 0 <= i && i + 1 < clean.len() implies !(blank_char(#[trigger] clean[i]) && blank_char(
        clean[i + 1],
    )) by {
        lemma_tidy_means_no_runs(clean, i);
    }
}

} // verus!
