//! Text as the chunker sees it: white space, blank text, trimming, and
//! cutting a string at byte offsets.

use vstd::prelude::*;
use vstd::string::StrSliceExecFns;
use vstd::string::StringExecFns;
use vstd::string::StringSliceAdditionalSpecFns;
use vstd::utf8::*;

verus! {

/// White space as Unicode defines it (the property `White_Space`).
pub open spec fn white_space(c: char) -> bool {
    let u = c as u32;
    ||| 0x09 <= u <= 0x0D
    ||| u == 0x20
    ||| u == 0x85
    ||| u == 0xA0
    ||| u == 0x1680
    ||| 0x2000 <= u <= 0x200A
    ||| u == 0x2028
    ||| u == 0x2029
    ||| u == 0x202F
    ||| u == 0x205F
    ||| u == 0x3000
}

/// Whether a character is white space.
pub fn is_white_space(c: char) -> (r: bool)
    ensures
        r == white_space(c),
{
    let u: u32 = c as u32;
    (0x09 <= u && u <= 0x0D) || u == 0x20 || u == 0x85 || u == 0xA0 || u == 0x1680 || (0x2000 <= u
        && u <= 0x200A) || u == 0x2028 || u == 0x2029 || u == 0x202F || u == 0x205F || u == 0x3000
}

/// Text that holds nothing but white space.
pub open spec fn blank(text: Seq<char>) -> bool {
    forall|i: int| 0 <= i < text.len() ==> white_space(#[trigger] text[i])
}

/// Text is blank when what precedes its last character is blank and that
/// character is white space.
pub proof fn lemma_blank_push(text: Seq<char>)
    requires
        text.len() > 0,
    ensures
        blank(text) == (blank(text.drop_last()) && white_space(text.last())),
{
    if blank(text.drop_last()) && white_space(text.last()) {
        assert forall|i: int| 0 <= i < text.len() implies white_space(#[trigger] text[i]) by {
            if i < text.len() - 1 {
                assert(text.drop_last()[i] == text[i]);
            }
        }
    }
    if blank(text) {
        assert forall|i: int| 0 <= i < text.drop_last().len() implies white_space(#[trigger] text.drop_last()[i]) by {
            assert(text.drop_last()[i] == text[i]);
        }
    }
}

/// Whether a string holds nothing but white space.
pub fn is_blank(text: &str) -> (r: bool)
    ensures
        r == blank(text@),
{
    let mut all: bool = true;
    for c in it: text.chars()
        invariant
            it.seq() == text@,
            all == blank(text@.subrange(0, it.index() as int)),
    {
        assert(text@.subrange(0, it.index() + 1).drop_last() =~= text@.subrange(0, it.index() as int));
        assert(text@.subrange(0, it.index() + 1).last() == c);
        all = all && is_white_space(c);
        proof {
            lemma_blank_push(text@.subrange(0, it.index() + 1));
        }
    }
    assert(text@.subrange(0, text@.len() as int) =~= text@);
    all
}

/// The text without the white space at its start and at its end.
pub open spec fn trimmed(text: Seq<char>) -> Seq<char>
    decreases text.len(),
{
    if text.len() == 0 {
        text
    } else if white_space(text[0]) {
        trimmed(text.drop_first())
    } else if white_space(text.last()) {
        trimmed(text.drop_last())
    } else {
        text
    }
}

/// Where all before `from` and all from `to` on is white space, and the
/// characters at the two ends of `from..to` are not, trimming leaves
/// exactly `from..to`.
pub proof fn lemma_trimmed_bounds(text: Seq<char>, from: int, to: int)
    requires
        0 <= from <= to <= text.len(),
        forall|i: int| 0 <= i < from ==> white_space(#[trigger] text[i]),
        forall|i: int| to <= i < text.len() ==> white_space(#[trigger] text[i]),
        from < to ==> !white_space(text[from]) && !white_space(text[to - 1]),
    ensures
        trimmed(text) == text.subrange(from, to),
    decreases text.len(),
{
    if text.len() == 0 {
        assert(text.subrange(from, to) =~= text);
    } else if white_space(text[0]) {
        let rest = text.drop_first();
        if from < to {
            lemma_trimmed_bounds(rest, from - 1, to - 1);
            assert(rest.subrange(from - 1, to - 1) =~= text.subrange(from, to));
        } else {
            lemma_trimmed_bounds(rest, 0, 0);
            assert(rest.subrange(0, 0) =~= text.subrange(from, to));
        }
    } else if white_space(text.last()) {
        let rest = text.drop_last();
        assert(from == 0);
        assert(from < to);
        lemma_trimmed_bounds(rest, from, to);
        assert(rest.subrange(from, to) =~= text.subrange(from, to));
    } else {
        assert(from == 0);
        assert(to == text.len());
        assert(text.subrange(from, to) =~= text);
    }
}

/// Trimmed text has no white space at either end.
pub proof fn lemma_trimmed_ends(text: Seq<char>)
    ensures
        trimmed(text).len() <= text.len(),
        trimmed(text).len() > 0 ==> !white_space(trimmed(text)[0]) && !white_space(trimmed(text).last()),
        trimmed(text).len() == 0 <==> blank(text),
    decreases text.len(),
{
    if text.len() == 0 {
    } else if white_space(text[0]) {
        lemma_trimmed_ends(text.drop_first());
        if blank(text.drop_first()) {
            assert forall|i: int| 0 <= i < text.len() implies white_space(#[trigger] text[i]) by {
                if i > 0 {
                    assert(text.drop_first()[i - 1] == text[i]);
                }
            }
        }
        if blank(text) {
            assert forall|i: int| 0 <= i < text.drop_first().len() implies white_space(#[trigger] text.drop_first()[i]) by {
                assert(text.drop_first()[i] == text[i + 1]);
            }
        }
    } else if white_space(text.last()) {
        lemma_trimmed_ends(text.drop_last());
        assert(!blank(text));
        if blank(text.drop_last()) {
            assert(white_space(text.drop_last()[0]));
        }
    } else {
    }
}

/// The string without the white space at its start and at its end.
pub fn trim(text: &str) -> (r: String)
    ensures
        r@ == trimmed(text@),
{
    let count: usize = text.unicode_len();
    let mut index: usize = 0;
    let mut from: usize = 0;
    let mut to: usize = 0;
    let mut inked: bool = false;
    for c in it: text.chars()
        invariant
            it.seq() == text@,
            index == it.index(),
            count == text@.len(),
            0 <= from <= to <= index,
            forall|i: int| 0 <= i < from ==> white_space(#[trigger] text@[i]),
            forall|i: int| to <= i < index ==> white_space(#[trigger] text@[i]),
            !inked ==> from == index && to == index,
            inked ==> from < to && !white_space(text@[from as int]) && !white_space(text@[to - 1]),
    {
        if is_white_space(c) {
            if !inked {
                from = index + 1;
                to = index + 1;
            }
        } else {
            if !inked {
                inked = true;
                from = index;
            }
            to = index + 1;
        }
        index += 1;
    }
    proof {
        lemma_trimmed_bounds(text@, from as int, to as int);
    }
    text.substring_char(from, to).to_owned()
}

/// A character boundary of a text is one of any prefix of the text that
/// is cut at a character boundary and reaches it.
pub proof fn lemma_boundary_in_prefix(bytes: Seq<u8>, from: int, to: int)
    requires
        valid_utf8(bytes),
        0 <= from <= to <= bytes.len(),
        is_char_boundary(bytes, from),
        is_char_boundary(bytes, to),
    ensures
        valid_utf8(bytes.subrange(0, to)),
        is_char_boundary(bytes.subrange(0, to), from),
{
    let head = bytes.subrange(0, to);
    valid_utf8_split(bytes, to);
    if from < to {
        is_char_boundary_iff_not_is_continuation_byte(bytes, from);
        is_char_boundary_iff_not_is_continuation_byte(head, from);
        assert(head[from] == bytes[from]);
    } else {
        is_char_boundary_start_end_of_seq(head);
    }
}

/// Where `from..to` is a range of bytes of the text that starts and ends at
/// character boundaries: the text of that range.
pub fn slice_text(text: &str, from: usize, to: usize) -> (r: Option<String>)
    ensures
        r is Some <==> from <= to <= text.spec_bytes().len() && is_char_boundary(
            text.spec_bytes(),
            from as int,
        ) && is_char_boundary(text.spec_bytes(), to as int),
        r is Some ==> encode_utf8(r->Some_0@) == text.spec_bytes().subrange(from as int, to as int),
{
    proof {
        encode_utf8_valid_utf8(text@);
    }
    if from <= to && to <= text.as_bytes().len() && text.is_char_boundary(from) && text.is_char_boundary(to) {
        let (head, _) = text.split_at(to);
        proof {
            lemma_boundary_in_prefix(text.spec_bytes(), from as int, to as int);
        }
        let (_, mid) = head.split_at(from);
        assert(mid.spec_bytes() =~= text.spec_bytes().subrange(from as int, to as int));
        Some(mid.to_owned())
    } else {
        None
    }
}

/// `String::from_utf8`: the string that the bytes encode, where they are
/// well-formed UTF-8, and nothing where they are not.
#[verifier::external_body]
pub(crate) fn string_from_utf8(bytes: Vec<u8>) -> (r: Option<String>)
    ensures
        r is Some <==> valid_utf8(bytes@),
        r is Some ==> encode_utf8(r->Some_0@) == bytes@,
{
    String::from_utf8(bytes).ok()
}

/// The character of a decimal digit.
pub open spec fn digit_char(d: nat) -> char {
    if d == 0 {
        '0'
    } else if d == 1 {
        '1'
    } else if d == 2 {
        '2'
    } else if d == 3 {
        '3'
    } else if d == 4 {
        '4'
    } else if d == 5 {
        '5'
    } else if d == 6 {
        '6'
    } else if d == 7 {
        '7'
    } else if d == 8 {
        '8'
    } else {
        '9'
    }
}

/// A number in decimal digits.
pub open spec fn decimal_text(n: nat) -> Seq<char>
    decreases n,
{
    if n < 10 {
        seq![digit_char(n)]
    } else {
        decimal_text(n / 10) + seq![digit_char(n % 10)]
    }
}

/// Adds a decimal digit to a string.
pub fn push_digit(text: &mut String, d: u8)
    requires
        d < 10,
    ensures
        final(text)@ == old(text)@ + seq![digit_char(d as nat)],
{
    proof {
        reveal_strlit("0");
        reveal_strlit("1");
        reveal_strlit("2");
        reveal_strlit("3");
        reveal_strlit("4");
        reveal_strlit("5");
        reveal_strlit("6");
        reveal_strlit("7");
        reveal_strlit("8");
        reveal_strlit("9");
    }
    let digit: &str = if d == 0 {
        "0"
    } else if d == 1 {
        "1"
    } else if d == 2 {
        "2"
    } else if d == 3 {
        "3"
    } else if d == 4 {
        "4"
    } else if d == 5 {
        "5"
    } else if d == 6 {
        "6"
    } else if d == 7 {
        "7"
    } else if d == 8 {
        "8"
    } else {
        "9"
    };
    assert(digit@ =~= seq![digit_char(d as nat)]);
    text.append(digit);
}

/// A number in decimal digits.
pub fn decimal_string(n: usize) -> (r: String)
    ensures
        r@ == decimal_text(n as nat),
    decreases n,
{
    if n < 10 {
        let mut r = String::new();
        push_digit(&mut r, n as u8);
        assert(r@ =~= decimal_text(n as nat));
        r
    } else {
        let mut r = decimal_string(n / 10);
        push_digit(&mut r, (n % 10) as u8);
        r
    }
}

} // verus!
