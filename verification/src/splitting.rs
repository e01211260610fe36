//! Cutting a text at the matches of a separator: where a literal separator
//! occurs, and which pieces lie between the matches.

use vstd::prelude::*;
use vstd::string::StringSliceAdditionalSpecFns;
use vstd::utf8::{encode_utf8_valid_utf8, is_char_boundary, is_char_boundary_start_end_of_seq, valid_utf8};

verus! {

/// The byte spans at which a separator occurs in the bytes from `from` on:
/// the leftmost occurrence, then the leftmost one after it, and so on. An
/// empty separator occurs nowhere.
pub open spec fn literal_spans(bytes: Seq<u8>, separator: Seq<u8>, from: int) -> Seq<(usize, usize)>
    decreases bytes.len() - from,
{
    if separator.len() == 0 || from < 0 || from + separator.len() > bytes.len() {
        Seq::empty()
    } else if bytes.subrange(from, from + separator.len()) == separator {
        seq![(from as usize, (from + separator.len()) as usize)] + literal_spans(
            bytes,
            separator,
            from + separator.len(),
        )
    } else {
        literal_spans(bytes, separator, from + 1)
    }
}

/// Whether the separator stands in the bytes at `at`.
fn occurs_at(bytes: &[u8], separator: &[u8], at: usize) -> (r: bool)
    requires
        at + separator@.len() <= bytes@.len(),
    ensures
        r == (bytes@.subrange(at as int, at + separator@.len()) == separator@),
{
    let length: usize = bytes.len();
    let mut k: usize = 0;
    while k < separator.len()
        invariant
            k <= separator@.len(),
            length == bytes@.len(),
            at + separator@.len() <= bytes@.len(),
            forall|j: int| 0 <= j < k ==> bytes@[at + j] == separator@[j],
        decreases separator.len() - k,
    {
        if bytes[at + k] != separator[k] {
            assert(bytes@.subrange(at as int, at + separator@.len())[k as int] != separator@[k as int]);
            return false;
        }
        k += 1;
    }
    assert(bytes@.subrange(at as int, at + separator@.len()) =~= separator@);
    true
}

/// The byte spans at which a separator occurs in the bytes.
pub fn literal_matches(bytes: &[u8], separator: &[u8]) -> (found: Vec<(usize, usize)>)
    ensures
        found@ == literal_spans(bytes@, separator@, 0),
{
    let mut found: Vec<(usize, usize)> = Vec::new();
    let length: usize = bytes.len();
    let width: usize = separator.len();
    if width == 0 || width > length {
        assert(found@ =~= literal_spans(bytes@, separator@, 0));
        return found;
    }
    let mut at: usize = 0;
    assert(found@ + literal_spans(bytes@, separator@, 0) =~= literal_spans(bytes@, separator@, 0));
    while at <= length - width
        invariant
            length == bytes@.len(),
            width == separator@.len(),
            0 < width <= length,
            at <= length,
            found@ + literal_spans(bytes@, separator@, at as int) == literal_spans(bytes@, separator@, 0),
        decreases length - at,
    {
        let ghost before = found@;
        if occurs_at(bytes, separator, at) {
            found.push((at, at + width));
            assert(found@ + literal_spans(bytes@, separator@, at + width) =~= before + literal_spans(
                bytes@,
                separator@,
                at as int,
            ));
            at += width;
        } else {
            at += 1;
        }
    }
    assert(found@ + literal_spans(bytes@, separator@, at as int) =~= found@);
    found
}

/// A span at which the text can be cut after `at`: it starts at or after
/// `at`, is in order, lies in the text, and starts and ends on character
/// boundaries.
pub open spec fn usable_cut(bytes: Seq<u8>, at: usize, span: (usize, usize)) -> bool {
    &&& at <= span.0 <= span.1 <= bytes.len()
    &&& is_char_boundary(bytes, span.0 as int)
    &&& is_char_boundary(bytes, span.1 as int)
}

/// The pieces before the matches of a list of spans, and the byte at which
/// the next piece starts. A span at which the text cannot be cut is passed
/// over.
pub open spec fn cut_state(bytes: Seq<u8>, spans: Seq<(usize, usize)>) -> (Seq<(usize, usize)>, usize)
    decreases spans.len(),
{
    if spans.len() == 0 {
        (Seq::empty(), 0)
    } else {
        let (pieces, at) = cut_state(bytes, spans.drop_last());
        if usable_cut(bytes, at, spans.last()) {
            (pieces.push((at, spans.last().0)), spans.last().1)
        } else {
            (pieces, at)
        }
    }
}

/// The pieces of a text between the matches of a separator: what lies
/// before the first match, between each two matches, and after the last.
pub open spec fn gaps(bytes: Seq<u8>, spans: Seq<(usize, usize)>) -> Seq<(usize, usize)> {
    let (pieces, at) = cut_state(bytes, spans);
    pieces.push((at, bytes.len() as usize))
}

/// A piece can be cut out of the text.
pub open spec fn piece_ok(bytes: Seq<u8>, piece: (usize, usize)) -> bool {
    &&& piece.0 <= piece.1 <= bytes.len()
    &&& is_char_boundary(bytes, piece.0 as int)
    &&& is_char_boundary(bytes, piece.1 as int)
}

/// The pieces come one after the other, none overlapping the next.
pub open spec fn pieces_ordered(pieces: Seq<(usize, usize)>) -> bool {
    forall|i: int, j: int| 0 <= i < j < pieces.len() ==> pieces[i].1 <= pieces[j].0
}

/// The pieces of a text between the matches of a separator. Each piece can
/// be cut out of the text, and they come in the order of the text.
pub fn cut_pieces(text: &str, spans: &Vec<(usize, usize)>) -> (pieces: Vec<(usize, usize)>)
    ensures
        pieces@ == gaps(text.spec_bytes(), spans@),
        forall|i: int| 0 <= i < pieces@.len() ==> piece_ok(text.spec_bytes(), #[trigger] pieces@[i]),
        pieces_ordered(pieces@),
{
    let ghost bytes = text.spec_bytes();
    let length: usize = text.as_bytes().len();
    let mut pieces: Vec<(usize, usize)> = Vec::new();
    let mut at: usize = 0;
    let mut i: usize = 0;
    proof {
        encode_utf8_valid_utf8(text@);
        is_char_boundary_start_end_of_seq(bytes);
        assert(spans@.subrange(0, 0) =~= Seq::empty());
    }
    while i < spans.len()
        invariant
            i <= spans.len(),
            bytes == text.spec_bytes(),
            valid_utf8(bytes),
            length == bytes.len(),
            at <= length,
            is_char_boundary(bytes, at as int),
            is_char_boundary(bytes, length as int),
            cut_state(bytes, spans@.subrange(0, i as int)) == (pieces@, at),
            forall|k: int| 0 <= k < pieces@.len() ==> piece_ok(bytes, #[trigger] pieces@[k]),
            forall|k: int| 0 <= k < pieces@.len() ==> (#[trigger] pieces@[k]).1 <= at,
            pieces_ordered(pieces@),
        decreases spans.len() - i,
    {
        let from: usize = spans[i].0;
        let to: usize = spans[i].1;
        let ghost upto = spans@.subrange(0, i + 1);
        assert(upto.drop_last() =~= spans@.subrange(0, i as int));
        assert(upto.last() == spans@[i as int]);
        if at <= from && from <= to && to <= length && text.is_char_boundary(from) && text.is_char_boundary(to) {
            pieces.push((at, from));
            at = to;
        }
        i += 1;
    }
    assert(spans@.subrange(0, spans.len() as int) =~= spans@);
    pieces.push((at, length));
    pieces
}

} // verus!
