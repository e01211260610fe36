//! The vocabulary file: one record per line, a byte string in base64 and
//! its rank in decimal, with white space between them.

use crate::error::ProcessingError;
use crate::rank_table::{rank_entries, rank_table_insert, rank_table_len, rank_table_new};
use crate::tiktoken_core::Rank;
use base64::Engine;
use rustc_hash::FxHashMap;
use vstd::prelude::*;
use vstd::slice::slice_subrange;
use crate::text::{decimal_text, push_digit, string_from_utf8};
use vstd::slice::slice_to_vec;
use vstd::string::StringExecFns;
use vstd::string::StringSliceAdditionalSpecFns;
use vstd::utf8::{decode_utf8, encode_utf8_decode_utf8, valid_utf8};

verus! {

/// The pattern that cuts text into pieces before the byte-pair merge.
pub const O200K_BASE_PATTERN: &'static str =
    r"(?i:'s|'t|'re|'ve|'m|'ll|'d)|[^\r\n\p{L}\p{N}]?\p{L}+|\p{N}{1,3}| ?[^\s\p{L}\p{N}]+[\r\n]*|\s*[\r\n]+|\s+(?!\S)|\s+";

/// The fewest records that a vocabulary file must give.
pub const MIN_VOCABULARY_SIZE: usize = 100000;

#[verifier::external_type_specification]
#[verifier::external_body]
pub struct ExBase64DecodeError(base64::DecodeError);

/// What the standard base64 engine decodes the input to; nothing where it
/// rejects the input.
pub uninterp spec fn base64_decoded(input: Seq<u8>) -> Option<Seq<u8>>;

/// `Engine::decode` of the engine `general_purpose::STANDARD`: the bytes
/// that the input stands for in the standard alphabet with padding.
#[verifier::external_body]
pub(crate) fn base64_decode(input: &[u8]) -> (r: Result<Vec<u8>, base64::DecodeError>)
    ensures
        r is Ok <==> base64_decoded(input@) is Some,
        r is Ok ==> r->Ok_0@ == base64_decoded(input@)->Some_0,
{
    base64::engine::general_purpose::STANDARD.decode(input)
}

/// White space of ASCII: tab, line feed, vertical tab, form feed, carriage
/// return and space.
pub open spec fn ascii_white(b: u8) -> bool {
    (0x09 <= b <= 0x0D) || b == 0x20
}

/// The first index from `at` on that holds no white space; the length
/// where there is none.
pub open spec fn skip_white(line: Seq<u8>, at: int) -> int
    decreases line.len() - at,
{
    if at < 0 || at >= line.len() {
        line.len() as int
    } else if ascii_white(line[at]) {
        skip_white(line, at + 1)
    } else {
        at
    }
}

/// The first index from `at` on that holds white space; the length where
/// there is none.
pub open spec fn skip_field(line: Seq<u8>, at: int) -> int
    decreases line.len() - at,
{
    if at < 0 || at >= line.len() {
        line.len() as int
    } else if ascii_white(line[at]) {
        at
    } else {
        skip_field(line, at + 1)
    }
}

/// The value of a run of decimal digits; nothing where a byte is no digit.
pub open spec fn decimal_value(digits: Seq<u8>) -> Option<nat>
    decreases digits.len(),
{
    if digits.len() == 0 {
        Some(0)
    } else if 0x30 <= digits.last() <= 0x39 {
        match decimal_value(digits.drop_last()) {
            Some(v) => Some(v * 10 + (digits.last() - 0x30) as nat),
            None => None,
        }
    } else {
        None
    }
}

/// The rank that a field stands for: decimal digits, at least one, after
/// an optional plus sign, with a value that a rank can hold.
pub open spec fn rank_of_field(field: Seq<u8>) -> Option<Rank> {
    let digits = if field.len() > 0 && field[0] == 0x2B {
        field.skip(1)
    } else {
        field
    };
    if digits.len() == 0 {
        None
    } else {
        match decimal_value(digits) {
            Some(v) => if v <= u32::MAX {
                Some(v as u32)
            } else {
                None
            },
            None => None,
        }
    }
}

/// What a line of the file is.
pub enum LineKind {
    /// Nothing but white space.
    Blank,
    /// Not a record: not exactly two fields, or a field that does not decode.
    Malformed,
    /// A byte string and its rank.
    Entry(Seq<u8>, Rank),
}

/// What a line is: blank, a record of exactly two fields of which the
/// first decodes as base64 and the second as a rank, or malformed.
pub open spec fn line_kind(line: Seq<u8>) -> LineKind {
    let token_from = skip_white(line, 0);
    let token_to = skip_field(line, token_from);
    let rank_from = skip_white(line, token_to);
    let rank_to = skip_field(line, rank_from);
    let rest = skip_white(line, rank_to);
    if token_from >= line.len() {
        LineKind::Blank
    } else if rank_from >= line.len() || rest < line.len() {
        LineKind::Malformed
    } else {
        match (base64_decoded(line.subrange(token_from, token_to)), rank_of_field(line.subrange(rank_from, rank_to))) {
            (Some(bytes), Some(rank)) => LineKind::Entry(bytes, rank),
            _ => LineKind::Malformed,
        }
    }
}

/// The vocabulary with the record of one more line, if the line is one.
pub open spec fn with_line(entries: Map<Seq<u8>, Rank>, line: Seq<u8>) -> Map<Seq<u8>, Rank> {
    match line_kind(line) {
        LineKind::Entry(bytes, rank) => entries.insert(bytes, rank),
        _ => entries,
    }
}

/// The count with one more line, if the line is malformed.
pub open spec fn with_fault(count: nat, line: Seq<u8>) -> nat {
    match line_kind(line) {
        LineKind::Malformed => count + 1,
        _ => count,
    }
}

/// The index at which the line starts that holds the byte before `at`.
pub open spec fn line_start(data: Seq<u8>, at: int) -> int
    decreases at,
{
    if at <= 0 {
        0
    } else if data[at - 1] == 0x0A {
        at
    } else {
        line_start(data, at - 1)
    }
}

/// The records of the lines that end before `at`.
pub open spec fn entries_before(data: Seq<u8>, at: int) -> Map<Seq<u8>, Rank>
    decreases at,
{
    if at <= 0 {
        Map::empty()
    } else if data[at - 1] == 0x0A {
        with_line(entries_before(data, at - 1), data.subrange(line_start(data, at - 1), at - 1))
    } else {
        entries_before(data, at - 1)
    }
}

/// The number of malformed lines that end before `at`.
pub open spec fn faults_before(data: Seq<u8>, at: int) -> nat
    decreases at,
{
    if at <= 0 {
        0
    } else if data[at - 1] == 0x0A {
        with_fault(faults_before(data, at - 1), data.subrange(line_start(data, at - 1), at - 1))
    } else {
        faults_before(data, at - 1)
    }
}

/// The last line of the data: what follows the last line feed.
pub open spec fn last_line(data: Seq<u8>) -> Seq<u8> {
    data.subrange(line_start(data, data.len() as int), data.len() as int)
}

/// The vocabulary that a file gives: the records of its lines, a later
/// record of a byte string taking the place of an earlier one.
pub open spec fn vocabulary_of(data: Seq<u8>) -> Map<Seq<u8>, Rank> {
    with_line(entries_before(data, data.len() as int), last_line(data))
}

/// The number of malformed lines of a file.
pub open spec fn faults_of(data: Seq<u8>) -> nat {
    with_fault(faults_before(data, data.len() as int), last_line(data))
}

/// A vocabulary as it was read from a file, and the number of lines that
/// were not records.
pub struct VocabularyReport {
    pub encoder: FxHashMap<Vec<u8>, Rank>,
    pub error_count: usize,
}

/// The first index from `at` on that holds no white space.
fn skip_white_from(line: &[u8], at: usize) -> (r: usize)
    requires
        at <= line@.len(),
    ensures
        r == skip_white(line@, at as int),
        at <= r <= line@.len(),
{
    let mut i: usize = at;
    while i < line.len() && is_ascii_white(line[i])
        invariant
            at <= i <= line@.len(),
            skip_white(line@, i as int) == skip_white(line@, at as int),
        decreases line.len() - i,
    {
        i += 1;
    }
    i
}

/// The first index from `at` on that holds white space.
fn skip_field_from(line: &[u8], at: usize) -> (r: usize)
    requires
        at <= line@.len(),
    ensures
        r == skip_field(line@, at as int),
        at <= r <= line@.len(),
{
    let mut i: usize = at;
    while i < line.len() && !is_ascii_white(line[i])
        invariant
            at <= i <= line@.len(),
            skip_field(line@, i as int) == skip_field(line@, at as int),
        decreases line.len() - i,
    {
        i += 1;
    }
    i
}

/// Whether a byte is white space of ASCII.
fn is_ascii_white(b: u8) -> (r: bool)
    ensures
        r == ascii_white(b),
{
    (0x09 <= b && b <= 0x0D) || b == 0x20
}

/// Digits that start with digits of no value have no value, and digits
/// are worth at least what they start with.
pub proof fn lemma_decimal_prefix(digits: Seq<u8>, upto: int)
    requires
        0 <= upto <= digits.len(),
    ensures
        decimal_value(digits.subrange(0, upto)) is None ==> decimal_value(digits) is None,
        decimal_value(digits) is Some ==> decimal_value(digits.subrange(0, upto)) is Some && decimal_value(
            digits.subrange(0, upto),
        )->Some_0 <= decimal_value(digits)->Some_0,
    decreases digits.len(),
{
    if upto < digits.len() {
        assert(digits.drop_last().subrange(0, upto) =~= digits.subrange(0, upto));
        lemma_decimal_prefix(digits.drop_last(), upto);
    } else {
        assert(digits.subrange(0, upto) =~= digits);
    }
}

/// The rank that a field stands for.
fn parse_rank(field: &[u8]) -> (r: Option<Rank>)
    ensures
        r == rank_of_field(field@),
{
    let length: usize = field.len();
    let start: usize = if length > 0 && field[0] == 0x2B {
        1
    } else {
        0
    };
    let ghost digits = if start == 1 {
        field@.skip(1)
    } else {
        field@
    };
    if start == length {
        return None;
    }
    let mut value: u64 = 0;
    let mut i: usize = start;
    assert(digits.subrange(0, 0) =~= Seq::empty());
    while i < length
        invariant
            start <= i <= length,
            length == field@.len(),
            digits.len() == length - start,
            digits.len() > 0,
            digits == (if field@.len() > 0 && field@[0] == 0x2B {
                field@.skip(1)
            } else {
                field@
            }),
            forall|k: int| 0 <= k < digits.len() ==> digits[k] == field@[start + k],
            decimal_value(digits.subrange(0, i - start)) == Some(value as nat),
            value <= u32::MAX,
        decreases length - i,
    {
        let b: u8 = field[i];
        let ghost upto = digits.subrange(0, i - start + 1);
        assert(upto.drop_last() =~= digits.subrange(0, i - start));
        assert(upto.last() == b);
        proof {
            lemma_decimal_prefix(digits, i - start + 1);
        }
        if b < 0x30 || b > 0x39 {
            assert(decimal_value(upto) is None);
            return None;
        }
        value = value * 10 + (b - 0x30) as u64;
        assert(decimal_value(upto) == Some(value as nat));
        if value > 0xFFFF_FFFF {
            return None;
        }
        i += 1;
    }
    assert(digits.subrange(0, length - start) =~= digits);
    Some(value as u32)
}

/// A line of the file as it was read.
enum ParsedLine {
    Blank,
    Malformed,
    Entry(Vec<u8>, Rank),
}

/// What a line that was read stands for.
spec fn parsed_kind(line: ParsedLine) -> LineKind {
    match line {
        ParsedLine::Blank => LineKind::Blank,
        ParsedLine::Malformed => LineKind::Malformed,
        ParsedLine::Entry(bytes, rank) => LineKind::Entry(bytes@, rank),
    }
}

/// Reads one line of the file.
fn read_line(line: &[u8]) -> (r: ParsedLine)
    ensures
        parsed_kind(r) == line_kind(line@),
{
    let token_from = skip_white_from(line, 0);
    let token_to = skip_field_from(line, token_from);
    let rank_from = skip_white_from(line, token_to);
    let rank_to = skip_field_from(line, rank_from);
    let rest = skip_white_from(line, rank_to);
    if token_from >= line.len() {
        return ParsedLine::Blank;
    }
    if rank_from >= line.len() || rest < line.len() {
        return ParsedLine::Malformed;
    }
    let token = match base64_decode(slice_subrange(line, token_from, token_to)) {
        Ok(token) => token,
        Err(_) => {
            return ParsedLine::Malformed;
        },
    };
    match parse_rank(slice_subrange(line, rank_from, rank_to)) {
        Some(rank) => ParsedLine::Entry(token, rank),
        None => ParsedLine::Malformed,
    }
}

/// Reads a vocabulary file: the records of its lines, and the number of
/// lines that are neither blank nor records.
pub fn parse_vocabulary(tiktoken_data: &str) -> (report: VocabularyReport)
    ensures
        rank_entries(report.encoder) == vocabulary_of(tiktoken_data.spec_bytes()),
        report.error_count == faults_of(tiktoken_data.spec_bytes()),
{
    let data = tiktoken_data.as_bytes();
    let length: usize = data.len();
    let mut encoder = rank_table_new();
    let mut error_count: usize = 0;
    let mut start: usize = 0;
    let mut i: usize = 0;
    assert(rank_entries(encoder) =~= Map::empty());
    while i < length
        invariant
            i <= length,
            length == data@.len(),
            data@ == tiktoken_data.spec_bytes(),
            start == line_start(data@, i as int),
            start <= i,
            error_count <= start,
            rank_entries(encoder) == entries_before(data@, i as int),
            error_count == faults_before(data@, i as int),
        decreases length - i,
    {
        if data[i] == 0x0A {
            match read_line(slice_subrange(data, start, i)) {
                ParsedLine::Blank => {},
                ParsedLine::Malformed => {
                    assert(start < i) by {
                        if start == i {
                            assert(data@.subrange(start as int, i as int).len() == 0);
                        }
                    }
                    error_count += 1;
                },
                ParsedLine::Entry(token, rank) => {
                    rank_table_insert(&mut encoder, token, rank);
                },
            }
            start = i + 1;
        }
        i += 1;
    }
    match read_line(slice_subrange(data, start, length)) {
        ParsedLine::Blank => {},
        ParsedLine::Malformed => {
            assert(start < length) by {
                if start == length {
                    assert(data@.subrange(start as int, length as int).len() == 0);
                }
            }
            error_count += 1;
        },
        ParsedLine::Entry(token, rank) => {
            rank_table_insert(&mut encoder, token, rank);
        },
    }
    VocabularyReport { encoder, error_count }
}

/// Loads the vocabulary from the text of its file. The file must give at
/// least `MIN_VOCABULARY_SIZE` byte strings.
pub fn load_o200k_base_encoder(tiktoken_data: &str) -> (r: Result<FxHashMap<Vec<u8>, Rank>, ProcessingError>)
    ensures
        r is Ok <==> vocabulary_of(tiktoken_data.spec_bytes()).dom().len() >= MIN_VOCABULARY_SIZE,
        r is Ok ==> rank_entries(r->Ok_0) == vocabulary_of(tiktoken_data.spec_bytes()),
        r is Err ==> r->Err_0 is SystemError,
{
    let report = parse_vocabulary(tiktoken_data);
    if rank_table_len(&report.encoder) < MIN_VOCABULARY_SIZE {
        return Err(
            ProcessingError::SystemError("Loaded too few tokens, expected ~200k. File may be corrupted.".to_owned()),
        );
    }
    Ok(report.encoder)
}

/// The table of special tokens as labels and ranks.
pub open spec fn special_token_table() -> Seq<(Seq<char>, Rank)> {
    seq![
        ("<|endoftext|>"@, 100257u32),
        ("<|fim_prefix|>"@, 100258u32),
        ("<|fim_middle|>"@, 100259u32),
        ("<|fim_suffix|>"@, 100260u32),
        ("<|endofprompt|>"@, 100276u32),
        ("<|im_start|>"@, 100264u32),
        ("<|im_end|>"@, 100265u32),
        ("<|im_sep|>"@, 100266u32),
    ]
}

/// The special tokens: eight labels with their reserved ranks.
pub fn load_o200k_base_special_tokens() -> (special_tokens: Vec<(String, Rank)>)
    ensures
        crate::tiktoken_core::special_view(special_tokens@) == special_token_table(),
{
    let mut special_tokens: Vec<(String, Rank)> = Vec::new();
    special_tokens.push(("<|endoftext|>".to_owned(), 100257));
    special_tokens.push(("<|fim_prefix|>".to_owned(), 100258));
    special_tokens.push(("<|fim_middle|>".to_owned(), 100259));
    special_tokens.push(("<|fim_suffix|>".to_owned(), 100260));
    special_tokens.push(("<|endofprompt|>".to_owned(), 100276));
    special_tokens.push(("<|im_start|>".to_owned(), 100264));
    special_tokens.push(("<|im_end|>".to_owned(), 100265));
    special_tokens.push(("<|im_sep|>".to_owned(), 100266));
    assert(crate::tiktoken_core::special_view(special_tokens@) =~= special_token_table());
    special_tokens
}

/// The bytes as a list of decimal numbers with a comma and a space between
/// them.
pub open spec fn byte_list_text(bytes: Seq<u8>) -> Seq<char>
    decreases bytes.len(),
{
    if bytes.len() == 0 {
        Seq::empty()
    } else if bytes.len() == 1 {
        decimal_text(bytes[0] as nat)
    } else {
        byte_list_text(bytes.drop_last()) + seq![',', ' '] + decimal_text(bytes.last() as nat)
    }
}

/// What a token is shown as: its text between quotes where its bytes are
/// well-formed UTF-8, else the list of its bytes.
pub open spec fn token_display(bytes: Seq<u8>) -> Seq<char> {
    if valid_utf8(bytes) {
        seq!['\''] + decode_utf8(bytes) + seq!['\'']
    } else {
        "bytes: ["@ + byte_list_text(bytes) + seq![']']
    }
}

/// Adds a byte in decimal digits to a string.
fn push_byte(text: &mut String, b: u8)
    ensures
        final(text)@ == old(text)@ + decimal_text(b as nat),
{
    reveal_with_fuel(decimal_text, 3);
    if b >= 100 {
        push_digit(text, b / 100);
        push_digit(text, (b / 10) % 10);
        push_digit(text, b % 10);
        assert(text@ =~= old(text)@ + decimal_text(b as nat));
    } else if b >= 10 {
        push_digit(text, b / 10);
        push_digit(text, b % 10);
        assert(text@ =~= old(text)@ + decimal_text(b as nat));
    } else {
        push_digit(text, b);
    }
}

/// Shows the token that a base64 text stands for: its text between quotes,
/// or its bytes where they are not well-formed UTF-8. It fails where the
/// text is not base64.
pub fn decode_token_debug(base64_token: &str) -> (r: Result<String, ProcessingError>)
    ensures
        r is Ok <==> base64_decoded(base64_token.spec_bytes()) is Some,
        r is Ok ==> r->Ok_0@ == token_display(base64_decoded(base64_token.spec_bytes())->Some_0),
        r is Err ==> r->Err_0 is SystemError,
{
    let bytes = match base64_decode(base64_token.as_bytes()) {
        Ok(bytes) => bytes,
        Err(_) => {
            return Err(ProcessingError::SystemError("Base64 decode error".to_owned()));
        },
    };
    match string_from_utf8(slice_to_vec(bytes.as_slice())) {
        Some(text) => {
            proof {
                reveal_strlit("'");
                encode_utf8_decode_utf8(text@);
            }
            let mut shown = "'".to_owned();
            shown.append(text.as_str());
            shown.append("'");
            assert(shown@ =~= token_display(bytes@));
            Ok(shown)
        },
        None => {
            proof {
                reveal_strlit(", ");
                reveal_strlit("]");
            }
            let mut shown = "bytes: [".to_owned();
            let mut i: usize = 0;
            assert(bytes@.subrange(0, 0) =~= Seq::empty());
            while i < bytes.len()
                invariant
                    i <= bytes.len(),
                    shown@ == "bytes: ["@ + byte_list_text(bytes@.subrange(0, i as int)),
                decreases bytes.len() - i,
            {
                let ghost upto = bytes@.subrange(0, i + 1);
                assert(upto.drop_last() =~= bytes@.subrange(0, i as int));
                assert(upto.last() == bytes@[i as int]);
                if i > 0 {
                    proof {
                        reveal_strlit(", ");
                    }
                    shown.append(", ");
                    assert(", "@ =~= seq![',', ' ']);
                }
                push_byte(&mut shown, bytes[i]);
                assert(shown@ =~= "bytes: ["@ + byte_list_text(upto));
                i += 1;
            }
            assert(bytes@.subrange(0, bytes.len() as int) =~= bytes@);
            shown.append("]");
            assert("]"@ =~= seq![']']);
            assert(shown@ =~= token_display(bytes@));
            Ok(shown)
        },
    }
}

} // verus!
