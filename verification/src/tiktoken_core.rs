//! The byte-pair encoder: ranks, the merge of one piece, and the tokenizer
//! built on a vocabulary.

use crate::error::{concat_text, ProcessingError};
use crate::o200k_vocab::{
    load_o200k_base_encoder, load_o200k_base_special_tokens, special_token_table, vocabulary_of,
    MIN_VOCABULARY_SIZE, O200K_BASE_PATTERN,
};
use crate::patterns::{
    escaped, lookaround_compile, lookaround_compiles, lookaround_error_text, lookaround_escape,
    lookaround_find_all, lookaround_find_from, lookaround_match_from, lookaround_matches,
    lookaround_source,
};
use crate::rank_table::{
    pair_keys, rank_entries, rank_table_get, rank_table_pairs, token_entries, token_table_get,
    token_table_insert, token_table_new,
};
use crate::text::{slice_text, string_from_utf8};
use fancy_regex::Regex;
use rustc_hash::FxHashMap;
use vstd::prelude::*;
use vstd::slice::{slice_subrange, slice_to_vec};
use vstd::string::StringExecFns;
use vstd::string::StringSliceAdditionalSpecFns;
use vstd::utf8::{
    decode_utf8, encode_utf8, encode_utf8_decode_utf8, encode_utf8_valid_utf8, is_char_boundary,
    is_char_boundary_start_end_of_seq, valid_utf8,
};

verus! {

/// The rank of a byte string in a vocabulary. Lower ranks merge first.
pub type Rank = u32;

/// The rank that stands for "not in the vocabulary" during a merge.
pub const RANK_MAX: Rank = 0xFFFF_FFFF;

/// The rank of `piece[from..to]`, or `RANK_MAX` where the vocabulary lacks it.
pub open spec fn span_rank(ranks: Map<Seq<u8>, Rank>, piece: Seq<u8>, from: int, to: int) -> Rank {
    let span = piece.subrange(from, to);
    if ranks.contains_key(span) {
        ranks[span]
    } else {
        RANK_MAX
    }
}

/// Cut points of a piece of `n` bytes: they start at 0, end at `n` and rise
/// strictly, so that neighbours enclose a non-empty span.
pub open spec fn valid_bounds(bounds: Seq<int>, n: int) -> bool {
    &&& bounds.len() >= 2
    &&& bounds[0] == 0
    &&& bounds[bounds.len() - 1] == n
    &&& forall|i: int, j: int| 0 <= i < j < bounds.len() ==> bounds[i] < bounds[j]
}

/// The rank of the pair of neighbouring spans that starts at cut point `i`.
pub open spec fn pair_rank(ranks: Map<Seq<u8>, Rank>, piece: Seq<u8>, bounds: Seq<int>, i: int) -> Rank {
    span_rank(ranks, piece, bounds[i], bounds[i + 2])
}

/// Among the pairs that start at the cut points before `upto`, the leftmost
/// one of least rank; -1 where none of them is in the vocabulary.
pub open spec fn best_pair(ranks: Map<Seq<u8>, Rank>, piece: Seq<u8>, bounds: Seq<int>, upto: int) -> int
    decreases upto,
{
    if upto <= 0 {
        -1
    } else {
        let before = best_pair(ranks, piece, bounds, upto - 1);
        let rank = pair_rank(ranks, piece, bounds, upto - 1);
        if before >= 0 && pair_rank(ranks, piece, bounds, before) <= rank {
            before
        } else if rank < RANK_MAX {
            upto - 1
        } else {
            before
        }
    }
}

/// The cut points that are left when the best pair has been merged again
/// and again, until no pair of neighbours is in the vocabulary.
pub open spec fn merge_bounds(ranks: Map<Seq<u8>, Rank>, piece: Seq<u8>, bounds: Seq<int>) -> Seq<int>
    decreases bounds.len(),
{
    let i = best_pair(ranks, piece, bounds, bounds.len() - 2);
    if 0 <= i && i + 1 < bounds.len() {
        merge_bounds(ranks, piece, bounds.remove(i + 1))
    } else {
        bounds
    }
}

/// The cut points between all the single bytes of a piece of `n` bytes.
pub open spec fn initial_bounds(n: nat) -> Seq<int> {
    Seq::new(n + 1, |i: int| i)
}

/// The ranks of the spans between neighbouring cut points.
pub open spec fn span_ranks(ranks: Map<Seq<u8>, Rank>, piece: Seq<u8>, bounds: Seq<int>) -> Seq<Rank> {
    Seq::new((bounds.len() - 1) as nat, |k: int| ranks[piece.subrange(bounds[k], bounds[k + 1])])
}

/// The tokens of one piece: the ranks of the spans that the merge leaves.
pub open spec fn byte_pair_encode_spec(piece: Seq<u8>, ranks: Map<Seq<u8>, Rank>) -> Seq<Rank> {
    span_ranks(ranks, piece, merge_bounds(ranks, piece, initial_bounds(piece.len())))
}

/// Every byte of the piece is, alone, in the vocabulary.
pub open spec fn bytes_covered(piece: Seq<u8>, ranks: Map<Seq<u8>, Rank>) -> bool {
    forall|i: int| 0 <= i < piece.len() ==> ranks.contains_key(#[trigger] piece.subrange(i, i + 1))
}

/// Every span between neighbouring cut points is in the vocabulary.
pub open spec fn spans_known(ranks: Map<Seq<u8>, Rank>, piece: Seq<u8>, bounds: Seq<int>) -> bool {
    forall|k: int| 0 <= k < bounds.len() - 1 ==> ranks.contains_key(#[trigger] piece.subrange(bounds[k], bounds[k + 1]))
}

/// The cut points that a list of parts stands for.
spec fn part_bounds(parts: Seq<(usize, Rank)>) -> Seq<int> {
    parts.map_values(|p: (usize, Rank)| p.0 as int)
}

/// Each part but the last two carries the rank of the pair that starts at
/// it; the last two carry `RANK_MAX`.
spec fn ranks_cached(ranks: Map<Seq<u8>, Rank>, piece: Seq<u8>, parts: Seq<(usize, Rank)>) -> bool {
    forall|j: int|
        0 <= j < parts.len() ==> (#[trigger] parts[j]).1 == (if j < parts.len() - 2 {
            pair_rank(ranks, piece, part_bounds(parts), j)
        } else {
            RANK_MAX
        })
}

/// The scan for the best pair has reached `upto` and holds `(rank, index)`.
spec fn scan_agrees(
    ranks: Map<Seq<u8>, Rank>,
    piece: Seq<u8>,
    bounds: Seq<int>,
    upto: int,
    rank: Rank,
    index: usize,
) -> bool {
    let best = best_pair(ranks, piece, bounds, upto);
    &&& (rank == RANK_MAX <==> best < 0)
    &&& best >= 0 ==> index == best && rank == pair_rank(ranks, piece, bounds, best)
}

/// The best pair lies before `upto`, and it is in the vocabulary.
pub proof fn lemma_best_pair(ranks: Map<Seq<u8>, Rank>, piece: Seq<u8>, bounds: Seq<int>, upto: int)
    ensures
        -1 <= best_pair(ranks, piece, bounds, upto),
        upto >= 0 ==> best_pair(ranks, piece, bounds, upto) < upto,
        upto < 0 ==> best_pair(ranks, piece, bounds, upto) == -1,
        best_pair(ranks, piece, bounds, upto) >= 0 ==> pair_rank(
            ranks,
            piece,
            bounds,
            best_pair(ranks, piece, bounds, upto),
        ) < RANK_MAX,
    decreases upto,
{
    if upto > 0 {
        lemma_best_pair(ranks, piece, bounds, upto - 1);
    }
}

/// A span whose rank is below `RANK_MAX` is in the vocabulary.
pub proof fn lemma_ranked_span_known(ranks: Map<Seq<u8>, Rank>, piece: Seq<u8>, from: int, to: int)
    requires
        span_rank(ranks, piece, from, to) < RANK_MAX,
    ensures
        ranks.contains_key(piece.subrange(from, to)),
{
}

/// Merging the pair at `i` keeps the cut points valid and every span known.
pub proof fn lemma_merge_step(ranks: Map<Seq<u8>, Rank>, piece: Seq<u8>, bounds: Seq<int>, i: int)
    requires
        valid_bounds(bounds, piece.len() as int),
        spans_known(ranks, piece, bounds),
        0 <= i < bounds.len() - 2,
        pair_rank(ranks, piece, bounds, i) < RANK_MAX,
    ensures
        valid_bounds(bounds.remove(i + 1), piece.len() as int),
        spans_known(ranks, piece, bounds.remove(i + 1)),
        bounds.remove(i + 1).len() == bounds.len() - 1,
{
    let after = bounds.remove(i + 1);
    bounds.remove_ensures(i + 1);
    assert forall|a: int, b: int| 0 <= a < b < after.len() implies after[a] < after[b] by {
        let a0 = if a < i + 1 { a } else { a + 1 };
        let b0 = if b < i + 1 { b } else { b + 1 };
        assert(after[a] == bounds[a0]);
        assert(after[b] == bounds[b0]);
    }
    assert forall|k: int| 0 <= k < after.len() - 1 implies ranks.contains_key(
        #[trigger] piece.subrange(after[k], after[k + 1]),
    ) by {
        if k < i {
            assert(ranks.contains_key(piece.subrange(bounds[k], bounds[k + 1])));
        } else if k == i {
            lemma_ranked_span_known(ranks, piece, bounds[i], bounds[i + 2]);
        } else {
            let k1 = k + 1;
            assert(ranks.contains_key(piece.subrange(bounds[k1], bounds[k1 + 1])));
        }
    }
}

/// The rank of the span from part `i` to part `i + 3`, which becomes the pair
/// at `i` once the part between has gone; `RANK_MAX` where there is no such
/// part or the vocabulary lacks the span.
fn tri_rank(ranks: &FxHashMap<Vec<u8>, Rank>, piece: &[u8], parts: &Vec<(usize, Rank)>, i: usize) -> (rank: Rank)
    requires
        valid_bounds(part_bounds(parts@), piece@.len() as int),
        i < parts.len(),
    ensures
        rank == (if i + 3 < parts.len() {
            span_rank(rank_entries(*ranks), piece@, parts[i as int].0 as int, parts[i + 3].0 as int)
        } else {
            RANK_MAX
        }),
{
    if parts.len() - i > 3 {
        let from: usize = parts[i].0;
        let to: usize = parts[i + 3].0;
        proof {
            let b = part_bounds(parts@);
            assert(b[i as int] == from && b[i + 3] == to);
            assert(b[0] == 0 && b[b.len() - 1] == piece@.len());
            assert(b[i as int] < b[i + 3]);
            assert(i + 3 == b.len() - 1 || b[i + 3] < b[b.len() - 1]);
        }
        match rank_table_get(ranks, slice_subrange(piece, from, to)) {
            Some(rank) => rank,
            None => RANK_MAX,
        }
    } else {
        RANK_MAX
    }
}

/// The rank of `piece[from..to]` as the merge sees it: `RANK_MAX` where the
/// vocabulary lacks the span.
fn lookup_span(ranks: &FxHashMap<Vec<u8>, Rank>, piece: &[u8], from: usize, to: usize) -> (rank: Rank)
    requires
        from <= to <= piece@.len(),
    ensures
        rank == span_rank(rank_entries(*ranks), piece@, from as int, to as int),
{
    match rank_table_get(ranks, slice_subrange(piece, from, to)) {
        Some(rank) => rank,
        None => RANK_MAX,
    }
}

/// Among the pairs of `parts`, the leftmost one of least rank, as
/// `(rank, index)`; the rank is `RANK_MAX` where no pair is in the vocabulary.
fn scan_parts(Ghost(ranks): Ghost<Map<Seq<u8>, Rank>>, Ghost(piece): Ghost<Seq<u8>>, parts: &Vec<(usize, Rank)>) -> (min: (Rank, usize))
    requires
        parts.len() >= 2,
        ranks_cached(ranks, piece, parts@),
    ensures
        scan_agrees(ranks, piece, part_bounds(parts@), parts.len() - 2, min.0, min.1),
{
    let mut min_rank: Rank = RANK_MAX;
    let mut min_index: usize = 0;
    let mut k: usize = 0;
    while k + 2 < parts.len()
        invariant
            parts.len() >= 2,
            k <= parts.len() - 2,
            ranks_cached(ranks, piece, parts@),
            scan_agrees(ranks, piece, part_bounds(parts@), k as int, min_rank, min_index),
        decreases parts.len() - k,
    {
        let rank: Rank = parts[k].1;
        proof {
            lemma_best_pair(ranks, piece, part_bounds(parts@), k as int);
            assert(parts@[k as int].1 == pair_rank(ranks, piece, part_bounds(parts@), k as int));
        }
        if rank < min_rank {
            min_rank = rank;
            min_index = k;
        }
        k += 1;
    }
    (min_rank, min_index)
}

/// Merges a piece: the parts that are left, each with the byte at which its
/// span starts, and one more for the end of the piece.
#[verifier::spinoff_prover]
fn _byte_pair_merge(ranks: &FxHashMap<Vec<u8>, Rank>, piece: &[u8]) -> (parts: Vec<(usize, Rank)>)
    requires
        piece@.len() >= 1,
        bytes_covered(piece@, rank_entries(*ranks)),
    ensures
        part_bounds(parts@) == merge_bounds(rank_entries(*ranks), piece@, initial_bounds(piece@.len())),
        valid_bounds(part_bounds(parts@), piece@.len() as int),
        spans_known(rank_entries(*ranks), piece@, part_bounds(parts@)),
{
    let ghost m = rank_entries(*ranks);
    let ghost start = initial_bounds(piece@.len());
    let n: usize = piece.len();
    let mut parts: Vec<(usize, Rank)> = Vec::new();
    let mut min_rank: Rank = RANK_MAX;
    let mut min_index: usize = 0;
    let mut i: usize = 0;
    while i + 1 < n
        invariant
            n == piece@.len(),
            n >= 1,
            i <= n - 1,
            m == rank_entries(*ranks),
            start == initial_bounds(piece@.len()),
            parts@.len() == i,
            forall|j: int| 0 <= j < i ==> #[trigger] parts@[j] == (j as usize, span_rank(m, piece@, j, j + 2)),
            scan_agrees(m, piece@, start, i as int, min_rank, min_index),
        decreases n - i,
    {
        let rank: Rank = lookup_span(ranks, piece, i, i + 2);
        proof {
            lemma_best_pair(m, piece@, start, i as int);
            assert(pair_rank(m, piece@, start, i as int) == rank);
        }
        if rank < min_rank {
            min_rank = rank;
            min_index = i;
        }
        parts.push((i, rank));
        i += 1;
    }
    parts.push((n - 1, RANK_MAX));
    parts.push((n, RANK_MAX));
    proof {
        assert(part_bounds(parts@) =~= start);
        assert forall|k: int| 0 <= k < start.len() - 1 implies m.contains_key(
            #[trigger] piece@.subrange(start[k], start[k + 1]),
        ) by {
            assert(m.contains_key(piece@.subrange(k, k + 1)));
        }
        assert forall|j: int| 0 <= j < parts@.len() implies (#[trigger] parts@[j]).1 == (if j < parts@.len() - 2 {
            pair_rank(m, piece@, part_bounds(parts@), j)
        } else {
            RANK_MAX
        }) by {
            if j < n - 1 {
                assert(parts@[j] == (j as usize, span_rank(m, piece@, j, j + 2)));
            }
        }
    }
    while min_rank != RANK_MAX
        invariant
            n == piece@.len(),
            m == rank_entries(*ranks),
            start == initial_bounds(piece@.len()),
            valid_bounds(part_bounds(parts@), n as int),
            ranks_cached(m, piece@, parts@),
            spans_known(m, piece@, part_bounds(parts@)),
            merge_bounds(m, piece@, part_bounds(parts@)) == merge_bounds(m, piece@, start),
            scan_agrees(m, piece@, part_bounds(parts@), parts@.len() - 2, min_rank, min_index),
        decreases parts@.len(),
    {
        let i: usize = min_index;
        let ghost before = parts@;
        let ghost b0 = part_bounds(before);
        proof {
            lemma_best_pair(m, piece@, b0, before.len() - 2);
            lemma_merge_step(m, piece@, b0, i as int);
        }
        if i > 0 {
            let rank: Rank = tri_rank(ranks, piece, &parts, i - 1);
            let at: usize = parts[i - 1].0;
            parts.set(i - 1, (at, rank));
            assert(part_bounds(parts@) =~= b0);
        }
        let rank: Rank = tri_rank(ranks, piece, &parts, i);
        let at: usize = parts[i].0;
        parts.set(i, (at, rank));
        let ghost updated = parts@;
        assert(part_bounds(updated) =~= b0);
        parts.remove(i + 1);
        proof {
            let b1 = part_bounds(parts@);
            updated.remove_ensures(i + 1);
            b0.remove_ensures(i + 1);
            assert(b1 =~= b0.remove(i + 1));
            assert forall|j: int| 0 <= j < parts@.len() implies (#[trigger] parts@[j]).1 == (if j < parts@.len() - 2 {
                pair_rank(m, piece@, b1, j)
            } else {
                RANK_MAX
            }) by {
                if j < i - 1 {
                    assert(parts@[j] == before[j]);
                    assert(b1[j] == b0[j] && b1[j + 2] == b0[j + 2]);
                } else if j == i - 1 {
                    assert(b1[j] == b0[j] && b1[j + 2] == b0[i + 2]);
                } else if j == i {
                    assert(b1[j] == b0[j]);
                    if i + 3 < before.len() {
                        assert(b1[j + 2] == b0[i + 3]);
                    }
                } else {
                    assert(parts@[j] == before[j + 1]);
                    if j < parts@.len() - 2 {
                        assert(b1[j] == b0[j + 1] && b1[j + 2] == b0[j + 3]);
                    }
                }
            }
        }
        let min = scan_parts(Ghost(m), Ghost(piece@), &parts);
        min_rank = min.0;
        min_index = min.1;
    }
    proof {
        lemma_best_pair(m, piece@, part_bounds(parts@), parts@.len() - 2);
    }
    parts
}

/// Encodes one piece of text with the byte-pair merge: the ranks of the
/// spans that are left when no pair of neighbours is in the vocabulary any
/// more. Every byte of the piece must be in the vocabulary alone.
pub fn byte_pair_encode(piece: &[u8], ranks: &FxHashMap<Vec<u8>, Rank>) -> (tokens: Vec<Rank>)
    requires
        piece@.len() >= 1,
        bytes_covered(piece@, rank_entries(*ranks)),
    ensures
        tokens@ == byte_pair_encode_spec(piece@, rank_entries(*ranks)),
{
    let ghost m = rank_entries(*ranks);
    let parts = _byte_pair_merge(ranks, piece);
    let ghost bounds = part_bounds(parts@);
    let mut tokens: Vec<Rank> = Vec::new();
    let mut k: usize = 0;
    while k + 1 < parts.len()
        invariant
            m == rank_entries(*ranks),
            bounds == part_bounds(parts@),
            valid_bounds(bounds, piece@.len() as int),
            spans_known(m, piece@, bounds),
            k <= parts.len() - 1,
            tokens@.len() == k,
            forall|j: int| 0 <= j < k ==> #[trigger] tokens@[j] == m[piece@.subrange(bounds[j], bounds[j + 1])],
        decreases parts.len() - k,
    {
        let from: usize = parts[k].0;
        let to: usize = parts[k + 1].0;
        proof {
            assert(bounds[k as int] == from && bounds[k + 1] == to);
            assert(bounds[k as int] < bounds[k + 1]);
            assert(k + 1 == bounds.len() - 1 || bounds[k + 1] < bounds[bounds.len() - 1]);
            assert(m.contains_key(piece@.subrange(bounds[k as int], bounds[k + 1])));
        }
        match rank_table_get(ranks, slice_subrange(piece, from, to)) {
            Some(rank) => {
                tokens.push(rank);
            },
            None => {
                assert(false);
            },
        }
        k += 1;
    }
    assert(tokens@ =~= span_ranks(m, piece@, bounds));
    tokens
}

/// Whether every byte of the piece is, alone, in the vocabulary.
pub fn covers_piece(piece: &[u8], ranks: &FxHashMap<Vec<u8>, Rank>) -> (r: bool)
    ensures
        r == bytes_covered(piece@, rank_entries(*ranks)),
{
    let mut i: usize = 0;
    while i < piece.len()
        invariant
            i <= piece@.len(),
            forall|j: int| 0 <= j < i ==> rank_entries(*ranks).contains_key(#[trigger] piece@.subrange(j, j + 1)),
        decreases piece.len() - i,
    {
        if rank_table_get(ranks, slice_subrange(piece, i, i + 1)).is_none() {
            return false;
        }
        i += 1;
    }
    true
}

/// Encodes one piece of text with the byte-pair merge, where that can be
/// done: the piece is not empty and every byte of it is, alone, in the
/// vocabulary.
pub fn byte_pair_encode_checked(piece: &[u8], ranks: &FxHashMap<Vec<u8>, Rank>) -> (r: Option<Vec<Rank>>)
    ensures
        r is Some <==> piece@.len() >= 1 && bytes_covered(piece@, rank_entries(*ranks)),
        r is Some ==> r->Some_0@ == byte_pair_encode_spec(piece@, rank_entries(*ranks)),
{
    if piece.len() >= 1 && covers_piece(piece, ranks) {
        Some(byte_pair_encode(piece, ranks))
    } else {
        None
    }
}

/// Every byte value is, alone, in the vocabulary.
pub open spec fn covers_all_bytes(ranks: Map<Seq<u8>, Rank>) -> bool {
    forall|b: u8| ranks.contains_key(#[trigger] seq![b])
}

/// No rank belongs to two byte strings.
pub open spec fn ranks_distinct(ranks: Map<Seq<u8>, Rank>) -> bool {
    forall|a: Seq<u8>, b: Seq<u8>|
        ranks.contains_key(a) && ranks.contains_key(b) && ranks[a] == ranks[b] ==> a == b
}

/// The token table maps each rank of the vocabulary back to its byte
/// string, and holds nothing else.
pub open spec fn inverse_tables(ranks: Map<Seq<u8>, Rank>, tokens: Map<Rank, Seq<u8>>) -> bool {
    &&& forall|k: Seq<u8>|
        ranks.contains_key(k) ==> tokens.contains_key(#[trigger] ranks[k]) && tokens[ranks[k]] == k
    &&& forall|r: Rank|
        tokens.contains_key(r) ==> ranks.contains_key(#[trigger] tokens[r]) && ranks[tokens[r]] == r
}

/// A table of special tokens as labels and ranks.
pub open spec fn special_view(table: Seq<(String, Rank)>) -> Seq<(Seq<char>, Rank)> {
    table.map_values(|p: (String, Rank)| (p.0@, p.1))
}

/// The pattern that matches any label of the table: the escaped labels in
/// the order of the table, with a bar between them.
pub open spec fn alternation(table: Seq<(Seq<char>, Rank)>) -> Seq<char>
    decreases table.len(),
{
    if table.len() == 0 {
        Seq::empty()
    } else if table.len() == 1 {
        escaped(table[0].0)
    } else {
        alternation(table.drop_last()) + seq!['|'] + escaped(table.last().0)
    }
}

/// Covered vocabularies cover every piece.
pub proof fn lemma_covered(piece: Seq<u8>, ranks: Map<Seq<u8>, Rank>)
    requires
        covers_all_bytes(ranks),
    ensures
        bytes_covered(piece, ranks),
{
    assert forall|i: int| 0 <= i < piece.len() implies ranks.contains_key(#[trigger] piece.subrange(i, i + 1)) by {
        assert(piece.subrange(i, i + 1) =~= seq![piece[i]]);
    }
}

/// Whether every byte value is, alone, in the table.
fn has_all_bytes(encoder: &FxHashMap<Vec<u8>, Rank>) -> (r: bool)
    ensures
        r == covers_all_bytes(rank_entries(*encoder)),
{
    let mut b: u16 = 0;
    while b < 256
        invariant
            b <= 256,
            forall|c: u8| (c as int) < b ==> rank_entries(*encoder).contains_key(#[trigger] seq![c]),
        decreases 256 - b,
    {
        let mut key: Vec<u8> = Vec::new();
        key.push(b as u8);
        assert(key@ =~= seq![b as u8]);
        if rank_table_get(encoder, key.as_slice()).is_none() {
            return false;
        }
        b += 1;
    }
    true
}

/// The table that maps each rank back to its byte string; there is none
/// where a rank belongs to two byte strings.
fn build_decoder(encoder: &FxHashMap<Vec<u8>, Rank>) -> (r: Option<FxHashMap<Rank, Vec<u8>>>)
    ensures
        r is Some <==> ranks_distinct(rank_entries(*encoder)),
        r is Some ==> inverse_tables(rank_entries(*encoder), token_entries(r->Some_0)),
{
    let ghost m = rank_entries(*encoder);
    let pairs = rank_table_pairs(encoder);
    let ghost keys = pair_keys(pairs@);
    let mut decoder = token_table_new();
    let mut i: usize = 0;
    while i < pairs.len()
        invariant
            i <= pairs.len(),
            m == rank_entries(*encoder),
            keys == pair_keys(pairs@),
            keys.no_duplicates(),
            keys.to_set() == m.dom(),
            forall|j: int| 0 <= j < pairs@.len() ==> m[(#[trigger] pairs@[j]).0@] == pairs@[j].1,
            forall|j: int|
                0 <= j < i ==> token_entries(decoder).contains_key((#[trigger] pairs@[j]).1)
                    && token_entries(decoder)[pairs@[j].1] == pairs@[j].0@,
            forall|r: Rank|
                token_entries(decoder).contains_key(r) ==> exists|j: int|
                    0 <= j < i && (#[trigger] pairs@[j]).1 == r,
        decreases pairs.len() - i,
    {
        let rank: Rank = pairs[i].1;
        if token_table_get(&decoder, rank).is_some() {
            proof {
                let j = choose|j: int| 0 <= j < i && (#[trigger] pairs@[j]).1 == rank;
                assert(keys[j] == pairs@[j].0@ && keys[i as int] == pairs@[i as int].0@);
                assert(keys[j] != keys[i as int]);
                assert(keys.to_set().contains(keys[j]) && keys.to_set().contains(keys[i as int]));
                assert(m.contains_key(keys[j]) && m.contains_key(keys[i as int]));
            }
            return None;
        }
        let bytes: Vec<u8> = slice_to_vec(pairs[i].0.as_slice());
        let ghost before = token_entries(decoder);
        token_table_insert(&mut decoder, rank, bytes);
        proof {
            assert forall|r: Rank| token_entries(decoder).contains_key(r) implies exists|j: int|
                0 <= j < i + 1 && (#[trigger] pairs@[j]).1 == r by {
                if r == rank {
                    assert(pairs@[i as int].1 == r);
                } else {
                    assert(before.contains_key(r));
                    let j = choose|j: int| 0 <= j < i && (#[trigger] pairs@[j]).1 == r;
                    assert(0 <= j < i + 1 && pairs@[j].1 == r);
                }
            }
            assert forall|j: int| 0 <= j < i + 1 implies token_entries(decoder).contains_key(
                (#[trigger] pairs@[j]).1,
            ) && token_entries(decoder)[pairs@[j].1] == pairs@[j].0@ by {
                if j < i {
                    assert(before.contains_key(pairs@[j].1));
                    assert(pairs@[j].1 != rank);
                }
            }
        }
        i += 1;
    }
    proof {
        let t = token_entries(decoder);
        assert forall|k: Seq<u8>| m.contains_key(k) implies t.contains_key(#[trigger] m[k]) && t[m[k]] == k by {
            assert(keys.to_set().contains(k));
            let j = choose|j: int| 0 <= j < keys.len() && keys[j] == k;
            assert(pairs@[j].0@ == k);
        }
        assert forall|r: Rank| t.contains_key(r) implies m.contains_key(#[trigger] t[r]) && m[t[r]] == r by {
            let j = choose|j: int| 0 <= j < i && (#[trigger] pairs@[j]).1 == r;
            assert(keys[j] == pairs@[j].0@);
            assert(keys.to_set().contains(keys[j]));
        }
        assert forall|a: Seq<u8>, b: Seq<u8>|
            m.contains_key(a) && m.contains_key(b) && m[a] == m[b] implies a == b by {
            assert(t[m[a]] == a && t[m[b]] == b);
        }
    }
    Some(decoder)
}

/// The pattern that matches any label of the table.
fn special_pattern(table: &Vec<(String, Rank)>) -> (r: String)
    ensures
        r@ == alternation(special_view(table@)),
{
    let ghost labels = special_view(table@);
    let mut pattern = String::new();
    let mut i: usize = 0;
    while i < table.len()
        invariant
            i <= table.len(),
            labels == special_view(table@),
            pattern@ == alternation(labels.subrange(0, i as int)),
        decreases table.len() - i,
    {
        let ghost upto = labels.subrange(0, i + 1);
        assert(upto.drop_last() =~= labels.subrange(0, i as int));
        assert(upto.last().0 == table@[i as int].0@);
        if i > 0 {
            proof {
                reveal_strlit("|");
            }
            pattern.append("|");
            assert("|"@ =~= seq!['|']);
        }
        let label = lookaround_escape(table[i].0.as_str());
        pattern.append(label.as_str());
        assert(pattern@ =~= alternation(upto));
        i += 1;
    }
    assert(labels.subrange(0, table.len() as int) =~= labels);
    pattern
}

/// The tokens of the piece that a span cuts out of the bytes of a text:
/// its own rank where the vocabulary holds the piece whole, else what the
/// byte-pair merge leaves. A span that is empty or does not lie in the text
/// gives no token.
pub open spec fn piece_tokens(ranks: Map<Seq<u8>, Rank>, bytes: Seq<u8>, span: (usize, usize)) -> Seq<Rank> {
    if span.0 < span.1 <= bytes.len() {
        let piece = bytes.subrange(span.0 as int, span.1 as int);
        if ranks.contains_key(piece) {
            seq![ranks[piece]]
        } else {
            byte_pair_encode_spec(piece, ranks)
        }
    } else {
        Seq::empty()
    }
}

/// The tokens of all the pieces that the spans cut out, in their order.
pub open spec fn encode_pieces(ranks: Map<Seq<u8>, Rank>, bytes: Seq<u8>, spans: Seq<(usize, usize)>) -> Seq<Rank>
    decreases spans.len(),
{
    if spans.len() == 0 {
        Seq::empty()
    } else {
        encode_pieces(ranks, bytes, spans.drop_last()) + piece_tokens(ranks, bytes, spans.last())
    }
}

/// The bytes of the first entry of the table that has the rank.
pub open spec fn special_bytes(table: Seq<(Seq<char>, Rank)>, token: Rank) -> Option<Seq<u8>>
    decreases table.len(),
{
    if table.len() == 0 {
        None
    } else if table[0].1 == token {
        Some(encode_utf8(table[0].0))
    } else {
        special_bytes(table.drop_first(), token)
    }
}

/// The bytes that a token stands for: those of the token table, else those
/// of a special label; none where neither knows the token.
pub open spec fn token_bytes(tokens: Map<Rank, Seq<u8>>, special: Seq<(Seq<char>, Rank)>, token: Rank) -> Option<Seq<u8>> {
    if tokens.contains_key(token) {
        Some(tokens[token])
    } else {
        special_bytes(special, token)
    }
}

/// The bytes of all the tokens, one after the other; none where a token is
/// unknown.
pub open spec fn decode_bytes(list: Seq<Rank>, tokens: Map<Rank, Seq<u8>>, special: Seq<(Seq<char>, Rank)>) -> Option<Seq<u8>>
    decreases list.len(),
{
    if list.len() == 0 {
        Some(Seq::empty())
    } else {
        match (decode_bytes(list.drop_last(), tokens, special), token_bytes(tokens, special, list.last())) {
            (Some(head), Some(tail)) => Some(head + tail),
            _ => None,
        }
    }
}

/// Where a start of the list does not decode, the list does not.
pub proof fn lemma_decode_prefix(list: Seq<Rank>, tokens: Map<Rank, Seq<u8>>, special: Seq<(Seq<char>, Rank)>, upto: int)
    requires
        0 <= upto <= list.len(),
        decode_bytes(list.subrange(0, upto), tokens, special) is None,
    ensures
        decode_bytes(list, tokens, special) is None,
    decreases list.len(),
{
    if upto < list.len() {
        assert(list.drop_last().subrange(0, upto) =~= list.subrange(0, upto));
        lemma_decode_prefix(list.drop_last(), tokens, special, upto);
    } else {
        assert(list.subrange(0, upto) =~= list);
    }
}

/// The labels of a list of strings.
pub open spec fn label_views(labels: Seq<String>) -> Seq<Seq<char>> {
    labels.map_values(|s: String| s@)
}

/// The rank of the first entry of the table that has the label.
pub open spec fn special_rank(table: Seq<(Seq<char>, Rank)>, label: Seq<char>) -> Option<Rank>
    decreases table.len(),
{
    if table.len() == 0 {
        None
    } else if table[0].0 == label {
        Some(table[0].1)
    } else {
        special_rank(table.drop_first(), label)
    }
}

/// A match can be cut out of the text: it is not empty, starts at or after
/// `from`, lies in the text and on character boundaries.
pub open spec fn usable_match(bytes: Seq<u8>, from: usize, found: (usize, usize)) -> bool {
    &&& from <= found.0 < found.1 <= bytes.len()
    &&& is_char_boundary(bytes, found.0 as int)
    &&& is_char_boundary(bytes, found.1 as int)
}

/// Whether a list of strings holds the label.
fn contains_label(labels: &Vec<String>, label: &String) -> (r: bool)
    ensures
        r == label_views(labels@).contains(label@),
{
    let mut i: usize = 0;
    while i < labels.len()
        invariant
            i <= labels.len(),
            forall|j: int| 0 <= j < i ==> label_views(labels@)[j] != label@,
        decreases labels.len() - i,
    {
        if labels[i] == *label {
            assert(label_views(labels@)[i as int] == label@);
            return true;
        }
        i += 1;
    }
    false
}

/// A vocabulary file gives a tokenizer: it holds enough byte strings, every
/// single byte among them, no rank twice, and the patterns compile.
pub open spec fn o200k_usable(data: Seq<u8>) -> bool {
    &&& vocabulary_of(data).dom().len() >= MIN_VOCABULARY_SIZE
    &&& lookaround_compiles(O200K_BASE_PATTERN@)
    &&& lookaround_compiles(alternation(special_token_table()))
    &&& covers_all_bytes(vocabulary_of(data))
    &&& ranks_distinct(vocabulary_of(data))
}

/// The byte-pair tokenizer: a vocabulary with the table that inverts it, a
/// table of special tokens, and the patterns that cut text into pieces and
/// find special labels.
pub struct CoreBPE {
    encoder: FxHashMap<Vec<u8>, Rank>,
    special_tokens_encoder: Vec<(String, Rank)>,
    decoder: FxHashMap<Rank, Vec<u8>>,
    regex: Regex,
    special_regex: Regex,
}

impl CoreBPE {
    /// The vocabulary: byte strings and their ranks.
    pub closed spec fn ranks(&self) -> Map<Seq<u8>, Rank> {
        rank_entries(self.encoder)
    }

    /// The token table: ranks and their byte strings.
    pub closed spec fn tokens(&self) -> Map<Rank, Seq<u8>> {
        token_entries(self.decoder)
    }

    /// The special tokens: labels and their ranks, in the order of the table.
    pub closed spec fn special_table(&self) -> Seq<(Seq<char>, Rank)> {
        special_view(self.special_tokens_encoder@)
    }

    /// The pattern that cuts text into pieces.
    pub closed spec fn pattern(&self) -> Seq<char> {
        lookaround_source(self.regex)
    }

    /// The pattern that finds special labels.
    pub closed spec fn special_pattern(&self) -> Seq<char> {
        lookaround_source(self.special_regex)
    }

    /// The byte spans of the pieces that the tokenizer's pattern cuts a text
    /// into.
    pub closed spec fn piece_spans(&self, text: Seq<char>) -> Seq<(usize, usize)> {
        lookaround_matches(self.regex, text).0
    }

    /// What the search for a special label finds in a text from a byte
    /// position on.
    pub closed spec fn special_match(&self, text: Seq<char>, pos: usize) -> Result<Option<(usize, usize)>, ()> {
        lookaround_match_from(self.special_regex, text, pos)
    }

    /// Whether the tokenizer's pattern fails on a text before it has cut all
    /// of it into pieces.
    pub closed spec fn piece_failure(&self, text: Seq<char>) -> bool {
        lookaround_matches(self.regex, text).1
    }

    /// The next special label of the text, from byte `from` on, that is
    /// allowed. A label that is found but not allowed moves the search one
    /// byte past its start. The search ends without a label where nothing
    /// more is found, where what is found cannot be cut out of the text, and
    /// where the position to search from is no character boundary of the
    /// text. It fails where the matcher fails.
    pub open spec fn next_allowed(&self, text: Seq<char>, allowed: Seq<Seq<char>>, from: usize) -> Result<Option<(usize, usize)>, ()>
        decreases encode_utf8(text).len() - from,
    {
        let bytes = encode_utf8(text);
        if from > bytes.len() || !is_char_boundary(bytes, from as int) {
            Ok(None)
        } else {
            match self.special_match(text, from) {
                Err(_) => Err(()),
                Ok(None) => Ok(None),
                Ok(Some(found)) => {
                    if !usable_match(bytes, from, found) {
                        Ok(None)
                    } else if allowed.contains(decode_utf8(bytes.subrange(found.0 as int, found.1 as int))) {
                        Ok(Some(found))
                    } else {
                        self.next_allowed(text, allowed, (found.0 + 1) as usize)
                    }
                },
            }
        }
    }

    /// The tokens of the ordinary text between two byte positions; it fails
    /// where the matcher fails on that text.
    pub open spec fn encode_between(&self, text: Seq<char>, from: usize, to: usize) -> Result<Seq<Rank>, ()> {
        let part = decode_utf8(encode_utf8(text).subrange(from as int, to as int));
        if self.piece_failure(part) {
            Err(())
        } else {
            Ok(self.encode_ordinary_spec(part))
        }
    }

    /// The tokens of the text from byte `start` on, with regard to the
    /// special labels that are allowed: those of the ordinary text up to the
    /// next such label, the rank of the label, and those of what follows it.
    pub open spec fn encode_from(&self, text: Seq<char>, allowed: Seq<Seq<char>>, start: usize) -> Result<Seq<Rank>, ()>
        decreases encode_utf8(text).len() - start,
    {
        let bytes = encode_utf8(text);
        match self.next_allowed(text, allowed, start) {
            Err(_) => Err(()),
            Ok(None) => self.encode_between(text, start, bytes.len() as usize),
            Ok(Some(found)) => {
                let label = decode_utf8(bytes.subrange(found.0 as int, found.1 as int));
                match (self.encode_between(text, start, found.0), special_rank(self.special_table(), label)) {
                    (Ok(head), Some(rank)) => {
                        if start < found.1 <= bytes.len() {
                            match self.encode_from(text, allowed, found.1) {
                                Ok(rest) => Ok(head + seq![rank] + rest),
                                Err(_) => Err(()),
                            }
                        } else {
                            Err(())
                        }
                    },
                    _ => Err(()),
                }
            },
        }
    }

    /// The tokens of a text with regard to the special labels that are
    /// allowed.
    pub open spec fn encode_spec(&self, text: Seq<char>, allowed: Seq<Seq<char>>) -> Result<Seq<Rank>, ()> {
        self.encode_from(text, allowed, 0)
    }

    /// The vocabulary holds every single byte, and the token table inverts it.
    pub open spec fn wf(&self) -> bool {
        &&& covers_all_bytes(self.ranks())
        &&& inverse_tables(self.ranks(), self.tokens())
    }

    #[verifier::type_invariant]
    spec fn inv(&self) -> bool {
        self.wf()
    }

    /// The tokens of a text without regard to special labels.
    pub open spec fn encode_ordinary_spec(&self, text: Seq<char>) -> Seq<Rank> {
        encode_pieces(self.ranks(), encode_utf8(text), self.piece_spans(text))
    }

    /// The bytes that a list of tokens stands for.
    pub open spec fn decode_spec(&self, list: Seq<Rank>) -> Option<Seq<u8>> {
        decode_bytes(list, self.tokens(), self.special_table())
    }

    /// The tokenizer of the vocabulary whose file has the given text, with
    /// the standard special tokens and pattern.
    pub fn new_o200k_base(tiktoken_data: &str) -> (r: Result<Self, ProcessingError>)
        ensures
            r is Ok <==> o200k_usable(tiktoken_data.spec_bytes()),
            r is Ok ==> r->Ok_0.wf() && r->Ok_0.ranks() == vocabulary_of(tiktoken_data.spec_bytes())
                && r->Ok_0.special_table() == special_token_table() && r->Ok_0.pattern() == O200K_BASE_PATTERN@
                && r->Ok_0.special_pattern() == alternation(special_token_table()),
            r is Err ==> r->Err_0 is SystemError,
    {
        let encoder = match load_o200k_base_encoder(tiktoken_data) {
            Ok(encoder) => encoder,
            Err(e) => {
                return Err(e);
            },
        };
        let special_tokens_encoder = load_o200k_base_special_tokens();
        Self::new_internal(encoder, special_tokens_encoder, O200K_BASE_PATTERN)
    }

    /// A tokenizer on a vocabulary, a table of special tokens and a pattern
    /// for the pieces. It is made where both patterns compile, the
    /// vocabulary holds every single byte and no rank belongs to two byte
    /// strings.
    pub fn new_internal(
        encoder: FxHashMap<Vec<u8>, Rank>,
        special_tokens_encoder: Vec<(String, Rank)>,
        pattern: &str,
    ) -> (r: Result<Self, ProcessingError>)
        ensures
            r is Ok <==> lookaround_compiles(pattern@) && lookaround_compiles(
                alternation(special_view(special_tokens_encoder@)),
            ) && covers_all_bytes(rank_entries(encoder)) && ranks_distinct(rank_entries(encoder)),
            r is Ok ==> r->Ok_0.wf() && r->Ok_0.ranks() == rank_entries(encoder) && r->Ok_0.special_table()
                == special_view(special_tokens_encoder@) && r->Ok_0.pattern() == pattern@
                && r->Ok_0.special_pattern() == alternation(special_view(special_tokens_encoder@)),
            r is Err ==> r->Err_0 is SystemError,
    {
        let regex = match lookaround_compile(pattern) {
            Ok(regex) => regex,
            Err(e) => {
                let detail = lookaround_error_text(&e);
                return Err(
                    ProcessingError::SystemError(concat_text("Regex compilation failed: ", detail.as_str())),
                );
            },
        };
        let alternatives = special_pattern(&special_tokens_encoder);
        let special_regex = match lookaround_compile(alternatives.as_str()) {
            Ok(regex) => regex,
            Err(e) => {
                let detail = lookaround_error_text(&e);
                return Err(
                    ProcessingError::SystemError(
                        concat_text("Special regex compilation failed: ", detail.as_str()),
                    ),
                );
            },
        };
        if !has_all_bytes(&encoder) {
            return Err(
                ProcessingError::SystemError("Encoder must hold every single byte".to_owned()),
            );
        }
        let decoder = match build_decoder(&encoder) {
            Some(decoder) => decoder,
            None => {
                return Err(
                    ProcessingError::SystemError("Encoder and decoder must be of equal length".to_owned()),
                );
            },
        };
        Ok(CoreBPE { encoder, special_tokens_encoder, decoder, regex, special_regex })
    }

    /// The tokens of the pieces that the spans cut out of a text.
    pub fn encode_spans(&self, text: &str, spans: &Vec<(usize, usize)>) -> (tokens: Vec<Rank>)
        ensures
            tokens@ == encode_pieces(self.ranks(), text.spec_bytes(), spans@),
    {
        proof {
            use_type_invariant(self);
        }
        let bytes = text.as_bytes();
        let mut tokens: Vec<Rank> = Vec::new();
        let mut i: usize = 0;
        while i < spans.len()
            invariant
                i <= spans.len(),
                self.wf(),
                bytes@ == text.spec_bytes(),
                tokens@ == encode_pieces(self.ranks(), bytes@, spans@.subrange(0, i as int)),
            decreases spans.len() - i,
        {
            let from: usize = spans[i].0;
            let to: usize = spans[i].1;
            let ghost upto = spans@.subrange(0, i + 1);
            assert(upto.drop_last() =~= spans@.subrange(0, i as int));
            assert(upto.last() == spans@[i as int]);
            if from < to && to <= bytes.len() {
                let piece = slice_subrange(bytes, from, to);
                match rank_table_get(&self.encoder, piece) {
                    Some(token) => {
                        tokens.push(token);
                    },
                    None => {
                        proof {
                            lemma_covered(piece@, self.ranks());
                        }
                        let mut more = byte_pair_encode(piece, &self.encoder);
                        tokens.append(&mut more);
                    },
                }
            }
            assert(tokens@ =~= encode_pieces(self.ranks(), bytes@, upto));
            i += 1;
        }
        assert(spans@.subrange(0, spans.len() as int) =~= spans@);
        tokens
    }

    /// Encodes a text without regard to special labels: the tokens of its
    /// pieces, in their order. Where the matcher fails on the text, these
    /// are the tokens of the pieces before the failure.
    pub fn encode_ordinary(&self, text: &str) -> (tokens: Vec<Rank>)
        ensures
            tokens@ == self.encode_ordinary_spec(text@),
    {
        let found = lookaround_find_all(&self.regex, text);
        self.encode_spans(text, &found.0)
    }

    /// The number of tokens of a text.
    pub fn count_tokens(&self, text: &str) -> (r: Result<usize, ProcessingError>)
        ensures
            r is Ok,
            r->Ok_0 == self.encode_ordinary_spec(text@).len(),
    {
        let tokens = self.encode_ordinary(text);
        Ok(tokens.len())
    }

    /// The rank of a special label.
    fn rank_of_label(&self, label: &String) -> (r: Option<Rank>)
        ensures
            r == special_rank(self.special_table(), label@),
    {
        let ghost table = self.special_table();
        let mut i: usize = 0;
        assert(table.subrange(0, table.len() as int) =~= table);
        while i < self.special_tokens_encoder.len()
            invariant
                i <= self.special_tokens_encoder.len(),
                table == special_view(self.special_tokens_encoder@),
                special_rank(table, label@) == special_rank(table.subrange(i as int, table.len() as int), label@),
            decreases self.special_tokens_encoder.len() - i,
        {
            let ghost rest = table.subrange(i as int, table.len() as int);
            assert(rest[0] == table[i as int]);
            assert(rest.drop_first() =~= table.subrange(i + 1, table.len() as int));
            if self.special_tokens_encoder[i].0 == *label {
                return Some(self.special_tokens_encoder[i].1);
            }
            i += 1;
        }
        None
    }

    /// The next special label from byte `from` on that is allowed.
    fn find_allowed(&self, text: &str, allowed_special: &Vec<String>, from: usize) -> (r: Result<Option<(usize, usize)>, ProcessingError>)
        ensures
            r is Ok <==> self.next_allowed(text@, label_views(allowed_special@), from) is Ok,
            r is Ok ==> r->Ok_0 == self.next_allowed(text@, label_views(allowed_special@), from)->Ok_0,
            r is Ok && r->Ok_0 is Some ==> usable_match(text.spec_bytes(), from, r->Ok_0->Some_0),
            r is Err ==> r->Err_0 is SystemError,
    {
        let ghost allowed = label_views(allowed_special@);
        let ghost bytes = text.spec_bytes();
        let length: usize = text.as_bytes().len();
        let mut at: usize = from;
        proof {
            encode_utf8_valid_utf8(text@);
        }
        loop
            invariant
                from <= at,
                length == bytes.len(),
                bytes == text.spec_bytes(),
                valid_utf8(bytes),
                allowed == label_views(allowed_special@),
                self.next_allowed(text@, allowed, at) == self.next_allowed(text@, allowed, from),
            decreases length + 1 - at,
        {
            if at > length || !text.is_char_boundary(at) {
                return Ok(None);
            }
            let found = match lookaround_find_from(&self.special_regex, text, at) {
                Ok(Some(found)) => found,
                Ok(None) => {
                    return Ok(None);
                },
                Err(e) => {
                    let detail = lookaround_error_text(&e);
                    return Err(ProcessingError::SystemError(concat_text("Special regex error: ", detail.as_str())));
                },
            };
            if !(at <= found.0 && found.0 < found.1 && found.1 <= length) {
                return Ok(None);
            }
            let label = match slice_text(text, found.0, found.1) {
                Some(label) => label,
                None => {
                    return Ok(None);
                },
            };
            proof {
                encode_utf8_decode_utf8(label@);
            }
            if contains_label(allowed_special, &label) {
                return Ok(Some(found));
            }
            at = found.0 + 1;
        }
    }

    /// Encodes a text with regard to special labels: each label of
    /// `allowed_special` that occurs in the text gives its rank, and the
    /// text between such labels is encoded as ordinary text. It fails where
    /// the matcher fails, or a label that was found is not in the table of
    /// special tokens.
    pub fn encode(&self, text: &str, allowed_special: &Vec<String>) -> (r: Result<Vec<Rank>, ProcessingError>)
        ensures
            r is Ok <==> self.encode_spec(text@, label_views(allowed_special@)) is Ok,
            r is Ok ==> r->Ok_0@ == self.encode_spec(text@, label_views(allowed_special@))->Ok_0,
            r is Err ==> r->Err_0 is SystemError,
    {
        let ghost allowed = label_views(allowed_special@);
        let ghost bytes = text.spec_bytes();
        let length: usize = text.as_bytes().len();
        let mut ret: Vec<Rank> = Vec::new();
        let mut start: usize = 0;
        proof {
            encode_utf8_valid_utf8(text@);
            is_char_boundary_start_end_of_seq(bytes);
        }
        loop
            invariant
                start <= length,
                length == bytes.len(),
                bytes == text.spec_bytes(),
                valid_utf8(bytes),
                is_char_boundary(bytes, start as int),
                is_char_boundary(bytes, length as int),
                allowed == label_views(allowed_special@),
                self.encode_from(text@, allowed, start) is Err ==> self.encode_spec(text@, allowed) is Err,
                self.encode_from(text@, allowed, start) is Ok ==> self.encode_spec(text@, allowed) == Ok::<Seq<Rank>, ()>(
                    ret@ + self.encode_from(text@, allowed, start)->Ok_0,
                ),
            decreases length - start,
        {
            let next = match self.find_allowed(text, allowed_special, start) {
                Ok(next) => next,
                Err(e) => {
                    return Err(e);
                },
            };
            let end: usize = match next {
                Some(found) => found.0,
                None => length,
            };
            let part = match slice_text(text, start, end) {
                Some(part) => part,
                None => {
                    assert(false);
                    return Err(ProcessingError::SystemError("Regex error".to_owned()));
                },
            };
            proof {
                encode_utf8_decode_utf8(part@);
            }
            let found = lookaround_find_all(&self.regex, part.as_str());
            match found.1 {
                Some(e) => {
                    let detail = lookaround_error_text(&e);
                    return Err(ProcessingError::SystemError(concat_text("Regex error: ", detail.as_str())));
                },
                None => {},
            }
            let ghost before = ret@;
            let mut head = self.encode_spans(part.as_str(), &found.0);
            let ghost head_tokens = head@;
            ret.append(&mut head);
            match next {
                Some(found) => {
                    let label = match slice_text(text, found.0, found.1) {
                        Some(label) => label,
                        None => {
                            assert(false);
                            return Err(ProcessingError::SystemError("Regex error".to_owned()));
                        },
                    };
                    proof {
                        encode_utf8_decode_utf8(label@);
                    }
                    match self.rank_of_label(&label) {
                        Some(rank) => {
                            ret.push(rank);
                            proof {
                                let rest = self.encode_from(text@, allowed, found.1);
                                if rest is Ok {
                                    assert(before + (head_tokens + seq![rank] + rest->Ok_0) =~= ret@ + rest->Ok_0);
                                }
                            }
                            start = found.1;
                        },
                        None => {
                            return Err(ProcessingError::SystemError("Unknown special token".to_owned()));
                        },
                    }
                },
                None => {
                    return Ok(ret);
                },
            }
        }
    }

    /// The bytes that a token stands for.
    fn bytes_of(&self, token: Rank) -> (r: Option<Vec<u8>>)
        ensures
            r is Some <==> token_bytes(self.tokens(), self.special_table(), token) is Some,
            r is Some ==> r->Some_0@ == token_bytes(self.tokens(), self.special_table(), token)->Some_0,
    {
        match token_table_get(&self.decoder, token) {
            Some(bytes) => Some(slice_to_vec(bytes.as_slice())),
            None => {
                let ghost table = self.special_table();
                let mut i: usize = 0;
                assert(table.subrange(0, table.len() as int) =~= table);
                while i < self.special_tokens_encoder.len()
                    invariant
                        i <= self.special_tokens_encoder.len(),
                        table == special_view(self.special_tokens_encoder@),
                        table == self.special_table(),
                        !self.tokens().contains_key(token),
                        special_bytes(table, token) == special_bytes(table.subrange(i as int, table.len() as int), token),
                    decreases self.special_tokens_encoder.len() - i,
                {
                    let ghost rest = table.subrange(i as int, table.len() as int);
                    assert(rest[0] == table[i as int]);
                    assert(rest.drop_first() =~= table.subrange(i + 1, table.len() as int));
                    if self.special_tokens_encoder[i].1 == token {
                        let label = self.special_tokens_encoder[i].0.as_str();
                        assert(table[i as int] == (label@, token));
                        assert(special_bytes(rest, token) == Some(encode_utf8(label@)));
                        return Some(slice_to_vec(label.as_bytes()));
                    }
                    assert(special_bytes(rest, token) == special_bytes(rest.drop_first(), token));
                    i += 1;
                }
                None
            },
        }
    }

    /// Decodes a list of tokens: the text whose bytes are those of the
    /// tokens, one after the other. It fails where a token is unknown or the
    /// bytes are not well-formed UTF-8.
    pub fn decode(&self, tokens: &[Rank]) -> (r: Result<String, ProcessingError>)
        ensures
            r is Ok <==> self.decode_spec(tokens@) is Some && valid_utf8(self.decode_spec(tokens@)->Some_0),
            r is Ok ==> encode_utf8(r->Ok_0@) == self.decode_spec(tokens@)->Some_0,
            r is Err ==> r->Err_0 is SystemError,
    {
        let mut bytes: Vec<u8> = Vec::new();
        let mut i: usize = 0;
        while i < tokens.len()
            invariant
                i <= tokens.len(),
                self.decode_spec(tokens@.subrange(0, i as int)) == Some(bytes@),
            decreases tokens.len() - i,
        {
            let ghost upto = tokens@.subrange(0, i + 1);
            assert(upto.drop_last() =~= tokens@.subrange(0, i as int));
            assert(upto.last() == tokens@[i as int]);
            match self.bytes_of(tokens[i]) {
                Some(more) => {
                    bytes.extend_from_slice(more.as_slice());
                },
                None => {
                    proof {
                        lemma_decode_prefix(tokens@, self.tokens(), self.special_table(), i + 1);
                    }
                    return Err(ProcessingError::SystemError("Invalid token".to_owned()));
                },
            }
            i += 1;
        }
        assert(tokens@.subrange(0, tokens.len() as int) =~= tokens@);
        match string_from_utf8(bytes) {
            Some(text) => Ok(text),
            None => Err(ProcessingError::SystemError("UTF-8 decode error".to_owned())),
        }
    }

    /// The labels of the special tokens, in the order of the table.
    pub fn special_tokens(&self) -> (labels: Vec<String>)
        ensures
            labels@.len() == self.special_table().len(),
            forall|i: int| 0 <= i < labels@.len() ==> (#[trigger] labels@[i])@ == self.special_table()[i].0,
    {
        let mut labels: Vec<String> = Vec::new();
        let mut i: usize = 0;
        while i < self.special_tokens_encoder.len()
            invariant
                i <= self.special_tokens_encoder.len(),
                labels@.len() == i,
                forall|j: int| 0 <= j < i ==> (#[trigger] labels@[j])@ == self.special_tokens_encoder@[j].0@,
            decreases self.special_tokens_encoder.len() - i,
        {
            labels.push(self.special_tokens_encoder[i].0.clone());
            i += 1;
        }
        labels
    }
}

/// The merge keeps the cut points valid and every span in the vocabulary.
pub proof fn lemma_merge_bounds_known(ranks: Map<Seq<u8>, Rank>, piece: Seq<u8>, bounds: Seq<int>)
    requires
        valid_bounds(bounds, piece.len() as int),
        spans_known(ranks, piece, bounds),
    ensures
        valid_bounds(merge_bounds(ranks, piece, bounds), piece.len() as int),
        spans_known(ranks, piece, merge_bounds(ranks, piece, bounds)),
    decreases bounds.len(),
{
    let i = best_pair(ranks, piece, bounds, bounds.len() - 2);
    if 0 <= i && i + 1 < bounds.len() {
        lemma_best_pair(ranks, piece, bounds, bounds.len() - 2);
        lemma_merge_step(ranks, piece, bounds, i);
        lemma_merge_bounds_known(ranks, piece, bounds.remove(i + 1));
    }
}

/// The bytes of a list of tokens followed by another are the bytes of the
/// one followed by those of the other.
pub proof fn lemma_decode_concat(head: Seq<Rank>, tail: Seq<Rank>, tokens: Map<Rank, Seq<u8>>, special: Seq<(Seq<char>, Rank)>)
    ensures
        decode_bytes(head + tail, tokens, special) == (match (
            decode_bytes(head, tokens, special),
            decode_bytes(tail, tokens, special),
        ) {
            (Some(a), Some(b)) => Some(a + b),
            _ => None,
        }),
    decreases tail.len(),
{
    if tail.len() == 0 {
        assert(head + tail =~= head);
        if decode_bytes(head, tokens, special) is Some {
            assert(decode_bytes(head, tokens, special)->Some_0 + Seq::<u8>::empty() =~= decode_bytes(
                head,
                tokens,
                special,
            )->Some_0);
        }
    } else {
        assert((head + tail).drop_last() =~= head + tail.drop_last());
        assert((head + tail).last() == tail.last());
        lemma_decode_concat(head, tail.drop_last(), tokens, special);
        match (
            decode_bytes(head, tokens, special),
            decode_bytes(tail.drop_last(), tokens, special),
            token_bytes(tokens, special, tail.last()),
        ) {
            (Some(a), Some(b), Some(c)) => {
                assert((a + b) + c =~= a + (b + c));
            },
            _ => {},
        }
    }
}

/// The ranks of the first `count` spans decode to the piece up to the cut
/// point with that index.
proof fn lemma_spans_decode(
    ranks: Map<Seq<u8>, Rank>,
    tokens: Map<Rank, Seq<u8>>,
    special: Seq<(Seq<char>, Rank)>,
    piece: Seq<u8>,
    bounds: Seq<int>,
    count: int,
)
    requires
        valid_bounds(bounds, piece.len() as int),
        spans_known(ranks, piece, bounds),
        inverse_tables(ranks, tokens),
        0 <= count <= bounds.len() - 1,
    ensures
        decode_bytes(span_ranks(ranks, piece, bounds).subrange(0, count), tokens, special) == Some(
            piece.subrange(0, bounds[count]),
        ),
    decreases count,
{
    let all = span_ranks(ranks, piece, bounds);
    if count == 0 {
        assert(all.subrange(0, 0) =~= Seq::empty());
        assert(piece.subrange(0, 0) =~= Seq::empty());
    } else {
        lemma_spans_decode(ranks, tokens, special, piece, bounds, count - 1);
        let upto = all.subrange(0, count);
        assert(upto.drop_last() =~= all.subrange(0, count - 1));
        let k = count - 1;
        let span = piece.subrange(bounds[k], bounds[k + 1]);
        assert(upto.last() == ranks[span]);
        assert(ranks.contains_key(span));
        assert(tokens.contains_key(ranks[span]) && tokens[ranks[span]] == span);
        assert(bounds[0] <= bounds[k] < bounds[k + 1] <= bounds[bounds.len() - 1]) by {
            if k > 0 {
                assert(bounds[0] < bounds[k]);
            }
            if k + 1 < bounds.len() - 1 {
                assert(bounds[k + 1] < bounds[bounds.len() - 1]);
            }
        }
        assert(piece.subrange(0, bounds[k]) + span =~= piece.subrange(0, bounds[count]));
    }
}

/// Where the vocabulary holds every single byte and the token table
/// inverts it, the tokens of a piece decode to the piece.
pub proof fn law_piece_round_trip(
    piece: Seq<u8>,
    ranks: Map<Seq<u8>, Rank>,
    tokens: Map<Rank, Seq<u8>>,
    special: Seq<(Seq<char>, Rank)>,
)
    requires
        covers_all_bytes(ranks),
        inverse_tables(ranks, tokens),
    ensures
        decode_bytes(byte_pair_encode_spec(piece, ranks), tokens, special) == Some(piece),
{
    let start = initial_bounds(piece.len());
    if piece.len() == 0 {
        assert(merge_bounds(ranks, piece, start) == start);
        assert(span_ranks(ranks, piece, start) =~= Seq::empty());
        assert(piece =~= Seq::empty());
    } else {
        lemma_covered(piece, ranks);
        assert forall|k: int| 0 <= k < start.len() - 1 implies ranks.contains_key(
            #[trigger] piece.subrange(start[k], start[k + 1]),
        ) by {
            assert(ranks.contains_key(piece.subrange(k, k + 1)));
        }
        lemma_merge_bounds_known(ranks, piece, start);
        let bounds = merge_bounds(ranks, piece, start);
        lemma_spans_decode(ranks, tokens, special, piece, bounds, bounds.len() - 1);
        assert(span_ranks(ranks, piece, bounds).subrange(0, bounds.len() - 1) =~= span_ranks(
            ranks,
            piece,
            bounds,
        ));
        assert(piece.subrange(0, bounds[bounds.len() - 1]) =~= piece);
    }
}

/// Where the vocabulary holds every single byte, a piece of one byte
/// encodes to exactly one token: the rank of that byte.
pub proof fn law_single_byte_one_token(b: u8, ranks: Map<Seq<u8>, Rank>)
    requires
        covers_all_bytes(ranks),
    ensures
        byte_pair_encode_spec(seq![b], ranks) == seq![ranks[seq![b]]],
{
    let piece = seq![b];
    let start = initial_bounds(piece.len());
    assert(best_pair(ranks, piece, start, 0) == -1);
    assert(merge_bounds(ranks, piece, start) == start);
    assert(piece.subrange(start[0], start[1]) =~= piece);
    assert(span_ranks(ranks, piece, start) =~= seq![ranks[piece]]);
}

/// The spans follow one another from the start of the bytes to `end`, and
/// none is empty.
pub open spec fn spans_tile(bytes: Seq<u8>, spans: Seq<(usize, usize)>, end: int) -> bool
    decreases spans.len(),
{
    if spans.len() == 0 {
        end == 0
    } else {
        &&& spans.last().0 < spans.last().1 <= bytes.len()
        &&& spans.last().1 == end
        &&& spans_tile(bytes, spans.drop_last(), spans.last().0 as int)
    }
}

/// Where the spans follow one another from the start of the bytes to
/// `end`, the tokens of their pieces decode to the bytes up to `end`.
pub proof fn law_pieces_round_trip(
    bytes: Seq<u8>,
    spans: Seq<(usize, usize)>,
    end: int,
    ranks: Map<Seq<u8>, Rank>,
    tokens: Map<Rank, Seq<u8>>,
    special: Seq<(Seq<char>, Rank)>,
)
    requires
        covers_all_bytes(ranks),
        inverse_tables(ranks, tokens),
        spans_tile(bytes, spans, end),
    ensures
        0 <= end <= bytes.len(),
        decode_bytes(encode_pieces(ranks, bytes, spans), tokens, special) == Some(bytes.subrange(0, end)),
    decreases spans.len(),
{
    if spans.len() == 0 {
        assert(bytes.subrange(0, 0) =~= Seq::empty());
    } else {
        let span = spans.last();
        law_pieces_round_trip(bytes, spans.drop_last(), span.0 as int, ranks, tokens, special);
        let piece = bytes.subrange(span.0 as int, span.1 as int);
        let head = encode_pieces(ranks, bytes, spans.drop_last());
        let tail = piece_tokens(ranks, bytes, span);
        if ranks.contains_key(piece) {
            assert(seq![ranks[piece]].drop_last() =~= Seq::empty());
            assert(decode_bytes(Seq::<Rank>::empty(), tokens, special) == Some(Seq::<u8>::empty()));
            assert(Seq::<u8>::empty() + piece =~= piece);
            assert(decode_bytes(tail, tokens, special) == Some(piece));
        } else {
            law_piece_round_trip(piece, ranks, tokens, special);
        }
        lemma_decode_concat(head, tail, tokens, special);
        assert(bytes.subrange(0, span.0 as int) + piece =~= bytes.subrange(0, end));
    }
}

/// Where the pieces of a text follow one another from its start to its
/// end, the tokens of the text decode to the text.
pub proof fn law_round_trip(tokenizer: &CoreBPE, text: Seq<char>)
    requires
        tokenizer.wf(),
        spans_tile(encode_utf8(text), tokenizer.piece_spans(text), encode_utf8(text).len() as int),
    ensures
        tokenizer.decode_spec(tokenizer.encode_ordinary_spec(text)) == Some(encode_utf8(text)),
        valid_utf8(encode_utf8(text)),
        decode_utf8(encode_utf8(text)) == text,
{
    let bytes = encode_utf8(text);
    law_pieces_round_trip(
        bytes,
        tokenizer.piece_spans(text),
        bytes.len() as int,
        tokenizer.ranks(),
        tokenizer.tokens(),
        tokenizer.special_table(),
    );
    assert(bytes.subrange(0, bytes.len() as int) =~= bytes);
    encode_utf8_valid_utf8(text);
    encode_utf8_decode_utf8(text);
}

} // verus!
