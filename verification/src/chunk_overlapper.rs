//! Overlap between neighbouring chunks: each chunk but the first starts
//! with the text of the last tokens of the chunk before it.

use crate::chunk_merger::{chunk_views, join_with_space, token_count, SemanticChunk, SemanticChunkView};
use crate::chunking::{dense_ids, record_views, ChunkMetadata, ChunkMetadataView};
use crate::error::{concat_text, ProcessingError};
use crate::text::{blank, is_blank, trim, trimmed};
use crate::tiktoken_core::{CoreBPE, Rank};
use vstd::prelude::*;
use vstd::slice::slice_subrange;
use vstd::utf8::{decode_utf8, encode_utf8_decode_utf8, valid_utf8};

verus! {

/// The last `count` tokens of a list, or all of it where it has no more.
pub open spec fn last_tokens(list: Seq<Rank>, count: usize) -> Seq<Rank> {
    if list.len() > count {
        list.subrange(list.len() - count, list.len() as int)
    } else {
        list
    }
}

/// The overlap and the chunk put together: one after the other as they
/// are where either is blank, else both trimmed with one space between
/// them.
pub open spec fn overlap_joined(overlap: Seq<char>, chunk: Seq<char>) -> Seq<char> {
    if blank(overlap) || blank(chunk) {
        overlap + chunk
    } else {
        trimmed(overlap) + seq![' '] + trimmed(chunk)
    }
}

/// The text of a chunk with the overlap from the tokens of the chunk before
/// it. Nothing is added where no overlap is asked for or there are no
/// tokens; there is no text where the last tokens do not decode.
pub open spec fn overlap_text(tokenizer: &CoreBPE, overlap_tokens: usize, chunk: Seq<char>, previous: Seq<Rank>) -> Option<Seq<char>> {
    if overlap_tokens == 0 || previous.len() == 0 {
        Some(chunk)
    } else {
        match tokenizer.decode_spec(last_tokens(previous, overlap_tokens)) {
            Some(bytes) => if valid_utf8(bytes) {
                Some(overlap_joined(decode_utf8(bytes), chunk))
            } else {
                None
            },
            None => None,
        }
    }
}

/// The final texts of the chunks: the first as it is, each other one with
/// the overlap from the tokens of the final text before it.
pub open spec fn final_texts(tokenizer: &CoreBPE, overlap_tokens: usize, chunks: Seq<SemanticChunkView>) -> Option<Seq<Seq<char>>>
    decreases chunks.len(),
{
    if chunks.len() == 0 {
        Some(Seq::empty())
    } else if chunks.len() == 1 {
        Some(seq![chunks[0].text])
    } else {
        match final_texts(tokenizer, overlap_tokens, chunks.drop_last()) {
            None => None,
            Some(before) => match overlap_text(
                tokenizer,
                overlap_tokens,
                chunks.last().text,
                tokenizer.encode_ordinary_spec(before.last()),
            ) {
                None => None,
                Some(text) => Some(before.push(text)),
            },
        }
    }
}

/// The record of the chunk with a given id.
pub open spec fn record_of(tokenizer: &CoreBPE, page: usize, chunk_id: int, text: Seq<char>, source: Seq<char>) -> ChunkMetadataView {
    ChunkMetadataView {
        page,
        chunk_id: chunk_id as usize,
        text,
        source,
        token_count: token_count(tokenizer, text) as usize,
    }
}

/// The records of a list of final texts: ids from 0 up, and the token count
/// of each final text.
pub open spec fn records_of(tokenizer: &CoreBPE, page: usize, texts: Seq<Seq<char>>, source: Seq<char>) -> Seq<ChunkMetadataView> {
    Seq::new(texts.len(), |k: int| record_of(tokenizer, page, k, texts[k], source))
}

/// Final texts are as many as the chunks.
pub proof fn lemma_final_texts_len(tokenizer: &CoreBPE, overlap_tokens: usize, chunks: Seq<SemanticChunkView>)
    ensures
        final_texts(tokenizer, overlap_tokens, chunks) is Some ==> final_texts(
            tokenizer,
            overlap_tokens,
            chunks,
        )->Some_0.len() == chunks.len(),
    decreases chunks.len(),
{
    if chunks.len() > 1 {
        lemma_final_texts_len(tokenizer, overlap_tokens, chunks.drop_last());
    }
}

/// Where the final texts of a start of the list fail, those of the list do.
pub proof fn lemma_final_texts_prefix(tokenizer: &CoreBPE, overlap_tokens: usize, chunks: Seq<SemanticChunkView>, upto: int)
    requires
        0 <= upto <= chunks.len(),
        final_texts(tokenizer, overlap_tokens, chunks.subrange(0, upto)) is None,
    ensures
        final_texts(tokenizer, overlap_tokens, chunks) is None,
    decreases chunks.len(),
{
    if upto < chunks.len() {
        assert(chunks.drop_last().subrange(0, upto) =~= chunks.subrange(0, upto));
        lemma_final_texts_prefix(tokenizer, overlap_tokens, chunks.drop_last(), upto);
    } else {
        assert(chunks.subrange(0, upto) =~= chunks);
    }
}

/// The final texts of a start of the chunks are a start of the final texts.
pub proof fn lemma_final_texts_stable(tokenizer: &CoreBPE, overlap_tokens: usize, chunks: Seq<SemanticChunkView>, upto: int)
    requires
        0 <= upto <= chunks.len(),
        final_texts(tokenizer, overlap_tokens, chunks) is Some,
    ensures
        final_texts(tokenizer, overlap_tokens, chunks.subrange(0, upto)) == Some(
            final_texts(tokenizer, overlap_tokens, chunks)->Some_0.subrange(0, upto),
        ),
    decreases chunks.len(),
{
    let texts = final_texts(tokenizer, overlap_tokens, chunks)->Some_0;
    lemma_final_texts_len(tokenizer, overlap_tokens, chunks);
    if upto == chunks.len() {
        assert(chunks.subrange(0, upto) =~= chunks);
        assert(texts.subrange(0, upto) =~= texts);
    } else if chunks.len() == 1 {
        assert(chunks.subrange(0, 0) =~= Seq::empty());
        assert(texts.subrange(0, 0) =~= Seq::empty());
    } else {
        let before = final_texts(tokenizer, overlap_tokens, chunks.drop_last())->Some_0;
        lemma_final_texts_len(tokenizer, overlap_tokens, chunks.drop_last());
        lemma_final_texts_stable(tokenizer, overlap_tokens, chunks.drop_last(), upto);
        assert(chunks.drop_last().subrange(0, upto) =~= chunks.subrange(0, upto));
        assert(before.subrange(0, upto) =~= texts.subrange(0, upto));
    }
}

/// Each final text but the first is made of the text of the last tokens of
/// the final text before it and of the text of its chunk.
pub proof fn law_final_text_overlaps(tokenizer: &CoreBPE, overlap_tokens: usize, chunks: Seq<SemanticChunkView>, k: int)
    requires
        final_texts(tokenizer, overlap_tokens, chunks) is Some,
        1 <= k < chunks.len(),
    ensures
        final_texts(tokenizer, overlap_tokens, chunks)->Some_0.len() == chunks.len(),
        overlap_text(
            tokenizer,
            overlap_tokens,
            chunks[k].text,
            tokenizer.encode_ordinary_spec(final_texts(tokenizer, overlap_tokens, chunks)->Some_0[k - 1]),
        ) == Some(final_texts(tokenizer, overlap_tokens, chunks)->Some_0[k]),
{
    let texts = final_texts(tokenizer, overlap_tokens, chunks)->Some_0;
    lemma_final_texts_len(tokenizer, overlap_tokens, chunks);
    let upto = chunks.subrange(0, k + 1);
    lemma_final_texts_stable(tokenizer, overlap_tokens, chunks, k + 1);
    lemma_final_texts_stable(tokenizer, overlap_tokens, chunks, k);
    assert(upto.drop_last() =~= chunks.subrange(0, k));
    assert(upto.last() == chunks[k]);
    assert(texts.subrange(0, k).last() == texts[k - 1]);
    assert(texts.subrange(0, k + 1).last() == texts[k]);
    let before = texts.subrange(0, k);
    let made = overlap_text(tokenizer, overlap_tokens, chunks[k].text, tokenizer.encode_ordinary_spec(before.last()));
    assert(made is Some);
    assert(before.push(made->Some_0) == texts.subrange(0, k + 1));
    assert(before.push(made->Some_0).last() == made->Some_0);
}

/// Where neither the overlap nor the chunk is blank, the text made of them
/// starts with the overlap, trimmed, and one space, and the chunk,
/// trimmed, follows.
pub proof fn law_overlap_starts_text(overlap: Seq<char>, chunk: Seq<char>)
    requires
        !blank(overlap),
        !blank(chunk),
    ensures
        trimmed(overlap).len() > 0,
        overlap_joined(overlap, chunk).subrange(0, trimmed(overlap).len() as int) == trimmed(overlap),
        overlap_joined(overlap, chunk)[trimmed(overlap).len() as int] == ' ',
        overlap_joined(overlap, chunk).subrange(
            (trimmed(overlap).len() + 1) as int,
            overlap_joined(overlap, chunk).len() as int,
        ) == trimmed(chunk),
{
    crate::text::lemma_trimmed_ends(overlap);
    let joined = overlap_joined(overlap, chunk);
    assert(joined.subrange(0, trimmed(overlap).len() as int) =~= trimmed(overlap));
    assert(joined.subrange((trimmed(overlap).len() + 1) as int, joined.len() as int) =~= trimmed(chunk));
}

/// Puts overlap between chunks and makes the records that go to the caller.
pub struct ChunkOverlapper {
    overlap_tokens: usize,
    tokenizer: CoreBPE,
}

impl ChunkOverlapper {
    /// The number of tokens that overlap.
    pub closed spec fn overlap(&self) -> usize {
        self.overlap_tokens
    }

    /// The tokenizer that encodes and decodes.
    pub closed spec fn counter(&self) -> &CoreBPE {
        &self.tokenizer
    }

    /// An overlapper with a number of tokens and a tokenizer.
    pub fn new(overlap_tokens: usize, tokenizer: CoreBPE) -> (r: Self)
        ensures
            r.overlap() == overlap_tokens,
            *r.counter() == tokenizer,
    {
        ChunkOverlapper { overlap_tokens, tokenizer }
    }

    /// The text of a chunk with the overlap from the tokens of the final
    /// text before it.
    pub fn overlap_with(tokenizer: &CoreBPE, overlap_tokens: usize, chunk_text: &str, previous_tokens: &[Rank]) -> (r: Result<String, ProcessingError>)
        ensures
            r is Ok <==> overlap_text(tokenizer, overlap_tokens, chunk_text@, previous_tokens@) is Some,
            r is Ok ==> r->Ok_0@ == overlap_text(tokenizer, overlap_tokens, chunk_text@, previous_tokens@)->Some_0,
            r is Err ==> r->Err_0 is ChunkingError,
    {
        if overlap_tokens == 0 || previous_tokens.len() == 0 {
            return Ok(chunk_text.to_owned());
        }
        let overlap_start: usize = if previous_tokens.len() > overlap_tokens {
            previous_tokens.len() - overlap_tokens
        } else {
            0
        };
        let tail = slice_subrange(previous_tokens, overlap_start, previous_tokens.len());
        assert(tail@ =~= last_tokens(previous_tokens@, overlap_tokens));
        let overlap = match tokenizer.decode(tail) {
            Ok(overlap) => overlap,
            Err(e) => {
                let detail = e.message();
                return Err(
                    ProcessingError::ChunkingError(concat_text("Failed to decode overlap tokens: ", detail.as_str())),
                );
            },
        };
        proof {
            encode_utf8_decode_utf8(overlap@);
        }
        if is_blank(overlap.as_str()) || is_blank(chunk_text) {
            Ok(concat_text(overlap.as_str(), chunk_text))
        } else {
            let head = trim(overlap.as_str());
            let rest = trim(chunk_text);
            Ok(join_with_space(head.as_str(), rest.as_str()))
        }
    }

    /// The records of the chunks of a page, with overlap.
    pub fn finalize_with(tokenizer: &CoreBPE, overlap_tokens: usize, semantic_chunks: &Vec<SemanticChunk>, page_num: usize, source: &str) -> (r: Result<Vec<ChunkMetadata>, ProcessingError>)
        ensures
            r is Ok <==> final_texts(tokenizer, overlap_tokens, chunk_views(semantic_chunks@)) is Some,
            r is Ok ==> record_views(r->Ok_0@) == records_of(
                tokenizer,
                page_num,
                final_texts(tokenizer, overlap_tokens, chunk_views(semantic_chunks@))->Some_0,
                source@,
            ),
            r is Ok ==> r->Ok_0@.len() == semantic_chunks@.len() && dense_ids(record_views(r->Ok_0@)),
            r is Err ==> r->Err_0 is ChunkingError,
    {
        let ghost views = chunk_views(semantic_chunks@);
        let mut final_chunks: Vec<ChunkMetadata> = Vec::new();
        let mut previous_chunk_tokens: Vec<Rank> = Vec::new();
        let ghost mut texts: Seq<Seq<char>> = Seq::empty();
        let mut chunk_id: usize = 0;
        assert(views.subrange(0, 0) =~= Seq::empty());
        assert(record_views(final_chunks@) =~= records_of(tokenizer, page_num, texts, source@));
        while chunk_id < semantic_chunks.len()
            invariant
                chunk_id <= semantic_chunks.len(),
                views == chunk_views(semantic_chunks@),
                final_texts(tokenizer, overlap_tokens, views.subrange(0, chunk_id as int)) == Some(texts),
                texts.len() == chunk_id,
                chunk_id > 0 ==> previous_chunk_tokens@ == tokenizer.encode_ordinary_spec(texts.last()),
                record_views(final_chunks@) == records_of(tokenizer, page_num, texts, source@),
            decreases semantic_chunks.len() - chunk_id,
        {
            let semantic_chunk = &semantic_chunks[chunk_id];
            let ghost upto = views.subrange(0, chunk_id + 1);
            assert(upto.drop_last() =~= views.subrange(0, chunk_id as int));
            assert(upto.last() == semantic_chunk@);
            let chunk_text = if chunk_id == 0 {
                semantic_chunk.text.clone()
            } else {
                match Self::overlap_with(
                    tokenizer,
                    overlap_tokens,
                    semantic_chunk.text.as_str(),
                    previous_chunk_tokens.as_slice(),
                ) {
                    Ok(text) => text,
                    Err(e) => {
                        proof {
                            lemma_final_texts_prefix(tokenizer, overlap_tokens, views, chunk_id + 1);
                        }
                        return Err(e);
                    },
                }
            };
            let chunk_tokens = tokenizer.encode_ordinary(chunk_text.as_str());
            let token_count = chunk_tokens.len();
            previous_chunk_tokens = chunk_tokens;
            let ghost before = record_views(final_chunks@);
            let ghost old_texts = texts;
            let ghost added = record_of(tokenizer, page_num, chunk_id as int, chunk_text@, source@);
            proof {
                texts = texts.push(chunk_text@);
                assert(final_texts(tokenizer, overlap_tokens, upto) == Some(texts));
            }
            final_chunks.push(
                ChunkMetadata { page: page_num, chunk_id, text: chunk_text, source: source.to_owned(), token_count },
            );
            proof {
                assert(final_chunks@.last()@ == added);
                assert(record_views(final_chunks@) =~= before.push(added));
                assert forall|k: int| 0 <= k < texts.len() implies before.push(added)[k] == records_of(
                    tokenizer,
                    page_num,
                    texts,
                    source@,
                )[k] by {
                    if k < old_texts.len() {
                        assert(before[k] == records_of(tokenizer, page_num, old_texts, source@)[k]);
                        assert(texts[k] == old_texts[k]);
                    }
                }
                assert(record_views(final_chunks@) =~= records_of(tokenizer, page_num, texts, source@));
            }
            chunk_id += 1;
        }
        assert(views.subrange(0, semantic_chunks.len() as int) =~= views);
        Ok(final_chunks)
    }

    /// Makes the records of the chunks of a page: ids from 0 up; the first
    /// chunk as it is, each other one after the text of the last tokens of
    /// the record before it; the token count of each final text. It fails
    /// where such tokens do not decode.
    pub fn add_overlap_and_finalize(&self, semantic_chunks: Vec<SemanticChunk>, page_num: usize, source: &str) -> (r: Result<Vec<ChunkMetadata>, ProcessingError>)
        ensures
            r is Ok <==> final_texts(self.counter(), self.overlap(), chunk_views(semantic_chunks@)) is Some,
            r is Ok ==> record_views(r->Ok_0@) == records_of(
                self.counter(),
                page_num,
                final_texts(self.counter(), self.overlap(), chunk_views(semantic_chunks@))->Some_0,
                source@,
            ),
            r is Ok ==> r->Ok_0@.len() == semantic_chunks@.len() && dense_ids(record_views(r->Ok_0@)),
            r is Err ==> r->Err_0 is ChunkingError,
    {
        Self::finalize_with(&self.tokenizer, self.overlap_tokens, &semantic_chunks, page_num, source)
    }

    /// The text of a chunk with the overlap from the tokens before it.
    fn add_overlap_to_chunk(&self, current_chunk: &SemanticChunk, previous_tokens: &[Rank]) -> (r: Result<String, ProcessingError>)
        ensures
            r is Ok <==> overlap_text(self.counter(), self.overlap(), current_chunk.text@, previous_tokens@) is Some,
            r is Ok ==> r->Ok_0@ == overlap_text(self.counter(), self.overlap(), current_chunk.text@, previous_tokens@)->Some_0,
            r is Err ==> r->Err_0 is ChunkingError,
    {
        Self::overlap_with(&self.tokenizer, self.overlap_tokens, current_chunk.text.as_str(), previous_tokens)
    }
}

} // verus!
