//! The chunker of one page: clean the text, cut it into segments, merge
//! them into chunks, and put overlap between the chunks.

use crate::chunk_merger::{lemma_merged_chunks_len, merged_chunks, token_count, ChunkMerger};
use crate::chunk_overlapper::{final_texts, lemma_final_texts_len, record_of, records_of, ChunkOverlapper};
use crate::chunking::{dense_ids, record_views, ChunkMetadata, ChunkMetadataView};
use crate::error::ProcessingError;
use crate::semantic_segmenter::{standard_rules, SemanticSegmenter};
use crate::text::{blank, is_blank};
use crate::text_preprocessor::TextPreprocessor;
use crate::tiktoken_core::CoreBPE;
use crate::o200k_vocab::{special_token_table, vocabulary_of, O200K_BASE_PATTERN};
use crate::tiktoken_core::o200k_usable;
use vstd::prelude::*;
use vstd::string::StringSliceAdditionalSpecFns;

verus! {

/// The most segments that a page may be cut into.
pub const MAX_SEGMENTS_PER_PAGE: usize = 1_000_000;

/// A page whose clean text is not blank and within the budget has exactly
/// one chunk: its clean text, with the id 0.
pub proof fn law_small_page_one_chunk(chunker: &SemanticChunker, page_num: usize, text: Seq<char>, source: Seq<char>)
    requires
        !blank(chunker.cleaner().preprocess_spec(text)),
        token_count(chunker.counter(), chunker.cleaner().preprocess_spec(text)) <= chunker.target(),
    ensures
        chunker.chunk_page_spec(page_num, text, source) is Some,
        chunker.chunk_page_spec(page_num, text, source)->Some_0.len() == 1,
        chunker.chunk_page_spec(page_num, text, source)->Some_0[0].text == chunker.cleaner().preprocess_spec(text),
        chunker.chunk_page_spec(page_num, text, source)->Some_0[0].chunk_id == 0,
{
}

/// The records of a page have the ids 0, 1, 2 and so on.
pub proof fn law_page_ids_dense(chunker: &SemanticChunker, page_num: usize, text: Seq<char>, source: Seq<char>)
    requires
        chunker.chunk_page_spec(page_num, text, source) is Some,
    ensures
        dense_ids(chunker.chunk_page_spec(page_num, text, source)->Some_0),
{
    let cleaned = chunker.cleaner().preprocess_spec(text);
    if !blank(cleaned) && token_count(chunker.counter(), cleaned) > chunker.target() {
        let segments = chunker.cutter().segment_spec(chunker.counter(), chunker.target(), cleaned);
        if 0 < segments.len() <= MAX_SEGMENTS_PER_PAGE {
            let chunks = merged_chunks(chunker.counter(), chunker.target(), segments);
            lemma_merged_chunks_len(chunker.counter(), chunker.target(), segments);
            lemma_final_texts_len(chunker.counter(), chunker.overlap(), chunks);
        }
    }
}

/// Cuts the text of a page into chunks of a given number of tokens, along
/// paragraphs, lines, sentences and words, with overlap between chunks.
pub struct SemanticChunker {
    target_tokens: usize,
    overlap_tokens: usize,
    preprocessor: TextPreprocessor,
    segmenter: SemanticSegmenter,
    tokenizer: CoreBPE,
}

impl SemanticChunker {
    /// The token budget of a chunk before overlap.
    pub closed spec fn target(&self) -> usize {
        self.target_tokens
    }

    /// The number of tokens that overlap.
    pub closed spec fn overlap(&self) -> usize {
        self.overlap_tokens
    }

    /// The preprocessor of the chunker.
    pub closed spec fn cleaner(&self) -> &TextPreprocessor {
        &self.preprocessor
    }

    /// The segmenter of the chunker.
    pub closed spec fn cutter(&self) -> &SemanticSegmenter {
        &self.segmenter
    }

    /// The tokenizer of the chunker.
    pub closed spec fn counter(&self) -> &CoreBPE {
        &self.tokenizer
    }

    /// The records of a page. A page that is blank once it is clean has
    /// none; a clean page within the budget is one chunk; any other page
    /// is cut into segments, which are merged into chunks and overlapped.
    /// There are no records where the page has too many segments or an
    /// overlap does not decode.
    pub open spec fn chunk_page_spec(&self, page_num: usize, text: Seq<char>, source: Seq<char>) -> Option<Seq<ChunkMetadataView>> {
        let cleaned = self.cleaner().preprocess_spec(text);
        if blank(cleaned) {
            Some(Seq::empty())
        } else if token_count(self.counter(), cleaned) <= self.target() {
            Some(seq![record_of(self.counter(), page_num, 0, cleaned, source)])
        } else {
            let segments = self.cutter().segment_spec(self.counter(), self.target(), cleaned);
            if segments.len() == 0 {
                Some(Seq::empty())
            } else if segments.len() > MAX_SEGMENTS_PER_PAGE {
                None
            } else {
                match final_texts(
                    self.counter(),
                    self.overlap(),
                    merged_chunks(self.counter(), self.target(), segments),
                ) {
                    None => None,
                    Some(texts) => Some(records_of(self.counter(), page_num, texts, source)),
                }
            }
        }
    }

    /// The chunker has the standard separators, and each step of its
    /// preprocessor whose pattern compiles.
    pub open spec fn as_built(&self) -> bool {
        &&& self.cleaner().as_built()
        &&& self.cutter().rules() == standard_rules()
    }

    /// The chunker has the tokenizer of a vocabulary file, with the
    /// standard special tokens.
    pub open spec fn on_vocabulary(&self, data: Seq<u8>) -> bool {
        &&& self.counter().wf()
        &&& self.counter().ranks() == vocabulary_of(data)
        &&& self.counter().special_table() == special_token_table()
        &&& self.counter().pattern() == O200K_BASE_PATTERN@
    }

    /// A chunker with the tokenizer of the vocabulary whose file has the
    /// given text.
    pub fn new(target_tokens: usize, overlap_tokens: usize, tiktoken_data: &str) -> (r: Result<Self, ProcessingError>)
        ensures
            r is Ok <==> o200k_usable(tiktoken_data.spec_bytes()),
            r is Ok ==> r->Ok_0.target() == target_tokens && r->Ok_0.overlap() == overlap_tokens
                && r->Ok_0.as_built() && r->Ok_0.on_vocabulary(tiktoken_data.spec_bytes()),
            r is Err ==> r->Err_0 is SystemError,
    {
        match CoreBPE::new_o200k_base(tiktoken_data) {
            Ok(tokenizer) => Ok(Self::with_tokenizer(target_tokens, overlap_tokens, tokenizer)),
            Err(e) => Err(e),
        }
    }

    /// A chunker on a tokenizer.
    pub fn with_tokenizer(target_tokens: usize, overlap_tokens: usize, tokenizer: CoreBPE) -> (r: Self)
        ensures
            r.target() == target_tokens,
            r.overlap() == overlap_tokens,
            *r.counter() == tokenizer,
            r.as_built(),
    {
        SemanticChunker {
            target_tokens,
            overlap_tokens,
            preprocessor: TextPreprocessor::new(),
            segmenter: SemanticSegmenter::new(),
            tokenizer,
        }
    }

    /// Cuts the text of a page into chunk records: ids from 0 up, each with
    /// the page number, the source, its final text and the token count of
    /// that text.
    pub fn chunk_page_text(&self, page_num: usize, text: &str, source: &str) -> (r: Result<Vec<ChunkMetadata>, ProcessingError>)
        ensures
            r is Ok <==> self.chunk_page_spec(page_num, text@, source@) is Some,
            r is Ok ==> record_views(r->Ok_0@) == self.chunk_page_spec(page_num, text@, source@)->Some_0,
            r is Ok ==> dense_ids(record_views(r->Ok_0@)),
            r is Err ==> r->Err_0 is ChunkingError,
    {
        let cleaned_text = self.preprocessor.preprocess(text);
        if is_blank(cleaned_text.as_str()) {
            let none: Vec<ChunkMetadata> = Vec::new();
            assert(record_views(none@) =~= Seq::empty());
            return Ok(none);
        }
        let total_tokens = self.tokenizer.encode_ordinary(cleaned_text.as_str()).len();
        if total_tokens <= self.target_tokens {
            let ghost only = record_of(&self.tokenizer, page_num, 0, cleaned_text@, source@);
            let mut one: Vec<ChunkMetadata> = Vec::new();
            one.push(
                ChunkMetadata {
                    page: page_num,
                    chunk_id: 0,
                    text: cleaned_text,
                    source: source.to_owned(),
                    token_count: total_tokens,
                },
            );
            assert(record_views(one@) =~= seq![only]);
            return Ok(one);
        }
        let segments = self.segmenter.segment(cleaned_text.as_str(), self.target_tokens, &self.tokenizer);
        if segments.len() == 0 {
            let none: Vec<ChunkMetadata> = Vec::new();
            assert(record_views(none@) =~= Seq::empty());
            return Ok(none);
        }
        if segments.len() > MAX_SEGMENTS_PER_PAGE {
            return Err(ProcessingError::ChunkingError("Too many segments on one page".to_owned()));
        }
        let semantic_chunks = ChunkMerger::merge_with(&self.tokenizer, self.target_tokens, &segments);
        ChunkOverlapper::finalize_with(&self.tokenizer, self.overlap_tokens, &semantic_chunks, page_num, source)
    }
}

} // verus!
