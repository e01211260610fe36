//! The chunk records that go to the caller, and the chunker that picks a
//! strategy.

use crate::error::{concat_text, ProcessingError};
use crate::o200k_vocab::{special_token_table, vocabulary_of, O200K_BASE_PATTERN};
use crate::semantic_chunker::SemanticChunker;
use crate::tiktoken_core::{o200k_usable, CoreBPE, Rank};
use vstd::prelude::*;
use vstd::slice::slice_subrange;
use vstd::string::StringSliceAdditionalSpecFns;
use vstd::utf8::{decode_utf8, encode_utf8_decode_utf8, valid_utf8};

verus! {

/// One chunk of a page as it goes to the caller.
#[derive(Debug, Clone)]
pub struct ChunkMetadata {
    pub page: usize,
    pub chunk_id: usize,
    pub text: String,
    pub source: String,
    pub token_count: usize,
}

/// A chunk record as plain values.
pub struct ChunkMetadataView {
    pub page: usize,
    pub chunk_id: usize,
    pub text: Seq<char>,
    pub source: Seq<char>,
    pub token_count: usize,
}

impl View for ChunkMetadata {
    type V = ChunkMetadataView;

    open spec fn view(&self) -> ChunkMetadataView {
        ChunkMetadataView {
            page: self.page,
            chunk_id: self.chunk_id,
            text: self.text@,
            source: self.source@,
            token_count: self.token_count,
        }
    }
}

/// A list of chunk records as plain values.
pub open spec fn record_views(records: Seq<ChunkMetadata>) -> Seq<ChunkMetadataView> {
    records.map_values(|r: ChunkMetadata| r@)
}

/// The ids of the records count up from 0.
pub open spec fn dense_ids(records: Seq<ChunkMetadataView>) -> bool {
    forall|k: int| 0 <= k < records.len() ==> (#[trigger] records[k]).chunk_id == k
}

/// How a page is cut into chunks.
#[derive(Debug, Clone)]
pub enum ChunkingStrategy {
    /// A window of tokens that slides over the page.
    SimpleToken,
    /// Along paragraphs, lines, sentences and words.
    SemanticAware,
}

/// The most chunks that the sliding window makes of one page.
pub const MAX_WINDOW_CHUNKS: usize = 1000;

/// The end of the window that starts at `start`.
pub open spec fn window_end(count: int, chunk_size: usize, start: int) -> int {
    if count - start <= chunk_size {
        count
    } else {
        start + chunk_size
    }
}

/// The records of the windows from the one that starts at `start` and has
/// the id `chunk_id` on: each holds the text of its tokens and their
/// number, and the next one starts `step_size` tokens later. There are
/// none where tokens do not decode or there would be too many windows.
pub open spec fn window_records(
    tokenizer: &CoreBPE,
    page: usize,
    tokens: Seq<Rank>,
    source: Seq<char>,
    chunk_size: usize,
    step_size: usize,
    start: int,
    chunk_id: int,
) -> Option<Seq<ChunkMetadataView>>
    decreases MAX_WINDOW_CHUNKS - chunk_id,
{
    let end = window_end(tokens.len() as int, chunk_size, start);
    if chunk_id > MAX_WINDOW_CHUNKS || start < 0 || start > end {
        None
    } else {
        match tokenizer.decode_spec(tokens.subrange(start, end)) {
            None => None,
            Some(bytes) => {
                if !valid_utf8(bytes) {
                    None
                } else {
                    let record = ChunkMetadataView {
                        page,
                        chunk_id: chunk_id as usize,
                        text: decode_utf8(bytes),
                        source,
                        token_count: (end - start) as usize,
                    };
                    if end >= tokens.len() {
                        Some(seq![record])
                    } else if chunk_id + 1 > MAX_WINDOW_CHUNKS {
                        None
                    } else {
                        match window_records(
                            tokenizer,
                            page,
                            tokens,
                            source,
                            chunk_size,
                            step_size,
                            start + step_size,
                            chunk_id + 1,
                        ) {
                            None => None,
                            Some(rest) => Some(seq![record] + rest),
                        }
                    }
                }
            },
        }
    }
}

/// The records of a page under the sliding window: the page as one chunk
/// where it is within the chunk size, else its windows.
pub open spec fn simple_records(
    tokenizer: &CoreBPE,
    page: usize,
    text: Seq<char>,
    source: Seq<char>,
    chunk_size: usize,
    step_size: usize,
) -> Option<Seq<ChunkMetadataView>> {
    let tokens = tokenizer.encode_ordinary_spec(text);
    if tokens.len() <= chunk_size {
        Some(seq![ChunkMetadataView { page, chunk_id: 0, text, source, token_count: tokens.len() as usize }])
    } else {
        window_records(tokenizer, page, tokens, source, chunk_size, step_size, 0, 0)
    }
}

/// Cuts pages into chunks by one of two strategies.
pub struct TextChunker {
    chunk_size: usize,
    step_size: usize,
    overlap_size: usize,
    tokenizer: CoreBPE,
    semantic_chunker: SemanticChunker,
    strategy: ChunkingStrategy,
}

impl TextChunker {
    /// The number of tokens of a chunk.
    pub closed spec fn size(&self) -> usize {
        self.chunk_size
    }

    /// The number of tokens by which the window moves.
    pub closed spec fn step(&self) -> usize {
        self.step_size
    }

    /// The number of tokens that overlap.
    pub closed spec fn overlap(&self) -> usize {
        self.overlap_size
    }

    /// The tokenizer of the sliding window.
    pub closed spec fn counter(&self) -> &CoreBPE {
        &self.tokenizer
    }

    /// The chunker of the other strategy.
    pub closed spec fn semantic(&self) -> &SemanticChunker {
        &self.semantic_chunker
    }

    /// The strategy in use.
    pub closed spec fn chosen(&self) -> ChunkingStrategy {
        self.strategy
    }

    #[verifier::type_invariant]
    spec fn inv(&self) -> bool {
        self.step_size <= self.chunk_size
    }

    /// The records of a page under the strategy in use.
    pub open spec fn chunk_page_spec(&self, page_num: usize, text: Seq<char>, source: Seq<char>) -> Option<Seq<ChunkMetadataView>> {
        match self.chosen() {
            ChunkingStrategy::SimpleToken => simple_records(
                self.counter(),
                page_num,
                text,
                source,
                self.size(),
                self.step(),
            ),
            ChunkingStrategy::SemanticAware => self.semantic().chunk_page_spec(page_num, text, source),
        }
    }

    /// A chunker with a chunk size and an overlap, on the vocabulary whose
    /// file has the given text. It cuts along semantic boundaries until
    /// another strategy is chosen; the window moves by the chunk size less
    /// the overlap.
    pub fn new(chunk_size: usize, overlap_size: usize, tiktoken_data: &str) -> (r: Result<Self, ProcessingError>)
        ensures
            r is Ok <==> o200k_usable(tiktoken_data.spec_bytes()),
            r is Ok ==> r->Ok_0.size() == chunk_size && r->Ok_0.overlap() == overlap_size && r->Ok_0.step() == (
            if chunk_size >= overlap_size {
                chunk_size - overlap_size
            } else {
                0
            }) && r->Ok_0.chosen() is SemanticAware && r->Ok_0.semantic().target() == chunk_size
                && r->Ok_0.semantic().overlap() == overlap_size && r->Ok_0.semantic().as_built()
                && r->Ok_0.semantic().on_vocabulary(tiktoken_data.spec_bytes()) && r->Ok_0.counter().wf()
                && r->Ok_0.counter().ranks() == vocabulary_of(tiktoken_data.spec_bytes())
                && r->Ok_0.counter().special_table() == special_token_table() && r->Ok_0.counter().pattern()
                == O200K_BASE_PATTERN@,
            r is Err ==> r->Err_0 is SystemError,
    {
        let step_size: usize = if chunk_size >= overlap_size {
            chunk_size - overlap_size
        } else {
            0
        };
        let tokenizer = match CoreBPE::new_o200k_base(tiktoken_data) {
            Ok(tokenizer) => tokenizer,
            Err(e) => {
                return Err(e);
            },
        };
        let semantic_chunker = match SemanticChunker::new(chunk_size, overlap_size, tiktoken_data) {
            Ok(chunker) => chunker,
            Err(e) => {
                return Err(e);
            },
        };
        Ok(
            TextChunker {
                chunk_size,
                step_size,
                overlap_size,
                tokenizer,
                semantic_chunker,
                strategy: ChunkingStrategy::SemanticAware,
            },
        )
    }

    /// The chunker with another strategy.
    pub fn with_strategy(self, strategy: ChunkingStrategy) -> (r: Self)
        ensures
            r.chosen() == strategy,
            r.size() == self.size(),
            r.step() == self.step(),
            r.overlap() == self.overlap(),
            r.counter() == self.counter(),
            r.semantic() == self.semantic(),
    {
        proof {
            use_type_invariant(&self);
        }
        TextChunker {
            chunk_size: self.chunk_size,
            step_size: self.step_size,
            overlap_size: self.overlap_size,
            tokenizer: self.tokenizer,
            semantic_chunker: self.semantic_chunker,
            strategy,
        }
    }

    /// Cuts the text of a page into chunk records by the strategy in use.
    pub fn chunk_page_text(&self, page_num: usize, text: &str, source: &str) -> (r: Result<Vec<ChunkMetadata>, ProcessingError>)
        ensures
            r is Ok <==> self.chunk_page_spec(page_num, text@, source@) is Some,
            r is Ok ==> record_views(r->Ok_0@) == self.chunk_page_spec(page_num, text@, source@)->Some_0,
            r is Err ==> r->Err_0 is ChunkingError,
    {
        match self.strategy {
            ChunkingStrategy::SimpleToken => self.chunk_page_text_simple(page_num, text, source),
            ChunkingStrategy::SemanticAware => self.semantic_chunker.chunk_page_text(page_num, text, source),
        }
    }

    /// Cuts the text of a page with a window of tokens that slides over it.
    fn chunk_page_text_simple(&self, page_num: usize, text: &str, source: &str) -> (r: Result<Vec<ChunkMetadata>, ProcessingError>)
        ensures
            r is Ok <==> simple_records(self.counter(), page_num, text@, source@, self.size(), self.step()) is Some,
            r is Ok ==> record_views(r->Ok_0@) == simple_records(
                self.counter(),
                page_num,
                text@,
                source@,
                self.size(),
                self.step(),
            )->Some_0,
            r is Err ==> r->Err_0 is ChunkingError,
    {
        proof {
            use_type_invariant(self);
        }
        let tokens = self.tokenizer.encode_ordinary(text);
        let token_count: usize = tokens.len();
        if token_count <= self.chunk_size {
            let mut one: Vec<ChunkMetadata> = Vec::new();
            one.push(
                ChunkMetadata {
                    page: page_num,
                    chunk_id: 0,
                    text: text.to_owned(),
                    source: source.to_owned(),
                    token_count,
                },
            );
            assert(record_views(one@) =~= seq![
                ChunkMetadataView { page: page_num, chunk_id: 0, text: text@, source: source@, token_count },
            ]);
            return Ok(one);
        }
        let ghost whole = window_records(
            &self.tokenizer,
            page_num,
            tokens@,
            source@,
            self.chunk_size,
            self.step_size,
            0,
            0,
        );
        let mut chunks: Vec<ChunkMetadata> = Vec::new();
        let mut chunk_id: usize = 0;
        let mut start_token_idx: usize = 0;
        assert(record_views(chunks@) =~= Seq::empty());
        loop
            invariant
                token_count == tokens@.len(),
                tokens@ == self.tokenizer.encode_ordinary_spec(text@),
                token_count > self.chunk_size,
                self.step_size <= self.chunk_size,
                start_token_idx < token_count,
                chunk_id <= MAX_WINDOW_CHUNKS,
                whole == window_records(
                    &self.tokenizer,
                    page_num,
                    tokens@,
                    source@,
                    self.chunk_size,
                    self.step_size,
                    0,
                    0,
                ),
                ({
                    let rest = window_records(
                        &self.tokenizer,
                        page_num,
                        tokens@,
                        source@,
                        self.chunk_size,
                        self.step_size,
                        start_token_idx as int,
                        chunk_id as int,
                    );
                    &&& rest is None ==> whole is None
                    &&& rest is Some ==> whole == Some(record_views(chunks@) + rest->Some_0)
                }),
            decreases MAX_WINDOW_CHUNKS - chunk_id,
        {
            let end_token_idx: usize = if token_count - start_token_idx <= self.chunk_size {
                token_count
            } else {
                start_token_idx + self.chunk_size
            };
            let chunk_tokens = slice_subrange(tokens.as_slice(), start_token_idx, end_token_idx);
            let chunk_token_count: usize = chunk_tokens.len();
            let chunk_text = match self.tokenizer.decode(chunk_tokens) {
                Ok(chunk_text) => chunk_text,
                Err(e) => {
                    let detail = e.message();
                    return Err(
                        ProcessingError::ChunkingError(concat_text("Failed to decode tokens: ", detail.as_str())),
                    );
                },
            };
            proof {
                encode_utf8_decode_utf8(chunk_text@);
            }
            let ghost before = record_views(chunks@);
            let ghost record = ChunkMetadataView {
                page: page_num,
                chunk_id,
                text: chunk_text@,
                source: source@,
                token_count: chunk_token_count,
            };
            chunks.push(
                ChunkMetadata {
                    page: page_num,
                    chunk_id,
                    text: chunk_text,
                    source: source.to_owned(),
                    token_count: chunk_token_count,
                },
            );
            assert(record_views(chunks@) =~= before.push(record));
            if end_token_idx >= token_count {
                assert(before + seq![record] =~= record_views(chunks@));
                return Ok(chunks);
            }
            if chunk_id + 1 > MAX_WINDOW_CHUNKS {
                return Err(ProcessingError::ChunkingError("Too many chunks generated for page".to_owned()));
            }
            proof {
                let rest = window_records(
                    &self.tokenizer,
                    page_num,
                    tokens@,
                    source@,
                    self.chunk_size,
                    self.step_size,
                    start_token_idx + self.step_size,
                    chunk_id + 1,
                );
                if rest is Some {
                    assert(before + (seq![record] + rest->Some_0) =~= record_views(chunks@) + rest->Some_0);
                }
            }
            start_token_idx += self.step_size;
            chunk_id += 1;
        }
    }
}

} // verus!
