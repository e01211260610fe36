//! Merging neighbouring segments into chunks, up to a token budget.

use crate::error::ProcessingError;
use crate::semantic_segmenter::{segment_views, Segment, SegmentView};
use crate::tiktoken_core::CoreBPE;
use vstd::prelude::*;
use vstd::string::StringExecFns;

verus! {

/// A run of segments merged into one text, with its token count, the byte
/// offsets of its first and last segment, and the indices of its segments.
#[derive(Debug, Clone)]
pub struct SemanticChunk {
    pub text: String,
    pub token_count: usize,
    pub start_offset: usize,
    pub end_offset: usize,
    pub segments: Vec<usize>,
}

/// A chunk as plain values.
pub struct SemanticChunkView {
    pub text: Seq<char>,
    pub token_count: usize,
    pub start_offset: usize,
    pub end_offset: usize,
    pub segments: Seq<usize>,
}

impl View for SemanticChunk {
    type V = SemanticChunkView;

    open spec fn view(&self) -> SemanticChunkView {
        SemanticChunkView {
            text: self.text@,
            token_count: self.token_count,
            start_offset: self.start_offset,
            end_offset: self.end_offset,
            segments: self.segments@,
        }
    }
}

/// A list of chunks as plain values.
pub open spec fn chunk_views(chunks: Seq<SemanticChunk>) -> Seq<SemanticChunkView> {
    chunks.map_values(|c: SemanticChunk| c@)
}

/// The merger between two segments: the chunks that are closed, and the
/// chunk that is still growing.
pub struct MergeState {
    pub chunks: Seq<SemanticChunkView>,
    pub text: Seq<char>,
    pub members: Seq<usize>,
    pub start: usize,
    pub end: usize,
}

/// The number of tokens of a text.
pub open spec fn token_count(tokenizer: &CoreBPE, text: Seq<char>) -> nat {
    tokenizer.encode_ordinary_spec(text).len()
}

/// The growing chunk of a state, closed.
pub open spec fn closed_chunk(tokenizer: &CoreBPE, state: MergeState) -> SemanticChunkView {
    SemanticChunkView {
        text: state.text,
        token_count: token_count(tokenizer, state.text) as usize,
        start_offset: state.start,
        end_offset: state.end,
        segments: state.members,
    }
}

/// The growing text with one more segment: the segment alone where nothing
/// has grown yet, else the text, one space and the segment.
pub open spec fn candidate_text(grown: Seq<char>, segment: Seq<char>) -> Seq<char> {
    if grown.len() == 0 {
        segment
    } else {
        grown + seq![' '] + segment
    }
}

/// The state after one more segment. Where the growing chunk is not empty
/// and would exceed the budget with the segment, it is closed and the
/// segment starts the next one; else the segment joins it.
pub open spec fn merge_step(
    tokenizer: &CoreBPE,
    target_tokens: usize,
    state: MergeState,
    segment: SegmentView,
    index: usize,
) -> MergeState {
    let candidate = candidate_text(state.text, segment.text);
    if token_count(tokenizer, candidate) > target_tokens && state.text.len() > 0 {
        MergeState {
            chunks: state.chunks.push(closed_chunk(tokenizer, state)),
            text: segment.text,
            members: seq![index],
            start: segment.start_offset,
            end: segment.end_offset,
        }
    } else {
        MergeState {
            chunks: state.chunks,
            text: candidate,
            members: state.members.push(index),
            start: if state.text.len() == 0 {
                segment.start_offset
            } else {
                state.start
            },
            end: segment.end_offset,
        }
    }
}

/// The state after all the segments, taken in their order.
pub open spec fn merge_state(tokenizer: &CoreBPE, target_tokens: usize, segments: Seq<SegmentView>) -> MergeState
    decreases segments.len(),
{
    if segments.len() == 0 {
        MergeState { chunks: Seq::empty(), text: Seq::empty(), members: Seq::empty(), start: 0, end: 0 }
    } else {
        merge_step(
            tokenizer,
            target_tokens,
            merge_state(tokenizer, target_tokens, segments.drop_last()),
            segments.last(),
            (segments.len() - 1) as usize,
        )
    }
}

/// The chunks that the segments merge into: those closed on the way, and
/// the last one where it is not empty.
pub open spec fn merged_chunks(tokenizer: &CoreBPE, target_tokens: usize, segments: Seq<SegmentView>) -> Seq<SemanticChunkView> {
    let state = merge_state(tokenizer, target_tokens, segments);
    if state.text.len() > 0 {
        state.chunks.push(closed_chunk(tokenizer, state))
    } else {
        state.chunks
    }
}

/// A chunk of two or more segments fits the budget.
pub open spec fn fits_budget(chunk: SemanticChunkView, target_tokens: usize) -> bool {
    chunk.segments.len() >= 2 ==> chunk.token_count <= target_tokens
}

/// No segment of the list has an empty text.
pub open spec fn no_empty_segment(segments: Seq<SegmentView>) -> bool {
    forall|i: int| 0 <= i < segments.len() ==> (#[trigger] segments[i]).text.len() > 0
}

/// Between two segments, where no segment is empty: every closed chunk of
/// two or more segments fits the budget, the growing chunk has a text as
/// soon as it has a segment, and it fits the budget once it has two.
pub proof fn lemma_merge_state_fits(tokenizer: &CoreBPE, target_tokens: usize, segments: Seq<SegmentView>)
    requires
        no_empty_segment(segments),
    ensures
        forall|k: int|
            0 <= k < merge_state(tokenizer, target_tokens, segments).chunks.len() ==> fits_budget(
                #[trigger] merge_state(tokenizer, target_tokens, segments).chunks[k],
                target_tokens,
            ),
        merge_state(tokenizer, target_tokens, segments).text.len() == 0 <==> merge_state(
            tokenizer,
            target_tokens,
            segments,
        ).members.len() == 0,
        merge_state(tokenizer, target_tokens, segments).members.len() >= 2 ==> token_count(
            tokenizer,
            merge_state(tokenizer, target_tokens, segments).text,
        ) <= target_tokens,
    decreases segments.len(),
{
    if segments.len() > 0 {
        let before = merge_state(tokenizer, target_tokens, segments.drop_last());
        let after = merge_state(tokenizer, target_tokens, segments);
        assert(no_empty_segment(segments.drop_last())) by {
            assert forall|i: int| 0 <= i < segments.drop_last().len() implies (#[trigger] segments.drop_last()[i]).text.len() > 0 by {
                assert(segments.drop_last()[i] == segments[i]);
            }
        }
        lemma_merge_state_fits(tokenizer, target_tokens, segments.drop_last());
        assert(segments.last() == segments[segments.len() - 1]);
        assert(segments.last().text.len() > 0);
        assert forall|k: int| 0 <= k < after.chunks.len() implies fits_budget(#[trigger] after.chunks[k], target_tokens) by {
            if k < before.chunks.len() {
                assert(after.chunks[k] == before.chunks[k]);
            }
        }
    }
}

/// There are no more merged chunks than segments.
pub proof fn lemma_merged_chunks_len(tokenizer: &CoreBPE, target_tokens: usize, segments: Seq<SegmentView>)
    ensures
        merge_state(tokenizer, target_tokens, segments).chunks.len() + (if merge_state(
            tokenizer,
            target_tokens,
            segments,
        ).text.len() > 0 {
            1int
        } else {
            0int
        }) <= segments.len(),
        merged_chunks(tokenizer, target_tokens, segments).len() <= segments.len(),
    decreases segments.len(),
{
    if segments.len() > 0 {
        lemma_merged_chunks_len(tokenizer, target_tokens, segments.drop_last());
    }
}

/// Where no segment is empty, every merged chunk that holds two or more
/// segments has at most `target_tokens` tokens.
pub proof fn law_merged_chunks_fit(tokenizer: &CoreBPE, target_tokens: usize, segments: Seq<SegmentView>)
    requires
        no_empty_segment(segments),
    ensures
        forall|k: int|
            0 <= k < merged_chunks(tokenizer, target_tokens, segments).len() ==> fits_budget(
                #[trigger] merged_chunks(tokenizer, target_tokens, segments)[k],
                target_tokens,
            ),
{
    lemma_merge_state_fits(tokenizer, target_tokens, segments);
    let state = merge_state(tokenizer, target_tokens, segments);
    let merged = merged_chunks(tokenizer, target_tokens, segments);
    assert forall|k: int| 0 <= k < merged.len() implies fits_budget(#[trigger] merged[k], target_tokens) by {
        if k < state.chunks.len() {
            assert(merged[k] == state.chunks[k]);
        }
    }
}

/// `head`, one space, `tail`.
pub fn join_with_space(head: &str, tail: &str) -> (r: String)
    ensures
        r@ == head@ + seq![' '] + tail@,
{
    proof {
        reveal_strlit(" ");
    }
    let mut r = head.to_owned();
    r.append(" ");
    assert(" "@ =~= seq![' ']);
    r.append(tail);
    r
}

/// Merges segments greedily into chunks of at most a given number of tokens.
pub struct ChunkMerger {
    target_tokens: usize,
    tokenizer: CoreBPE,
}

impl ChunkMerger {
    /// The token budget of a chunk.
    pub closed spec fn target(&self) -> usize {
        self.target_tokens
    }

    /// The tokenizer that counts the tokens.
    pub closed spec fn counter(&self) -> &CoreBPE {
        &self.tokenizer
    }

    /// A merger with a token budget and a tokenizer.
    pub fn new(target_tokens: usize, tokenizer: CoreBPE) -> (r: Self)
        ensures
            r.target() == target_tokens,
            *r.counter() == tokenizer,
    {
        ChunkMerger { target_tokens, tokenizer }
    }

    /// Merges the segments in one pass: a segment joins the growing chunk,
    /// after one space, unless the chunk would then exceed the budget; in
    /// that case the chunk is closed and the segment starts the next one.
    /// The first segment of a chunk is taken whatever its size.
    pub fn merge_with(tokenizer: &CoreBPE, target_tokens: usize, segments: &Vec<Segment>) -> (chunks: Vec<SemanticChunk>)
        ensures
            chunk_views(chunks@) == merged_chunks(tokenizer, target_tokens, segment_views(segments@)),
    {
        let ghost views = segment_views(segments@);
        let mut chunks: Vec<SemanticChunk> = Vec::new();
        let mut current_chunk_text = String::new();
        let mut current_chunk_segments: Vec<usize> = Vec::new();
        let mut current_start_offset: usize = 0;
        let mut current_end_offset: usize = 0;
        let mut i: usize = 0;
        assert(chunk_views(chunks@) =~= Seq::empty());
        assert(current_chunk_segments@ =~= Seq::empty());
        assert(views.subrange(0, 0) =~= Seq::empty());
        while i < segments.len()
            invariant
                i <= segments.len(),
                views == segment_views(segments@),
                merge_state(tokenizer, target_tokens, views.subrange(0, i as int)) == (MergeState {
                    chunks: chunk_views(chunks@),
                    text: current_chunk_text@,
                    members: current_chunk_segments@,
                    start: current_start_offset,
                    end: current_end_offset,
                }),
            decreases segments.len() - i,
        {
            let segment = &segments[i];
            let ghost upto = views.subrange(0, i + 1);
            let ghost state = merge_state(tokenizer, target_tokens, views.subrange(0, i as int));
            assert(upto.drop_last() =~= views.subrange(0, i as int));
            assert(upto.last() == segment@);
            let potential_text = if current_chunk_text.as_str().is_empty() {
                segment.text.clone()
            } else {
                join_with_space(current_chunk_text.as_str(), segment.text.as_str())
            };
            let potential_tokens = tokenizer.encode_ordinary(potential_text.as_str()).len();
            if potential_tokens > target_tokens && !current_chunk_text.as_str().is_empty() {
                let chunk_tokens = tokenizer.encode_ordinary(current_chunk_text.as_str()).len();
                let ghost before = chunk_views(chunks@);
                chunks.push(
                    SemanticChunk {
                        text: current_chunk_text,
                        token_count: chunk_tokens,
                        start_offset: current_start_offset,
                        end_offset: current_end_offset,
                        segments: current_chunk_segments,
                    },
                );
                assert(chunk_views(chunks@) =~= before.push(closed_chunk(tokenizer, state)));
                current_chunk_text = segment.text.clone();
                current_chunk_segments = Vec::new();
                current_chunk_segments.push(i);
                assert(current_chunk_segments@ =~= seq![i]);
                current_start_offset = segment.start_offset;
                current_end_offset = segment.end_offset;
            } else {
                if current_chunk_text.as_str().is_empty() {
                    current_start_offset = segment.start_offset;
                }
                current_chunk_text = potential_text;
                current_chunk_segments.push(i);
                current_end_offset = segment.end_offset;
            }
            i += 1;
        }
        assert(views.subrange(0, segments.len() as int) =~= views);
        if !current_chunk_text.as_str().is_empty() {
            let chunk_tokens = tokenizer.encode_ordinary(current_chunk_text.as_str()).len();
            let ghost before = chunk_views(chunks@);
            let ghost state = merge_state(tokenizer, target_tokens, views);
            chunks.push(
                SemanticChunk {
                    text: current_chunk_text,
                    token_count: chunk_tokens,
                    start_offset: current_start_offset,
                    end_offset: current_end_offset,
                    segments: current_chunk_segments,
                },
            );
            assert(chunk_views(chunks@) =~= before.push(closed_chunk(tokenizer, state)));
        }
        chunks
    }

    /// Merges the segments into chunks of at most `target` tokens each, as
    /// far as single segments allow.
    pub fn merge_segments(&self, segments: Vec<Segment>) -> (r: Result<Vec<SemanticChunk>, ProcessingError>)
        ensures
            r is Ok,
            chunk_views(r->Ok_0@) == merged_chunks(self.counter(), self.target(), segment_views(segments@)),
    {
        Ok(Self::merge_with(&self.tokenizer, self.target_tokens, &segments))
    }
}

} // verus!
