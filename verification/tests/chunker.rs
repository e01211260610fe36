use base64::Engine;
use rustchunker::chunk_merger::{ChunkMerger, SemanticChunk};
use rustchunker::chunk_overlapper::ChunkOverlapper;
use rustchunker::chunking::{ChunkingStrategy, TextChunker};
use rustchunker::error::ProcessingError;
use rustchunker::semantic_chunker::SemanticChunker;
use rustchunker::semantic_segmenter::{Segment, SemanticSegmenter};
use rustchunker::tiktoken_core::CoreBPE;

/// The text of a vocabulary file with more than 100 000 records: every
/// single byte under its own value, a few longer strings that only the
/// letters b, j, q, x, y and z can form, and strings that no text holds.
fn vocabulary_file() -> String {
    let engine = base64::engine::general_purpose::STANDARD;
    let mut out = String::new();
    for b in 0u32..256 {
        out.push_str(&format!("{} {}\n", engine.encode([b as u8]), b));
    }
    let longer: [(&[u8], u32); 5] = [(b"xy", 256), (b"yz", 257), (b"xyz", 258), (b"zz", 259), (b" jq", 260)];
    for (bytes, rank) in longer {
        out.push_str(&format!("{} {}\n", engine.encode(bytes), rank));
    }
    for i in 0u32..100_000 {
        let bytes = [0xFFu8, (i >> 16) as u8, (i >> 8) as u8, i as u8];
        out.push_str(&format!("{} {}\n", engine.encode(bytes), 200_000 + i));
    }
    out
}

fn tokenizer() -> CoreBPE {
    CoreBPE::new_o200k_base(&vocabulary_file()).unwrap()
}

fn segment(text: &str, start: usize, level: usize) -> Segment {
    Segment { text: text.to_string(), start_offset: start, end_offset: start + text.len(), semantic_level: level }
}

fn chunk(text: &str, token_count: usize, start: usize, segments: Vec<usize>) -> SemanticChunk {
    SemanticChunk {
        text: text.to_string(),
        token_count,
        start_offset: start,
        end_offset: start + text.len(),
        segments,
    }
}

const FIRST: &str = "First part of the page holds some words.";
const SECOND: &str = "Second part of the page has other words.";
const THIRD: &str = "Third part of the page ends the example.";

#[test]
fn test_chunk_merging() {
    let tokenizer = CoreBPE::new_o200k_base(&vocabulary_file()).unwrap();
    let merger = ChunkMerger::new(50, tokenizer);

    let segments = vec![
        Segment { text: "First sentence.".to_string(), start_offset: 0, end_offset: 15, semantic_level: 3 },
        Segment { text: "Second sentence.".to_string(), start_offset: 16, end_offset: 32, semantic_level: 3 },
    ];

    let chunks = merger.merge_segments(segments).unwrap();
    assert!(!chunks.is_empty());
    assert!(chunks[0].token_count > 0);
}

#[test]
fn test_overlap_addition() {
    let tokenizer = CoreBPE::new_o200k_base(&vocabulary_file()).unwrap();
    let overlapper = ChunkOverlapper::new(5, tokenizer);

    let chunks = vec![
        SemanticChunk {
            text: "First chunk with some content.".to_string(),
            token_count: 6,
            start_offset: 0,
            end_offset: 30,
            segments: vec![0],
        },
        SemanticChunk {
            text: "Second chunk with different content.".to_string(),
            token_count: 6,
            start_offset: 31,
            end_offset: 67,
            segments: vec![1],
        },
    ];

    let result = overlapper.add_overlap_and_finalize(chunks, 1, "test.pdf").unwrap();

    assert_eq!(result.len(), 2);
    assert!(result[1].text.len() > result[0].text.len());
    assert!(result[1].token_count > 6);
}

#[test]
fn test_semantic_chunking() {
    let chunker = SemanticChunker::new(100, 10, &vocabulary_file()).unwrap();

    let text = "First paragraph with some content.\n\nSecond paragraph with more content.\n\nThird paragraph with even more content to test the chunking logic.";

    let chunks = chunker.chunk_page_text(1, text, "test.pdf").unwrap();

    assert!(!chunks.is_empty());
    assert!(chunks[0].token_count > 0);

    if chunks.len() > 1 {
        assert!(chunks[1].token_count > chunks[0].token_count);
    }
}

#[test]
fn test_excessive_newlines_cleaning() {
    let chunker = SemanticChunker::new(100, 10, &vocabulary_file()).unwrap();

    let text = "Line 1\n\n\n\nLine 2\n \n \n\nLine 3";
    let chunks = chunker.chunk_page_text(1, text, "test.pdf").unwrap();

    assert!(!chunks.is_empty());
    assert!(!chunks[0].text.contains("\n\n\n"));
}

#[test]
fn test_paragraph_splitting() {
    let segmenter = SemanticSegmenter::new();
    let tokenizer = CoreBPE::new_o200k_base(&vocabulary_file()).unwrap();

    let text = "First paragraph.\n\nSecond paragraph.\n\nThird paragraph.";
    let segments = segmenter.segment(text, 50, &tokenizer);

    assert!(segments.len() >= 3);
    assert!(segments[0].text.contains("First"));
    assert!(segments[1].text.contains("Second"));
}

#[test]
fn merger_joins_segments_with_one_space_up_to_the_budget() {
    let merger = ChunkMerger::new(12, tokenizer());
    let segments = vec![segment("aaaa", 0, 5), segment("cccc", 5, 5), segment("dddd", 10, 5), segment("eeee", 15, 5)];
    let chunks = merger.merge_segments(segments).unwrap();
    assert_eq!(chunks.len(), 2);
    assert_eq!(chunks[0].text, "aaaa cccc");
    assert_eq!(chunks[0].token_count, 9);
    assert_eq!(chunks[0].start_offset, 0);
    assert_eq!(chunks[0].end_offset, 9);
    assert_eq!(chunks[0].segments, vec![0, 1]);
    assert_eq!(chunks[1].text, "dddd eeee");
    assert_eq!(chunks[1].token_count, 9);
    assert_eq!(chunks[1].start_offset, 10);
    assert_eq!(chunks[1].end_offset, 19);
    assert_eq!(chunks[1].segments, vec![2, 3]);
}

#[test]
fn merger_takes_a_first_segment_whatever_its_size() {
    let merger = ChunkMerger::new(3, tokenizer());
    let segments = vec![segment("aaaaaaaa", 0, 5), segment("cc", 9, 5), segment("dddddd", 12, 5)];
    let chunks = merger.merge_segments(segments).unwrap();
    assert_eq!(chunks.len(), 3);
    assert_eq!(chunks[0].text, "aaaaaaaa");
    assert_eq!(chunks[0].token_count, 8);
    assert_eq!(chunks[1].text, "cc");
    assert_eq!(chunks[2].text, "dddddd");
    assert_eq!(chunks[2].segments, vec![2]);
}

#[test]
fn merger_of_nothing_gives_nothing() {
    let merger = ChunkMerger::new(50, tokenizer());
    assert!(merger.merge_segments(Vec::new()).unwrap().is_empty());
}

#[test]
fn merged_chunks_of_two_segments_fit_the_budget() {
    let bpe = tokenizer();
    let words: Vec<&str> = "one two three four five six seven eight nine ten eleven twelve".split(' ').collect();
    let mut segments = Vec::new();
    let mut at = 0;
    for w in &words {
        segments.push(segment(w, at, 5));
        at += w.len() + 1;
    }
    for target in [1usize, 4, 7, 10, 25, 100] {
        let chunks = ChunkMerger::merge_with(&bpe, target, &segments);
        let mut members = Vec::new();
        for c in &chunks {
            if c.segments.len() >= 2 {
                assert!(c.token_count <= target);
            }
            assert_eq!(c.token_count, bpe.encode_ordinary(&c.text).len());
            members.extend(c.segments.iter().copied());
        }
        assert_eq!(members, (0..words.len()).collect::<Vec<usize>>());
    }
}

#[test]
fn overlapper_keeps_the_first_chunk_and_prefixes_the_others() {
    let overlapper = ChunkOverlapper::new(5, tokenizer());
    let chunks = vec![chunk(FIRST, 40, 0, vec![0]), chunk(SECOND, 40, 42, vec![1]), chunk(THIRD, 40, 84, vec![2])];
    let records = overlapper.add_overlap_and_finalize(chunks, 7, "book.pdf").unwrap();
    assert_eq!(records.len(), 3);
    assert_eq!(records[0].text, FIRST);
    assert_eq!(records[0].token_count, 40);
    assert_eq!(records[1].text, format!("ords. {}", SECOND));
    assert_eq!(records[1].token_count, 46);
    assert_eq!(records[2].text, format!("ords. {}", THIRD));
    assert_eq!(records[2].token_count, 46);
    for (k, r) in records.iter().enumerate() {
        assert_eq!(r.chunk_id, k);
        assert_eq!(r.page, 7);
        assert_eq!(r.source, "book.pdf");
    }
}

#[test]
fn overlapper_trims_both_parts_before_it_joins_them() {
    let overlapper = ChunkOverlapper::new(3, tokenizer());
    let chunks = vec![chunk("alpha c ", 8, 0, vec![0]), chunk("  delta  ", 9, 9, vec![1])];
    let records = overlapper.add_overlap_and_finalize(chunks, 1, "s").unwrap();
    assert_eq!(records[0].text, "alpha c ");
    assert_eq!(records[1].text, "c delta");
    assert_eq!(records[1].token_count, 7);
}

#[test]
fn a_blank_overlap_is_joined_without_a_space() {
    let overlapper = ChunkOverlapper::new(2, tokenizer());
    let chunks = vec![chunk("alpha  ", 7, 0, vec![0]), chunk(" delta", 6, 9, vec![1])];
    let records = overlapper.add_overlap_and_finalize(chunks, 1, "s").unwrap();
    assert_eq!(records[1].text, "   delta");
    assert_eq!(records[1].token_count, 8);
}

#[test]
fn a_blank_chunk_is_joined_without_a_space() {
    let overlapper = ChunkOverlapper::new(2, tokenizer());
    let chunks = vec![chunk("alpha", 5, 0, vec![0]), chunk("  ", 2, 9, vec![1])];
    let records = overlapper.add_overlap_and_finalize(chunks, 1, "s").unwrap();
    assert_eq!(records[1].text, "ha  ");
}

#[test]
fn overlapper_without_overlap_keeps_every_chunk() {
    let overlapper = ChunkOverlapper::new(0, tokenizer());
    let chunks = vec![chunk(FIRST, 40, 0, vec![0]), chunk(SECOND, 40, 42, vec![1])];
    let records = overlapper.add_overlap_and_finalize(chunks, 1, "s").unwrap();
    assert_eq!(records[0].text, FIRST);
    assert_eq!(records[1].text, SECOND);
    assert_eq!(records[1].token_count, 40);
}

#[test]
fn overlapper_takes_all_tokens_where_there_are_fewer_than_the_overlap() {
    let overlapper = ChunkOverlapper::new(50, tokenizer());
    let chunks = vec![chunk("ab", 2, 0, vec![0]), chunk("cd", 2, 3, vec![1])];
    let records = overlapper.add_overlap_and_finalize(chunks, 1, "s").unwrap();
    assert_eq!(records[1].text, "ab cd");
}

#[test]
fn overlapper_of_nothing_gives_nothing() {
    let overlapper = ChunkOverlapper::new(5, tokenizer());
    assert!(overlapper.add_overlap_and_finalize(Vec::new(), 1, "s").unwrap().is_empty());
}

#[test]
fn overlap_that_does_not_decode_fails_the_page() {
    let overlapper = ChunkOverlapper::new(1, tokenizer());
    let chunks = vec![chunk("caf\u{e9}", 5, 0, vec![0]), chunk("next", 4, 6, vec![1])];
    let r = overlapper.add_overlap_and_finalize(chunks, 1, "s");
    assert!(matches!(r, Err(ProcessingError::ChunkingError(_))));
}

#[test]
fn overlap_is_taken_from_the_final_text_before() {
    let overlapper = ChunkOverlapper::new(4, tokenizer());
    let chunks = vec![chunk("ab", 2, 0, vec![0]), chunk("c", 1, 3, vec![1]), chunk("d", 1, 5, vec![2])];
    let records = overlapper.add_overlap_and_finalize(chunks, 1, "s").unwrap();
    assert_eq!(records[1].text, "ab c");
    assert_eq!(records[2].text, "ab c d");
}

#[test]
fn segmenter_keeps_a_page_that_fits() {
    let segmenter = SemanticSegmenter::new();
    let segments = segmenter.segment("Short page.\n\nTwo paragraphs.", 50, &tokenizer());
    assert_eq!(segments.len(), 1);
    assert_eq!(segments[0].text, "Short page.\n\nTwo paragraphs.");
    assert_eq!(segments[0].start_offset, 0);
    assert_eq!(segments[0].end_offset, 28);
    assert_eq!(segments[0].semantic_level, 0);
}

#[test]
fn segmenter_cuts_at_paragraphs_and_leaves_the_separators_out() {
    let segmenter = SemanticSegmenter::new();
    let page = format!("{}\n\n{}\n\n\n{}", FIRST, SECOND, THIRD);
    let segments = segmenter.segment(&page, 50, &tokenizer());
    assert_eq!(segments.len(), 3);
    assert_eq!(segments[0].text, FIRST);
    assert_eq!((segments[0].start_offset, segments[0].end_offset), (0, 40));
    assert_eq!(segments[1].text, SECOND);
    assert_eq!((segments[1].start_offset, segments[1].end_offset), (42, 82));
    assert_eq!(segments[2].text, THIRD);
    assert_eq!((segments[2].start_offset, segments[2].end_offset), (85, 125));
    for s in &segments {
        assert_eq!(s.semantic_level, 0);
        assert_eq!(&page[s.start_offset..s.end_offset], s.text);
    }
}

#[test]
fn segmenter_uses_weaker_separators_only_where_needed() {
    let segmenter = SemanticSegmenter::new();
    let page = "tiny\n\n# Head of part\nline one of it\nline two. With a sentence, and a clause; done";
    let segments = segmenter.segment(page, 14, &tokenizer());
    let texts: Vec<&str> = segments.iter().map(|s| s.text.as_str()).collect();
    assert_eq!(
        texts,
        vec!["tiny", "# Head of part", "line one of it", "line two", "With", "a", "sentence", "and a clause", "done"]
    );
    let levels: Vec<usize> = segments.iter().map(|s| s.semantic_level).collect();
    assert_eq!(levels, vec![0, 2, 2, 3, 5, 5, 5, 4, 4]);
    for s in &segments {
        assert_eq!(&page[s.start_offset..s.end_offset], s.text);
    }
    for pair in segments.windows(2) {
        assert!(pair[0].end_offset <= pair[1].start_offset);
    }
}

#[test]
fn segmenter_cuts_at_headers() {
    let segmenter = SemanticSegmenter::new();
    let page = "intro words\n## second head\n### third head\n# first head";
    let segments = segmenter.segment(page, 30, &tokenizer());
    let texts: Vec<&str> = segments.iter().map(|s| s.text.as_str()).collect();
    assert_eq!(texts, vec!["intro words\n## second head", "third head\n# first head"]);
    assert_eq!(segments[0].semantic_level, 1);
    assert_eq!((segments[1].start_offset, segments[1].end_offset), (31, 54));
    let segments = segmenter.segment(page, 20, &tokenizer());
    let texts: Vec<&str> = segments.iter().map(|s| s.text.as_str()).collect();
    assert_eq!(texts, vec!["intro words", "second head", "third head", "first head"]);
    let places: Vec<(usize, usize)> = segments.iter().map(|s| (s.start_offset, s.end_offset)).collect();
    assert_eq!(places, vec![(0, 11), (15, 26), (31, 41), (44, 54)]);
    for s in &segments {
        assert_eq!(s.semantic_level, 1);
    }
}

#[test]
fn segmenter_leaves_a_word_that_is_too_long() {
    let segmenter = SemanticSegmenter::new();
    let segments = segmenter.segment("abcdefghijklmnop end", 5, &tokenizer());
    let texts: Vec<&str> = segments.iter().map(|s| s.text.as_str()).collect();
    assert_eq!(texts, vec!["abcdefghijklmnop", "end"]);
    assert_eq!(segments[0].semantic_level, 5);
}

#[test]
fn segmenter_keeps_text_of_more_than_one_byte_a_letter() {
    let segmenter = SemanticSegmenter::new();
    let page = "caf\u{e9} cr\u{e8}me. \u{65e5}\u{672c}\u{8a9e} text";
    let segments = segmenter.segment(page, 8, &tokenizer());
    for s in &segments {
        assert_eq!(&page[s.start_offset..s.end_offset], s.text);
    }
    let texts: Vec<&str> = segments.iter().map(|s| s.text.as_str()).collect();
    assert_eq!(texts, vec!["caf\u{e9}", "cr\u{e8}me", "\u{65e5}\u{672c}\u{8a9e}", "text"]);
}

#[test]
fn an_empty_page_has_no_chunks() {
    let chunker = SemanticChunker::new(50, 5, &vocabulary_file()).unwrap();
    assert!(chunker.chunk_page_text(1, "", "s.pdf").unwrap().is_empty());
    assert!(chunker.chunk_page_text(1, " \n\t \n ", "s.pdf").unwrap().is_empty());
}

#[test]
fn a_page_within_the_budget_is_one_chunk() {
    let chunker = SemanticChunker::new(50, 5, &vocabulary_file()).unwrap();
    let bpe = tokenizer();
    let chunks = chunker.chunk_page_text(3, "Hello world.", "s.pdf").unwrap();
    assert_eq!(chunks.len(), 1);
    assert_eq!(chunks[0].chunk_id, 0);
    assert_eq!(chunks[0].page, 3);
    assert_eq!(chunks[0].source, "s.pdf");
    assert_eq!(chunks[0].text, "Hello world.");
    assert_eq!(chunks[0].token_count, bpe.count_tokens("Hello world.").unwrap());
    assert_eq!(chunks[0].token_count, 12);
}

#[test]
fn a_page_within_the_budget_keeps_its_clean_text() {
    let chunker = SemanticChunker::new(50, 5, &vocabulary_file()).unwrap();
    let chunks = chunker.chunk_page_text(1, "  Some\t\ttext\n\n\n\nhere \u{7}. ", "s").unwrap();
    assert_eq!(chunks.len(), 1);
    assert_eq!(chunks[0].text, "Some text\n\nhere .");
    assert_eq!(chunks[0].chunk_id, 0);
}

#[test]
fn chunks_hold_no_run_of_three_line_feeds() {
    let chunker = SemanticChunker::new(50, 5, &vocabulary_file()).unwrap();
    let chunks = chunker.chunk_page_text(1, "A.\n\n\n\nB.\n \n \n\nC.", "s").unwrap();
    assert_eq!(chunks.len(), 1);
    assert_eq!(chunks[0].text, "A.\n\nB.\n\nC.");
    for c in &chunks {
        assert!(!c.text.contains("\n\n\n"));
    }
}

#[test]
fn three_paragraphs_become_three_chunks_with_overlap() {
    let chunker = SemanticChunker::new(50, 5, &vocabulary_file()).unwrap();
    let bpe = tokenizer();
    let page = format!("{}\n\n{}\n\n{}", FIRST, SECOND, THIRD);
    let chunks = chunker.chunk_page_text(2, &page, "s.pdf").unwrap();
    assert!(chunks.len() >= 3);
    assert_eq!(chunks.len(), 3);
    assert!(chunks[0].text.starts_with("First"));
    assert_eq!(chunks[0].text, FIRST);
    let first_tokens = bpe.encode_ordinary(&chunks[0].text);
    let second_tokens = bpe.encode_ordinary(&chunks[1].text);
    assert_eq!(second_tokens[..5], first_tokens[first_tokens.len() - 5..]);
    assert_eq!(second_tokens[6..], bpe.encode_ordinary(SECOND)[..]);
    assert_eq!(chunks[1].text, format!("ords. {}", SECOND));
    assert_eq!(chunks[2].text, format!("ords. {}", THIRD));
    assert_eq!(chunks[1].token_count, 46);
    for (k, c) in chunks.iter().enumerate() {
        assert_eq!(c.chunk_id, k);
        assert_eq!(c.token_count, bpe.encode_ordinary(&c.text).len());
    }
}

#[test]
fn a_long_sentence_is_cut_at_spaces() {
    let mut page = vec!["word"; 40].join(" ");
    page.push('.');
    let bpe = tokenizer();
    assert_eq!(bpe.count_tokens(&page).unwrap(), 200);
    let segmenter = SemanticSegmenter::new();
    let segments = segmenter.segment(&page, 50, &bpe);
    assert_eq!(segments.len(), 40);
    for (k, s) in segments.iter().enumerate() {
        assert_eq!(s.semantic_level, 5);
        assert_eq!(s.start_offset, 5 * k);
        assert_eq!(s.text, if k == 39 { "word." } else { "word" });
    }
    let merged = ChunkMerger::merge_with(&bpe, 50, &segments);
    assert_eq!(merged.len(), 4);
    for c in &merged {
        assert!(c.token_count <= 50);
        assert_eq!(c.segments.len(), 10);
    }
    let chunker = SemanticChunker::new(50, 5, &vocabulary_file()).unwrap();
    let chunks = chunker.chunk_page_text(1, &page, "s").unwrap();
    assert_eq!(chunks.len(), 4);
    assert_eq!(chunks[0].token_count, 49);
    assert_eq!(chunks[1].token_count, 54);
    assert_eq!(chunks[3].token_count, 55);
    assert!(chunks[3].text.ends_with("word word."));
}

#[test]
fn a_page_of_repeated_words_has_dense_ids() {
    let page = vec!["one two three"; 21].join(" ");
    let bpe = tokenizer();
    assert_eq!(bpe.count_tokens(&page).unwrap(), 293);
    let chunker = SemanticChunker::new(50, 5, &vocabulary_file()).unwrap();
    let chunks = chunker.chunk_page_text(9, &page, "s").unwrap();
    assert!(chunks.len() >= 6);
    for (k, c) in chunks.iter().enumerate() {
        assert_eq!(c.chunk_id, k);
        assert_eq!(c.page, 9);
        assert_eq!(c.token_count, bpe.encode_ordinary(&c.text).len());
        assert!(c.token_count <= 50 + 5 + 1);
    }
    assert!(chunks.last().unwrap().text.ends_with("one two three"));
}

#[test]
fn every_chunk_after_the_first_starts_with_the_tail_before_it() {
    let page = vec!["one two three"; 21].join(" ");
    let bpe = tokenizer();
    let chunker = SemanticChunker::new(50, 5, &vocabulary_file()).unwrap();
    let chunks = chunker.chunk_page_text(1, &page, "s").unwrap();
    for k in 1..chunks.len() {
        let before = bpe.encode_ordinary(&chunks[k - 1].text);
        let tail = bpe.decode(&before[before.len() - 5..]).unwrap();
        assert!(chunks[k].text.starts_with(&format!("{} ", tail.trim())));
    }
}

#[test]
fn chunker_from_a_small_vocabulary_is_refused() {
    let r = SemanticChunker::new(50, 5, "IQ== 0\n");
    assert!(matches!(r, Err(ProcessingError::SystemError(_))));
    let r = TextChunker::new(50, 5, "");
    assert!(matches!(r, Err(ProcessingError::SystemError(_))));
}

#[test]
fn chunker_on_a_tokenizer_cuts_like_the_one_from_a_file() {
    let chunker = SemanticChunker::with_tokenizer(50, 5, tokenizer());
    let page = format!("{}\n\n{}\n\n{}", FIRST, SECOND, THIRD);
    let chunks = chunker.chunk_page_text(2, &page, "s.pdf").unwrap();
    assert_eq!(chunks.len(), 3);
    assert_eq!(chunks[1].text, format!("ords. {}", SECOND));
}

#[test]
fn text_chunker_cuts_along_semantic_boundaries_by_default() {
    let chunker = TextChunker::new(50, 5, &vocabulary_file()).unwrap();
    let page = format!("{}\n\n{}\n\n{}", FIRST, SECOND, THIRD);
    let chunks = chunker.chunk_page_text(2, &page, "s.pdf").unwrap();
    assert_eq!(chunks.len(), 3);
    assert_eq!(chunks[1].text, format!("ords. {}", SECOND));
}

#[test]
fn sliding_window_moves_by_the_size_less_the_overlap() {
    let chunker = TextChunker::new(4, 1, &vocabulary_file()).unwrap().with_strategy(ChunkingStrategy::SimpleToken);
    let chunks = chunker.chunk_page_text(5, "abcdefghij", "s.pdf").unwrap();
    let texts: Vec<&str> = chunks.iter().map(|c| c.text.as_str()).collect();
    assert_eq!(texts, vec!["abcd", "defg", "ghij"]);
    for (k, c) in chunks.iter().enumerate() {
        assert_eq!(c.chunk_id, k);
        assert_eq!(c.page, 5);
        assert_eq!(c.source, "s.pdf");
        assert_eq!(c.token_count, 4);
    }
    let chunks = chunker.chunk_page_text(5, "abcdefghijk", "s.pdf").unwrap();
    let texts: Vec<&str> = chunks.iter().map(|c| c.text.as_str()).collect();
    assert_eq!(texts, vec!["abcd", "defg", "ghij", "jk"]);
    assert_eq!(chunks[3].token_count, 2);
}

#[test]
fn sliding_window_keeps_a_short_page_whole() {
    let chunker = TextChunker::new(4, 1, &vocabulary_file()).unwrap().with_strategy(ChunkingStrategy::SimpleToken);
    let chunks = chunker.chunk_page_text(5, " ab ", "s.pdf").unwrap();
    assert_eq!(chunks.len(), 1);
    assert_eq!(chunks[0].text, " ab ");
    assert_eq!(chunks[0].token_count, 4);
    assert_eq!(chunks[0].chunk_id, 0);
}

#[test]
fn sliding_window_that_does_not_move_fails() {
    let chunker = TextChunker::new(5, 5, &vocabulary_file()).unwrap().with_strategy(ChunkingStrategy::SimpleToken);
    let r = chunker.chunk_page_text(1, "abcdef", "s.pdf");
    assert!(matches!(r, Err(ProcessingError::ChunkingError(_))));
    let chunker = TextChunker::new(5, 9, &vocabulary_file()).unwrap().with_strategy(ChunkingStrategy::SimpleToken);
    let r = chunker.chunk_page_text(1, "abcdef", "s.pdf");
    assert!(matches!(r, Err(ProcessingError::ChunkingError(_))));
}

#[test]
fn sliding_window_fails_where_a_window_does_not_decode() {
    let chunker = TextChunker::new(3, 1, &vocabulary_file()).unwrap().with_strategy(ChunkingStrategy::SimpleToken);
    let r = chunker.chunk_page_text(1, "ab\u{e9}cd", "s.pdf");
    assert!(matches!(r, Err(ProcessingError::ChunkingError(_))));
}
