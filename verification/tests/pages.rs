use base64::Engine;
use rustchunker::chunking::{ChunkMetadata, ChunkingStrategy, TextChunker};
use rustchunker::error::ProcessingError;
use rustchunker::parallel_processor::{order_chunks, ParallelProcessor};
use rustchunker::text_extractor::TextExtractor;

/// The text of a vocabulary file with more than 100 000 records.
fn vocabulary_file() -> String {
    let engine = base64::engine::general_purpose::STANDARD;
    let mut out = String::new();
    for b in 0u32..256 {
        out.push_str(&format!("{} {}\n", engine.encode([b as u8]), b));
    }
    for i in 0u32..100_000 {
        let bytes = [0xFFu8, (i >> 16) as u8, (i >> 8) as u8, i as u8];
        out.push_str(&format!("{} {}\n", engine.encode(bytes), 200_000 + i));
    }
    out
}

fn record(page: usize, chunk_id: usize, text: &str) -> ChunkMetadata {
    ChunkMetadata { page, chunk_id, text: text.to_string(), source: "s".to_string(), token_count: text.len() }
}

#[test]
fn page_text_is_cleaned_up() {
    let extractor = TextExtractor::new();
    assert_eq!(extractor.cleanup_text("  a \n\n b\t\tc\u{a0}\u{3000}d  "), "a b c d");
    assert_eq!(extractor.cleanup_text(""), "");
    assert_eq!(extractor.cleanup_text(" \n "), "");
    assert_eq!(extractor.cleanup_text("one"), "one");
    assert_eq!(extractor.extract_page_text(Ok("  a \n b ".to_string()), 4).unwrap(), "a b");
    assert_eq!(extractor.extract_page_text(Ok(String::new()), 4).unwrap(), "");
}

#[test]
fn a_failed_extraction_names_the_page() {
    let extractor = TextExtractor::new();
    match extractor.extract_page_text(Err("no text layer".to_string()), 12) {
        Err(ProcessingError::TextExtractionError { page, error }) => {
            assert_eq!(page, 12);
            assert_eq!(error, "pdfium extraction failed: no text layer");
        }
        other => panic!("unexpected: {:?}", other),
    }
}

/// Every text of up to `length` characters over the alphabet.
fn all_texts(alphabet: &[char], length: usize) -> Vec<String> {
    let mut texts = vec![String::new()];
    let mut last = vec![String::new()];
    for _ in 0..length {
        let mut next = Vec::new();
        for t in &last {
            for c in alphabet {
                let mut longer = t.clone();
                longer.push(*c);
                next.push(longer);
            }
        }
        texts.extend(next.iter().cloned());
        last = next;
    }
    texts
}

#[test]
fn cleaned_page_text_is_its_words_with_one_space_between() {
    let extractor = TextExtractor::new();
    let alphabet = ['\n', ' ', '\t', 'a', '\u{a0}', 'b'];
    for text in all_texts(&alphabet, 6) {
        let words: Vec<&str> = text.split_whitespace().collect();
        assert_eq!(extractor.cleanup_text(&text), words.join(" "), "on {:?}", text);
    }
}

#[test]
fn batches_hold_twice_the_cores_and_eight_at_least() {
    for (cores, batch) in [(0usize, 8usize), (1, 8), (3, 8), (4, 8), (5, 10), (16, 32), (1000, 2000)] {
        let plan = ParallelProcessor::new(cores);
        assert_eq!(plan.batch_size(), batch);
        assert_eq!(plan.max_parallelism(), cores);
    }
}

#[test]
fn a_batch_is_cut_page_after_page() {
    let chunker = TextChunker::new(50, 5, &vocabulary_file()).unwrap();
    let plan = ParallelProcessor::new(4);
    let pages = vec![(0usize, "First page.".to_string()), (1, String::new()), (4, "Fifth page.".to_string())];
    let chunks = plan.process_text_batch(&pages, "doc.pdf", &chunker).unwrap();
    assert_eq!(chunks.len(), 2);
    assert_eq!((chunks[0].page, chunks[0].chunk_id, chunks[0].text.as_str()), (1, 0, "First page."));
    assert_eq!((chunks[1].page, chunks[1].chunk_id, chunks[1].text.as_str()), (5, 0, "Fifth page."));
    assert_eq!(chunks[0].source, "doc.pdf");
    assert_eq!(chunks[0].token_count, 11);
}

#[test]
fn a_page_that_cannot_be_cut_is_left_out_of_its_batch() {
    let chunker = TextChunker::new(5, 5, &vocabulary_file()).unwrap().with_strategy(ChunkingStrategy::SimpleToken);
    let plan = ParallelProcessor::new(4);
    let pages = vec![(0usize, "abc".to_string()), (1, "abcdefgh".to_string()), (2, "de".to_string())];
    let chunks = plan.process_text_batch(&pages, "doc.pdf", &chunker).unwrap();
    let texts: Vec<&str> = chunks.iter().map(|c| c.text.as_str()).collect();
    assert_eq!(texts, vec!["abc", "de"]);
    assert!(matches!(
        plan.process_single_page_text(1, "abcdefgh", "doc.pdf", &chunker),
        Err(ProcessingError::ChunkingError(_))
    ));
    assert!(matches!(
        plan.process_single_page_text(usize::MAX, "abc", "doc.pdf", &chunker),
        Err(ProcessingError::ChunkingError(_))
    ));
}

#[test]
fn a_page_is_numbered_from_one() {
    let chunker = TextChunker::new(50, 5, &vocabulary_file()).unwrap();
    let plan = ParallelProcessor::new(4);
    let chunks = plan.process_single_page_text(6, "Some text.", "doc.pdf", &chunker).unwrap();
    assert_eq!(chunks.len(), 1);
    assert_eq!(chunks[0].page, 7);
}

#[test]
fn records_are_put_in_order_by_page_and_id() {
    let chunks = vec![
        record(3, 1, "d"),
        record(1, 1, "b"),
        record(3, 0, "c"),
        record(1, 0, "a"),
        record(2, 0, "x"),
        record(1, 1, "b again"),
        record(0, 7, "first"),
    ];
    let sorted = order_chunks(chunks);
    let got: Vec<(usize, usize, &str)> = sorted.iter().map(|c| (c.page, c.chunk_id, c.text.as_str())).collect();
    assert_eq!(
        got,
        vec![(0, 7, "first"), (1, 0, "a"), (1, 1, "b"), (1, 1, "b again"), (2, 0, "x"), (3, 0, "c"), (3, 1, "d")]
    );
    assert!(order_chunks(Vec::new()).is_empty());
}

#[test]
fn ordering_agrees_with_a_stable_sort() {
    let mut seed: u32 = 12345;
    for round in 0..50 {
        let mut chunks = Vec::new();
        for k in 0..(round % 17) {
            seed = seed.wrapping_mul(1664525).wrapping_add(1013904223);
            let page = ((seed >> 16) % 4) as usize;
            let id = ((seed >> 8) % 3) as usize;
            chunks.push(record(page, id, &format!("t{}", k)));
        }
        let mut expected = chunks.clone();
        expected.sort_by(|a, b| a.page.cmp(&b.page).then(a.chunk_id.cmp(&b.chunk_id)));
        let got = order_chunks(chunks);
        let key = |v: &Vec<ChunkMetadata>| -> Vec<(usize, usize, String)> {
            v.iter().map(|c| (c.page, c.chunk_id, c.text.clone())).collect()
        };
        assert_eq!(key(&got), key(&expected));
    }
}
