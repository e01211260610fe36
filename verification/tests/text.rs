use rustchunker::chunk_merger::join_with_space;
use rustchunker::error::{concat_text, ProcessingError};
use rustchunker::splitting::{cut_pieces, literal_matches};
use rustchunker::text::{is_blank, is_white_space, slice_text, trim};

#[test]
fn white_space_is_the_unicode_property() {
    for c in ['\t', '\n', '\u{b}', '\u{c}', '\r', ' ', '\u{85}', '\u{a0}', '\u{1680}', '\u{2000}', '\u{200a}',
        '\u{2028}', '\u{2029}', '\u{202f}', '\u{205f}', '\u{3000}']
    {
        assert!(is_white_space(c));
    }
    for c in ['a', '\u{0}', '\u{8}', '\u{e}', '\u{1f}', '\u{7f}', '\u{200b}', '\u{180e}', '\u{feff}', '\u{2060}'] {
        assert!(!is_white_space(c));
    }
    for u in 0u32..0x3100 {
        if let Some(c) = char::from_u32(u) {
            assert_eq!(is_white_space(c), c.is_whitespace());
        }
    }
}

#[test]
fn blank_text_is_white_space_only() {
    assert!(is_blank(""));
    assert!(is_blank(" \t\n\u{a0}"));
    assert!(!is_blank(" a "));
    assert!(!is_blank("\u{200b}"));
}

#[test]
fn trim_takes_white_space_off_both_ends() {
    for text in ["", " ", "a", "  a b  ", "\n\ta\u{a0}", "\u{3000}x y\u{2003}\r\n", " \u{200b} ", "a  ", "  a"] {
        assert_eq!(trim(text), text.trim());
    }
    assert_eq!(trim("  a b  "), "a b");
}

#[test]
fn slice_text_cuts_at_character_boundaries_only() {
    let text = "caf\u{e9} au lait";
    assert_eq!(slice_text(text, 0, 5), Some("caf\u{e9}".to_string()));
    assert_eq!(slice_text(text, 6, 8), Some("au".to_string()));
    assert_eq!(slice_text(text, 3, 3), Some(String::new()));
    assert_eq!(slice_text(text, 0, 13), Some(text.to_string()));
    assert_eq!(slice_text(text, 0, 4), None);
    assert_eq!(slice_text(text, 4, 6), None);
    assert_eq!(slice_text(text, 5, 3), None);
    assert_eq!(slice_text(text, 0, 14), None);
    assert_eq!(slice_text(text, 20, 30), None);
}

#[test]
fn a_literal_is_found_leftmost_first() {
    assert_eq!(literal_matches(b"a, b, c", b", "), vec![(1, 3), (4, 6)]);
    assert_eq!(literal_matches(b"aaaa", b"aa"), vec![(0, 2), (2, 4)]);
    assert_eq!(literal_matches(b"aaa", b"aa"), vec![(0, 2)]);
    assert_eq!(literal_matches(b"abc", b"abc"), vec![(0, 3)]);
    assert_eq!(literal_matches(b"abc", b"abcd"), vec![]);
    assert_eq!(literal_matches(b"abc", b""), vec![]);
    assert_eq!(literal_matches(b"", b"a"), vec![]);
    assert_eq!(literal_matches(b"x.y. z", b". "), vec![(3, 5)]);
}

#[test]
fn pieces_lie_between_the_matches() {
    assert_eq!(cut_pieces("a, b, c", &vec![(1, 3), (4, 6)]), vec![(0, 1), (3, 4), (6, 7)]);
    assert_eq!(cut_pieces("abc", &vec![]), vec![(0, 3)]);
    assert_eq!(cut_pieces(", a", &vec![(0, 2)]), vec![(0, 0), (2, 3)]);
    assert_eq!(cut_pieces("", &vec![]), vec![(0, 0)]);
}

#[test]
fn a_match_that_cannot_be_cut_is_passed_over() {
    assert_eq!(cut_pieces("abcdef", &vec![(2, 3), (1, 2), (4, 9), (5, 4), (4, 5)]), vec![(0, 2), (3, 4), (5, 6)]);
    assert_eq!(cut_pieces("a\u{e9}b", &vec![(2, 3)]), vec![(0, 3 + 1)]);
    assert_eq!(cut_pieces("a\u{e9}b", &vec![(1, 3)]), vec![(0, 1), (3, 4)]);
}

#[test]
fn texts_are_joined() {
    assert_eq!(join_with_space("a", "b"), "a b");
    assert_eq!(join_with_space("", ""), " ");
    assert_eq!(concat_text("ab", "cd"), "abcd");
}

#[test]
fn an_error_has_a_message() {
    assert_eq!(ProcessingError::PdfLoadError("x".to_string()).message(), "PDF loading failed: x");
    assert_eq!(
        ProcessingError::TextExtractionError { page: 3, error: "y".to_string() }.message(),
        "Text extraction failed on page 3: y"
    );
    assert_eq!(ProcessingError::ChunkingError("z".to_string()).message(), "Chunking failed: z");
    assert_eq!(ProcessingError::ParallelError("p".to_string()).message(), "Parallel processing error: p");
    assert_eq!(ProcessingError::IoError("i".to_string()).message(), "IO error: i");
    assert_eq!(ProcessingError::SystemError("s".to_string()).message(), "System error: s");
}

#[test]
fn a_page_number_is_written_in_decimal() {
    for (page, text) in [(0usize, "0"), (9, "9"), (10, "10"), (407, "407"), (1234567890, "1234567890")] {
        assert_eq!(
            ProcessingError::TextExtractionError { page, error: "e".to_string() }.message(),
            format!("Text extraction failed on page {}: e", text)
        );
    }
    assert_eq!(rustchunker::text::decimal_string(usize::MAX), usize::MAX.to_string());
}
