use rustchunker::text_preprocessor::TextPreprocessor;

#[test]
fn test_excessive_newlines() {
    let preprocessor = TextPreprocessor::new();
    let input = "Line 1\n\n\n\nLine 2\n \n \n\nLine 3";
    let result = preprocessor.preprocess(input);
    assert_eq!(result, "Line 1\n\nLine 2\n\nLine 3");
}

#[test]
fn test_whitespace_cleanup() {
    let preprocessor = TextPreprocessor::new();
    let input = "Word1    Word2\t\t\tWord3   Word4";
    let result = preprocessor.preprocess(input);
    assert_eq!(result, "Word1 Word2 Word3 Word4");
}

#[test]
fn paragraphs_are_two_line_feeds_apart() {
    let preprocessor = TextPreprocessor::new();
    assert_eq!(preprocessor.preprocess("A.\n\n\n\nB.\n \n \n\nC."), "A.\n\nB.\n\nC.");
    assert_eq!(preprocessor.preprocess("a\n\nb"), "a\n\nb");
    assert_eq!(preprocessor.preprocess("a\n \nb"), "a\n \nb");
    assert_eq!(preprocessor.preprocess("a\n\u{a0}\n\u{2003}\nb"), "a\n\nb");
    assert_eq!(preprocessor.preprocess("a \n\n\n b"), "a \n\n b");
    assert_eq!(preprocessor.preprocess("a\r\n\r\n\r\nb"), "a\r\n\nb");
}

#[test]
fn control_characters_go_but_tab_and_line_ends_stay() {
    let preprocessor = TextPreprocessor::new();
    assert_eq!(preprocessor.preprocess("a\u{0}b\u{8}c\u{b}d\u{c}e\u{e}f\u{1f}g\u{7f}h"), "abcdefgh");
    assert_eq!(preprocessor.preprocess("a\tb"), "a b");
    assert_eq!(preprocessor.preprocess("a\r\nb"), "a\r\nb");
    assert_eq!(preprocessor.preprocess("a\u{80}b"), "a\u{80}b");
    assert_eq!(preprocessor.preprocess("a\n\u{1}\n\u{2}\nb"), "a\n\nb");
}

#[test]
fn ends_are_trimmed() {
    let preprocessor = TextPreprocessor::new();
    assert_eq!(preprocessor.preprocess("  a  "), "a");
    assert_eq!(preprocessor.preprocess("\u{a0} a \u{3000}\n"), "a");
    assert_eq!(preprocessor.preprocess(""), "");
    assert_eq!(preprocessor.preprocess(" \n\t\r\n "), "");
    assert_eq!(preprocessor.preprocess("\u{200b}a"), "\u{200b}a");
}

/// The clean text as the rules state it, written out without patterns.
fn expected_clean(text: &str) -> String {
    let chars: Vec<char> = text
        .chars()
        .filter(|c| {
            let u = *c as u32;
            !(u <= 0x08 || u == 0x0B || u == 0x0C || (0x0E..=0x1F).contains(&u) || u == 0x7F)
        })
        .collect();
    let mut lines: Vec<char> = Vec::new();
    let mut i = 0;
    while i < chars.len() {
        if chars[i] == '\n' {
            let mut end = i;
            let mut count = 0;
            let mut last = i;
            while end < chars.len() && chars[end].is_whitespace() {
                if chars[end] == '\n' {
                    count += 1;
                    last = end;
                }
                end += 1;
            }
            if count >= 3 {
                lines.push('\n');
                lines.push('\n');
                i = last + 1;
                continue;
            }
        }
        lines.push(chars[i]);
        i += 1;
    }
    let mut blanks: Vec<char> = Vec::new();
    let mut i = 0;
    while i < lines.len() {
        if lines[i] == ' ' || lines[i] == '\t' {
            while i < lines.len() && (lines[i] == ' ' || lines[i] == '\t') {
                i += 1;
            }
            blanks.push(' ');
        } else {
            blanks.push(lines[i]);
            i += 1;
        }
    }
    let joined: String = blanks.into_iter().collect();
    joined.trim().to_string()
}

/// Every text of up to `length` characters over the alphabet.
fn all_texts(alphabet: &[char], length: usize) -> Vec<String> {
    let mut texts = vec![String::new()];
    let mut last = vec![String::new()];
    for _ in 0..length {
        let mut next = Vec::new();
        for t in &last {
            for c in alphabet {
                let mut longer = t.clone();
                longer.push(*c);
                next.push(longer);
            }
        }
        texts.extend(next.iter().cloned());
        last = next;
    }
    texts
}

#[test]
fn clean_text_is_what_the_rules_state() {
    let preprocessor = TextPreprocessor::new();
    let alphabet = ['\n', ' ', '\t', 'a', '\r', '\u{a0}', '\u{1}'];
    for text in all_texts(&alphabet, 6) {
        assert_eq!(preprocessor.preprocess(&text), expected_clean(&text), "on {:?}", text);
    }
}

#[test]
fn cleaning_clean_text_changes_nothing() {
    let preprocessor = TextPreprocessor::new();
    let alphabet = ['\n', ' ', '\t', 'a', '\u{a0}', '\u{1}'];
    for text in all_texts(&alphabet, 6) {
        let once = preprocessor.preprocess(&text);
        assert_eq!(preprocessor.preprocess(&once), once, "on {:?}", text);
    }
}

#[test]
fn clean_text_has_no_long_runs_and_no_control_characters() {
    let preprocessor = TextPreprocessor::new();
    let alphabet = ['\n', ' ', '\t', 'a', '\u{a0}', '\u{1}'];
    for text in all_texts(&alphabet, 6) {
        let clean = preprocessor.preprocess(&text);
        assert!(!clean.contains("\n\n\n"), "on {:?}", text);
        assert!(!clean.contains("  ") && !clean.contains('\t'), "on {:?}", text);
        assert!(
            clean.chars().all(|c| c == '\t' || c == '\n' || c == '\r' || !(c.is_control() && (c as u32) < 0x80)),
            "on {:?}",
            text
        );
    }
}
