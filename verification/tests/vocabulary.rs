use base64::Engine;
use rustchunker::error::ProcessingError;
use rustchunker::o200k_vocab::{
    decode_token_debug, load_o200k_base_encoder, load_o200k_base_special_tokens, parse_vocabulary,
};

/// The text of a vocabulary file with more than 100 000 records.
fn vocabulary_file() -> String {
    let engine = base64::engine::general_purpose::STANDARD;
    let mut out = String::new();
    for b in 0u32..256 {
        out.push_str(&format!("{} {}\n", engine.encode([b as u8]), b));
    }
    for i in 0u32..100_000 {
        let bytes = [0xFFu8, (i >> 16) as u8, (i >> 8) as u8, i as u8];
        out.push_str(&format!("{} {}\n", engine.encode(bytes), 200_000 + i));
    }
    out
}

#[test]
fn test_load_o200k_base_encoder() {
    let encoder = load_o200k_base_encoder(&vocabulary_file()).unwrap();

    assert!(encoder.len() > 100000, "Should load substantial vocabulary");

    assert!(encoder.contains_key(&vec![32]));
    assert!(encoder.contains_key(&vec![65]));
    assert!(encoder.contains_key(&vec![97]));

    println!("Loaded {} tokens", encoder.len());
}

#[test]
fn test_decode_token_display() {
    let result = decode_token_debug("aGVsbG8=").unwrap();
    assert!(result.contains("hello"));

    let result = decode_token_debug("IQ==").unwrap();
    assert!(result.contains("!"));
}

#[test]
fn a_token_is_shown_between_quotes() {
    assert_eq!(decode_token_debug("aGVsbG8=").unwrap(), "'hello'");
    assert_eq!(decode_token_debug("IQ==").unwrap(), "'!'");
    assert_eq!(decode_token_debug("").unwrap(), "''");
    assert_eq!(decode_token_debug("w6k=").unwrap(), "'é'");
}

#[test]
fn a_token_that_is_no_text_is_shown_as_bytes() {
    assert_eq!(decode_token_debug("/wCA").unwrap(), "bytes: [255, 0, 128]");
    assert_eq!(decode_token_debug("gA==").unwrap(), "bytes: [128]");
    assert_eq!(decode_token_debug("/wlj").unwrap(), "bytes: [255, 9, 99]");
}

#[test]
fn a_token_that_is_no_base64_is_refused() {
    assert!(matches!(decode_token_debug("!!!"), Err(ProcessingError::SystemError(_))));
    assert!(matches!(decode_token_debug("aGVsbG8"), Err(ProcessingError::SystemError(_))));
}

#[test]
fn records_are_read_line_by_line() {
    let report = parse_vocabulary("IQ== 0\nIg== 1\naGVsbG8= 77");
    assert_eq!(report.error_count, 0);
    assert_eq!(report.encoder.len(), 3);
    assert_eq!(report.encoder.get(&b"!".to_vec()), Some(&0));
    assert_eq!(report.encoder.get(&b"\"".to_vec()), Some(&1));
    assert_eq!(report.encoder.get(&b"hello".to_vec()), Some(&77));
}

#[test]
fn blank_lines_are_passed_over() {
    let report = parse_vocabulary("\n\nIQ== 0\n   \n\t\n\r\nIg== 1\n\n");
    assert_eq!(report.error_count, 0);
    assert_eq!(report.encoder.len(), 2);
}

#[test]
fn fields_are_parted_by_any_white_space() {
    let report = parse_vocabulary("  IQ==\t \t0  \r\nIg==\u{b}1\u{c}\n");
    assert_eq!(report.error_count, 0);
    assert_eq!(report.encoder.get(&b"!".to_vec()), Some(&0));
    assert_eq!(report.encoder.get(&b"\"".to_vec()), Some(&1));
}

#[test]
fn malformed_lines_are_counted_and_left_out() {
    let data = "IQ== 0\nonlyone\nIg== 1 extra\n!!! 5\nIg== x7\nIg== -1\nIg== 4294967296\nIg== \u{a0}3\nJA== 9\n";
    let report = parse_vocabulary(data);
    assert_eq!(report.error_count, 7);
    assert_eq!(report.encoder.len(), 2);
    assert_eq!(report.encoder.get(&b"!".to_vec()), Some(&0));
    assert_eq!(report.encoder.get(&b"$".to_vec()), Some(&9));
}

#[test]
fn a_rank_is_decimal_with_an_optional_plus() {
    let report = parse_vocabulary("IQ== +5\nIg== 007\nIw== 4294967295\nJA== +\nJQ== 5+\nJg== 00000000000000000000000000012\n");
    assert_eq!(report.error_count, 2);
    assert_eq!(report.encoder.get(&b"!".to_vec()), Some(&5));
    assert_eq!(report.encoder.get(&b"\"".to_vec()), Some(&7));
    assert_eq!(report.encoder.get(&b"#".to_vec()), Some(&4294967295));
    assert_eq!(report.encoder.get(&b"&".to_vec()), Some(&12));
    assert_eq!(report.encoder.len(), 4);
}

#[test]
fn a_later_record_takes_the_place_of_an_earlier_one() {
    let report = parse_vocabulary("IQ== 1\nIQ== 2\n");
    assert_eq!(report.error_count, 0);
    assert_eq!(report.encoder.len(), 1);
    assert_eq!(report.encoder.get(&b"!".to_vec()), Some(&2));
}

#[test]
fn an_empty_token_is_a_record() {
    let report = parse_vocabulary("AA== 3\n");
    assert_eq!(report.encoder.get(&vec![0u8]), Some(&3));
}

#[test]
fn a_small_vocabulary_is_refused() {
    assert!(matches!(load_o200k_base_encoder(""), Err(ProcessingError::SystemError(_))));
    assert!(matches!(load_o200k_base_encoder("IQ== 0\nIg== 1\n"), Err(ProcessingError::SystemError(_))));
    let mut almost = String::new();
    for i in 0u32..99_999 {
        let bytes = [0xFFu8, (i >> 16) as u8, (i >> 8) as u8, i as u8];
        almost.push_str(&format!("{} {}\n", base64::engine::general_purpose::STANDARD.encode(bytes), i));
    }
    assert!(matches!(load_o200k_base_encoder(&almost), Err(ProcessingError::SystemError(_))));
    almost.push_str("IQ== 100000\n");
    assert_eq!(load_o200k_base_encoder(&almost).unwrap().len(), 100_000);
}

#[test]
fn the_special_tokens_have_their_reserved_ranks() {
    let table = load_o200k_base_special_tokens();
    let rank = |label: &str| table.iter().find(|(l, _)| l == label).map(|(_, r)| *r);
    assert_eq!(table.len(), 8);
    assert_eq!(rank("<|endoftext|>"), Some(100257));
    assert_eq!(rank("<|fim_prefix|>"), Some(100258));
    assert_eq!(rank("<|fim_middle|>"), Some(100259));
    assert_eq!(rank("<|fim_suffix|>"), Some(100260));
    assert_eq!(rank("<|im_start|>"), Some(100264));
    assert_eq!(rank("<|im_end|>"), Some(100265));
    assert_eq!(rank("<|im_sep|>"), Some(100266));
    assert_eq!(rank("<|endofprompt|>"), Some(100276));
}
