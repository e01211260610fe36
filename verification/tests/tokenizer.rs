use base64::Engine;
use rustc_hash::FxHashMap;
use rustchunker::error::ProcessingError;
use rustchunker::o200k_vocab::{load_o200k_base_special_tokens, O200K_BASE_PATTERN};
use rustchunker::tiktoken_core::{byte_pair_encode, CoreBPE, Rank};

/// A small vocabulary: every single byte under its own value, and a few
/// longer strings that only the letters b, j, q, x, y and z can form.
fn small_encoder() -> FxHashMap<Vec<u8>, Rank> {
    let mut encoder: FxHashMap<Vec<u8>, Rank> = FxHashMap::default();
    for b in 0u32..256 {
        encoder.insert(vec![b as u8], b);
    }
    encoder.insert(b"xy".to_vec(), 256);
    encoder.insert(b"yz".to_vec(), 257);
    encoder.insert(b"xyz".to_vec(), 258);
    encoder.insert(b"zz".to_vec(), 259);
    encoder.insert(b" jq".to_vec(), 260);
    encoder
}

fn small_tokenizer() -> CoreBPE {
    CoreBPE::new_internal(small_encoder(), load_o200k_base_special_tokens(), O200K_BASE_PATTERN).unwrap()
}

/// The text of a vocabulary file with more than 100 000 records.
fn vocabulary_file() -> String {
    let engine = base64::engine::general_purpose::STANDARD;
    let mut out = String::new();
    for b in 0u32..256 {
        out.push_str(&format!("{} {}\n", engine.encode([b as u8]), b));
    }
    let longer: [(&[u8], u32); 5] = [(b"xy", 256), (b"yz", 257), (b"xyz", 258), (b"zz", 259), (b" jq", 260)];
    for (bytes, rank) in longer {
        out.push_str(&format!("{} {}\n", engine.encode(bytes), rank));
    }
    for i in 0u32..100_000 {
        let bytes = [0xFFu8, (i >> 16) as u8, (i >> 8) as u8, i as u8];
        out.push_str(&format!("{} {}\n", engine.encode(bytes), 200_000 + i));
    }
    out
}

fn is_system_error(e: &ProcessingError) -> bool {
    matches!(e, ProcessingError::SystemError(_))
}

#[test]
fn test_basic_encoding() {
    let bpe = CoreBPE::new_o200k_base(&vocabulary_file()).unwrap();
    let tokens = bpe.encode_ordinary("Hello world");
    assert!(!tokens.is_empty());
}

#[test]
fn test_token_counting() {
    let bpe = CoreBPE::new_o200k_base(&vocabulary_file()).unwrap();
    let count = bpe.count_tokens("This is a test").unwrap();
    assert!(count > 0);
}

#[test]
fn merge_takes_the_lowest_rank_first() {
    let encoder = small_encoder();
    assert_eq!(byte_pair_encode(b"xyzz", &encoder), vec![258, 122]);
    assert_eq!(byte_pair_encode(b"yzz", &encoder), vec![257, 122]);
    assert_eq!(byte_pair_encode(b"xyxy", &encoder), vec![256, 256]);
}

#[test]
fn merge_takes_the_leftmost_of_equal_ranks() {
    let encoder = small_encoder();
    assert_eq!(byte_pair_encode(b"zzz", &encoder), vec![259, 122]);
    assert_eq!(byte_pair_encode(b"zzzz", &encoder), vec![259, 259]);
}

#[test]
fn merge_leaves_unknown_pairs_alone() {
    let encoder = small_encoder();
    assert_eq!(byte_pair_encode(b"abc", &encoder), vec![97, 98, 99]);
}

#[test]
fn every_single_byte_is_one_token() {
    let encoder = small_encoder();
    for b in 0u32..256 {
        assert_eq!(byte_pair_encode(&[b as u8], &encoder), vec![b]);
    }
}

#[test]
fn every_ascii_character_is_one_token() {
    let bpe = small_tokenizer();
    for b in 0u8..128 {
        let text = String::from_utf8(vec![b]).unwrap();
        assert_eq!(bpe.encode_ordinary(&text), vec![b as u32]);
    }
}

#[test]
fn encode_ordinary_cuts_pieces_and_merges_each() {
    let bpe = small_tokenizer();
    assert_eq!(bpe.encode_ordinary("xyz"), vec![258]);
    assert_eq!(bpe.encode_ordinary("xyzz zzz"), vec![258, 122, 32, 259, 122]);
    assert_eq!(bpe.encode_ordinary("Hello world."), vec![72, 101, 108, 108, 111, 32, 119, 111, 114, 108, 100, 46]);
    assert_eq!(bpe.encode_ordinary(""), Vec::<Rank>::new());
}

#[test]
fn encode_ordinary_takes_a_whole_piece_from_the_vocabulary() {
    let bpe = small_tokenizer();
    assert_eq!(bpe.encode_ordinary("a jq"), vec![97, 260]);
}

#[test]
fn encode_spans_skips_unusable_spans() {
    let bpe = small_tokenizer();
    let spans = vec![(0usize, 2usize), (2, 2), (3, 2), (2, 9), (2, 4)];
    assert_eq!(bpe.encode_spans("xyzz", &spans), vec![256, 259]);
}

#[test]
fn count_tokens_is_the_length_of_the_encoding() {
    let bpe = small_tokenizer();
    assert_eq!(bpe.count_tokens("xyzz zzz").unwrap(), 5);
    assert_eq!(bpe.count_tokens("").unwrap(), 0);
}

#[test]
fn decode_joins_the_bytes_of_the_tokens() {
    let bpe = small_tokenizer();
    assert_eq!(bpe.decode(&[258, 122, 32, 259, 122]).unwrap(), "xyzz zzz");
    assert_eq!(bpe.decode(&[]).unwrap(), "");
    assert_eq!(bpe.decode(&[0xC3, 0xA9]).unwrap(), "é");
}

#[test]
fn decode_knows_special_tokens() {
    let bpe = small_tokenizer();
    assert_eq!(bpe.decode(&[97, 100257, 98]).unwrap(), "a<|endoftext|>b");
    assert_eq!(bpe.decode(&[100276]).unwrap(), "<|endofprompt|>");
}

#[test]
fn decode_rejects_an_unknown_token() {
    let bpe = small_tokenizer();
    let e = bpe.decode(&[97, 5000]).unwrap_err();
    assert!(is_system_error(&e));
}

#[test]
fn decode_rejects_bytes_that_are_not_utf8() {
    let bpe = small_tokenizer();
    let e = bpe.decode(&[0xA9]).unwrap_err();
    assert!(is_system_error(&e));
    let e = bpe.decode(&[0xC3]).unwrap_err();
    assert!(is_system_error(&e));
}

#[test]
fn round_trip_gives_the_text_back() {
    let bpe = small_tokenizer();
    let texts = [
        "",
        "Hello world.",
        "xyzzy and  two  spaces\n\nnew paragraph\t tab",
        "It's 12345 o'clock, they'll say!",
        "naïve café – 日本語 テキスト 🙂",
        "trailing space ",
        "\r\n mixed \r\n",
    ];
    for text in texts {
        let tokens = bpe.encode_ordinary(text);
        assert_eq!(bpe.decode(&tokens).unwrap(), text);
    }
}

#[test]
fn encoding_two_texts_apart_gives_no_fewer_tokens() {
    let bpe = small_tokenizer();
    let pairs = [("xy", "z"), ("x", "yz"), ("z", "z"), ("Hello", " world"), ("", "xyz"), ("12", "34")];
    for (a, b) in pairs {
        let apart = bpe.encode_ordinary(a).len() + bpe.encode_ordinary(b).len();
        let joined = bpe.encode_ordinary(&format!("{}{}", a, b)).len();
        assert!(apart >= joined);
    }
}

#[test]
fn encoding_is_the_same_on_every_call() {
    let bpe = small_tokenizer();
    let text = "xyzz zzz, the same text";
    assert_eq!(bpe.encode_ordinary(text), bpe.encode_ordinary(text));
    let other = small_tokenizer();
    assert_eq!(bpe.encode_ordinary(text), other.encode_ordinary(text));
}

#[test]
fn encode_gives_an_allowed_special_label_its_rank() {
    let bpe = small_tokenizer();
    let allowed = vec!["<|endoftext|>".to_string()];
    assert_eq!(bpe.encode("ab<|endoftext|>cd", &allowed).unwrap(), vec![97, 98, 100257, 99, 100]);
    assert_eq!(bpe.encode("<|endoftext|>", &allowed).unwrap(), vec![100257]);
    assert_eq!(
        bpe.encode("<|endoftext|><|endoftext|>x", &allowed).unwrap(),
        vec![100257, 100257, 120]
    );
}

#[test]
fn encode_reads_a_label_that_is_not_allowed_as_text() {
    let bpe = small_tokenizer();
    let none: Vec<String> = Vec::new();
    assert_eq!(bpe.encode("a<|im_end|>", &none).unwrap(), bpe.encode_ordinary("a<|im_end|>"));
    let allowed = vec!["<|endoftext|>".to_string()];
    assert_eq!(
        bpe.encode("<|im_end|>a<|endoftext|>", &allowed).unwrap(),
        [bpe.encode_ordinary("<|im_end|>a"), vec![100257]].concat()
    );
}

#[test]
fn encode_without_labels_is_ordinary_encoding() {
    let bpe = small_tokenizer();
    let allowed = vec!["<|endoftext|>".to_string(), "<|im_start|>".to_string()];
    assert_eq!(bpe.encode("xyzz zzz", &allowed).unwrap(), vec![258, 122, 32, 259, 122]);
    assert_eq!(bpe.encode("", &allowed).unwrap(), Vec::<Rank>::new());
}

#[test]
fn encode_takes_the_first_label_of_the_table_that_matches() {
    let specials = vec![("<|a|>".to_string(), 900u32), ("<|a|>b".to_string(), 901u32)];
    let bpe = CoreBPE::new_internal(small_encoder(), specials, O200K_BASE_PATTERN).unwrap();
    assert_eq!(bpe.encode("x<|a|>b", &vec!["<|a|>".to_string()]).unwrap(), vec![120, 900, 98]);
}

#[test]
fn special_tokens_lists_the_labels() {
    let bpe = small_tokenizer();
    assert_eq!(
        bpe.special_tokens(),
        vec![
            "<|endoftext|>",
            "<|fim_prefix|>",
            "<|fim_middle|>",
            "<|fim_suffix|>",
            "<|endofprompt|>",
            "<|im_start|>",
            "<|im_end|>",
            "<|im_sep|>"
        ]
    );
}

#[test]
fn a_tokenizer_needs_every_single_byte() {
    let mut encoder = small_encoder();
    encoder.remove(&vec![0x41u8]);
    let r = CoreBPE::new_internal(encoder, load_o200k_base_special_tokens(), O200K_BASE_PATTERN);
    assert!(matches!(r, Err(ProcessingError::SystemError(_))));
}

#[test]
fn a_tokenizer_needs_distinct_ranks() {
    let mut encoder = small_encoder();
    encoder.insert(b"qq".to_vec(), 97);
    let r = CoreBPE::new_internal(encoder, load_o200k_base_special_tokens(), O200K_BASE_PATTERN);
    assert!(matches!(r, Err(ProcessingError::SystemError(_))));
}

#[test]
fn a_tokenizer_needs_a_pattern_that_compiles() {
    let r = CoreBPE::new_internal(small_encoder(), load_o200k_base_special_tokens(), "(unclosed");
    assert!(matches!(r, Err(ProcessingError::SystemError(_))));
}

#[test]
fn a_tokenizer_from_a_file_encodes_like_its_vocabulary() {
    let bpe = CoreBPE::new_o200k_base(&vocabulary_file()).unwrap();
    assert_eq!(bpe.encode_ordinary("xyzz zzz"), vec![258, 122, 32, 259, 122]);
    assert_eq!(bpe.decode(&[258, 122]).unwrap(), "xyzz");
}

#[test]
fn a_tokenizer_from_a_small_file_is_refused() {
    let r = CoreBPE::new_o200k_base("IQ== 0\n");
    assert!(matches!(r, Err(ProcessingError::SystemError(_))));
}

#[test]
fn a_piece_is_encoded_where_the_vocabulary_covers_it() {
    let mut encoder = small_encoder();
    assert_eq!(rustchunker::tiktoken_core::byte_pair_encode_checked(b"xyzz", &encoder), Some(vec![258, 122]));
    assert_eq!(rustchunker::tiktoken_core::byte_pair_encode_checked(b"", &encoder), None);
    encoder.remove(&vec![b'z']);
    assert_eq!(rustchunker::tiktoken_core::byte_pair_encode_checked(b"xyzz", &encoder), None);
    assert_eq!(rustchunker::tiktoken_core::byte_pair_encode_checked(b"xy", &encoder), Some(vec![256]));
    assert!(rustchunker::tiktoken_core::covers_piece(b"abc", &encoder));
    assert!(!rustchunker::tiktoken_core::covers_piece(b"abz", &encoder));
}

#[test]
fn joining_two_texts_can_give_more_tokens() {
    let mut encoder: FxHashMap<Vec<u8>, Rank> = FxHashMap::default();
    for b in 0u32..256 {
        encoder.insert(vec![b as u8], b);
    }
    encoder.insert(b"wx".to_vec(), 300);
    encoder.insert(b"xy".to_vec(), 256);
    encoder.insert(b"yz".to_vec(), 301);
    let bpe = CoreBPE::new_internal(encoder, load_o200k_base_special_tokens(), O200K_BASE_PATTERN).unwrap();
    assert_eq!(bpe.encode_ordinary("wx"), vec![300]);
    assert_eq!(bpe.encode_ordinary("yz"), vec![301]);
    assert_eq!(bpe.encode_ordinary("wxyz"), vec![119, 256, 122]);
}

#[test]
fn a_pattern_that_does_not_compile_is_named_in_the_error() {
    match CoreBPE::new_internal(small_encoder(), load_o200k_base_special_tokens(), "(unclosed") {
        Err(ProcessingError::SystemError(message)) => {
            assert!(message.starts_with("Regex compilation failed: "));
            assert!(message.len() > "Regex compilation failed: ".len());
        }
        _ => panic!("the pattern should not compile"),
    }
}

#[test]
fn a_special_label_is_found_letter_for_letter() {
    let labels = ["a.b", "x*y", "[z]", "q\\d", "#(h)", "^s$", "{m}+?", "u|v"];
    let specials: Vec<(String, Rank)> =
        labels.iter().enumerate().map(|(k, l)| (l.to_string(), 900 + k as u32)).collect();
    let allowed: Vec<String> = labels.iter().map(|l| l.to_string()).collect();
    let bpe = CoreBPE::new_internal(small_encoder(), specials, O200K_BASE_PATTERN).unwrap();
    for (k, label) in labels.iter().enumerate() {
        assert_eq!(bpe.encode(label, &allowed).unwrap(), vec![900 + k as u32]);
    }
    for text in ["acb", "xy", "xxy", "z", "q7", "h", "s", "m", "mm", "u", "v", "adb x+y"] {
        assert_eq!(bpe.encode(text, &allowed).unwrap(), bpe.encode_ordinary(text));
    }
    assert_eq!(bpe.encode("1a.b2", &allowed).unwrap(), vec![49, 900, 50]);
}
