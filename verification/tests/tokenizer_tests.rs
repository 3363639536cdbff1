use rustbpe::chunks::ChunkCounter;
use rustbpe::error::TokenizerError;
use rustbpe::pattern::GPT4_PATTERN;
use rustbpe::tokenizer::Tokenizer;
use rustbpe::word::Word;

fn hand_built() -> Tokenizer {
    let mut tok = Tokenizer::with_pattern(r"\w+|\s+").unwrap();
    assert_eq!(tok.insert_merge((104, 101)), Some(256));
    assert_eq!(tok.insert_merge((108, 108)), Some(257));
    assert_eq!(tok.insert_merge((256, 257)), Some(258));
    tok
}

fn strings(texts: &[&str]) -> Vec<String> {
    texts.iter().map(|t| t.to_string()).collect()
}

#[test]
fn new_tokenizer_is_untrained() {
    let tok = Tokenizer::new();
    assert_eq!(tok.get_pattern(), "");
    assert_eq!(tok.merge_count(), 0);
    assert_eq!(tok.merge_list(), vec![]);
    assert_eq!(tok.merge_of((97, 98)), None);
}

#[test]
fn new_tokenizer_encodes_to_nothing() {
    let tok = Tokenizer::new();
    assert_eq!(tok.encode("abc"), Ok(vec![]));
    assert_eq!(tok.encode(""), Ok(vec![]));
}

#[test]
fn default_pattern_is_the_gpt4_pattern() {
    assert_eq!(
        GPT4_PATTERN,
        "'(?i:[sdmt]|ll|ve|re)|[^\\r\\n\\p{L}\\p{N}]?\\p{L}+|\\p{N}{1,3}| ?[^\\s\\p{L}\\p{N}]+[\\r\\n]*|\\s*[\\r\\n]|\\s+(?!\\S)|\\s+"
    );
}

#[test]
fn get_mergeable_ranks_on_empty_table() {
    let ranks = Tokenizer::new().get_mergeable_ranks();
    assert_eq!(ranks.len(), 256);
    for (i, (bytes, id)) in ranks.into_iter().enumerate() {
        assert_eq!(bytes, vec![i as u8]);
        assert_eq!(id, i as u32);
    }
}

#[test]
fn get_mergeable_ranks_after_merges() {
    let ranks = hand_built().get_mergeable_ranks();
    assert_eq!(ranks.len(), 259);
    assert_eq!(ranks[256], (b"he".to_vec(), 256));
    assert_eq!(ranks[257], (b"ll".to_vec(), 257));
    assert_eq!(ranks[258], (b"hell".to_vec(), 258));
}

#[test]
fn decode_unknown_token_on_untrained_tokenizer() {
    let tok = Tokenizer::new();
    assert_eq!(tok.decode(&vec![300]), Err(TokenizerError::UnknownToken(300)));
}

#[test]
fn decode_invalid_utf8() {
    let tok = Tokenizer::new();
    assert_eq!(tok.decode(&vec![104, 105, 128]), Err(TokenizerError::InvalidUtf8(2)));
}

#[test]
fn with_pattern_rejects_invalid_syntax() {
    match Tokenizer::with_pattern("(") {
        Err(TokenizerError::InvalidConfig(text)) => {
            assert!(text.starts_with("Invalid regex pattern: "));
            assert!(text.len() > "Invalid regex pattern: ".len());
        }
        _ => panic!("an unclosed group must not compile"),
    }
    assert!(Tokenizer::with_pattern(r"\p{L}+").is_ok());
}

#[test]
fn with_pattern_keeps_the_pattern() {
    let tok = Tokenizer::with_pattern(r"\w+|\s+").unwrap();
    assert_eq!(tok.get_pattern(), r"\w+|\s+");
}

#[test]
fn encode_hand_built_table() {
    let tok = hand_built();
    assert_eq!(
        tok.encode("hello world"),
        Ok(vec![258, 111, 32, 119, 111, 114, 108, 100])
    );
}

#[test]
fn encode_then_decode_round_trip() {
    let tok = hand_built();
    for text in ["hello world", "", "hell  hello\n\thello", "llhe he ll", "h\u{e9}llo w\u{f6}rld"] {
        let ids = tok.encode(text).unwrap();
        assert_eq!(tok.decode(&ids), Ok(text.to_string()));
    }
}

#[test]
fn encode_drops_what_the_pattern_does_not_match() {
    let tok = hand_built();
    let ids = tok.encode("hello, world!").unwrap();
    assert_eq!(tok.decode(&ids), Ok("hello world".to_string()));
}

#[test]
fn encode_splits_with_lookaround() {
    let tok = Tokenizer::with_pattern(r"a(?=b)|b+").unwrap();
    assert_eq!(tok.encode("abbab a"), Ok(vec![97, 98, 98, 97, 98]));
}

#[test]
fn encode_batch_matches_sequential_encode() {
    let tok = hand_built();
    let texts = strings(&["hello world", "", "hell", "he said hello", "world hello"]);
    let batch = tok.encode_batch(&texts).unwrap();
    assert_eq!(batch.len(), texts.len());
    for (text, ids) in texts.iter().zip(&batch) {
        assert_eq!(tok.encode(text).unwrap(), *ids);
    }
    assert_eq!(batch[2], vec![258]);
    assert_eq!(tok.encode_batch(&vec![]), Ok(vec![]));
}

#[test]
fn train_core_incremental_replaces_merges() {
    let mut tok = hand_built();
    let words = vec![Word::new(vec![97, 97, 97])];
    tok.train_core_incremental(words, vec![10], 258);
    assert_eq!(tok.merge_list(), vec![(97, 97), (256, 97)]);
    assert_eq!(tok.get_pattern(), r"\w+|\s+");
    assert_eq!(tok.encode("aaa aaaa"), Ok(vec![257, 32, 256, 256]));
}

#[test]
fn train_from_iterator_rejects_small_vocabulary() {
    let mut tok = hand_built();
    let r = tok.train_from_iterator(&strings(&["ab ab"]), 255, 8192, None);
    assert!(matches!(r, Err(TokenizerError::InvalidConfig(_))));
    assert_eq!(tok.merge_list(), vec![(104, 101), (108, 108), (256, 257)]);
    assert_eq!(tok.get_pattern(), r"\w+|\s+");
}

#[test]
fn train_from_iterator_rejects_invalid_pattern() {
    let mut tok = Tokenizer::new();
    let r = tok.train_from_iterator(&strings(&["ab ab"]), 300, 8192, Some("[a-".to_string()));
    assert!(matches!(r, Err(TokenizerError::InvalidConfig(_))));
    assert_eq!(tok.get_pattern(), "");
    assert_eq!(tok.merge_count(), 0);
}

#[test]
fn train_from_iterator_with_default_pattern() {
    let mut tok = Tokenizer::new();
    assert_eq!(tok.train_from_iterator(&strings(&["ab ab", " ab"]), 258, 8192, None), Ok(()));
    assert_eq!(tok.get_pattern(), GPT4_PATTERN);
    assert_eq!(tok.merge_list(), vec![(97, 98), (32, 256)]);
    assert_eq!(tok.encode("ab ab"), Ok(vec![256, 257]));
    assert_eq!(tok.decode(&vec![256, 257]), Ok("ab ab".to_string()));
}

#[test]
fn train_from_iterator_with_custom_pattern() {
    let mut tok = Tokenizer::new();
    let records = strings(&["aaa aaa", "aaa", "aaa aaa aaa aaa", "aaa aaa aaa"]);
    assert_eq!(tok.train_from_iterator(&records, 258, 2, Some(r"\w+".to_string())), Ok(()));
    assert_eq!(tok.get_pattern(), r"\w+");
    assert_eq!(tok.merge_list(), vec![(97, 97), (256, 97)]);
}

#[test]
fn train_from_iterator_does_not_depend_on_how_records_are_cut() {
    let mut whole = Tokenizer::new();
    whole
        .train_from_iterator(&strings(&["the cat sat on the mat; the hat sat on the cat"]), 280, 1, None)
        .unwrap();
    let mut cut = Tokenizer::new();
    cut.train_from_iterator(
        &strings(&["the cat sat on", " the mat;", " the hat sat", " on the cat"]),
        280,
        3,
        None,
    )
    .unwrap();
    assert_eq!(whole.merge_list(), cut.merge_list());
    assert!(!whole.merge_list().is_empty());
}

#[test]
fn streamed_training_matches_training_at_once() {
    let records = strings(&["low lower lowest", "new newer newest", "low new", "lower newer"]);
    let mut at_once = Tokenizer::new();
    at_once.train_from_iterator(&records, 270, 0, None).unwrap();
    let mut streamed = Tokenizer::with_pattern(GPT4_PATTERN).unwrap();
    let mut counter = ChunkCounter::new();
    for record in &records {
        assert_eq!(streamed.ingest(&mut counter, record), Ok(()));
    }
    assert_eq!(streamed.train_on(counter, 270), Ok(()));
    assert_eq!(streamed.merge_list(), at_once.merge_list());
}

#[test]
fn train_on_rejects_small_vocabulary() {
    let mut tok = hand_built();
    let r = tok.train_on(ChunkCounter::new(), 0);
    assert!(matches!(r, Err(TokenizerError::InvalidConfig(_))));
    assert_eq!(tok.merge_count(), 3);
}

#[test]
fn trained_tokenizer_round_trips_its_corpus() {
    let records = strings(&[
        "It's the tokenizer's job: split, merge, repeat!\n",
        "1234567 numbers\tand   spaces  \r\n",
        "caf\u{e9} na\u{ef}ve \u{65e5}\u{672c}\u{8a9e} \u{1f600}",
    ]);
    let mut tok = Tokenizer::new();
    tok.train_from_iterator(&records, 300, 8192, None).unwrap();
    assert!(tok.merge_count() > 0);
    for record in &records {
        let ids = tok.encode(record).unwrap();
        assert_eq!(tok.decode(&ids), Ok(record.clone()));
    }
}

#[test]
fn split_gives_the_chunks_in_order() {
    let tok = Tokenizer::with_pattern(GPT4_PATTERN).unwrap();
    assert_eq!(
        tok.split("Hello world, it's 12345!\n\n  ok "),
        Ok(strings(&[
            "Hello", " world", ",", " it", "'s", " ", "123", "45", "!\n\n", " ", " ok", " "
        ]))
    );
    assert_eq!(tok.split(""), Ok(vec![]));
}

#[test]
fn ingest_reports_oversized_input() {
    let tok = Tokenizer::with_pattern(r"\w+").unwrap();
    let mut counter = ChunkCounter::with_limit(6);
    assert_eq!(tok.ingest(&mut counter, "ab cd"), Ok(()));
    assert_eq!(tok.ingest(&mut counter, "e fg hi"), Err(TokenizerError::OversizedInput));
    let (words, counts) = counter.finish();
    let ids: Vec<Vec<u32>> = words.into_iter().map(|w| w.ids).collect();
    assert_eq!(ids, vec![vec![97, 98], vec![99, 100], vec![101]]);
    assert_eq!(counts, vec![1, 1, 1]);
}

#[test]
fn encode_reports_a_search_that_gives_up() {
    let tok = Tokenizer::with_pattern("(?i)(a|b|ab)*(?>c)").unwrap();
    let text = "ab".repeat(60);
    assert_eq!(tok.encode(&text), Err(TokenizerError::MatchFailed));
    assert_eq!(tok.split(&text), Err(TokenizerError::MatchFailed));
    assert_eq!(tok.encode_batch(&vec!["c".to_string(), text.clone()]), Err(TokenizerError::MatchFailed));
    let mut counter = ChunkCounter::new();
    assert_eq!(tok.ingest(&mut counter, &text), Err(TokenizerError::MatchFailed));
    assert_eq!(counter.len(), 0);
    assert_eq!(tok.encode("abc"), Ok(vec![97, 98, 99]));
}

#[test]
fn train_from_iterator_reports_a_search_that_gives_up() {
    let mut tok = Tokenizer::new();
    let records = vec!["abc".to_string(), "ab".repeat(60)];
    let r = tok.train_from_iterator(&records, 300, 8192, Some("(?i)(a|b|ab)*(?>c)".to_string()));
    assert_eq!(r, Err(TokenizerError::MatchFailed));
    assert_eq!(tok.get_pattern(), "");
    assert_eq!(tok.merge_count(), 0);
}
