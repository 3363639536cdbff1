use rustbpe::decoder::decode_ids;
use rustbpe::decoder::decode_to_bytes;
use rustbpe::decoder::token_table;
use rustbpe::decoder::vocabulary;
use rustbpe::encoder::encode_all;
use rustbpe::encoder::encode_chunk;
use rustbpe::error::TokenizerError;
use rustbpe::merges::MergeTable;

fn table_of(pairs: &[(u32, u32)]) -> MergeTable {
    let mut table = MergeTable::new();
    for (i, pair) in pairs.iter().enumerate() {
        assert_eq!(table.insert(*pair), Some(256 + i as u32));
    }
    table
}

#[test]
fn encode_chunk_without_merges_gives_bytes() {
    let table = MergeTable::new();
    assert_eq!(encode_chunk(&table, b"abc"), vec![97, 98, 99]);
    assert_eq!(encode_chunk(&table, b""), vec![]);
    assert_eq!(encode_chunk(&table, &[255, 0]), vec![255, 0]);
}

#[test]
fn encode_chunk_applies_merges_in_order_of_learning() {
    let table = table_of(&[(104, 101), (108, 108), (256, 257)]);
    assert_eq!(encode_chunk(&table, b"hello"), vec![258, 111]);
    assert_eq!(encode_chunk(&table, b"world"), vec![119, 111, 114, 108, 100]);
    assert_eq!(encode_chunk(&table, b"hell"), vec![258]);
    assert_eq!(encode_chunk(&table, b"llhe"), vec![257, 256]);
}

#[test]
fn encode_chunk_takes_lowest_merge_id_wherever_it_stands() {
    let table = table_of(&[(98, 99), (97, 98)]);
    assert_eq!(encode_chunk(&table, b"abc"), vec![97, 256]);
    assert_eq!(encode_chunk(&table, b"abab"), vec![257, 257]);
    assert_eq!(encode_chunk(&table, b"abcab"), vec![97, 256, 257]);
}

#[test]
fn encode_chunk_takes_leftmost_of_equal_merges() {
    let table = table_of(&[(97, 97)]);
    assert_eq!(encode_chunk(&table, b"aaa"), vec![256, 97]);
    assert_eq!(encode_chunk(&table, b"aaaa"), vec![256, 256]);
    assert_eq!(encode_chunk(&table, b"aaaaa"), vec![256, 256, 97]);
}

#[test]
fn encode_all_concatenates_chunks() {
    let table = table_of(&[(104, 101), (108, 108), (256, 257)]);
    let chunks = vec!["hello".to_string(), " ".to_string(), "hell".to_string(), String::new()];
    assert_eq!(encode_all(&table, &chunks), vec![258, 111, 32, 258]);
    assert_eq!(encode_all(&table, &vec![]), vec![]);
}

#[test]
fn vocabulary_of_empty_table_is_the_bytes() {
    let ranks = vocabulary(&MergeTable::new());
    assert_eq!(ranks.len(), 256);
    for (i, (bytes, id)) in ranks.iter().enumerate() {
        assert_eq!(*id, i as u32);
        assert_eq!(*bytes, vec![i as u8]);
    }
}

#[test]
fn vocabulary_lists_merges_after_the_bytes() {
    let table = table_of(&[(104, 101), (108, 108), (256, 257), (258, 111)]);
    let ranks = vocabulary(&table);
    assert_eq!(ranks.len(), 260);
    assert_eq!(ranks[104], (vec![104], 104));
    assert_eq!(ranks[256], (b"he".to_vec(), 256));
    assert_eq!(ranks[257], (b"ll".to_vec(), 257));
    assert_eq!(ranks[258], (b"hell".to_vec(), 258));
    assert_eq!(ranks[259], (b"hello".to_vec(), 259));
    let tokens = token_table(&table);
    assert_eq!(tokens.len(), 260);
    assert_eq!(tokens[259], b"hello".to_vec());
    assert_eq!(tokens[0], vec![0]);
}

#[test]
fn decode_to_bytes_concatenates_token_bytes() {
    let table = table_of(&[(104, 101), (108, 108), (256, 257)]);
    assert_eq!(decode_to_bytes(&table, &vec![258, 111, 32]), Ok(b"hello ".to_vec()));
    assert_eq!(decode_to_bytes(&table, &vec![]), Ok(vec![]));
    assert_eq!(decode_to_bytes(&table, &vec![104, 259, 300]), Err(259));
}

#[test]
fn decode_unknown_token_on_untrained_table() {
    let table = MergeTable::new();
    assert_eq!(decode_ids(&table, &vec![300]), Err(TokenizerError::UnknownToken(300)));
    assert_eq!(decode_ids(&table, &vec![256]), Err(TokenizerError::UnknownToken(256)));
    assert_eq!(decode_ids(&table, &vec![255, 300]), Err(TokenizerError::UnknownToken(300)));
}

#[test]
fn decode_invalid_utf8_names_the_valid_prefix() {
    let table = MergeTable::new();
    assert_eq!(decode_ids(&table, &vec![255]), Err(TokenizerError::InvalidUtf8(0)));
    assert_eq!(decode_ids(&table, &vec![97, 195]), Err(TokenizerError::InvalidUtf8(1)));
    assert_eq!(
        decode_ids(&table, &vec![195, 169, 97, 226, 130]),
        Err(TokenizerError::InvalidUtf8(3))
    );
}

#[test]
fn decode_valid_utf8() {
    let table = table_of(&[(195, 169)]);
    assert_eq!(decode_ids(&table, &vec![99, 97, 102, 256]), Ok("caf\u{e9}".to_string()));
    assert_eq!(decode_ids(&table, &vec![]), Ok(String::new()));
    assert_eq!(decode_ids(&table, &vec![226, 130, 172]), Ok("\u{20ac}".to_string()));
}
