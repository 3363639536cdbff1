use rustbpe::chunks::ChunkCounter;

#[test]
fn chunk_counter_keeps_first_occurrence_order() {
    let mut counter = ChunkCounter::new();
    assert_eq!(counter.len(), 0);
    for chunk in ["b", "a", "b", "", "ab", "a", "b"] {
        assert!(counter.add(chunk));
    }
    assert_eq!(counter.len(), 4);
    let (words, counts) = counter.finish();
    let ids: Vec<Vec<u32>> = words.into_iter().map(|w| w.ids).collect();
    assert_eq!(ids, vec![vec![98], vec![97], vec![], vec![97, 98]]);
    assert_eq!(counts, vec![3, 2, 1, 1]);
}

#[test]
fn chunk_counter_uses_utf8_bytes() {
    let mut counter = ChunkCounter::new();
    assert!(counter.add("\u{e9}"));
    assert!(counter.add("e"));
    assert!(counter.add("\u{e9}"));
    let (words, counts) = counter.finish();
    let ids: Vec<Vec<u32>> = words.into_iter().map(|w| w.ids).collect();
    assert_eq!(ids, vec![vec![195, 169], vec![101]]);
    assert_eq!(counts, vec![2, 1]);
}

#[test]
fn chunk_counter_of_nothing_is_empty() {
    let (words, counts) = ChunkCounter::new().finish();
    assert!(words.is_empty());
    assert!(counts.is_empty());
}

#[test]
fn chunk_counter_stops_at_its_limit() {
    let mut counter = ChunkCounter::with_limit(5);
    assert!(counter.add("abc"));
    assert!(counter.add(""));
    assert!(counter.add("de"));
    assert!(!counter.add("f"));
    assert!(!counter.add("abc"));
    assert!(counter.add(""));
    let (words, counts) = counter.finish();
    let ids: Vec<Vec<u32>> = words.into_iter().map(|w| w.ids).collect();
    assert_eq!(ids, vec![vec![97, 98, 99], vec![], vec![100, 101]]);
    assert_eq!(counts, vec![1, 2, 1]);
}
