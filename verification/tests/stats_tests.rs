use rustbpe::stats::count_pairs;
use rustbpe::stats::PairStats;
use rustbpe::stats::PositionTable;
use rustbpe::tables::PairIndex;
use rustbpe::word::Word;

#[test]
fn pair_index_numbers_pairs_in_order_of_entry() {
    let mut index = PairIndex::new();
    assert_eq!(index.len(), 0);
    assert_eq!(index.find((1, 2)), None);
    assert_eq!(index.intern((1, 2)), 0);
    assert_eq!(index.intern((2, 1)), 1);
    assert_eq!(index.intern((1, 2)), 0);
    assert_eq!(index.len(), 2);
    assert_eq!(index.find((2, 1)), Some(1));
    assert_eq!(index.find((2, 2)), None);
    assert_eq!(index.pair_at(1), (2, 1));
    assert_eq!(index.into_pairs(), vec![(1, 2), (2, 1)]);
}

#[test]
fn pair_stats_add_and_get() {
    let mut stats = PairStats::new();
    assert_eq!(stats.get((1, 2)), 0);
    stats.add((1, 2), 5);
    stats.add((3, 4), 7);
    stats.add((1, 2), -2);
    assert_eq!(stats.get((1, 2)), 3);
    assert_eq!(stats.get((3, 4)), 7);
    assert_eq!(stats.get((2, 1)), 0);
}

#[test]
fn position_table_collects_words_per_pair() {
    let mut table = PositionTable::new();
    table.add((1, 2), 4);
    table.add((3, 4), 1);
    table.add((1, 2), 0);
    table.add((1, 2), 4);
    let (pairs, sets) = table.into_entries();
    assert_eq!(pairs, vec![(1, 2), (3, 4)]);
    let mut first: Vec<usize> = sets[0].iter().copied().collect();
    first.sort();
    assert_eq!(first, vec![0, 4]);
    let second: Vec<usize> = sets[1].iter().copied().collect();
    assert_eq!(second, vec![1]);
}

#[test]
fn count_pairs_weights_occurrences_by_word_count() {
    let words = vec![
        Word::new(vec![1, 2, 1, 2]),
        Word::new(vec![2, 1]),
        Word::new(vec![1, 2]),
        Word::new(vec![5]),
        Word::new(vec![]),
    ];
    let counts = vec![3, 0, 4, 9, 2];
    let (stats, table) = count_pairs(&words, &counts);
    assert_eq!(stats.get((1, 2)), 2 * 3 + 4);
    assert_eq!(stats.get((2, 1)), 3);
    assert_eq!(stats.get((5, 5)), 0);
    let (pairs, sets) = table.into_entries();
    assert_eq!(pairs, vec![(1, 2), (2, 1)]);
    let mut first: Vec<usize> = sets[0].iter().copied().collect();
    first.sort();
    assert_eq!(first, vec![0, 2]);
    let second: Vec<usize> = sets[1].iter().copied().collect();
    assert_eq!(second, vec![0]);
}

#[test]
fn count_pairs_counts_overlapping_occurrences() {
    let words = vec![Word::new(vec![7, 7, 7, 7])];
    let (stats, _) = count_pairs(&words, &vec![2]);
    assert_eq!(stats.get((7, 7)), 6);
}

#[test]
fn count_pairs_of_parts_add_up() {
    let all = vec![vec![1u32, 2, 3], vec![2, 3, 2, 3], vec![3, 1, 2], vec![1, 2]];
    let counts = vec![2, 5, 1, 7];
    let words: Vec<Word> = all.iter().map(|w| Word::new(w.clone())).collect();
    let (whole, _) = count_pairs(&words, &counts);
    for split in 0..=all.len() {
        let left: Vec<Word> = all[..split].iter().map(|w| Word::new(w.clone())).collect();
        let right: Vec<Word> = all[split..].iter().map(|w| Word::new(w.clone())).collect();
        let (a, _) = count_pairs(&left, &counts[..split].to_vec());
        let (b, _) = count_pairs(&right, &counts[split..].to_vec());
        for pair in [(1, 2), (2, 3), (3, 2), (3, 1), (9, 9)] {
            assert_eq!(whole.get(pair), a.get(pair) + b.get(pair));
        }
    }
}
