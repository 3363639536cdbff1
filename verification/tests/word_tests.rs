use rustbpe::word::Word;

#[test]
fn pairs_of_short_words_are_empty() {
    assert_eq!(Word::new(vec![]).pairs(), vec![]);
    assert_eq!(Word::new(vec![7]).pairs(), vec![]);
}

#[test]
fn pairs_are_adjacent_ids() {
    let w = Word::new(vec![1, 2, 3, 2]);
    assert_eq!(w.pairs(), vec![(1, 2), (2, 3), (3, 2)]);
}

#[test]
fn merge_pair_absent_pair_is_noop() {
    let mut w = Word::new(vec![5, 6, 7, 8]);
    let deltas = w.merge_pair((6, 5), 300);
    assert_eq!(w.ids, vec![5, 6, 7, 8]);
    assert!(deltas.is_empty());
}

#[test]
fn merge_pair_on_short_words_is_noop() {
    let mut empty = Word::new(vec![]);
    assert!(empty.merge_pair((1, 2), 9).is_empty());
    assert_eq!(empty.ids, Vec::<u32>::new());
    let mut one = Word::new(vec![1]);
    assert!(one.merge_pair((1, 1), 9).is_empty());
    assert_eq!(one.ids, vec![1]);
}

#[test]
fn merge_pair_alternating_run() {
    let mut w = Word::new(vec![1, 2, 1, 2, 1, 2]);
    let deltas = w.merge_pair((1, 2), 99);
    assert_eq!(w.ids, vec![99, 99, 99]);
    assert_eq!(
        deltas,
        vec![
            ((1, 2), -1),
            ((2, 1), -1),
            ((99, 1), 1),
            ((99, 1), -1),
            ((99, 99), 1),
            ((1, 2), -1),
            ((2, 1), -1),
            ((99, 1), 1),
            ((99, 1), -1),
            ((99, 99), 1),
            ((1, 2), -1),
        ]
    );
}

#[test]
fn merge_pair_triple_run() {
    let mut w = Word::new(vec![97, 97, 97]);
    let deltas = w.merge_pair((97, 97), 256);
    assert_eq!(w.ids, vec![256, 97]);
    assert_eq!(deltas, vec![((97, 97), -1), ((97, 97), -1), ((256, 97), 1)]);
}

#[test]
fn merge_pair_quadruple_run() {
    let mut w = Word::new(vec![97, 97, 97, 97]);
    let deltas = w.merge_pair((97, 97), 256);
    assert_eq!(w.ids, vec![256, 256]);
    assert_eq!(
        deltas,
        vec![
            ((97, 97), -1),
            ((97, 97), -1),
            ((256, 97), 1),
            ((256, 97), -1),
            ((256, 256), 1),
            ((97, 97), -1),
        ]
    );
}

#[test]
fn merge_pair_with_both_neighbours() {
    let mut w = Word::new(vec![10, 1, 2, 20]);
    let deltas = w.merge_pair((1, 2), 300);
    assert_eq!(w.ids, vec![10, 300, 20]);
    assert_eq!(
        deltas,
        vec![
            ((10, 1), -1),
            ((10, 300), 1),
            ((1, 2), -1),
            ((2, 20), -1),
            ((300, 20), 1),
        ]
    );
}

fn count(ids: &[u32], pair: (u32, u32)) -> i64 {
    let mut n = 0;
    for i in 0..ids.len().saturating_sub(1) {
        if (ids[i], ids[i + 1]) == pair {
            n += 1;
        }
    }
    n
}

#[test]
fn merge_pair_deltas_are_exact() {
    let inputs: Vec<Vec<u32>> = vec![
        vec![1, 2, 1, 2, 1, 2],
        vec![1, 1, 1, 1, 1],
        vec![3, 1, 2, 2, 1, 2, 1],
        vec![1, 2],
        vec![2, 1, 1, 2, 2, 1, 2, 3, 1, 2],
    ];
    for ids in inputs {
        for pair in [(1u32, 2u32), (1, 1), (2, 1), (2, 2)] {
            let mut w = Word::new(ids.clone());
            let deltas = w.merge_pair(pair, 50);
            let mut seen: Vec<(u32, u32)> = Vec::new();
            for (q, _) in &deltas {
                if !seen.contains(q) {
                    seen.push(*q);
                }
            }
            for q in ids.windows(2).map(|p| (p[0], p[1])) {
                if !seen.contains(&q) {
                    seen.push(q);
                }
            }
            for q in seen {
                let net: i64 = deltas.iter().filter(|d| d.0 == q).map(|d| d.1 as i64).sum();
                assert_eq!(net, count(&w.ids, q) - count(&ids, q));
            }
            assert_eq!(count(&w.ids, pair), 0);
        }
    }
}
