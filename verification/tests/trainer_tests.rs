use rustbpe::merges::MergeTable;
use rustbpe::trainer::apply_merge;
use rustbpe::trainer::train_core;
use rustbpe::stats::count_pairs;
use rustbpe::word::Word;

fn words_of(texts: &[&str]) -> Vec<Word> {
    texts
        .iter()
        .map(|t| Word::new(t.bytes().map(|b| b as u32).collect()))
        .collect()
}

fn learn(texts: &[&str], counts: &[i32], vocab_size: u32) -> Vec<(u32, u32)> {
    train_core(words_of(texts), counts.to_vec(), vocab_size).pairs()
}

/// The textbook procedure, with nothing kept from step to step.
fn learn_naively(texts: &[&str], counts: &[i32], vocab_size: u32) -> Vec<(u32, u32)> {
    let mut words: Vec<Vec<u32>> = texts
        .iter()
        .map(|t| t.bytes().map(|b| b as u32).collect())
        .collect();
    let mut merges = Vec::new();
    for step in 0..(vocab_size - 256) {
        let mut best: Option<((u32, u32), i64)> = None;
        let mut seen: Vec<((u32, u32), i64)> = Vec::new();
        for (w, c) in words.iter().zip(counts) {
            for p in w.windows(2) {
                let pair = (p[0], p[1]);
                match seen.iter_mut().find(|e| e.0 == pair) {
                    Some(e) => e.1 += *c as i64,
                    None => seen.push((pair, *c as i64)),
                }
            }
        }
        for (pair, weight) in seen {
            if weight <= 0 {
                continue;
            }
            best = match best {
                Some((bp, bw)) if bw > weight || (bw == weight && bp < pair) => Some((bp, bw)),
                _ => Some((pair, weight)),
            };
        }
        let Some((pair, _)) = best else { break };
        let new_id = 256 + step;
        for w in words.iter_mut() {
            let mut out = Vec::new();
            let mut i = 0;
            while i < w.len() {
                if i + 1 < w.len() && (w[i], w[i + 1]) == pair {
                    out.push(new_id);
                    i += 2;
                } else {
                    out.push(w[i]);
                    i += 1;
                }
            }
            *w = out;
        }
        merges.push(pair);
    }
    merges
}

#[test]
fn train_single_merge() {
    assert_eq!(learn(&["ab"], &[10], 257), vec![(97, 98)]);
}

#[test]
fn train_chained_merge() {
    assert_eq!(learn(&["aaa"], &[10], 258), vec![(97, 97), (256, 97)]);
}

#[test]
fn train_with_base_vocabulary_learns_nothing() {
    assert_eq!(learn(&["ab", "abab"], &[10, 3], 256), vec![]);
}

#[test]
fn train_stops_early_when_no_pair_is_left() {
    assert_eq!(learn(&["ab"], &[10], 300), vec![(97, 98)]);
    assert_eq!(learn(&["a", "b", ""], &[4, 5, 6], 300), vec![]);
    assert_eq!(learn(&[], &[], 300), vec![]);
}

#[test]
fn train_prefers_higher_weighted_count() {
    assert_eq!(learn(&["ab", "cd"], &[1, 3], 258), vec![(99, 100), (97, 98)]);
}

#[test]
fn train_breaks_ties_by_smaller_pair() {
    assert_eq!(learn(&["cd", "ab"], &[5, 5], 258), vec![(97, 98), (99, 100)]);
    assert_eq!(learn(&["ba", "ab"], &[5, 5], 257), vec![(97, 98)]);
    assert_eq!(learn(&["ac", "ab"], &[5, 5], 257), vec![(97, 98)]);
}

#[test]
fn train_discards_extinct_pairs() {
    assert_eq!(learn(&["abc"], &[10], 259), vec![(97, 98), (256, 99)]);
}

#[test]
fn train_requeues_stale_counts() {
    assert_eq!(
        learn(&["ab", "bc", "abc"], &[10, 6, 1], 259),
        vec![(97, 98), (98, 99), (256, 99)]
    );
}

#[test]
fn train_is_deterministic() {
    let texts = ["the", "then", "there", "other", "hen", "he", "tether"];
    let counts = [9, 4, 3, 5, 2, 7, 1];
    let first = learn(&texts, &counts, 270);
    for _ in 0..5 {
        assert_eq!(learn(&texts, &counts, 270), first);
    }
}

#[test]
fn train_does_not_depend_on_the_order_of_words() {
    let texts = ["the", "then", "there", "other", "hen", "he", "tether"];
    let counts = [9, 4, 3, 5, 2, 7, 1];
    let forward = learn(&texts, &counts, 270);
    let mut rt: Vec<&str> = texts.to_vec();
    let mut rc: Vec<i32> = counts.to_vec();
    rt.reverse();
    rc.reverse();
    assert_eq!(learn(&rt, &rc, 270), forward);
}

#[test]
fn train_agrees_with_the_textbook_procedure() {
    let corpora: Vec<(Vec<&str>, Vec<i32>)> = vec![
        (vec!["the", "then", "there", "other", "hen", "he", "tether"], vec![9, 4, 3, 5, 2, 7, 1]),
        (vec!["aaaa", "aaa", "aa", "baab", "abba"], vec![3, 1, 4, 1, 5]),
        (vec!["banana", "bandana", "an", "nab", "ban"], vec![2, 2, 2, 2, 2]),
        (vec!["xyxyxyxy", "yxyx", "xxyy"], vec![1, 1, 1]),
        (vec!["mississippi", "miss", "sip", "pip"], vec![7, 3, 3, 1]),
    ];
    for (texts, counts) in corpora {
        for vocab_size in [256, 257, 259, 264, 300] {
            assert_eq!(
                learn(&texts, &counts, vocab_size),
                learn_naively(&texts, &counts, vocab_size)
            );
        }
    }
}

#[test]
fn train_assigns_ids_in_order_of_learning() {
    let table: MergeTable = train_core(words_of(&["abcabc", "abc"]), vec![2, 3], 260);
    let pairs = table.pairs();
    assert!(!pairs.is_empty());
    for (i, pair) in pairs.iter().enumerate() {
        assert_eq!(table.get(*pair), Some(256 + i as u32));
        assert!(pair.0 < 256 + i as u32 && pair.1 < 256 + i as u32);
    }
}

#[test]
fn apply_merge_updates_words_and_statistics() {
    let mut words = words_of(&["abab", "xab", "cd"]);
    let counts = vec![2, 3, 1];
    let (mut stats, _) = count_pairs(&words, &counts);
    assert_eq!(stats.get((97, 98)), 7);
    let fresh = apply_merge(&mut words, &counts, &mut stats, (97, 98), 256, &vec![1, 0]);
    assert_eq!(words[0].ids, vec![256, 256]);
    assert_eq!(words[1].ids, vec![120, 256]);
    assert_eq!(words[2].ids, vec![99, 100]);
    assert_eq!(stats.get((97, 98)), 0);
    assert_eq!(stats.get((98, 97)), 0);
    assert_eq!(stats.get((256, 256)), 2);
    assert_eq!(stats.get((120, 256)), 3);
    assert_eq!(stats.get((120, 97)), 0);
    assert_eq!(stats.get((256, 97)), 0);
    assert_eq!(stats.get((99, 100)), 1);
    let (pairs, sets) = fresh.into_entries();
    let listed = |p: (u32, u32)| -> Vec<usize> {
        let i = pairs.iter().position(|q| *q == p).unwrap();
        let mut v: Vec<usize> = sets[i].iter().copied().collect();
        v.sort();
        v
    };
    assert_eq!(listed((256, 256)), vec![0]);
    assert_eq!(listed((120, 256)), vec![1]);
}
