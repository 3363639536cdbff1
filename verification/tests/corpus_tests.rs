use rustbpe::corpus::Corpus;
use rustbpe::tokenizer::Tokenizer;
use rustbpe::trainer::can_train;
use rustbpe::trainer::measure;
use rustbpe::trainer::train_core;
use rustbpe::trainer::train_corpus;
use rustbpe::word::Word;

fn words_of(texts: &[&str]) -> Vec<Word> {
    texts
        .iter()
        .map(|t| Word::new(t.bytes().map(|b| b as u32).collect()))
        .collect()
}

#[test]
fn measure_gives_the_weighted_size() {
    assert_eq!(measure(&words_of(&["abc", "", "de"]), &vec![2, 7, 5]), Some(16));
    assert_eq!(measure(&vec![], &vec![]), Some(0));
}

#[test]
fn measure_refuses_what_training_does_not_accept() {
    assert_eq!(measure(&words_of(&["ab"]), &vec![]), None);
    assert_eq!(measure(&words_of(&["ab"]), &vec![0]), None);
    assert_eq!(measure(&words_of(&["ab", "cd"]), &vec![3, -1]), None);
    assert_eq!(measure(&vec![Word::new(vec![97, 256])], &vec![1]), None);
    assert!(!can_train(&vec![Word::new(vec![300])], &vec![1]));
    assert!(can_train(&words_of(&["ab", "cd"]), &vec![3, 1]));
}

#[test]
fn scan_refuses_what_training_does_not_accept() {
    assert!(Corpus::scan(words_of(&["ab"]), vec![0]).is_none());
    assert!(Corpus::scan(vec![Word::new(vec![256, 1])], vec![1]).is_none());
    assert!(Corpus::scan(words_of(&["ab"]), vec![1, 2]).is_none());
    assert!(Corpus::scan(vec![], vec![]).is_some());
}

#[test]
fn scanned_corpus_trains_like_its_words() {
    let texts = ["the", "then", "there", "other", "hen", "he", "tether"];
    let counts = vec![9, 4, 3, 5, 2, 7, 1];
    let direct = train_core(words_of(&texts), counts.clone(), 270).pairs();
    let corpus = Corpus::scan(words_of(&texts), counts).unwrap();
    assert_eq!(corpus.len(), 7);
    assert_eq!(train_corpus(corpus, 270).pairs(), direct);
}

#[test]
fn joined_parts_train_like_the_whole() {
    let texts = ["the", "then", "there", "other", "hen", "he", "tether", "aaaa", "hehe"];
    let counts = vec![9, 4, 3, 5, 2, 7, 1, 6, 2];
    let whole = train_core(words_of(&texts), counts.clone(), 275).pairs();
    assert!(whole.len() > 5);
    for first in 0..=texts.len() {
        for second in first..=texts.len() {
            let a = Corpus::scan(words_of(&texts[..first]), counts[..first].to_vec()).unwrap();
            let b = Corpus::scan(words_of(&texts[first..second]), counts[first..second].to_vec())
                .unwrap();
            let c = Corpus::scan(words_of(&texts[second..]), counts[second..].to_vec()).unwrap();
            let left = a.join(b).unwrap().join(c).unwrap();
            assert_eq!(left.len(), texts.len());
            assert_eq!(train_corpus(left, 275).pairs(), whole);
            let a = Corpus::scan(words_of(&texts[..first]), counts[..first].to_vec()).unwrap();
            let b = Corpus::scan(words_of(&texts[first..second]), counts[first..second].to_vec())
                .unwrap();
            let c = Corpus::scan(words_of(&texts[second..]), counts[second..].to_vec()).unwrap();
            let right = a.join(b.join(c).unwrap()).unwrap();
            assert_eq!(train_corpus(right, 275).pairs(), whole);
        }
    }
}

#[test]
fn train_scanned_replaces_merges() {
    let mut tok = Tokenizer::with_pattern(r"\w+").unwrap();
    let corpus = Corpus::scan(words_of(&["aaa"]), vec![10]).unwrap();
    assert_eq!(tok.train_scanned(corpus, 258), Ok(()));
    assert_eq!(tok.merge_list(), vec![(97, 97), (256, 97)]);
    let corpus = Corpus::scan(words_of(&["ab"]), vec![10]).unwrap();
    assert!(tok.train_scanned(corpus, 10).is_err());
    assert_eq!(tok.merge_list(), vec![(97, 97), (256, 97)]);
}
