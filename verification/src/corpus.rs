//! A scanned corpus: words with their counts and the statistics of their
//! pairs, which can be scanned part by part and joined.

use crate::stats::corpus_size;
use crate::stats::count_pairs;
use crate::stats::lemma_corpus_of_parts;
use crate::stats::lemma_occupied_of_parts;
use crate::stats::lemma_weight_bounds;
use crate::stats::lemma_weight_of_parts;
use crate::stats::occupied;
use crate::stats::PairStats;
use crate::stats::PositionTable;
use crate::stats::weight;
use crate::stats::WEIGHT_LIMIT;
use crate::stats::word_seqs;
use crate::tables::index_set;
use crate::tables::set_to_vec;
use crate::trainer::measure;
use crate::trainer::processed;
use crate::trainer::trainable;
use crate::word::Pair;
use crate::word::Word;
use vstd::prelude::*;

verus! {

/// `q` is among the first `s` entries of `pairs`.
pub open spec fn listed_before(pairs: Seq<Pair>, s: int, q: Pair) -> bool {
    exists|t: int| 0 <= t < s && #[trigger] pairs[t] == q
}

/// Words with their counts, and for every pair its weighted count over the
/// words and the words in which it occurs.
pub struct Corpus {
    words: Vec<Word>,
    counts: Vec<i32>,
    stats: PairStats,
    positions: PositionTable,
    size: u64,
}

impl Corpus {
    /// The words, each as its ids.
    pub closed spec fn words(&self) -> Seq<Seq<u32>> {
        word_seqs(self.words@)
    }

    /// The counts of the words.
    pub closed spec fn counts(&self) -> Seq<i32> {
        self.counts@
    }

    /// Training accepts the words and counts, and the statistics are those of
    /// the words.
    pub closed spec fn wf(&self) -> bool {
        &&& trainable(self.words(), self.counts())
        &&& self.size == corpus_size(self.words(), self.counts())
        &&& self.stats.wf()
        &&& self.positions.wf()
        &&& forall|p: Pair| self.stats.count_of(p) == weight(self.words(), self.counts(), p)
        &&& forall|p: Pair|
            self.positions.positions(p) == occupied(self.words(), self.counts(), p)
    }

    /// The number of words.
    pub fn len(&self) -> (n: usize)
        ensures
            n == self.words().len(),
    {
        self.words.len()
    }

    /// Scans the words: counts their pairs, weighted by the counts. `None`
    /// exactly where training does not accept the words and counts.
    pub fn scan(words: Vec<Word>, counts: Vec<i32>) -> (r: Option<Corpus>)
        ensures
            r is Some <==> trainable(word_seqs(words@), counts@),
            r matches Some(corpus) ==> corpus.wf() && corpus.words() == word_seqs(words@)
                && corpus.counts() == counts@,
    {
        match measure(&words, &counts) {
            None => None,
            Some(size) => {
                let counted = count_pairs(&words, &counts);
                Some(Corpus { words, counts, stats: counted.0, positions: counted.1, size })
            },
        }
    }

    /// Joins two scanned corpora into the corpus of the words of the first
    /// followed by the words of the second: the counts of each pair are added,
    /// and the words in which it occurs are put together. `None` exactly where
    /// the joined corpus is beyond the weight limit.
    pub fn join(self, other: Corpus) -> (r: Option<Corpus>)
        requires
            self.wf(),
            other.wf(),
        ensures
            r is Some <==> corpus_size(
                self.words() + other.words(),
                self.counts() + other.counts(),
            ) <= WEIGHT_LIMIT,
            r matches Some(corpus) ==> corpus.wf() && corpus.words() == self.words()
                + other.words() && corpus.counts() == self.counts() + other.counts(),
    {
        let ghost wa = self.words();
        let ghost ca = self.counts();
        let ghost wb = other.words();
        let ghost cb = other.counts();
        let ghost a = self;
        let ghost b = other;
        proof {
            lemma_corpus_of_parts(wa, ca, wb, cb);
        }
        let Corpus { words: mut words, counts: mut counts, stats: mut stats, positions: mut positions, size } =
            self;
        let Corpus { words: mut more_words, counts: mut more_counts, stats: more_stats, positions: more_positions, size: more_size } =
            other;
        if more_size > WEIGHT_LIMIT - size {
            return None;
        }
        let offset = words.len();
        words.append(&mut more_words);
        counts.append(&mut more_counts);
        let total = words.len();
        let ghost ws = word_seqs(words@);
        let ghost cs = counts@;
        proof {
            assert(ws =~= wa + wb);
            assert(cs =~= ca + cb);
            assert(total == offset + wb.len());
            assert forall|w: int, k: int| 0 <= w < ws.len() && 0 <= k < ws[w].len() implies (
            #[trigger] ws[w][k]) < 256 by {
                if w < wa.len() {
                    assert(ws[w][k] == wa[w][k]);
                } else {
                    assert(ws[w][k] == wb[w - wa.len()][k]);
                }
            }
            assert forall|i: int| 0 <= i < cs.len() implies cs[i] > 0 by {
                if i < ca.len() {
                    assert(cs[i] == ca[i]);
                } else {
                    assert(cs[i] == cb[i - ca.len()]);
                }
            }
            assert(trainable(ws, cs));
        }
        let entries = more_stats.into_entries();
        let pairs = entries.0;
        let added = entries.1;
        let mut s: usize = 0;
        while s < pairs.len()
            invariant
                s <= pairs@.len(),
                pairs@.len() == added@.len(),
                pairs@.no_duplicates(),
                a.wf(),
                b.wf(),
                wa == a.words(),
                ca == a.counts(),
                wb == b.words(),
                cb == b.counts(),
                corpus_size(wa, ca) + corpus_size(wb, cb) <= WEIGHT_LIMIT,
                stats.wf(),
                forall|q: Pair| !pairs@.contains(q) ==> b.stats.count_of(q) == 0,
                forall|t: int|
                    0 <= t < pairs@.len() ==> #[trigger] added@[t] == b.stats.count_of(pairs@[t]),
                forall|q: Pair|
                    stats.count_of(q) == a.stats.count_of(q) + if listed_before(
                        pairs@,
                        s as int,
                        q,
                    ) {
                        b.stats.count_of(q)
                    } else {
                        0
                    },
            decreases pairs@.len() - s,
        {
            let pair = pairs[s];
            proof {
                if listed_before(pairs@, s as int, pair) {
                    let t = choose|t: int| 0 <= t < s && #[trigger] pairs@[t] == pair;
                    assert(pairs@[t] == pairs@[s as int]);
                }
                lemma_weight_bounds(wa, ca, pair, wa.len(), wa.len());
                lemma_weight_bounds(wb, cb, pair, wb.len(), wb.len());
            }
            stats.add(pair, added[s]);
            proof {
                assert forall|q: Pair|
                    stats.count_of(q) == a.stats.count_of(q) + if listed_before(pairs@, s + 1, q) {
                        b.stats.count_of(q)
                    } else {
                        0
                    } by {
                    if q == pair {
                        assert(pairs@[s as int] == q);
                    } else {
                        if listed_before(pairs@, s as int, q) {
                            let t = choose|t: int| 0 <= t < s && #[trigger] pairs@[t] == q;
                            assert(pairs@[t] == q);
                        }
                        if listed_before(pairs@, s + 1, q) {
                            let t = choose|t: int| 0 <= t < s + 1 && #[trigger] pairs@[t] == q;
                            assert(t < s);
                            assert(pairs@[t] == q);
                        }
                    }
                }
            }
            s += 1;
        }
        proof {
            assert(ws =~= wa + wb);
            assert(cs =~= ca + cb);
            assert forall|q: Pair| stats.count_of(q) == weight(ws, cs, q) by {
                lemma_weight_of_parts(wa, ca, wb, cb, q);
                if pairs@.contains(q) {
                    let t = pairs@.index_of(q);
                    assert(pairs@[t] == q);
                } else {
                    if listed_before(pairs@, pairs@.len() as int, q) {
                        let t = choose|t: int| 0 <= t < pairs@.len() && #[trigger] pairs@[t] == q;
                        assert(pairs@[t] == q);
                    }
                }
            }
        }
        let placed = more_positions.into_entries();
        let keys = placed.0;
        let sets = placed.1;
        let mut e: usize = 0;
        while e < keys.len()
            invariant
                e <= keys@.len(),
                keys@.len() == sets@.len(),
                keys@.no_duplicates(),
                a.wf(),
                b.wf(),
                wa == a.words(),
                wb == b.words(),
                ca == a.counts(),
                cb == b.counts(),
                offset == wa.len(),
                offset + wb.len() <= usize::MAX,
                positions.wf(),
                forall|q: Pair|
                    !keys@.contains(q) ==> b.positions.positions(q) == Set::<usize>::empty(),
                forall|t: int|
                    0 <= t < keys@.len() ==> index_set(#[trigger] sets@[t]) == b.positions.positions(
                        keys@[t],
                    ),
                forall|q: Pair, w: usize|
                    #![trigger positions.positions(q).contains(w)]
                    positions.positions(q).contains(w) <==> (a.positions.positions(q).contains(w)
                        || (w >= offset && listed_before(keys@, e as int, q)
                        && b.positions.positions(q).contains((w - offset) as usize))),
            decreases keys@.len() - e,
        {
            let key = keys[e];
            let members = set_to_vec(&sets[e]);
            let ghost before = positions;
            let mut t: usize = 0;
            proof {
                if listed_before(keys@, e as int, key) {
                    let u = choose|u: int| 0 <= u < e && #[trigger] keys@[u] == key;
                    assert(keys@[u] == keys@[e as int]);
                }
            }
            while t < members.len()
                invariant
                    t <= members@.len(),
                    e < keys@.len(),
                    key == keys@[e as int],
                    !listed_before(keys@, e as int, key),
                    b.wf(),
                    wb == b.words(),
                    cb == b.counts(),
                    offset + wb.len() <= usize::MAX,
                    positions.wf(),
                    forall|x: usize| members@.contains(x) <==> b.positions.positions(key).contains(x),
                    forall|q: Pair, w: usize|
                        #![trigger positions.positions(q).contains(w)]
                        positions.positions(q).contains(w) <==> (before.positions(q).contains(w) || (
                        q == key && w >= offset && processed(
                            members@,
                            t as int,
                            (w - offset) as usize,
                        ))),
                decreases members@.len() - t,
            {
                let member = members[t];
                proof {
                    assert(members@.contains(member));
                    assert(occupied(wb, cb, key).contains(member));
                }
                let ghost held = positions;
                positions.add(key, member + offset);
                proof {
                    assert forall|q: Pair, w: usize|
                        #![trigger positions.positions(q).contains(w)]
                        positions.positions(q).contains(w) <==> (before.positions(q).contains(w) || (
                        q == key && w >= offset && processed(
                            members@,
                            t + 1,
                            (w - offset) as usize,
                        ))) by {
                        let x = if w >= offset {
                            (w - offset) as usize
                        } else {
                            0usize
                        };
                        if q == key && w >= offset {
                            if processed(members@, t as int, x) {
                                let u = choose|u: int| 0 <= u < t && #[trigger] members@[u] == x;
                                assert(members@[u] == x);
                            }
                            if processed(members@, t + 1, x) {
                                let u = choose|u: int| 0 <= u < t + 1 && #[trigger] members@[u] == x;
                                if u < t {
                                    assert(members@[u] == x);
                                    assert(processed(members@, t as int, x));
                                }
                            }
                            if w == member + offset {
                                assert(members@[t as int] == x);
                            }
                        }
                        assert(held.positions(q).contains(w) <==> (before.positions(q).contains(w)
                            || (q == key && w >= offset && processed(members@, t as int, x))));
                    }
                }
                t += 1;
            }
            proof {
                assert forall|q: Pair, w: usize|
                    #![trigger positions.positions(q).contains(w)]
                    positions.positions(q).contains(w) <==> (a.positions.positions(q).contains(w)
                        || (w >= offset && listed_before(keys@, e + 1, q)
                        && b.positions.positions(q).contains((w - offset) as usize))) by {
                    let x = if w >= offset {
                        (w - offset) as usize
                    } else {
                        0usize
                    };
                    if q == key {
                        assert(keys@[e as int] == q);
                        if w >= offset {
                            if processed(members@, members@.len() as int, x) {
                                let u = choose|u: int|
                                    0 <= u < members@.len() && #[trigger] members@[u] == x;
                                assert(members@.contains(x));
                            }
                            if b.positions.positions(q).contains(x) {
                                assert(members@.contains(x));
                                let u = members@.index_of(x);
                                assert(members@[u] == x);
                            }
                        }
                    } else {
                        if listed_before(keys@, e as int, q) {
                            let u = choose|u: int| 0 <= u < e && #[trigger] keys@[u] == q;
                            assert(keys@[u] == q);
                        }
                        if listed_before(keys@, e + 1, q) {
                            let u = choose|u: int| 0 <= u < e + 1 && #[trigger] keys@[u] == q;
                            assert(u < e);
                            assert(keys@[u] == q);
                        }
                    }
                    assert(before.positions(q).contains(w) <==> (a.positions.positions(
                        q,
                    ).contains(w) || (w >= offset && listed_before(keys@, e as int, q)
                        && b.positions.positions(q).contains(x))));
                }
            }
            e += 1;
        }
        proof {
            assert(ws =~= wa + wb);
            assert(cs =~= ca + cb);
            assert forall|q: Pair| positions.positions(q) == occupied(ws, cs, q) by {
                assert forall|w: usize|
                    positions.positions(q).contains(w) <==> occupied(ws, cs, q).contains(w) by {
                    lemma_occupied_of_parts(wa, ca, wb, cb, q, w);
                    if keys@.contains(q) {
                        let u = keys@.index_of(q);
                        assert(keys@[u] == q);
                    } else {
                        if listed_before(keys@, keys@.len() as int, q) {
                            let u = choose|u: int| 0 <= u < keys@.len() && #[trigger] keys@[u] == q;
                            assert(keys@[u] == q);
                        }
                    }
                }
                assert(positions.positions(q) =~= occupied(ws, cs, q));
            }
        }
        Some(Corpus { words, counts, stats, positions, size: size + more_size })
    }

    /// The corpus taken apart: the words, their counts, the weighted counts of
    /// the pairs, and the words of each pair.
    pub fn into_parts(self) -> (parts: (Vec<Word>, Vec<i32>, PairStats, PositionTable))
        requires
            self.wf(),
        ensures
            word_seqs(parts.0@) == self.words(),
            parts.1@ == self.counts(),
            trainable(self.words(), self.counts()),
            parts.2.wf(),
            parts.3.wf(),
            forall|p: Pair| parts.2.count_of(p) == weight(self.words(), self.counts(), p),
            forall|p: Pair| parts.3.positions(p) == occupied(self.words(), self.counts(), p),
    {
        (self.words, self.counts, self.stats, self.positions)
    }
}

} // verus!
