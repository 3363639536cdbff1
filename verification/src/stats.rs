//! Pair statistics: for each pair its weighted occurrence count over all words,
//! and the words in which it occurs.

use crate::tables::index_set;
use crate::tables::PairIndex;
use crate::tables::set_insert;
use crate::tables::set_new;
use crate::word::occurrences;
use crate::word::occurrences_upto;
use crate::word::Pair;
use crate::word::Word;
use ahash::AHashSet;
use vstd::prelude::*;

verus! {

/// The largest corpus size, in weighted ids, for which the statistics are kept.
pub const WEIGHT_LIMIT: u64 = 0x1000_0000_0000_0000;

/// The id sequences of a list of words.
pub open spec fn word_seqs(words: Seq<Word>) -> Seq<Seq<u32>> {
    Seq::new(words.len(), |i: int| words[i]@)
}

/// The weighted count of `p` over the first `n` words: each occurrence in a
/// word counts as often as the word's chunk occurred in the corpus.
pub open spec fn weight_upto(words: Seq<Seq<u32>>, counts: Seq<i32>, p: Pair, n: nat) -> int
    decreases n,
{
    if n == 0 {
        0
    } else {
        weight_upto(words, counts, p, (n - 1) as nat) + counts[n - 1] * occurrences(
            words[n - 1],
            p,
        )
    }
}

/// The weighted count of `p` over all words.
pub open spec fn weight(words: Seq<Seq<u32>>, counts: Seq<i32>, p: Pair) -> int {
    weight_upto(words, counts, p, words.len())
}

/// The size of the first `n` words, each id counted as often as its word's
/// chunk occurred.
pub open spec fn corpus_upto(words: Seq<Seq<u32>>, counts: Seq<i32>, n: nat) -> int
    decreases n,
{
    if n == 0 {
        0
    } else {
        corpus_upto(words, counts, (n - 1) as nat) + counts[n - 1] * words[n - 1].len()
    }
}

/// The size of the corpus that the words and their counts stand for.
pub open spec fn corpus_size(words: Seq<Seq<u32>>, counts: Seq<i32>) -> int {
    corpus_upto(words, counts, words.len())
}

/// No count is negative.
pub open spec fn counts_valid(words: Seq<Seq<u32>>, counts: Seq<i32>) -> bool {
    &&& words.len() == counts.len()
    &&& forall|i: int| 0 <= i < counts.len() ==> counts[i] >= 0
}

/// The words among the first `n` that have a count other than zero and in which
/// `p` occurs.
pub open spec fn occupied_upto(words: Seq<Seq<u32>>, counts: Seq<i32>, p: Pair, n: nat) -> Set<
    usize,
> {
    Set::new(|w: usize| w < n && counts[w as int] != 0 && occurrences(words[w as int], p) > 0)
}

/// The words that have a count other than zero and in which `p` occurs.
pub open spec fn occupied(words: Seq<Seq<u32>>, counts: Seq<i32>, p: Pair) -> Set<usize> {
    occupied_upto(words, counts, p, words.len())
}

/// A pair stands at most once at each position but the last.
pub proof fn lemma_occurrences_bound(s: Seq<u32>, p: Pair, n: nat)
    ensures
        occurrences_upto(s, p, n) <= n,
        occurrences(s, p) <= s.len(),
        s.len() >= 1 ==> occurrences(s, p) == occurrences_upto(s, p, (s.len() - 1) as nat),
        s.len() < 2 ==> occurrences(s, p) == 0,
    decreases n,
{
    if n > 0 {
        lemma_occurrences_bound(s, p, (n - 1) as nat);
    }
    if s.len() > 0 {
        lemma_occurrences_bound_len(s, p, s.len());
    }
    if s.len() == 1 {
        assert(occurrences_upto(s, p, 0) == 0);
    }
}

proof fn lemma_occurrences_bound_len(s: Seq<u32>, p: Pair, n: nat)
    ensures
        occurrences_upto(s, p, n) <= n,
    decreases n,
{
    if n > 0 {
        lemma_occurrences_bound_len(s, p, (n - 1) as nat);
    }
}

/// With counts that are not negative, a weighted count lies between zero and
/// the corpus size, and both grow with the number of words.
pub proof fn lemma_weight_bounds(words: Seq<Seq<u32>>, counts: Seq<i32>, p: Pair, n: nat, m: nat)
    requires
        counts_valid(words, counts),
        n <= m <= words.len(),
    ensures
        0 <= weight_upto(words, counts, p, n) <= corpus_upto(words, counts, n),
        corpus_upto(words, counts, n) <= corpus_upto(words, counts, m),
    decreases m,
{
    if m > 0 {
        let c = counts[m - 1] as int;
        let s = words[m - 1];
        lemma_occurrences_bound(s, p, 0);
        let o = occurrences(s, p) as int;
        let l = s.len() as int;
        assert(0 <= c * o <= c * l) by (nonlinear_arith)
            requires
                0 <= c,
                0 <= o <= l,
        ;
        if n == m {
            lemma_weight_bounds(words, counts, p, (n - 1) as nat, (m - 1) as nat);
        } else {
            lemma_weight_bounds(words, counts, p, n, (m - 1) as nat);
        }
    }
}

/// The words after the first `n` do not matter to what is counted over the
/// first `n`.
pub proof fn lemma_weight_upto_agrees(
    a: Seq<Seq<u32>>,
    b: Seq<Seq<u32>>,
    counts: Seq<i32>,
    p: Pair,
    n: nat,
)
    requires
        n <= a.len(),
        n <= b.len(),
        forall|i: int| 0 <= i < n ==> a[i] == b[i],
    ensures
        weight_upto(a, counts, p, n) == weight_upto(b, counts, p, n),
        corpus_upto(a, counts, n) == corpus_upto(b, counts, n),
    decreases n,
{
    if n > 0 {
        lemma_weight_upto_agrees(a, b, counts, p, (n - 1) as nat);
    }
}

/// Replacing one word changes a weighted count by the word's count times the
/// change of the pair's occurrences in it.
pub proof fn lemma_weight_update(
    words: Seq<Seq<u32>>,
    counts: Seq<i32>,
    w: int,
    s: Seq<u32>,
    p: Pair,
    n: nat,
)
    requires
        0 <= w < words.len(),
        n <= words.len(),
    ensures
        weight_upto(words.update(w, s), counts, p, n) == weight_upto(words, counts, p, n) + if w
            < n {
            counts[w] * (occurrences(s, p) - occurrences(words[w], p))
        } else {
            0
        },
        corpus_upto(words.update(w, s), counts, n) == corpus_upto(words, counts, n) + if w < n {
            counts[w] * (s.len() - words[w].len())
        } else {
            0
        },
    decreases n,
{
    if n > 0 {
        lemma_weight_update(words, counts, w, s, p, (n - 1) as nat);
        let c = counts[n - 1] as int;
        if w == n - 1 {
            let o1 = occurrences(s, p) as int;
            let o0 = occurrences(words[w], p) as int;
            assert(c * o1 == c * o0 + c * (o1 - o0)) by (nonlinear_arith);
            let l1 = s.len() as int;
            let l0 = words[w].len() as int;
            assert(c * l1 == c * l0 + c * (l1 - l0)) by (nonlinear_arith);
        }
    }
}

/// Statistics add up over parts: the weighted count over two lists of words,
/// one after the other, is the sum of the weighted counts over each, however
/// the words were divided.
pub proof fn lemma_weight_of_parts(
    a: Seq<Seq<u32>>,
    ca: Seq<i32>,
    b: Seq<Seq<u32>>,
    cb: Seq<i32>,
    p: Pair,
)
    requires
        a.len() == ca.len(),
        b.len() == cb.len(),
    ensures
        weight(a + b, ca + cb, p) == weight(a, ca, p) + weight(b, cb, p),
    decreases b.len(),
{
    if b.len() == 0 {
        assert(a + b =~= a);
        assert(ca + cb =~= ca);
    } else {
        let n = (a + b).len();
        let b0 = b.drop_last();
        let cb0 = cb.drop_last();
        lemma_weight_of_parts(a, ca, b0, cb0, p);
        lemma_weight_upto_agrees(a + b, a + b0, ca + cb, p, (n - 1) as nat);
        lemma_weight_counts_agree(a + b0, ca + cb, ca + cb0, p, (n - 1) as nat);
        lemma_weight_upto_agrees(b, b0, cb, p, (b.len() - 1) as nat);
        lemma_weight_counts_agree(b0, cb, cb0, p, (b.len() - 1) as nat);
        assert((a + b)[n - 1] == b[b.len() - 1]);
        assert((ca + cb)[n - 1] == cb[b.len() - 1]);
    }
}

/// Sizes add up over parts, as statistics do.
pub proof fn lemma_corpus_of_parts(
    a: Seq<Seq<u32>>,
    ca: Seq<i32>,
    b: Seq<Seq<u32>>,
    cb: Seq<i32>,
)
    requires
        a.len() == ca.len(),
        b.len() == cb.len(),
    ensures
        corpus_size(a + b, ca + cb) == corpus_size(a, ca) + corpus_size(b, cb),
    decreases b.len(),
{
    if b.len() == 0 {
        assert(a + b =~= a);
        assert(ca + cb =~= ca);
    } else {
        let n = (a + b).len();
        let b0 = b.drop_last();
        let cb0 = cb.drop_last();
        lemma_corpus_of_parts(a, ca, b0, cb0);
        lemma_corpus_agrees(a + b, ca + cb, a + b0, ca + cb0, (n - 1) as nat);
        lemma_corpus_agrees(b, cb, b0, cb0, (b.len() - 1) as nat);
        assert((a + b)[n - 1] == b[b.len() - 1]);
        assert((ca + cb)[n - 1] == cb[b.len() - 1]);
    }
}

/// Words and counts after the first `n` do not matter to the size of the
/// first `n` words.
pub proof fn lemma_corpus_agrees(
    a: Seq<Seq<u32>>,
    ca: Seq<i32>,
    b: Seq<Seq<u32>>,
    cb: Seq<i32>,
    n: nat,
)
    requires
        n <= a.len(),
        n <= b.len(),
        n <= ca.len(),
        n <= cb.len(),
        forall|i: int| 0 <= i < n ==> a[i] == b[i] && ca[i] == cb[i],
    ensures
        corpus_upto(a, ca, n) == corpus_upto(b, cb, n),
    decreases n,
{
    if n > 0 {
        lemma_corpus_agrees(a, ca, b, cb, (n - 1) as nat);
    }
}

/// The words in which a pair occurs, over two lists of words one after the
/// other: those of the first list, and those of the second list behind them.
pub proof fn lemma_occupied_of_parts(
    a: Seq<Seq<u32>>,
    ca: Seq<i32>,
    b: Seq<Seq<u32>>,
    cb: Seq<i32>,
    p: Pair,
    w: usize,
)
    requires
        a.len() == ca.len(),
        b.len() == cb.len(),
    ensures
        occupied(a + b, ca + cb, p).contains(w) <==> (occupied(a, ca, p).contains(w) || (a.len()
            <= w && occupied(b, cb, p).contains((w - a.len()) as usize))),
{
    if w < a.len() {
        assert((a + b)[w as int] == a[w as int]);
        assert((ca + cb)[w as int] == ca[w as int]);
    } else if w < a.len() + b.len() {
        assert((a + b)[w as int] == b[w - a.len()]);
        assert((ca + cb)[w as int] == cb[w - a.len()]);
    }
}

/// The counts after the first `n` do not matter to what is counted over the
/// first `n` words.
pub proof fn lemma_weight_counts_agree(
    words: Seq<Seq<u32>>,
    ca: Seq<i32>,
    cb: Seq<i32>,
    p: Pair,
    n: nat,
)
    requires
        n <= ca.len(),
        n <= cb.len(),
        forall|i: int| 0 <= i < n ==> ca[i] == cb[i],
    ensures
        weight_upto(words, ca, p, n) == weight_upto(words, cb, p, n),
    decreases n,
{
    if n > 0 {
        lemma_weight_counts_agree(words, ca, cb, p, (n - 1) as nat);
    }
}

/// The weighted counts of pairs, kept as a table that is changed in place.
pub struct PairStats {
    index: PairIndex,
    counts: Vec<i64>,
}

impl PairStats {
    /// Every pair of the index has its count.
    pub closed spec fn wf(&self) -> bool {
        &&& self.index.wf()
        &&& self.counts@.len() == self.index@.len()
    }

    /// The count kept for `p`; zero where nothing was ever counted for it.
    pub closed spec fn count_of(&self, p: Pair) -> int {
        match self.index.slot(p) {
            Some(s) => self.counts@[s] as int,
            None => 0,
        }
    }

    /// Statistics in which every count is zero.
    pub fn new() -> (stats: PairStats)
        ensures
            stats.wf(),
            forall|p: Pair| stats.count_of(p) == 0,
    {
        let stats = PairStats { index: PairIndex::new(), counts: Vec::new() };
        assert forall|p: Pair| stats.count_of(p) == 0 by {
            stats.index.lemma_slot(p);
        }
        stats
    }

    /// The count kept for `pair`.
    pub fn get(&self, pair: Pair) -> (count: i64)
        requires
            self.wf(),
        ensures
            count == self.count_of(pair),
    {
        match self.index.find(pair) {
            Some(s) => self.counts[s],
            None => 0,
        }
    }

    /// The statistics taken apart: the pairs that were counted, each once, and
    /// beside each pair its count. Every other pair has the count zero.
    pub fn into_entries(self) -> (entries: (Vec<Pair>, Vec<i64>))
        requires
            self.wf(),
        ensures
            entries.0@.no_duplicates(),
            entries.0@.len() == entries.1@.len(),
            forall|s: int|
                0 <= s < entries.0@.len() ==> #[trigger] entries.1@[s] == self.count_of(
                    entries.0@[s],
                ),
            forall|q: Pair| !entries.0@.contains(q) ==> self.count_of(q) == 0,
    {
        proof {
            self.index.lemma_distinct();
            assert forall|q: Pair| !self.index@.contains(q) implies self.count_of(q) == 0 by {
                self.index.lemma_slot(q);
            }
        }
        let PairStats { index, counts } = self;
        (index.into_pairs(), counts)
    }

    /// Adds `delta` to the count of `pair` and leaves every other count as it is.
    pub fn add(&mut self, pair: Pair, delta: i64)
        requires
            old(self).wf(),
            i64::MIN <= old(self).count_of(pair) + delta <= i64::MAX,
        ensures
            final(self).wf(),
            forall|q: Pair|
                final(self).count_of(q) == old(self).count_of(q) + if q == pair {
                    delta as int
                } else {
                    0
                },
    {
        let ghost before = self.index;
        let known = self.index.find(pair);
        let s = self.index.intern(pair);
        if known.is_none() {
            self.counts.push(0);
        }
        let v = self.counts[s] + delta;
        self.counts.set(s, v);
        proof {
            assert forall|q: Pair|
                self.count_of(q) == old(self).count_of(q) + if q == pair {
                    delta as int
                } else {
                    0
                } by {
                before.lemma_slot(q);
                self.index.lemma_slot(q);
                before.lemma_slot(pair);
                self.index.lemma_slot(pair);
                if q != pair {
                    match before.slot(q) {
                        Some(t) => {
                            assert(self.index@[t] == q);
                        },
                        None => {
                            assert(self.index.slot(q).is_none());
                        },
                    }
                }
            }
        }
    }
}

/// For each pair the set of the words that are known to hold it.
pub struct PositionTable {
    index: PairIndex,
    sets: Vec<AHashSet<usize>>,
}

impl PositionTable {
    /// Every pair of the index has its set.
    pub closed spec fn wf(&self) -> bool {
        &&& self.index.wf()
        &&& self.sets@.len() == self.index@.len()
    }

    /// The words entered for `p`.
    pub closed spec fn positions(&self, p: Pair) -> Set<usize> {
        match self.index.slot(p) {
            Some(s) => index_set(self.sets@[s]),
            None => Set::empty(),
        }
    }

    /// `p` has an entry.
    pub closed spec fn listed(&self, p: Pair) -> bool {
        self.index@.contains(p)
    }

    /// A pair without an entry has no words.
    pub proof fn lemma_unlisted(&self, p: Pair)
        requires
            self.wf(),
            !self.listed(p),
        ensures
            self.positions(p) == Set::<usize>::empty(),
    {
        self.index.lemma_slot(p);
    }

    /// A table without entries.
    pub fn new() -> (table: PositionTable)
        ensures
            table.wf(),
            forall|p: Pair| !table.listed(p),
            forall|p: Pair| table.positions(p) == Set::<usize>::empty(),
    {
        let table = PositionTable { index: PairIndex::new(), sets: Vec::new() };
        assert forall|p: Pair| table.positions(p) == Set::<usize>::empty() && !table.listed(p) by {
            table.index.lemma_slot(p);
        }
        table
    }

    /// Enters the word `index` for `pair`.
    pub fn add(&mut self, pair: Pair, index: usize)
        requires
            old(self).wf(),
        ensures
            final(self).wf(),
            forall|q: Pair| final(self).listed(q) == (old(self).listed(q) || q == pair),
            forall|q: Pair|
                final(self).positions(q) == if q == pair {
                    old(self).positions(q).insert(index)
                } else {
                    old(self).positions(q)
                },
    {
        let ghost before = self.index;
        let known = self.index.find(pair);
        let s = self.index.intern(pair);
        if known.is_none() {
            self.sets.push(set_new());
        }
        set_insert(&mut self.sets[s], index);
        proof {
            assert forall|q: Pair| self.listed(q) == (old(self).listed(q) || q == pair) by {
                before.lemma_slot(q);
                self.index.lemma_slot(q);
                if old(self).listed(q) {
                    let t = before@.index_of(q);
                    assert(self.index@[t] == q);
                }
                if self.listed(q) && q != pair {
                    let t = self.index@.index_of(q);
                    assert(self.index@[t] == q);
                    assert(before@[t] == q);
                }
            }
            assert forall|q: Pair|
                self.positions(q) == if q == pair {
                    old(self).positions(q).insert(index)
                } else {
                    old(self).positions(q)
                } by {
                before.lemma_slot(q);
                self.index.lemma_slot(q);
                before.lemma_slot(pair);
                self.index.lemma_slot(pair);
                if q != pair {
                    match before.slot(q) {
                        Some(t) => {
                            assert(self.index@[t] == q);
                        },
                        None => {
                            assert(self.index.slot(q).is_none());
                        },
                    }
                }
            }
        }
    }

    /// The table taken apart: its pairs, each once, and beside each pair the
    /// set of its words.
    pub fn into_entries(self) -> (entries: (Vec<Pair>, Vec<AHashSet<usize>>))
        requires
            self.wf(),
        ensures
            entries.0@.no_duplicates(),
            entries.0@.len() == entries.1@.len(),
            forall|q: Pair| entries.0@.contains(q) == self.listed(q),
            forall|s: int|
                0 <= s < entries.0@.len() ==> index_set(#[trigger] entries.1@[s])
                    == self.positions(entries.0@[s]),
            forall|q: Pair| !entries.0@.contains(q) ==> self.positions(q) == Set::<usize>::empty(),
    {
        proof {
            self.index.lemma_distinct();
            assert forall|q: Pair| !self.index@.contains(q) implies self.positions(q) == Set::<
                usize,
            >::empty() by {
                self.index.lemma_slot(q);
            }
        }
        let PositionTable { index, sets } = self;
        (index.into_pairs(), sets)
    }
}

/// Counts every pair over all words, weighted by the words' counts, and enters
/// for every pair the words in which it occurs. A word with count zero or with
/// fewer than two ids adds nothing.
pub fn count_pairs(words: &Vec<Word>, counts: &Vec<i32>) -> (out: (PairStats, PositionTable))
    requires
        counts_valid(word_seqs(words@), counts@),
        corpus_size(word_seqs(words@), counts@) <= WEIGHT_LIMIT,
    ensures
        out.0.wf(),
        out.1.wf(),
        forall|p: Pair| out.0.count_of(p) == weight(word_seqs(words@), counts@, p),
        forall|p: Pair| out.1.positions(p) == occupied(word_seqs(words@), counts@, p),
{
    let ghost ws = word_seqs(words@);
    let ghost cs = counts@;
    let mut stats = PairStats::new();
    let mut table = PositionTable::new();
    let n = words.len();
    let mut i: usize = 0;
    proof {
        assert forall|p: Pair| table.positions(p) == occupied_upto(ws, cs, p, 0) by {
            assert(occupied_upto(ws, cs, p, 0) =~= Set::<usize>::empty());
        }
    }
    while i < n
        invariant
            n == words.len(),
            ws == word_seqs(words@),
            cs == counts@,
            counts_valid(ws, cs),
            corpus_size(ws, cs) <= WEIGHT_LIMIT,
            i <= n,
            stats.wf(),
            table.wf(),
            forall|p: Pair| stats.count_of(p) == weight_upto(ws, cs, p, i as nat),
            forall|p: Pair| table.positions(p) == occupied_upto(ws, cs, p, i as nat),
        decreases n - i,
    {
        let word = &words[i];
        let c = counts[i];
        let len = word.ids.len();
        let ghost s = ws[i as int];
        assert(s == word@);
        if len >= 2 && c != 0 {
            let mut j: usize = 0;
            proof {
                assert forall|p: Pair|
                    stats.count_of(p) == weight_upto(ws, cs, p, i as nat) + c * occurrences_upto(
                        s,
                        p,
                        0,
                    ) by {
                    assert(occurrences_upto(s, p, 0) == 0);
                }
                assert forall|p: Pair|
                    table.positions(p) == occupied_upto(ws, cs, p, i as nat).union(
                        if occurrences_upto(s, p, 0) > 0 {
                            set![i]
                        } else {
                            Set::<usize>::empty()
                        },
                    ) by {
                    assert(occupied_upto(ws, cs, p, i as nat).union(Set::<usize>::empty())
                        =~= occupied_upto(ws, cs, p, i as nat));
                }
            }
            while j + 1 < len
                invariant
                    n == words.len(),
                    i < n,
                    ws == word_seqs(words@),
                    cs == counts@,
                    counts_valid(ws, cs),
                    corpus_size(ws, cs) <= WEIGHT_LIMIT,
                    word == &words[i as int],
                    s == word@,
                    s == ws[i as int],
                    len == s.len(),
                    len >= 2,
                    c == cs[i as int],
                    c != 0,
                    j + 1 <= len,
                    stats.wf(),
                    table.wf(),
                    forall|p: Pair|
                        stats.count_of(p) == weight_upto(ws, cs, p, i as nat) + c
                            * occurrences_upto(s, p, j as nat),
                    forall|p: Pair|
                        table.positions(p) == occupied_upto(ws, cs, p, i as nat).union(
                            if occurrences_upto(s, p, j as nat) > 0 {
                                set![i]
                            } else {
                                Set::<usize>::empty()
                            },
                        ),
                decreases len - j,
            {
                let pair: Pair = (word.ids[j], word.ids[j + 1]);
                let ghost stats0 = stats;
                let ghost table0 = table;
                proof {
                    lemma_weight_bounds(ws, cs, pair, i as nat, (i + 1) as nat);
                    lemma_weight_bounds(ws, cs, pair, (i + 1) as nat, n as nat);
                    lemma_occurrences_bound(s, pair, j as nat);
                    let o = occurrences_upto(s, pair, j as nat) as int;
                    let cc = c as int;
                    let l = len as int;
                    assert(0 <= cc * o && cc * o + cc <= cc * l) by (nonlinear_arith)
                        requires
                            0 < cc,
                            0 <= o,
                            o + 1 <= l,
                    ;
                }
                stats.add(pair, c as i64);
                table.add(pair, i);
                j += 1;
                proof {
                    assert forall|p: Pair|
                        stats.count_of(p) == weight_upto(ws, cs, p, i as nat) + c
                            * occurrences_upto(s, p, j as nat) by {
                        let o = occurrences_upto(s, p, (j - 1) as nat) as int;
                        let cc = c as int;
                        assert(cc * (o + 1) == cc * o + cc) by (nonlinear_arith);
                    }
                    assert forall|p: Pair|
                        table.positions(p) == occupied_upto(ws, cs, p, i as nat).union(
                            if occurrences_upto(s, p, j as nat) > 0 {
                                set![i]
                            } else {
                                Set::<usize>::empty()
                            },
                        ) by {
                        let base = occupied_upto(ws, cs, p, i as nat);
                        if p == pair {
                            assert(table0.positions(p).insert(i) =~= base.union(set![i]));
                        }
                    }
                }
            }
            proof {
                assert forall|p: Pair| stats.count_of(p) == weight_upto(ws, cs, p, (i + 1) as nat) by {
                    lemma_occurrences_bound(s, p, 0);
                }
                assert forall|p: Pair|
                    table.positions(p) == occupied_upto(ws, cs, p, (i + 1) as nat) by {
                    lemma_occurrences_bound(s, p, 0);
                    assert(occupied_upto(ws, cs, p, i as nat).union(
                        if occurrences(s, p) > 0 {
                            set![i]
                        } else {
                            Set::<usize>::empty()
                        },
                    ) =~= occupied_upto(ws, cs, p, (i + 1) as nat));
                }
            }
        } else {
            proof {
                assert forall|p: Pair| stats.count_of(p) == weight_upto(ws, cs, p, (i + 1) as nat) by {
                    lemma_occurrences_bound(s, p, 0);
                    let o = occurrences(s, p) as int;
                    let cc = c as int;
                    assert(cc == 0 || o == 0);
                    assert(cc * o == 0) by (nonlinear_arith)
                        requires
                            cc == 0 || o == 0,
                    ;
                }
                assert forall|p: Pair|
                    table.positions(p) == occupied_upto(ws, cs, p, (i + 1) as nat) by {
                    lemma_occurrences_bound(s, p, 0);
                    assert(occupied_upto(ws, cs, p, i as nat) =~= occupied_upto(
                        ws,
                        cs,
                        p,
                        (i + 1) as nat,
                    ));
                }
            }
        }
        i += 1;
    }
    (stats, table)
}

} // verus!
