//! What training learns: the merges of byte-pair encoding, stated over the
//! words and their counts alone.

use crate::scheduler::pair_le;
use crate::stats::corpus_upto;
use crate::stats::counts_valid;
use crate::stats::lemma_occurrences_bound;
use crate::stats::weight;
use crate::stats::weight_upto;
use crate::word::adjacent_pairs;
use crate::word::Delta;
use crate::word::lemma_absent_pair_is_noop;
use crate::word::lemma_merge_deltas_exact;
use crate::word::lemma_merge_deltas_shape;
use crate::word::lemma_merged_has_no_pair;
use crate::word::lemma_occurrences_front;
use crate::word::merge_deltas;
use crate::word::merged;
use crate::word::net_change;
use crate::word::occurrences;
use crate::word::Pair;
use vstd::prelude::*;

verus! {

/// Every word after one pass that merges `p` into `new_id`.
pub open spec fn merge_all(words: Seq<Seq<u32>>, p: Pair, new_id: u32) -> Seq<Seq<u32>> {
    Seq::new(words.len(), |w: int| merged(words[w], p, new_id))
}

/// `p` is the pair to merge next: its weighted count is positive, no pair has
/// a higher one, and of the pairs with the same count it comes first.
pub open spec fn is_best(words: Seq<Seq<u32>>, counts: Seq<i32>, p: Pair) -> bool {
    &&& weight(words, counts, p) > 0
    &&& forall|q: Pair|
        #![trigger weight(words, counts, q)]
        weight(words, counts, q) < weight(words, counts, p) || (weight(words, counts, q) == weight(
            words,
            counts,
            p,
        ) && pair_le(p, q))
}

/// No pair occurs any more with positive weight.
pub open spec fn exhausted(words: Seq<Seq<u32>>, counts: Seq<i32>) -> bool {
    forall|q: Pair| #[trigger] weight(words, counts, q) <= 0
}

/// The pair to merge next.
pub open spec fn best_pair(words: Seq<Seq<u32>>, counts: Seq<i32>) -> Pair {
    choose|p: Pair| is_best(words, counts, p)
}

/// The merges that are learned in up to `n` steps, in order, where the first
/// of them gets the id `next_id`: each step merges the best pair in every
/// word, and learning stops early where no pair is left to merge.
pub open spec fn learned(words: Seq<Seq<u32>>, counts: Seq<i32>, next_id: u32, n: nat) -> Seq<Pair>
    decreases n,
{
    if n == 0 || exhausted(words, counts) {
        seq![]
    } else {
        let p = best_pair(words, counts);
        seq![p] + learned(
            merge_all(words, p, next_id),
            counts,
            (next_id + 1) as u32,
            (n - 1) as nat,
        )
    }
}

/// Every id of every word is below `bound`.
pub open spec fn ids_below(words: Seq<Seq<u32>>, bound: int) -> bool {
    forall|w: int, k: int|
        0 <= w < words.len() && 0 <= k < words[w].len() ==> (#[trigger] words[w][k]) < bound
}

/// Every count is positive.
pub open spec fn counts_positive(words: Seq<Seq<u32>>, counts: Seq<i32>) -> bool {
    &&& words.len() == counts.len()
    &&& forall|i: int| 0 <= i < counts.len() ==> counts[i] > 0
}

/// `p` holds the id `x`.
pub open spec fn holds_id(p: Pair, x: u32) -> bool {
    p.0 == x || p.1 == x
}

/// There is at most one best pair.
pub proof fn lemma_best_unique(words: Seq<Seq<u32>>, counts: Seq<i32>, p: Pair, q: Pair)
    requires
        is_best(words, counts, p),
        is_best(words, counts, q),
    ensures
        p == q,
{
    let wp = weight(words, counts, p);
    let wq = weight(words, counts, q);
    assert(wq < wp || (wq == wp && pair_le(p, q)));
    assert(wp < wq || (wp == wq && pair_le(q, p)));
}

/// `a` is at least as good a pair to merge as `b`: its weighted count is
/// higher, or the counts are equal and `a` does not come after `b`.
pub open spec fn at_least(words: Seq<Seq<u32>>, counts: Seq<i32>, a: Pair, b: Pair) -> bool {
    weight(words, counts, a) > weight(words, counts, b) || (weight(words, counts, a) == weight(
        words,
        counts,
        b,
    ) && pair_le(a, b))
}

/// The best of a list of pairs.
pub open spec fn champion(words: Seq<Seq<u32>>, counts: Seq<i32>, pairs: Seq<Pair>) -> Pair
    decreases pairs.len(),
{
    if pairs.len() <= 1 {
        pairs[0]
    } else {
        let m = champion(words, counts, pairs.drop_last());
        if at_least(words, counts, m, pairs.last()) {
            m
        } else {
            pairs.last()
        }
    }
}

/// The adjacent pairs of the first `n` words, word after word.
pub open spec fn pairs_upto(words: Seq<Seq<u32>>, n: nat) -> Seq<Pair>
    decreases n,
{
    if n == 0 {
        seq![]
    } else {
        pairs_upto(words, (n - 1) as nat) + adjacent_pairs(words[n - 1])
    }
}

proof fn lemma_champion(words: Seq<Seq<u32>>, counts: Seq<i32>, pairs: Seq<Pair>)
    requires
        pairs.len() > 0,
    ensures
        pairs.contains(champion(words, counts, pairs)),
        forall|i: int|
            0 <= i < pairs.len() ==> at_least(
                words,
                counts,
                champion(words, counts, pairs),
                #[trigger] pairs[i],
            ),
    decreases pairs.len(),
{
    if pairs.len() <= 1 {
        assert(pairs[0] == champion(words, counts, pairs));
    } else {
        let front = pairs.drop_last();
        lemma_champion(words, counts, front);
        let m = champion(words, counts, front);
        let c = champion(words, counts, pairs);
        let k = front.index_of(m);
        assert(pairs[k] == m);
        assert(pairs[pairs.len() - 1] == pairs.last());
        assert forall|i: int| 0 <= i < pairs.len() implies at_least(
            words,
            counts,
            c,
            #[trigger] pairs[i],
        ) by {
            if i < front.len() {
                assert(pairs[i] == front[i]);
                assert(at_least(words, counts, m, front[i]));
            }
        }
    }
}

proof fn lemma_pairs_upto_contains(words: Seq<Seq<u32>>, n: nat, w: int, k: int)
    requires
        0 <= w < n <= words.len(),
        0 <= k < words[w].len() - 1,
    ensures
        pairs_upto(words, n).contains((words[w][k], words[w][k + 1])),
    decreases n,
{
    let before = pairs_upto(words, (n - 1) as nat);
    let here = adjacent_pairs(words[n - 1]);
    let p = (words[w][k], words[w][k + 1]);
    if w == n - 1 {
        assert(here[k] == p);
        assert((before + here)[before.len() + k] == p);
    } else {
        lemma_pairs_upto_contains(words, (n - 1) as nat, w, k);
        let i = before.index_of(p);
        assert((before + here)[i] == p);
    }
}

/// Where some pair has positive weight, there is a best pair, and it is the
/// pair that learning takes.
pub proof fn lemma_best_exists(words: Seq<Seq<u32>>, counts: Seq<i32>)
    requires
        counts_valid(words, counts),
        !exhausted(words, counts),
    ensures
        is_best(words, counts, best_pair(words, counts)),
{
    let p = choose|p: Pair| weight(words, counts, p) > 0;
    let n = words.len();
    let all = pairs_upto(words, n);
    let w = lemma_weight_witness(words, counts, p, n);
    let k = lemma_occurrence_ids(words[w], p);
    lemma_pairs_upto_contains(words, n, w, k);
    lemma_champion(words, counts, all);
    let c = champion(words, counts, all);
    let ip = all.index_of(p);
    assert(at_least(words, counts, c, all[ip]));
    assert forall|q: Pair|
        #![trigger weight(words, counts, q)]
        weight(words, counts, q) < weight(words, counts, c) || (weight(words, counts, q) == weight(
            words,
            counts,
            c,
        ) && pair_le(c, q)) by {
        if weight(words, counts, q) > 0 {
            let wq = lemma_weight_witness(words, counts, q, n);
            let kq = lemma_occurrence_ids(words[wq], q);
            lemma_pairs_upto_contains(words, n, wq, kq);
            let iq = all.index_of(q);
            assert(at_least(words, counts, c, all[iq]));
        }
    }
    assert(is_best(words, counts, c));
}

/// `s` with the entries at `i` and `i + 1` exchanged.
pub open spec fn swapped<T>(s: Seq<T>, i: int) -> Seq<T> {
    s.update(i, s[i + 1]).update(i + 1, s[i])
}

proof fn lemma_weight_swapped(words: Seq<Seq<u32>>, counts: Seq<i32>, i: int, p: Pair, n: nat)
    requires
        words.len() == counts.len(),
        0 <= i,
        i + 1 < words.len(),
        n <= words.len(),
        n != i + 1,
    ensures
        weight_upto(swapped(words, i), swapped(counts, i), p, n) == weight_upto(
            words,
            counts,
            p,
            n,
        ),
    decreases n,
{
    let ws = swapped(words, i);
    let cs = swapped(counts, i);
    if n == 0 {
    } else if n <= i {
        lemma_weight_swapped(words, counts, i, p, (n - 1) as nat);
    } else if n == i + 2 {
        lemma_weight_swapped(words, counts, i, p, i as nat);
        assert(weight_upto(ws, cs, p, n) == weight_upto(ws, cs, p, (i + 1) as nat) + cs[i + 1]
            * occurrences(ws[i + 1], p));
        assert(weight_upto(ws, cs, p, (i + 1) as nat) == weight_upto(ws, cs, p, i as nat) + cs[i]
            * occurrences(ws[i], p));
        assert(weight_upto(words, counts, p, n) == weight_upto(words, counts, p, (i + 1) as nat)
            + counts[i + 1] * occurrences(words[i + 1], p));
        assert(weight_upto(words, counts, p, (i + 1) as nat) == weight_upto(
            words,
            counts,
            p,
            i as nat,
        ) + counts[i] * occurrences(words[i], p));
    } else {
        lemma_weight_swapped(words, counts, i, p, (n - 1) as nat);
    }
}

/// The order of the words does not matter to what is learned: with two
/// neighbouring words exchanged, and their counts with them, the same merges
/// are learned.
pub proof fn lemma_learned_swapped(
    words: Seq<Seq<u32>>,
    counts: Seq<i32>,
    i: int,
    next_id: u32,
    n: nat,
)
    requires
        counts_valid(words, counts),
        0 <= i,
        i + 1 < words.len(),
    ensures
        learned(swapped(words, i), swapped(counts, i), next_id, n) == learned(
            words,
            counts,
            next_id,
            n,
        ),
    decreases n,
{
    let ws = swapped(words, i);
    let cs = swapped(counts, i);
    assert forall|q: Pair| #[trigger] weight(ws, cs, q) == weight(words, counts, q) by {
        lemma_weight_swapped(words, counts, i, q, words.len());
    }
    if n > 0 && !exhausted(words, counts) {
        let witness = choose|q: Pair| weight(words, counts, q) > 0;
        assert(weight(ws, cs, witness) > 0);
        assert(!exhausted(ws, cs));
        lemma_best_exists(words, counts);
        lemma_best_exists(ws, cs);
        let p = best_pair(words, counts);
        let rival = best_pair(ws, cs);
        assert(is_best(words, counts, rival)) by {
            assert forall|q: Pair|
                #![trigger weight(words, counts, q)]
                weight(words, counts, q) < weight(words, counts, rival) || (weight(words, counts, q)
                    == weight(words, counts, rival) && pair_le(rival, q)) by {
                assert(weight(ws, cs, q) == weight(words, counts, q));
            }
        }
        lemma_best_unique(words, counts, p, rival);
        let after = merge_all(words, p, next_id);
        assert(merge_all(ws, p, next_id) =~= swapped(after, i));
        lemma_learned_swapped(after, counts, i, (next_id + 1) as u32, (n - 1) as nat);
    } else if n > 0 {
        assert forall|q: Pair| #[trigger] weight(ws, cs, q) <= 0 by {
            assert(weight(words, counts, q) <= 0);
        }
    }
}

/// Where `p` is the best pair, learning goes on with `p`.
pub proof fn lemma_learned_step(
    words: Seq<Seq<u32>>,
    counts: Seq<i32>,
    next_id: u32,
    n: nat,
    p: Pair,
)
    requires
        n > 0,
        is_best(words, counts, p),
    ensures
        learned(words, counts, next_id, n) == seq![p] + learned(
            merge_all(words, p, next_id),
            counts,
            (next_id + 1) as u32,
            (n - 1) as nat,
        ),
{
    assert(weight(words, counts, p) > 0);
    assert(!exhausted(words, counts));
    lemma_best_unique(words, counts, p, best_pair(words, counts));
}

/// A pair that occurs in a word is made of ids of that word.
pub proof fn lemma_occurrence_ids(s: Seq<u32>, p: Pair) -> (k: int)
    requires
        occurrences(s, p) > 0,
    ensures
        0 <= k < s.len() - 1,
        s[k] == p.0,
        s[k + 1] == p.1,
    decreases s.len(),
{
    lemma_occurrences_bound(s, p, 0);
    lemma_occurrences_front(s, p);
    if s[0] == p.0 && s[1] == p.1 {
        0
    } else {
        let k = lemma_occurrence_ids(s.skip(1), p);
        k + 1
    }
}

/// A pair that holds an id which is in no position of a word does not occur
/// in that word.
pub proof fn lemma_absent_id(s: Seq<u32>, p: Pair, x: u32)
    requires
        holds_id(p, x),
        forall|k: int| 0 <= k < s.len() ==> s[k] != x,
    ensures
        occurrences(s, p) == 0,
{
    if occurrences(s, p) > 0 {
        let k = lemma_occurrence_ids(s, p);
    }
}

/// A positive weighted count has a word behind it: one with positive count in
/// which the pair occurs.
pub proof fn lemma_weight_witness(words: Seq<Seq<u32>>, counts: Seq<i32>, p: Pair, n: nat) -> (w:
    int)
    requires
        counts_valid(words, counts),
        n <= words.len(),
        weight_upto(words, counts, p, n) > 0,
    ensures
        0 <= w < n,
        counts[w] > 0,
        occurrences(words[w], p) > 0,
    decreases n,
{
    let c = counts[n - 1] as int;
    let o = occurrences(words[n - 1], p) as int;
    if c > 0 && o > 0 {
        n - 1
    } else {
        assert(c * o == 0) by (nonlinear_arith)
            requires
                c == 0 || o == 0,
        ;
        lemma_weight_witness(words, counts, p, (n - 1) as nat)
    }
}

/// Where a pair occurs in no word more often than before, its weighted count
/// is no higher than before.
pub proof fn lemma_weight_pointwise(
    before: Seq<Seq<u32>>,
    after: Seq<Seq<u32>>,
    counts: Seq<i32>,
    p: Pair,
    n: nat,
)
    requires
        counts_valid(before, counts),
        before.len() == after.len(),
        n <= before.len(),
        forall|w: int| 0 <= w < n ==> occurrences(after[w], p) <= occurrences(before[w], p),
    ensures
        weight_upto(after, counts, p, n) <= weight_upto(before, counts, p, n),
    decreases n,
{
    if n > 0 {
        lemma_weight_pointwise(before, after, counts, p, (n - 1) as nat);
        let c = counts[n - 1] as int;
        let a = occurrences(after[n - 1], p) as int;
        let b = occurrences(before[n - 1], p) as int;
        assert(c * a <= c * b) by (nonlinear_arith)
            requires
                0 <= c,
                a <= b,
        ;
    }
}

/// Where a pair occurs in no word, its weighted count is zero.
pub proof fn lemma_weight_zero(words: Seq<Seq<u32>>, counts: Seq<i32>, p: Pair, n: nat)
    requires
        n <= words.len(),
        forall|w: int| 0 <= w < n ==> occurrences(words[w], p) == 0,
    ensures
        weight_upto(words, counts, p, n) == 0,
    decreases n,
{
    if n > 0 {
        lemma_weight_zero(words, counts, p, (n - 1) as nat);
    }
}

/// One word's share of the corpus size is no more than the whole.
pub proof fn lemma_corpus_term(words: Seq<Seq<u32>>, counts: Seq<i32>, w: int, n: nat)
    requires
        counts_valid(words, counts),
        0 <= w < n <= words.len(),
    ensures
        0 <= counts[w] * words[w].len() <= corpus_upto(words, counts, n),
    decreases n,
{
    let c = counts[n - 1] as int;
    let l = words[n - 1].len() as int;
    assert(0 <= c * l) by (nonlinear_arith)
        requires
            0 <= c,
            0 <= l,
    ;
    if w < n - 1 {
        lemma_corpus_term(words, counts, w, (n - 1) as nat);
    } else {
        lemma_corpus_nonnegative(words, counts, (n - 1) as nat);
    }
}

/// A corpus size is not negative.
pub proof fn lemma_corpus_nonnegative(words: Seq<Seq<u32>>, counts: Seq<i32>, n: nat)
    requires
        counts_valid(words, counts),
        n <= words.len(),
    ensures
        0 <= corpus_upto(words, counts, n),
    decreases n,
{
    if n > 0 {
        lemma_corpus_nonnegative(words, counts, (n - 1) as nat);
        let c = counts[n - 1] as int;
        let l = words[n - 1].len() as int;
        assert(0 <= c * l) by (nonlinear_arith)
            requires
                0 <= c,
                0 <= l,
        ;
    }
}

/// Entries of `-1` and `+1` add up to no more than their number, either way.
pub proof fn lemma_net_change_bound(d: Seq<Delta>, q: Pair)
    requires
        forall|j: int| 0 <= j < d.len() ==> (#[trigger] d[j]).1 == 1 || d[j].1 == -1,
    ensures
        -d.len() <= net_change(d, q) <= d.len(),
    decreases d.len(),
{
    if d.len() > 0 {
        lemma_net_change_bound(d.drop_last(), q);
    }
}

/// Where no entry raises the count of `q`, the net change of `q` is not
/// positive.
pub proof fn lemma_net_change_not_positive(d: Seq<Delta>, q: Pair)
    requires
        forall|j: int| 0 <= j < d.len() && (#[trigger] d[j]).0 == q ==> d[j].1 <= 0,
    ensures
        net_change(d, q) <= 0,
    decreases d.len(),
{
    if d.len() > 0 {
        lemma_net_change_not_positive(d.drop_last(), q);
    }
}

/// A positive net change of `q` has an entry behind it that raises the count
/// of `q`.
pub proof fn lemma_net_change_witness(d: Seq<Delta>, q: Pair) -> (j: int)
    requires
        net_change(d, q) > 0,
    ensures
        0 <= j < d.len(),
        d[j].0 == q,
        d[j].1 > 0,
    decreases d.len(),
{
    if d.last().0 == q && d.last().1 > 0 {
        d.len() - 1
    } else {
        lemma_net_change_witness(d.drop_last(), q)
    }
}

/// A pass changes how often `q` occurs by what its bookkeeping records for `q`.
pub proof fn lemma_pass_changes(s: Seq<u32>, p: Pair, new_id: u32, q: Pair)
    ensures
        occurrences(merged(s, p, new_id), q) == occurrences(s, q) + net_change(
            merge_deltas(None, s, p, new_id),
            q,
        ),
{
    lemma_merge_deltas_exact(None, s, p, new_id, q);
}

/// A pass does not raise the occurrences of a pair that does not hold the new
/// id.
pub proof fn lemma_pass_lowers(s: Seq<u32>, p: Pair, new_id: u32, q: Pair)
    requires
        !holds_id(q, new_id),
    ensures
        occurrences(merged(s, p, new_id), q) <= occurrences(s, q),
{
    lemma_pass_changes(s, p, new_id, q);
    lemma_merge_deltas_shape(None, s, p, new_id, 0x1_0000_0000);
    lemma_net_change_not_positive(merge_deltas(None, s, p, new_id), q);
}

/// Merging `p` in every word raises the weighted count of no pair that does
/// not hold the new id, and leaves `p` itself without weight where the new id
/// is not an id of `p`.
pub proof fn lemma_merge_all_weights(
    words: Seq<Seq<u32>>,
    counts: Seq<i32>,
    p: Pair,
    new_id: u32,
    q: Pair,
)
    requires
        counts_valid(words, counts),
    ensures
        !holds_id(q, new_id) ==> weight(merge_all(words, p, new_id), counts, q) <= weight(
            words,
            counts,
            q,
        ),
        !holds_id(p, new_id) ==> weight(merge_all(words, p, new_id), counts, p) == 0,
{
    let after = merge_all(words, p, new_id);
    if !holds_id(q, new_id) {
        assert forall|w: int| 0 <= w < words.len() implies occurrences(after[w], q)
            <= occurrences(words[w], q) by {
            lemma_pass_lowers(words[w], p, new_id, q);
        }
        lemma_weight_pointwise(words, after, counts, q, words.len());
    }
    if !holds_id(p, new_id) {
        assert forall|w: int| 0 <= w < after.len() implies occurrences(after[w], p) == 0 by {
            lemma_merged_has_no_pair(words[w], p, new_id);
        }
        lemma_weight_zero(after, counts, p, after.len());
    }
}

/// Merging in the words that hold the pair is merging in every word.
pub proof fn lemma_merge_where_present(s: Seq<u32>, p: Pair, new_id: u32)
    requires
        occurrences(s, p) == 0,
    ensures
        merged(s, p, new_id) == s,
{
    lemma_absent_pair_is_noop(None, s, p, new_id);
}

} // verus!
