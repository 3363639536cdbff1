//! The training loop: learns merges from words and their counts, keeping the
//! pair statistics and the merge queue up to date from step to step.

use crate::corpus::Corpus;
use crate::learning::counts_positive;
use crate::learning::exhausted;
use crate::learning::holds_id;
use crate::learning::ids_below;
use crate::learning::is_best;
use crate::learning::learned;
use crate::learning::lemma_absent_id;
use crate::learning::lemma_corpus_term;
use crate::learning::lemma_learned_step;
use crate::learning::lemma_merge_all_weights;
use crate::learning::lemma_merge_where_present;
use crate::learning::lemma_net_change_bound;
use crate::learning::lemma_net_change_witness;
use crate::learning::lemma_occurrence_ids;
use crate::learning::lemma_pass_changes;
use crate::learning::lemma_pass_lowers;
use crate::learning::lemma_weight_witness;
use crate::learning::merge_all;
use crate::merges::BASE_TOKENS;
use crate::merges::merges_valid;
use crate::merges::MergeTable;
use crate::scheduler::backlog;
use crate::scheduler::JobView;
use crate::scheduler::judge;
use crate::scheduler::lemma_backlog_push;
use crate::scheduler::lemma_backlog_remove;
use crate::scheduler::MergeJob;
use crate::scheduler::outranks;
use crate::scheduler::Scheduler;
use crate::scheduler::Verdict;
use crate::stats::corpus_size;
use crate::stats::corpus_upto;
use crate::stats::count_pairs;
use crate::stats::counts_valid;
use crate::stats::lemma_weight_bounds;
use crate::stats::lemma_weight_update;
use crate::stats::occupied;
use crate::stats::PairStats;
use crate::stats::PositionTable;
use crate::stats::weight;
use crate::stats::WEIGHT_LIMIT;
use crate::stats::word_seqs;
use crate::tables::index_set;
use crate::tables::set_to_vec;
use crate::word::Delta;
use crate::word::lemma_merge_deltas_shape;
use crate::word::lemma_merged_front;
use crate::word::lemma_merged_ids_bounded;
use crate::word::merged;
use crate::word::net_change;
use crate::word::occurrences;
use crate::word::Pair;
use crate::word::Word;
use vstd::prelude::*;

verus! {

/// `w` is among the first `t` entries of `pos`.
pub open spec fn processed(pos: Seq<usize>, t: int, w: usize) -> bool {
    exists|u: int| 0 <= u < t && #[trigger] pos[u] == w
}

/// Book-keeps one merged word: weights each recorded change by the word's
/// count, adds it to the statistics, and enters the word for each pair that
/// came.
fn record_deltas(
    stats: &mut PairStats,
    fresh: &mut PositionTable,
    deltas: &Vec<Delta>,
    w: usize,
    c: i32,
    Ghost(base): Ghost<spec_fn(Pair) -> int>,
    Ghost(new_id): Ghost<u32>,
)
    requires
        old(stats).wf(),
        old(fresh).wf(),
        c > 0,
        forall|q: Pair| old(stats).count_of(q) == base(q),
        forall|q: Pair| 0 <= #[trigger] base(q) <= WEIGHT_LIMIT,
        c * deltas@.len() <= 3 * WEIGHT_LIMIT,
        forall|j: int|
            #![trigger deltas@[j]]
            0 <= j < deltas@.len() ==> {
                &&& deltas@[j].1 == 1 || deltas@[j].1 == -1
                &&& deltas@[j].1 == 1 ==> holds_id(deltas@[j].0, new_id)
                &&& deltas@[j].0.0 <= new_id
                &&& deltas@[j].0.1 <= new_id
            },
        forall|q: Pair|
            #[trigger] old(fresh).listed(q) ==> holds_id(q, new_id) && q.0 <= new_id && q.1 <= new_id,
    ensures
        final(stats).wf(),
        final(fresh).wf(),
        forall|q: Pair| final(stats).count_of(q) == base(q) + c * net_change(deltas@, q),
        forall|q: Pair|
            #[trigger] final(fresh).listed(q) ==> holds_id(q, new_id) && q.0 <= new_id && q.1 <= new_id,
        forall|q: Pair, x: usize|
            #![trigger final(fresh).positions(q).contains(x)]
            final(fresh).positions(q).contains(x) ==> old(fresh).positions(q).contains(x) || x == w,
        forall|q: Pair, x: usize|
            #![trigger final(fresh).positions(q).contains(x)]
            old(fresh).positions(q).contains(x) ==> final(fresh).positions(q).contains(x),
        forall|q: Pair, j: int|
            #![trigger deltas@[j], final(fresh).positions(q)]
            0 <= j < deltas@.len() && deltas@[j].0 == q && deltas@[j].1 > 0
                ==> final(fresh).positions(q).contains(w),
{
    let ghost d = deltas@;
    let mut u: usize = 0;
    proof {
        assert(d.take(0) =~= Seq::<Delta>::empty());
        assert forall|q: Pair| stats.count_of(q) == base(q) + c * net_change(d.take(0), q) by {
            assert(net_change(d.take(0), q) == 0);
        }
    }
    while u < deltas.len()
        invariant
            d == deltas@,
            u <= d.len(),
            stats.wf(),
            fresh.wf(),
            c > 0,
            forall|q: Pair| 0 <= #[trigger] base(q) <= WEIGHT_LIMIT,
            c * d.len() <= 3 * WEIGHT_LIMIT,
            forall|j: int|
                #![trigger d[j]]
                0 <= j < d.len() ==> {
                    &&& d[j].1 == 1 || d[j].1 == -1
                    &&& d[j].1 == 1 ==> holds_id(d[j].0, new_id)
                    &&& d[j].0.0 <= new_id
                    &&& d[j].0.1 <= new_id
                },
            forall|q: Pair| stats.count_of(q) == base(q) + c * net_change(d.take(u as int), q),
            forall|q: Pair|
            #[trigger] fresh.listed(q) ==> holds_id(q, new_id) && q.0 <= new_id && q.1 <= new_id,
            forall|q: Pair, x: usize|
                #![trigger fresh.positions(q).contains(x)]
                fresh.positions(q).contains(x) ==> old(fresh).positions(q).contains(x) || x == w,
            forall|q: Pair, x: usize|
                #![trigger fresh.positions(q).contains(x)]
                old(fresh).positions(q).contains(x) ==> fresh.positions(q).contains(x),
            forall|q: Pair, j: int|
                #![trigger d[j], fresh.positions(q)]
                0 <= j < u && d[j].0 == q && d[j].1 > 0 ==> fresh.positions(q).contains(w),
        decreases d.len() - u,
    {
        let entry = deltas[u];
        let q0 = entry.0;
        let change = entry.1;
        let ghost prefix = d.take(u as int);
        let ghost next = d.take(u + 1);
        proof {
            assert(d[u as int] == entry);
            assert(next.drop_last() =~= prefix);
            assert(next.last() == entry);
            assert forall|j: int| 0 <= j < prefix.len() implies (#[trigger] prefix[j]).1 == 1
                || prefix[j].1 == -1 by {
                assert(prefix[j] == d[j]);
            }
            lemma_net_change_bound(prefix, q0);
            let nc = net_change(prefix, q0);
            let cc = c as int;
            let dl = d.len() as int;
            assert(-(cc * dl) <= cc * nc <= cc * dl) by (nonlinear_arith)
                requires
                    cc > 0,
                    -dl <= nc <= dl,
            ;
        }
        let total: i64 = if change > 0 {
            c as i64
        } else {
            -(c as i64)
        };
        stats.add(q0, total);
        if change > 0 {
            fresh.add(q0, w);
        }
        u += 1;
        proof {
            assert forall|q: Pair| stats.count_of(q) == base(q) + c * net_change(next, q) by {
                let nc = net_change(prefix, q);
                let cc = c as int;
                if q == q0 {
                    assert(net_change(next, q) == nc + change);
                    assert(cc * (nc + 1) == cc * nc + cc) by (nonlinear_arith);
                    assert(cc * (nc - 1) == cc * nc - cc) by (nonlinear_arith);
                } else {
                    assert(net_change(next, q) == nc);
                }
            }
        }
    }
    proof {
        assert(d.take(d.len() as int) =~= d);
    }
}

/// Merges `pair` into `new_id` in the words listed in `pos`, keeps the
/// statistics in step, and returns, for each pair that came into being, the
/// words in which it now occurs.
pub fn apply_merge(
    words: &mut Vec<Word>,
    counts: &Vec<i32>,
    stats: &mut PairStats,
    pair: Pair,
    new_id: u32,
    pos: &Vec<usize>,
) -> (fresh: PositionTable)
    requires
        counts_positive(word_seqs(old(words)@), counts@),
        corpus_size(word_seqs(old(words)@), counts@) <= WEIGHT_LIMIT,
        old(stats).wf(),
        forall|q: Pair| old(stats).count_of(q) == weight(word_seqs(old(words)@), counts@, q),
        ids_below(word_seqs(old(words)@), new_id as int),
        pair.0 < new_id,
        pair.1 < new_id,
        pos@.no_duplicates(),
        forall|t: int| 0 <= t < pos@.len() ==> pos@[t] < old(words)@.len(),
        forall|w: usize|
            w < old(words)@.len() && occurrences(word_seqs(old(words)@)[w as int], pair) > 0
                ==> pos@.contains(w),
    ensures
        word_seqs(final(words)@) == merge_all(word_seqs(old(words)@), pair, new_id),
        corpus_size(word_seqs(final(words)@), counts@) <= WEIGHT_LIMIT,
        ids_below(word_seqs(final(words)@), new_id + 1),
        final(stats).wf(),
        forall|q: Pair| final(stats).count_of(q) == weight(word_seqs(final(words)@), counts@, q),
        fresh.wf(),
        forall|q: Pair|
            #[trigger] fresh.listed(q) ==> holds_id(q, new_id) && q.0 <= new_id && q.1 <= new_id,
        forall|q: Pair, x: usize|
            #![trigger fresh.positions(q).contains(x)]
            fresh.positions(q).contains(x) ==> x < old(words)@.len(),
        forall|q: Pair, w: usize|
            #![trigger fresh.positions(q).contains(w)]
            w < old(words)@.len() && holds_id(q, new_id) && occurrences(
                word_seqs(final(words)@)[w as int],
                q,
            ) > 0 ==> fresh.positions(q).contains(w),
{
    let ghost ws0 = word_seqs(words@);
    let ghost cs = counts@;
    let n = words.len();
    let mut fresh = PositionTable::new();
    let mut t: usize = 0;
    while t < pos.len()
        invariant
            n == words@.len(),
            n == ws0.len(),
            cs == counts@,
            t <= pos@.len(),
            counts_positive(ws0, cs),
            ids_below(ws0, new_id as int),
            pair.0 < new_id,
            pair.1 < new_id,
            pos@.no_duplicates(),
            forall|u: int| 0 <= u < pos@.len() ==> pos@[u] < n,
            forall|w: int|
                0 <= w < n ==> #[trigger] word_seqs(words@)[w] == if processed(
                    pos@,
                    t as int,
                    w as usize,
                ) {
                    merged(ws0[w], pair, new_id)
                } else {
                    ws0[w]
                },
            corpus_size(word_seqs(words@), cs) <= WEIGHT_LIMIT,
            stats.wf(),
            forall|q: Pair| stats.count_of(q) == weight(word_seqs(words@), cs, q),
            fresh.wf(),
            forall|q: Pair|
            #[trigger] fresh.listed(q) ==> holds_id(q, new_id) && q.0 <= new_id && q.1 <= new_id,
            forall|q: Pair, x: usize|
                #![trigger fresh.positions(q).contains(x)]
                fresh.positions(q).contains(x) ==> x < n,
            forall|q: Pair, w: usize|
                #![trigger fresh.positions(q).contains(w)]
                w < n && processed(pos@, t as int, w) && holds_id(q, new_id) && occurrences(
                    merged(ws0[w as int], pair, new_id),
                    q,
                ) > 0 ==> fresh.positions(q).contains(w),
        decreases pos@.len() - t,
    {
        let w = pos[t];
        let c = counts[w];
        let ghost cur = word_seqs(words@);
        let ghost s = cur[w as int];
        let ghost fresh0 = fresh;
        proof {
            if processed(pos@, t as int, w) {
                let u = choose|u: int| 0 <= u < t && #[trigger] pos@[u] == w;
                assert(pos@[u] == pos@[t as int]);
            }
            assert(s == ws0[w as int]);
            assert(cur[w as int] == words@[w as int]@);
        }
        let deltas = words[w].merge_pair(pair, new_id);
        let ghost m = merged(s, pair, new_id);
        let ghost now = word_seqs(words@);
        let ghost base = |q: Pair| weight(cur, cs, q);
        proof {
            assert(now =~= cur.update(w as int, m));
            assert(counts_valid(cur, cs));
            assert forall|q: Pair| 0 <= #[trigger] base(q) <= WEIGHT_LIMIT by {
                lemma_weight_bounds(cur, cs, q, n as nat, n as nat);
            }
            assert forall|k: int| 0 <= k < s.len() implies s[k] < new_id + 1 by {
                assert(ws0[w as int][k] < new_id);
            }
            lemma_merge_deltas_shape(None, s, pair, new_id, new_id + 1);
            lemma_corpus_term(cur, cs, w as int, n as nat);
            let cc = c as int;
            let dl = deltas@.len() as int;
            let sl = s.len() as int;
            assert(cc * dl <= 3 * (cc * sl)) by (nonlinear_arith)
                requires
                    cc > 0,
                    0 <= dl <= 3 * sl,
            ;
        }
        record_deltas(stats, &mut fresh, &deltas, w, c, Ghost(base), Ghost(new_id));
        proof {
            lemma_merged_front(s, pair, new_id);
            assert forall|q: Pair| stats.count_of(q) == weight(now, cs, q) by {
                lemma_pass_changes(s, pair, new_id, q);
                lemma_weight_update(cur, cs, w as int, m, q, n as nat);
                let cc = c as int;
                let a = occurrences(m, q) as int;
                let b = occurrences(s, q) as int;
                assert(net_change(deltas@, q) == a - b);
            }
            assert(corpus_size(now, cs) <= WEIGHT_LIMIT) by {
                lemma_weight_update(cur, cs, w as int, m, pair, n as nat);
                let cc = c as int;
                let a = m.len() as int;
                let b = s.len() as int;
                assert(cc * (a - b) <= 0) by (nonlinear_arith)
                    requires
                        cc > 0,
                        a <= b,
                ;
            }
            assert forall|x: int| 0 <= x < n implies #[trigger] now[x] == if processed(
                pos@,
                t + 1,
                x as usize,
            ) {
                merged(ws0[x], pair, new_id)
            } else {
                ws0[x]
            } by {
                if x == w {
                    assert(pos@[t as int] == w);
                } else {
                    assert(now[x] == cur[x]);
                    if processed(pos@, t as int, x as usize) {
                        let u = choose|u: int| 0 <= u < t && #[trigger] pos@[u] == x as usize;
                        assert(pos@[u] == x as usize);
                    }
                    if processed(pos@, t + 1, x as usize) {
                        let u = choose|u: int| 0 <= u < t + 1 && #[trigger] pos@[u] == x as usize;
                        assert(u < t);
                        assert(pos@[u] == x as usize);
                    }
                }
            }
            assert forall|q: Pair, x: usize|
                #![trigger fresh.positions(q).contains(x)]
                x < n && processed(pos@, t + 1, x) && holds_id(q, new_id) && occurrences(
                    merged(ws0[x as int], pair, new_id),
                    q,
                ) > 0 implies fresh.positions(q).contains(x) by {
                if x == w {
                    assert forall|k: int| 0 <= k < s.len() implies s[k] != new_id by {
                        assert(ws0[w as int][k] < new_id);
                    }
                    lemma_absent_id(s, q, new_id);
                    lemma_pass_changes(s, pair, new_id, q);
                    let j = lemma_net_change_witness(deltas@, q);
                    assert(deltas@[j].0 == q && deltas@[j].1 > 0);
                } else {
                    let u = choose|u: int| 0 <= u < t + 1 && #[trigger] pos@[u] == x;
                    assert(u < t);
                    assert(processed(pos@, t as int, x));
                    assert(fresh0.positions(q).contains(x));
                }
            }
        }
        t += 1;
    }
    proof {
        let now = word_seqs(words@);
        let all = merge_all(ws0, pair, new_id);
        assert forall|w: int| 0 <= w < n implies now[w] == all[w] by {
            if !processed(pos@, pos@.len() as int, w as usize) {
                if occurrences(ws0[w], pair) > 0 {
                    assert(pos@.contains(w as usize));
                    let u = choose|u: int| 0 <= u < pos@.len() && pos@[u] == w as usize;
                    assert(pos@[u] == w as usize);
                }
                lemma_merge_where_present(ws0[w], pair, new_id);
            }
        }
        assert(now =~= all);
        assert forall|w: int, k: int| 0 <= w < now.len() && 0 <= k < now[w].len() implies (
        #[trigger] now[w][k]) < new_id + 1 by {
            assert forall|k2: int| 0 <= k2 < ws0[w].len() implies ws0[w][k2] < new_id as int by {
                assert(ws0[w][k2] < new_id);
            }
            lemma_merged_ids_bounded(ws0[w], pair, new_id, new_id as int);
            assert(now[w][k] == merged(ws0[w], pair, new_id)[k]);
        }
        assert forall|q: Pair, w: usize|
            #![trigger fresh.positions(q).contains(w)]
            w < n && holds_id(q, new_id) && occurrences(now[w as int], q) > 0 implies fresh.positions(
            q,
        ).contains(w) by {
            if !processed(pos@, pos@.len() as int, w) {
                if occurrences(ws0[w as int], pair) > 0 {
                    assert(pos@.contains(w));
                    let u = choose|u: int| 0 <= u < pos@.len() && pos@[u] == w;
                    assert(pos@[u] == w);
                }
                lemma_merge_where_present(ws0[w as int], pair, new_id);
                assert forall|k: int| 0 <= k < ws0[w as int].len() implies ws0[w as int][k]
                    != new_id by {
                    assert(ws0[w as int][k] < new_id);
                }
                lemma_absent_id(ws0[w as int], q, new_id);
            }
        }
    }
    fresh
}



/// A waiting job can be relied on: its count is positive and not below the
/// current weighted count of its pair, its ids are below `bound`, and its
/// words are words, among them every word in which the pair occurs.
pub open spec fn job_sound(job: JobView, words: Seq<Seq<u32>>, counts: Seq<i32>, bound: int) -> bool {
    &&& job.count > 0
    &&& job.count >= weight(words, counts, job.pair)
    &&& job.pair.0 < bound
    &&& job.pair.1 < bound
    &&& forall|w: usize|
        w < words.len() && occurrences(words[w as int], job.pair) > 0 ==> #[trigger] job.pos.contains(
            w,
        )
    &&& forall|w: usize| #[trigger] job.pos.contains(w) ==> w < words.len()
}

/// Every waiting job can be relied on.
pub open spec fn queue_sound(
    jobs: Seq<JobView>,
    words: Seq<Seq<u32>>,
    counts: Seq<i32>,
    bound: int,
) -> bool {
    forall|j: int| 0 <= j < jobs.len() ==> job_sound(#[trigger] jobs[j], words, counts, bound)
}

/// A job waits for `p`.
pub open spec fn has_job(jobs: Seq<JobView>, p: Pair) -> bool {
    exists|j: int| 0 <= j < jobs.len() && (#[trigger] jobs[j]).pair == p
}

/// Where `p` has positive weight, a job waits for it.
pub open spec fn covered(jobs: Seq<JobView>, words: Seq<Seq<u32>>, counts: Seq<i32>, p: Pair) -> bool {
    weight(words, counts, p) > 0 ==> has_job(jobs, p)
}

proof fn lemma_has_job_push(jobs: Seq<JobView>, job: JobView, p: Pair)
    ensures
        has_job(jobs, p) ==> has_job(jobs.push(job), p),
        job.pair == p ==> has_job(jobs.push(job), p),
{
    if has_job(jobs, p) {
        let j = choose|j: int| 0 <= j < jobs.len() && (#[trigger] jobs[j]).pair == p;
        assert(jobs.push(job)[j].pair == p);
    }
    if job.pair == p {
        assert(jobs.push(job)[jobs.len() as int].pair == p);
    }
}

proof fn lemma_has_job_remove(jobs: Seq<JobView>, i: int, p: Pair)
    requires
        0 <= i < jobs.len(),
        has_job(jobs, p),
        jobs[i].pair != p,
    ensures
        has_job(jobs.remove(i), p),
{
    let j = choose|j: int| 0 <= j < jobs.len() && (#[trigger] jobs[j]).pair == p;
    if j < i {
        assert(jobs.remove(i)[j].pair == p);
    } else {
        assert(jobs.remove(i)[j - 1].pair == p);
    }
}

proof fn lemma_sound_remove(
    jobs: Seq<JobView>,
    i: int,
    words: Seq<Seq<u32>>,
    counts: Seq<i32>,
    bound: int,
)
    requires
        0 <= i < jobs.len(),
        queue_sound(jobs, words, counts, bound),
    ensures
        queue_sound(jobs.remove(i), words, counts, bound),
{
    assert forall|j: int| 0 <= j < jobs.remove(i).len() implies job_sound(
        #[trigger] jobs.remove(i)[j],
        words,
        counts,
        bound,
    ) by {
        if j < i {
            assert(jobs.remove(i)[j] == jobs[j]);
        } else {
            assert(jobs.remove(i)[j] == jobs[j + 1]);
        }
    }
}

proof fn lemma_sound_push(
    jobs: Seq<JobView>,
    job: JobView,
    words: Seq<Seq<u32>>,
    counts: Seq<i32>,
    bound: int,
)
    requires
        queue_sound(jobs, words, counts, bound),
        job_sound(job, words, counts, bound),
    ensures
        queue_sound(jobs.push(job), words, counts, bound),
{
    assert forall|j: int| 0 <= j < jobs.push(job).len() implies job_sound(
        #[trigger] jobs.push(job)[j],
        words,
        counts,
        bound,
    ) by {
        if j < jobs.len() {
            assert(jobs.push(job)[j] == jobs[j]);
        }
    }
}

/// A popped job whose recorded count is current, and which no waiting job
/// outranks, names the best pair.
proof fn lemma_accept_best(jobs: Seq<JobView>, i: int, words: Seq<Seq<u32>>, counts: Seq<i32>, bound: int)
    requires
        0 <= i < jobs.len(),
        queue_sound(jobs, words, counts, bound),
        forall|p: Pair| covered(jobs, words, counts, p),
        jobs[i].count == weight(words, counts, jobs[i].pair),
        forall|j: int| 0 <= j < jobs.len() ==> !outranks(#[trigger] jobs[j], jobs[i]),
    ensures
        is_best(words, counts, jobs[i].pair),
{
    let top = jobs[i];
    assert(job_sound(top, words, counts, bound));
    assert forall|q: Pair|
        #![trigger weight(words, counts, q)]
        weight(words, counts, q) < weight(words, counts, top.pair) || (weight(words, counts, q)
            == weight(words, counts, top.pair) && crate::scheduler::pair_le(top.pair, q)) by {
        if weight(words, counts, q) > 0 {
            assert(covered(jobs, words, counts, q));
            let j = choose|j: int| 0 <= j < jobs.len() && (#[trigger] jobs[j]).pair == q;
            assert(job_sound(jobs[j], words, counts, bound));
            assert(!outranks(jobs[j], top));
        }
    }
}

/// After the merge of the popped job's pair, the jobs that still wait can be
/// relied on as before, and they cover every pair that does not hold the new
/// id.
proof fn lemma_after_merge(
    jobs: Seq<JobView>,
    i: int,
    words: Seq<Seq<u32>>,
    counts: Seq<i32>,
    new_id: u32,
)
    requires
        0 <= i < jobs.len(),
        counts_positive(words, counts),
        queue_sound(jobs, words, counts, new_id as int),
        forall|p: Pair| covered(jobs, words, counts, p),
    ensures
        queue_sound(jobs.remove(i), merge_all(words, jobs[i].pair, new_id), counts, new_id + 1),
        forall|r: Pair|
            !holds_id(r, new_id) ==> #[trigger] covered(
                jobs.remove(i),
                merge_all(words, jobs[i].pair, new_id),
                counts,
                r,
            ),
{
    let p = jobs[i].pair;
    let after = merge_all(words, p, new_id);
    let rest = jobs.remove(i);
    assert(job_sound(jobs[i], words, counts, new_id as int));
    assert forall|j: int| 0 <= j < rest.len() implies job_sound(
        #[trigger] rest[j],
        after,
        counts,
        new_id + 1,
    ) by {
        let job = rest[j];
        if j < i {
            assert(job == jobs[j]);
        } else {
            assert(job == jobs[j + 1]);
        }
        assert(job_sound(job, words, counts, new_id as int));
        lemma_merge_all_weights(words, counts, p, new_id, job.pair);
        assert forall|w: usize|
            w < after.len() && occurrences(after[w as int], job.pair) > 0 implies #[trigger] job.pos.contains(
            w,
        ) by {
            lemma_pass_lowers(words[w as int], p, new_id, job.pair);
        }
    }
    assert forall|r: Pair| !holds_id(r, new_id) implies #[trigger] covered(rest, after, counts, r) by {
        if weight(after, counts, r) > 0 {
            lemma_merge_all_weights(words, counts, p, new_id, r);
            assert(covered(jobs, words, counts, r));
            assert(r != p);
            lemma_has_job_remove(jobs, i, r);
        }
    }
}

/// Queues a job for each entry of `table` whose pair has positive weight.
fn enqueue(
    queue: &mut Scheduler,
    stats: &PairStats,
    table: PositionTable,
    Ghost(words): Ghost<Seq<Seq<u32>>>,
    Ghost(counts): Ghost<Seq<i32>>,
    Ghost(bound): Ghost<int>,
)
    requires
        old(queue).wf(),
        stats.wf(),
        table.wf(),
        counts_positive(words, counts),
        forall|q: Pair| stats.count_of(q) == weight(words, counts, q),
        queue_sound(old(queue).queued(), words, counts, bound),
        forall|r: Pair|
            #![trigger table.listed(r)]
            table.listed(r) && weight(words, counts, r) > 0 ==> r.0 < bound && r.1 < bound,
        forall|r: Pair, w: usize|
            #![trigger table.positions(r).contains(w)]
            table.listed(r) && w < words.len() && occurrences(words[w as int], r) > 0
                ==> table.positions(r).contains(w),
        forall|r: Pair, w: usize|
            #![trigger table.positions(r).contains(w)]
            table.positions(r).contains(w) ==> w < words.len(),
        forall|r: Pair|
            #![trigger table.listed(r)]
            !table.listed(r) ==> covered(old(queue).queued(), words, counts, r),
    ensures
        final(queue).wf(),
        queue_sound(final(queue).queued(), words, counts, bound),
        forall|r: Pair| covered(final(queue).queued(), words, counts, r),
{
    let entries = table.into_entries();
    let mut pairs = entries.0;
    let mut sets = entries.1;
    let ghost all_pairs = pairs@;
    let ghost all_sets = sets@;
    proof {
        assert forall|r: Pair|
            (forall|s: int| 0 <= s < pairs@.len() ==> pairs@[s] != r) implies #[trigger] covered(
            queue.queued(),
            words,
            counts,
            r,
        ) by {
            if all_pairs.contains(r) {
                let s = all_pairs.index_of(r);
                assert(pairs@[s] == r);
            }
            assert(!table.listed(r));
        }
    }
    while pairs.len() > 0
        invariant
            queue.wf(),
            stats.wf(),
            counts_positive(words, counts),
            forall|q: Pair| stats.count_of(q) == weight(words, counts, q),
            queue_sound(queue.queued(), words, counts, bound),
            pairs@.len() == sets@.len(),
            pairs@.len() <= all_pairs.len(),
            all_pairs.len() == all_sets.len(),
            forall|s: int| 0 <= s < pairs@.len() ==> pairs@[s] == all_pairs[s] && sets@[s] == all_sets[s],
            forall|q: Pair| all_pairs.contains(q) == table.listed(q),
            forall|s: int|
                0 <= s < all_pairs.len() ==> index_set(#[trigger] all_sets[s]) == table.positions(
                    all_pairs[s],
                ),
            forall|r: Pair|
                #![trigger table.listed(r)]
                table.listed(r) && weight(words, counts, r) > 0 ==> r.0 < bound && r.1 < bound,
            forall|r: Pair, w: usize|
                #![trigger table.positions(r).contains(w)]
                table.listed(r) && w < words.len() && occurrences(words[w as int], r) > 0
                    ==> table.positions(r).contains(w),
            forall|r: Pair, w: usize|
                #![trigger table.positions(r).contains(w)]
                table.positions(r).contains(w) ==> w < words.len(),
            forall|r: Pair|
                (forall|s: int| 0 <= s < pairs@.len() ==> pairs@[s] != r) ==> #[trigger] covered(
                    queue.queued(),
                    words,
                    counts,
                    r,
                ),
        decreases pairs@.len(),
    {
        let ghost before = queue.queued();
        let ghost left = pairs@;
        let last = pairs.len() - 1;
        let pair = pairs[last];
        pairs.pop();
        let popped = sets.pop();
        let set = popped.unwrap();
        let current = stats.get(pair);
        let ghost pushed = false;
        proof {
            assert(left[last as int] == all_pairs[last as int]);
            assert(all_pairs.contains(pair));
            assert(table.listed(pair));
            assert(index_set(all_sets[last as int]) == table.positions(pair));
        }
        if current > 0 {
            let job = MergeJob { pair, count: current as u64, pos: set };
            proof {
                assert forall|w: usize|
                    w < words.len() && occurrences(words[w as int], pair) > 0 implies #[trigger] job@.pos.contains(
                    w,
                ) by {
                    assert(table.positions(pair).contains(w));
                }
                assert(job_sound(job@, words, counts, bound));
                lemma_sound_push(before, job@, words, counts, bound);
            }
            queue.push(job);
            proof {
                pushed = true;
            }
        }
        proof {
            let now = queue.queued();
            assert forall|r: Pair|
                (forall|s: int| 0 <= s < pairs@.len() ==> pairs@[s] != r) implies #[trigger] covered(
                now,
                words,
                counts,
                r,
            ) by {
                if weight(words, counts, r) > 0 {
                    if r == pair {
                        lemma_has_job_push(before, now.last(), r);
                    } else {
                        assert forall|s: int| 0 <= s < left.len() implies left[s] != r by {
                            if s < last {
                                assert(pairs@[s] == left[s]);
                            }
                        }
                        assert(covered(before, words, counts, r));
                        if pushed {
                            lemma_has_job_push(before, now.last(), r);
                        }
                    }
                }
            }
        }
    }
}

/// Words and counts that training accepts: the counts are positive, one for
/// each word, the words hold base tokens only, and the corpus is within the
/// weight limit.
pub open spec fn trainable(words: Seq<Seq<u32>>, counts: Seq<i32>) -> bool {
    &&& counts_positive(words, counts)
    &&& ids_below(words, BASE_TOKENS as int)
    &&& corpus_size(words, counts) <= WEIGHT_LIMIT
}

/// Whether training accepts the words and their counts.
pub fn can_train(words: &Vec<Word>, counts: &Vec<i32>) -> (ok: bool)
    ensures
        ok == trainable(word_seqs(words@), counts@),
{
    measure(words, counts).is_some()
}

/// The size of the corpus that the words and their counts stand for, where
/// training accepts them.
pub fn measure(words: &Vec<Word>, counts: &Vec<i32>) -> (size: Option<u64>)
    ensures
        size is Some <==> trainable(word_seqs(words@), counts@),
        size matches Some(n) ==> n == corpus_size(word_seqs(words@), counts@),
{
    let ghost ws = word_seqs(words@);
    let ghost cs = counts@;
    let n = words.len();
    if counts.len() != n {
        return None;
    }
    let mut i: usize = 0;
    while i < n
        invariant
            n == words@.len(),
            n == counts@.len(),
            ws == word_seqs(words@),
            cs == counts@,
            i <= n,
            forall|w: int| 0 <= w < i ==> cs[w] > 0,
            forall|w: int, k: int|
                0 <= w < i && 0 <= k < ws[w].len() ==> (#[trigger] ws[w][k]) < BASE_TOKENS,
        decreases n - i,
    {
        if counts[i] <= 0 {
            return None;
        }
        let word = &words[i];
        let mut k: usize = 0;
        while k < word.ids.len()
            invariant
                i < n,
                n == words@.len(),
                ws == word_seqs(words@),
                word == &words@[i as int],
                k <= word.ids@.len(),
                forall|j: int| 0 <= j < k ==> word.ids@[j] < BASE_TOKENS,
            decreases word.ids@.len() - k,
        {
            if word.ids[k] >= BASE_TOKENS {
                proof {
                    assert(ws[i as int][k as int] >= BASE_TOKENS);
                }
                return None;
            }
            k += 1;
        }
        proof {
            assert(ws[i as int] == word.ids@);
        }
        i += 1;
    }
    assert(counts_positive(ws, cs));
    assert(ids_below(ws, BASE_TOKENS as int));
    let mut total: u64 = 0;
    let mut j: usize = 0;
    while j < n
        invariant
            n == words@.len(),
            n == counts@.len(),
            ws == word_seqs(words@),
            cs == counts@,
            counts_positive(ws, cs),
            j <= n,
            total == corpus_upto(ws, cs, j as nat),
            total <= WEIGHT_LIMIT,
        decreases n - j,
    {
        let len = words[j].ids.len();
        let c = counts[j];
        proof {
            assert(ws[j as int].len() == len);
            lemma_weight_bounds(ws, cs, (0u32, 0u32), (j + 1) as nat, n as nat);
        }
        if len as u64 > WEIGHT_LIMIT {
            proof {
                let cc = c as int;
                let l = len as int;
                assert(cc * l >= l) by (nonlinear_arith)
                    requires
                        cc >= 1,
                        l >= 0,
                ;
            }
            return None;
        }
        let term: u128 = {
            proof {
                let cc = c as int;
                let l = len as int;
                assert(0 <= cc * l <= 0x7fff_ffff * 0x1000_0000_0000_0000) by (nonlinear_arith)
                    requires
                        0 <= cc <= 0x7fff_ffff,
                        0 <= l <= 0x1000_0000_0000_0000,
                ;
            }
            (c as u128) * (len as u128)
        };
        if term > (WEIGHT_LIMIT - total) as u128 {
            return None;
        }
        total = total + term as u64;
        j += 1;
    }
    Some(total)
}

/// Learns merges from the words and their counts until the vocabulary has
/// `vocab_size` tokens or no pair is left to merge. Each step merges the pair
/// with the highest weighted count, and of the pairs with that count the one
/// that comes first.
pub fn train_core(words: Vec<Word>, counts: Vec<i32>, vocab_size: u32) -> (table: MergeTable)
    requires
        vocab_size >= BASE_TOKENS,
        trainable(word_seqs(words@), counts@),
    ensures
        table.wf(),
        table@ == learned(
            word_seqs(words@),
            counts@,
            BASE_TOKENS,
            (vocab_size - BASE_TOKENS) as nat,
        ),
        table@.len() <= vocab_size - BASE_TOKENS,
{
    let counted = count_pairs(&words, &counts);
    train_with(words, counts, counted.0, counted.1, vocab_size)
}

/// Learns merges from a scanned corpus, as `train_core` does from its words
/// and counts.
pub fn train_corpus(corpus: Corpus, vocab_size: u32) -> (table: MergeTable)
    requires
        vocab_size >= BASE_TOKENS,
        corpus.wf(),
    ensures
        table.wf(),
        table@ == learned(
            corpus.words(),
            corpus.counts(),
            BASE_TOKENS,
            (vocab_size - BASE_TOKENS) as nat,
        ),
        table@.len() <= vocab_size - BASE_TOKENS,
{
    let parts = corpus.into_parts();
    train_with(parts.0, parts.1, parts.2, parts.3, vocab_size)
}

/// The training loop, from the words, their counts and the statistics of the
/// words.
fn train_with(
    words: Vec<Word>,
    counts: Vec<i32>,
    stats: PairStats,
    seed: PositionTable,
    vocab_size: u32,
) -> (table: MergeTable)
    requires
        vocab_size >= BASE_TOKENS,
        trainable(word_seqs(words@), counts@),
        stats.wf(),
        seed.wf(),
        forall|p: Pair| stats.count_of(p) == weight(word_seqs(words@), counts@, p),
        forall|p: Pair| seed.positions(p) == occupied(word_seqs(words@), counts@, p),
    ensures
        table.wf(),
        table@ == learned(
            word_seqs(words@),
            counts@,
            BASE_TOKENS,
            (vocab_size - BASE_TOKENS) as nat,
        ),
        table@.len() <= vocab_size - BASE_TOKENS,
{
    let ghost ws0 = word_seqs(words@);
    let ghost cs = counts@;
    let num: u32 = vocab_size - BASE_TOKENS;
    let mut words = words;
    let n = words.len();
    let mut stats = stats;
    let mut queue = Scheduler::new();
    proof {
        assert(queue_sound(queue.queued(), ws0, cs, BASE_TOKENS as int));
        assert forall|r: Pair|
            #![trigger seed.listed(r)]
            seed.listed(r) && weight(ws0, cs, r) > 0 implies r.0 < BASE_TOKENS && r.1
            < BASE_TOKENS by {
            let w = lemma_weight_witness(ws0, cs, r, ws0.len());
            let k = lemma_occurrence_ids(ws0[w], r);
            assert(ws0[w][k] < BASE_TOKENS);
            assert(ws0[w][k + 1] < BASE_TOKENS);
        }
        assert forall|r: Pair|
            #![trigger seed.listed(r)]
            !seed.listed(r) implies covered(queue.queued(), ws0, cs, r) by {
            if weight(ws0, cs, r) > 0 {
                let w = lemma_weight_witness(ws0, cs, r, ws0.len());
                seed.lemma_unlisted(r);
                assert(ws0.len() == n);
                let wu = w as usize;
                assert(wu as int == w);
                assert(occupied(ws0, cs, r).contains(wu));
            }
        }
        assert forall|r: Pair, w: usize|
            #![trigger seed.positions(r).contains(w)]
            seed.listed(r) && w < ws0.len() && occurrences(ws0[w as int], r) > 0 implies seed.positions(
            r,
        ).contains(w) by {
            assert(occupied(ws0, cs, r).contains(w));
        }
    }
    enqueue(&mut queue, &stats, seed, Ghost(ws0), Ghost(cs), Ghost(BASE_TOKENS as int));
    let mut table = MergeTable::new();
    let mut k: u32 = 0;
    let mut done = false;
    proof {
        assert(table@ + learned(ws0, cs, BASE_TOKENS, num as nat) =~= learned(
            ws0,
            cs,
            BASE_TOKENS,
            num as nat,
        ));
    }
    while k < num && !done
        invariant
            num == vocab_size - BASE_TOKENS,
            cs == counts@,
            k <= num,
            counts_positive(word_seqs(words@), cs),
            corpus_size(word_seqs(words@), cs) <= WEIGHT_LIMIT,
            ids_below(word_seqs(words@), BASE_TOKENS + k),
            stats.wf(),
            forall|q: Pair| stats.count_of(q) == weight(word_seqs(words@), cs, q),
            queue.wf(),
            queue_sound(queue.queued(), word_seqs(words@), cs, BASE_TOKENS + k),
            forall|r: Pair| covered(queue.queued(), word_seqs(words@), cs, r),
            table.wf(),
            table@.len() == k,
            forall|i: int| 0 <= i < k ==> weight(word_seqs(words@), cs, #[trigger] table@[i]) <= 0,
            learned(ws0, cs, BASE_TOKENS, num as nat) == table@ + learned(
                word_seqs(words@),
                cs,
                (BASE_TOKENS + k) as u32,
                (num - k) as nat,
            ),
            done ==> exhausted(word_seqs(words@), cs),
        decreases
                num - k,
                if done {
                    0nat
                } else {
                    backlog(queue.queued()) + 1
                },
    {
        let ghost ws = word_seqs(words@);
        let ghost jobs = queue.queued();
        match queue.pop() {
            None => {
                done = true;
                proof {
                    assert forall|q: Pair| #[trigger] weight(ws, cs, q) <= 0 by {
                        assert(covered(jobs, ws, cs, q));
                    }
                }
            },
            Some(job) => {
                let ghost i = choose|i: int|
                    0 <= i < jobs.len() && #[trigger] jobs[i] == job@ && queue.queued()
                        == jobs.remove(i);
                let ghost rest = jobs.remove(i);
                proof {
                    assert(job_sound(jobs[i], ws, cs, BASE_TOKENS + k));
                    lemma_sound_remove(jobs, i, ws, cs, BASE_TOKENS + k);
                    lemma_backlog_remove(jobs, i);
                }
                let current = stats.get(job.pair);
                match judge(job.count, current) {
                    Verdict::Discard => {
                        proof {
                            assert forall|r: Pair| covered(rest, ws, cs, r) by {
                                if weight(ws, cs, r) > 0 {
                                    assert(covered(jobs, ws, cs, r));
                                    lemma_has_job_remove(jobs, i, r);
                                }
                            }
                        }
                    },
                    Verdict::Requeue => {
                        let refreshed = MergeJob {
                            pair: job.pair,
                            count: current as u64,
                            pos: job.pos,
                        };
                        proof {
                            assert(current > 0);
                            assert(refreshed@.count == current);
                            assert(refreshed@.pos == jobs[i].pos);
                            assert(refreshed@.pair == jobs[i].pair);
                            assert(refreshed@.count >= weight(ws, cs, refreshed@.pair));
                            assert(job_sound(refreshed@, ws, cs, BASE_TOKENS + k));
                            lemma_sound_push(rest, refreshed@, ws, cs, BASE_TOKENS + k);
                            lemma_backlog_push(rest, refreshed@);
                            assert forall|r: Pair| covered(rest.push(refreshed@), ws, cs, r) by {
                                if weight(ws, cs, r) > 0 {
                                    assert(covered(jobs, ws, cs, r));
                                    if r != job.pair {
                                        lemma_has_job_remove(jobs, i, r);
                                    }
                                    lemma_has_job_push(rest, refreshed@, r);
                                }
                            }
                        }
                        queue.push(refreshed);
                    },
                    Verdict::Accept => {
                        let new_id: u32 = BASE_TOKENS + k;
                        let pair = job.pair;
                        proof {
                            lemma_accept_best(jobs, i, ws, cs, BASE_TOKENS + k);
                            lemma_learned_step(ws, cs, new_id, (num - k) as nat, pair);
                            let grown = table@.push(pair);
                            assert forall|a: int, b: int|
                                0 <= a < grown.len() && 0 <= b < grown.len() && a != b implies grown[a]
                                != grown[b] by {
                                table.lemma_valid();
                                if a < k && b < k {
                                } else if a < k {
                                    assert(weight(ws, cs, table@[a]) <= 0);
                                } else {
                                    assert(weight(ws, cs, table@[b]) <= 0);
                                }
                            }
                            table.lemma_valid();
                            assert(merges_valid(grown));
                        }
                        let ghost old_table = table@;
                        let id = table.insert(pair);
                        let pos = set_to_vec(&job.pos);
                        proof {
                            assert forall|w: usize|
                                w < words@.len() && occurrences(ws[w as int], pair) > 0 implies pos@.contains(
                                w,
                            ) by {
                                assert(job@.pos.contains(w));
                            }
                            assert forall|t: int| 0 <= t < pos@.len() implies pos@[t] < words@.len() by {
                                assert(pos@.contains(pos@[t]));
                                assert(job@.pos.contains(pos@[t]));
                            }
                        }
                        let fresh = apply_merge(&mut words, &counts, &mut stats, pair, new_id, &pos);
                        let ghost after = word_seqs(words@);
                        proof {
                            lemma_after_merge(jobs, i, ws, cs, new_id);
                            assert forall|r: Pair|
                                #![trigger fresh.listed(r)]
                                !fresh.listed(r) implies covered(rest, after, cs, r) by {
                                if holds_id(r, new_id) {
                                    if weight(after, cs, r) > 0 {
                                        let w = lemma_weight_witness(after, cs, r, after.len());
                                        fresh.lemma_unlisted(r);
                                        assert(after.len() == words@.len());
                                        let wu = w as usize;
                                        assert(wu as int == w);
                                        assert(fresh.positions(r).contains(wu));
                                    }
                                }
                            }
                            assert forall|x: int| 0 <= x < k + 1 implies weight(
                                after,
                                cs,
                                #[trigger] table@[x],
                            ) <= 0 by {
                                let t = table@[x];
                                if x < k {
                                    assert(t == old_table[x]);
                                    assert(weight(ws, cs, old_table[x]) <= 0);
                                    assert(t.0 < BASE_TOKENS + x && t.1 < BASE_TOKENS + x) by {
                                        table.lemma_valid();
                                    }
                                }
                                lemma_merge_all_weights(ws, cs, pair, new_id, t);
                            }
                            assert(old_table + (seq![pair] + learned(
                                after,
                                cs,
                                (new_id + 1) as u32,
                                (num - k - 1) as nat,
                            )) =~= table@ + learned(
                                after,
                                cs,
                                (new_id + 1) as u32,
                                (num - k - 1) as nat,
                            ));
                        }
                        enqueue(
                            &mut queue,
                            &stats,
                            fresh,
                            Ghost(after),
                            Ghost(cs),
                            Ghost(new_id + 1),
                        );
                        k += 1;
                    },
                }
            },
        }
    }
    proof {
        let ws = word_seqs(words@);
        assert(learned(ws, cs, (BASE_TOKENS + k) as u32, (num - k) as nat) =~= Seq::<Pair>::empty());
        assert(table@ + Seq::<Pair>::empty() =~= table@);
    }
    table
}

} // verus!
