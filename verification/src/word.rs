//! A word: the token ids of one unique corpus chunk, and the in-place merge of a pair.

use vstd::prelude::*;

verus! {

/// An ordered pair of token ids, `(left, right)`.
pub type Pair = (u32, u32);

/// One entry of a merge's bookkeeping: a pair and the change of its occurrence count.
pub type Delta = (Pair, i32);

/// The number of indices `j < n` at which `p` stands in `s`, that is
/// `s[j] == p.0` and `s[j + 1] == p.1`.
pub open spec fn occurrences_upto(s: Seq<u32>, p: Pair, n: nat) -> nat
    decreases n,
{
    if n == 0 {
        0
    } else {
        let j = (n - 1) as int;
        occurrences_upto(s, p, (n - 1) as nat) + if j + 1 < s.len() && s[j] == p.0 && s[j + 1]
            == p.1 {
            1nat
        } else {
            0nat
        }
    }
}

/// The number of adjacent positions of `s` at which `p` stands. Overlapping
/// occurrences all count: `(x, x)` stands twice in `[x, x, x]`.
pub open spec fn occurrences(s: Seq<u32>, p: Pair) -> nat {
    occurrences_upto(s, p, s.len())
}

/// The adjacent pairs of `s`, left to right; empty when `s` has fewer than two ids.
pub open spec fn adjacent_pairs(s: Seq<u32>) -> Seq<Pair> {
    Seq::new(
        if s.len() >= 2 {
            (s.len() - 1) as nat
        } else {
            0nat
        },
        |j: int| (s[j], s[j + 1]),
    )
}

/// `s` after one left-to-right pass that replaces each occurrence of `p` by
/// `new_id` and then continues behind the replaced pair, so that replacements
/// never overlap.
pub open spec fn merged(s: Seq<u32>, p: Pair, new_id: u32) -> Seq<u32>
    decreases s.len(),
{
    if s.len() < 2 {
        s
    } else if s[0] == p.0 && s[1] == p.1 {
        seq![new_id] + merged(s.skip(2), p, new_id)
    } else {
        seq![s[0]] + merged(s.skip(1), p, new_id)
    }
}

/// The bookkeeping of one merge site: `left` is the id that stands before the
/// site in the output so far, `right` the id that follows the site in the input.
pub open spec fn site_deltas(left: Option<u32>, right: Option<u32>, p: Pair, new_id: u32) -> Seq<
    Delta,
> {
    let before: Seq<Delta> = match left {
        Some(x) => seq![((x, p.0), -1i32), ((x, new_id), 1i32)],
        None => seq![],
    };
    let after: Seq<Delta> = match right {
        Some(y) => seq![((p.1, y), -1i32), ((new_id, y), 1i32)],
        None => seq![],
    };
    before + seq![(p, -1i32)] + after
}

/// The id that follows a merge site at the front of `s`, if any.
pub open spec fn right_neighbor(s: Seq<u32>) -> Option<u32> {
    if s.len() > 2 {
        Some(s[2])
    } else {
        None
    }
}

/// The bookkeeping of the whole pass over `s`, site by site, where `left` is the
/// id that the output ends with before `s` is scanned.
pub open spec fn merge_deltas(left: Option<u32>, s: Seq<u32>, p: Pair, new_id: u32) -> Seq<Delta>
    decreases s.len(),
{
    if s.len() < 2 {
        seq![]
    } else if s[0] == p.0 && s[1] == p.1 {
        site_deltas(left, right_neighbor(s), p, new_id) + merge_deltas(
            Some(new_id),
            s.skip(2),
            p,
            new_id,
        )
    } else {
        merge_deltas(Some(s[0]), s.skip(1), p, new_id)
    }
}

/// The sum of the changes that `d` records for the pair `q`.
pub open spec fn net_change(d: Seq<Delta>, q: Pair) -> int
    decreases d.len(),
{
    if d.len() == 0 {
        0
    } else {
        net_change(d.drop_last(), q) + if d.last().0 == q {
            d.last().1 as int
        } else {
            0
        }
    }
}

/// `s` with `left` put in front of it, where there is one.
pub open spec fn with_left(left: Option<u32>, s: Seq<u32>) -> Seq<u32> {
    match left {
        Some(x) => seq![x] + s,
        None => s,
    }
}

/// `1` where `p` stands at the front of `s`, else `0`.
pub open spec fn stands_at_front(s: Seq<u32>, p: Pair) -> nat {
    if s.len() >= 2 && s[0] == p.0 && s[1] == p.1 {
        1
    } else {
        0
    }
}

proof fn lemma_upto_shift(x: u32, t: Seq<u32>, p: Pair, n: nat)
    requires
        t.len() >= 1,
    ensures
        occurrences_upto(seq![x] + t, p, n + 1) == stands_at_front(seq![x] + t, p)
            + occurrences_upto(t, p, n),
    decreases n,
{
    let s = seq![x] + t;
    if n == 0 {
        assert(occurrences_upto(s, p, 0) == 0);
    } else {
        lemma_upto_shift(x, t, p, (n - 1) as nat);
        let j = n as int;
        if j + 1 < s.len() {
            assert(s[j] == t[j - 1]);
            assert(s[j + 1] == t[j]);
        }
    }
}

/// Counting from the front: the occurrences in `s` are the one at its front, if
/// any, and those in `s` without its first id.
pub proof fn lemma_occurrences_front(s: Seq<u32>, p: Pair)
    requires
        s.len() >= 1,
    ensures
        occurrences(s, p) == stands_at_front(s, p) + occurrences(s.skip(1), p),
{
    let t = s.skip(1);
    if t.len() == 0 {
        assert(occurrences_upto(s, p, 1) == occurrences_upto(s, p, 0));
        assert(occurrences_upto(s, p, 0) == 0);
        assert(occurrences_upto(t, p, 0) == 0);
    } else {
        assert(s =~= seq![s[0]] + t);
        lemma_upto_shift(s[0], t, p, t.len());
    }
}

/// The net change of a concatenation is the sum of the parts' net changes.
pub proof fn lemma_net_change_concat(a: Seq<Delta>, b: Seq<Delta>, q: Pair)
    ensures
        net_change(a + b, q) == net_change(a, q) + net_change(b, q),
    decreases b.len(),
{
    if b.len() == 0 {
        assert(a + b =~= a);
    } else {
        assert((a + b).drop_last() =~= a + b.drop_last());
        lemma_net_change_concat(a, b.drop_last(), q);
    }
}

/// `1` where the two ids form `q`, else `0`.
pub open spec fn is_pair(x: u32, y: u32, q: Pair) -> int {
    if x == q.0 && y == q.1 {
        1
    } else {
        0
    }
}

proof fn lemma_net_change_site(left: Option<u32>, right: Option<u32>, p: Pair, new_id: u32, q: Pair)
    ensures
        net_change(site_deltas(left, right, p, new_id), q) == (match left {
            Some(x) => is_pair(x, new_id, q) - is_pair(x, p.0, q),
            None => 0,
        }) - is_pair(p.0, p.1, q) + (match right {
            Some(y) => is_pair(new_id, y, q) - is_pair(p.1, y, q),
            None => 0,
        }),
{
    let before: Seq<Delta> = match left {
        Some(x) => seq![((x, p.0), -1i32), ((x, new_id), 1i32)],
        None => seq![],
    };
    let after: Seq<Delta> = match right {
        Some(y) => seq![((p.1, y), -1i32), ((new_id, y), 1i32)],
        None => seq![],
    };
    let mid: Seq<Delta> = seq![(p, -1i32)];
    lemma_net_change_concat(before + mid, after, q);
    lemma_net_change_concat(before, mid, q);
    reveal_with_fuel(net_change, 3);
    assert(mid.drop_last() =~= Seq::<Delta>::empty());
    match left {
        Some(x) => {
            assert(before.drop_last() =~= seq![((x, p.0), -1i32)]);
            assert(before.drop_last().drop_last() =~= Seq::<Delta>::empty());
        },
        None => {},
    }
    match right {
        Some(y) => {
            assert(after.drop_last() =~= seq![((p.1, y), -1i32)]);
            assert(after.drop_last().drop_last() =~= Seq::<Delta>::empty());
        },
        None => {},
    }
}

proof fn lemma_occurrences_with_left(left: Option<u32>, s: Seq<u32>, q: Pair)
    ensures
        occurrences(with_left(left, s), q) == occurrences(s, q) + (match left {
            Some(x) => if s.len() >= 1 {
                is_pair(x, s[0], q)
            } else {
                0
            },
            None => 0,
        }),
{
    match left {
        Some(x) => {
            let t = seq![x] + s;
            lemma_occurrences_front(t, q);
            assert(t.skip(1) =~= s);
        },
        None => {},
    }
}

/// The bookkeeping is exact: for every pair `q`, the changes that one pass
/// records for `q` add up to the difference of its occurrence counts after and
/// before the pass, the id to the left of the scanned part included.
pub proof fn lemma_merge_deltas_exact(
    left: Option<u32>,
    s: Seq<u32>,
    p: Pair,
    new_id: u32,
    q: Pair,
)
    ensures
        net_change(merge_deltas(left, s, p, new_id), q) == occurrences(
            with_left(left, merged(s, p, new_id)),
            q,
        ) - occurrences(with_left(left, s), q),
    decreases s.len(),
{
    let m = merged(s, p, new_id);
    lemma_occurrences_with_left(left, m, q);
    lemma_occurrences_with_left(left, s, q);
    if s.len() < 2 {
    } else if s[0] == p.0 && s[1] == p.1 {
        let rest = s.skip(2);
        let mr = merged(rest, p, new_id);
        let site = site_deltas(left, right_neighbor(s), p, new_id);
        lemma_merge_deltas_exact(Some(new_id), rest, p, new_id, q);
        lemma_net_change_concat(site, merge_deltas(Some(new_id), rest, p, new_id), q);
        lemma_net_change_site(left, right_neighbor(s), p, new_id, q);
        lemma_occurrences_with_left(Some(new_id), mr, q);
        lemma_occurrences_with_left(Some(new_id), rest, q);
        assert(m =~= seq![new_id] + mr);
        assert(with_left(Some(new_id), mr) =~= m);
        // the input, unfolded twice from the front
        lemma_occurrences_front(s, q);
        let s1 = s.skip(1);
        lemma_occurrences_front(s1, q);
        assert(s1.skip(1) =~= rest);
        lemma_merged_front(rest, p, new_id);
        if rest.len() >= 1 {
            assert(s1[1] == rest[0]);
            assert(s[2] == rest[0]);
        }
    } else {
        let rest = s.skip(1);
        let mr = merged(rest, p, new_id);
        lemma_merge_deltas_exact(Some(s[0]), rest, p, new_id, q);
        lemma_occurrences_with_left(Some(s[0]), mr, q);
        lemma_occurrences_with_left(Some(s[0]), rest, q);
        assert(m =~= seq![s[0]] + mr);
        assert(with_left(Some(s[0]), mr) =~= m);
        assert(with_left(Some(s[0]), rest) =~= s);
    }
}

/// A pass keeps a word non-empty, never lengthens it, and its output begins
/// with `new_id` where a merge site stands at the front and with the input's
/// first id otherwise.
pub proof fn lemma_merged_front(s: Seq<u32>, p: Pair, new_id: u32)
    ensures
        merged(s, p, new_id).len() <= s.len(),
        s.len() >= 1 ==> merged(s, p, new_id).len() >= 1,
        s.len() >= 1 ==> merged(s, p, new_id)[0] == if stands_at_front(s, p) == 1 {
            new_id
        } else {
            s[0]
        },
    decreases s.len(),
{
    if s.len() < 2 {
    } else if s[0] == p.0 && s[1] == p.1 {
        lemma_merged_front(s.skip(2), p, new_id);
    } else {
        lemma_merged_front(s.skip(1), p, new_id);
    }
}

/// Merging a pair that does not occur changes nothing and records nothing.
pub proof fn lemma_absent_pair_is_noop(left: Option<u32>, s: Seq<u32>, p: Pair, new_id: u32)
    requires
        occurrences(s, p) == 0,
    ensures
        merged(s, p, new_id) == s,
        merge_deltas(left, s, p, new_id) == Seq::<Delta>::empty(),
    decreases s.len(),
{
    if s.len() >= 2 {
        lemma_occurrences_front(s, p);
        let rest = s.skip(1);
        lemma_absent_pair_is_noop(Some(s[0]), rest, p, new_id);
        assert(seq![s[0]] + rest =~= s);
    }
}

/// One pass misses no merge: where `new_id` is neither id of `p`, `p` does not
/// occur in the output.
pub proof fn lemma_merged_has_no_pair(s: Seq<u32>, p: Pair, new_id: u32)
    requires
        new_id != p.0,
        new_id != p.1,
    ensures
        occurrences(merged(s, p, new_id), p) == 0,
    decreases s.len(),
{
    let m = merged(s, p, new_id);
    if s.len() < 2 {
        if s.len() == 1 {
            lemma_occurrences_front(s, p);
        }
        assert(occurrences_upto(s, p, 0) == 0);
    } else if s[0] == p.0 && s[1] == p.1 {
        let rest = s.skip(2);
        lemma_merged_has_no_pair(rest, p, new_id);
        lemma_occurrences_front(m, p);
        assert(m.skip(1) =~= merged(rest, p, new_id));
    } else {
        let rest = s.skip(1);
        lemma_merged_has_no_pair(rest, p, new_id);
        lemma_merged_front(rest, p, new_id);
        lemma_occurrences_front(m, p);
        assert(m.skip(1) =~= merged(rest, p, new_id));
        assert(rest[0] == s[1]);
    }
}

/// Every id of the output is `new_id` or an id below the bound that holds of
/// the input.
pub proof fn lemma_merged_ids_bounded(s: Seq<u32>, p: Pair, new_id: u32, bound: int)
    requires
        forall|k: int| 0 <= k < s.len() ==> s[k] < bound,
    ensures
        forall|j: int|
            0 <= j < merged(s, p, new_id).len() ==> #[trigger] merged(s, p, new_id)[j] < bound
                || merged(s, p, new_id)[j] == new_id,
    decreases s.len(),
{
    if s.len() < 2 {
    } else if s[0] == p.0 && s[1] == p.1 {
        lemma_merged_ids_bounded(s.skip(2), p, new_id, bound);
        let mr = merged(s.skip(2), p, new_id);
        assert forall|j: int| 0 <= j < merged(s, p, new_id).len() implies #[trigger] merged(
            s,
            p,
            new_id,
        )[j] < bound || merged(s, p, new_id)[j] == new_id by {
            if j > 0 {
                assert(merged(s, p, new_id)[j] == mr[j - 1]);
            }
        }
    } else {
        lemma_merged_ids_bounded(s.skip(1), p, new_id, bound);
        let mr = merged(s.skip(1), p, new_id);
        assert forall|j: int| 0 <= j < merged(s, p, new_id).len() implies #[trigger] merged(
            s,
            p,
            new_id,
        )[j] < bound || merged(s, p, new_id)[j] == new_id by {
            if j > 0 {
                assert(merged(s, p, new_id)[j] == mr[j - 1]);
            }
        }
    }
}

/// The shape of the bookkeeping: at most three entries for each id of the
/// input, every change `-1` or `+1`, every pair that comes holds `new_id`, and
/// every id of a recorded pair is below a bound that holds of `left`, of the
/// input and of `new_id`.
pub proof fn lemma_merge_deltas_shape(
    left: Option<u32>,
    s: Seq<u32>,
    p: Pair,
    new_id: u32,
    bound: int,
)
    requires
        left matches Some(x) ==> x < bound,
        forall|k: int| 0 <= k < s.len() ==> s[k] < bound,
        new_id < bound,
    ensures
        merge_deltas(left, s, p, new_id).len() <= 3 * s.len(),
        forall|j: int|
            #![trigger merge_deltas(left, s, p, new_id)[j]]
            0 <= j < merge_deltas(left, s, p, new_id).len() ==> {
                let d = merge_deltas(left, s, p, new_id)[j];
                &&& d.1 == 1 || d.1 == -1
                &&& d.1 == 1 ==> d.0.0 == new_id || d.0.1 == new_id
                &&& d.0.0 < bound
                &&& d.0.1 < bound
            },
    decreases s.len(),
{
    if s.len() < 2 {
    } else if s[0] == p.0 && s[1] == p.1 {
        let rest = s.skip(2);
        let site = site_deltas(left, right_neighbor(s), p, new_id);
        let tail = merge_deltas(Some(new_id), rest, p, new_id);
        lemma_merge_deltas_shape(Some(new_id), rest, p, new_id, bound);
        assert(site.len() <= 5);
        assert forall|j: int| 0 <= j < site.len() implies {
            let d = #[trigger] site[j];
            &&& d.1 == 1 || d.1 == -1
            &&& d.1 == 1 ==> d.0.0 == new_id || d.0.1 == new_id
            &&& d.0.0 < bound
            &&& d.0.1 < bound
        } by {
            let before: Seq<Delta> = match left {
                Some(x) => seq![((x, p.0), -1i32), ((x, new_id), 1i32)],
                None => seq![],
            };
            let after: Seq<Delta> = match right_neighbor(s) {
                Some(y) => seq![((p.1, y), -1i32), ((new_id, y), 1i32)],
                None => seq![],
            };
            let mid: Seq<Delta> = seq![(p, -1i32)];
            assert(site == before + mid + after);
            if j < before.len() {
                assert(site[j] == before[j]);
            } else if j < before.len() + 1 {
                assert(site[j] == mid[0]);
            } else {
                assert(site[j] == after[j - before.len() - 1]);
            }
        }
        assert forall|j: int|
            #![trigger merge_deltas(left, s, p, new_id)[j]]
            0 <= j < merge_deltas(left, s, p, new_id).len() implies {
            let d = merge_deltas(left, s, p, new_id)[j];
            &&& d.1 == 1 || d.1 == -1
            &&& d.1 == 1 ==> d.0.0 == new_id || d.0.1 == new_id
            &&& d.0.0 < bound
            &&& d.0.1 < bound
        } by {
            if j < site.len() {
                assert(merge_deltas(left, s, p, new_id)[j] == site[j]);
            } else {
                assert(merge_deltas(left, s, p, new_id)[j] == tail[j - site.len()]);
            }
        }
    } else {
        lemma_merge_deltas_shape(Some(s[0]), s.skip(1), p, new_id, bound);
    }
}

/// A mutable sequence of token ids that stands for one unique corpus chunk.
#[derive(Clone, Debug)]
pub struct Word {
    pub ids: Vec<u32>,
}

impl View for Word {
    type V = Seq<u32>;

    open spec fn view(&self) -> Seq<u32> {
        self.ids@
    }
}

impl Word {
    /// A word that holds `ids`.
    pub fn new(ids: Vec<u32>) -> (word: Word)
        ensures
            word@ == ids@,
    {
        Word { ids }
    }

    /// The adjacent pairs of the word, left to right.
    pub fn pairs(&self) -> (out: Vec<Pair>)
        ensures
            out@ == adjacent_pairs(self@),
    {
        let mut out: Vec<Pair> = Vec::new();
        let n = self.ids.len();
        if n < 2 {
            return out;
        }
        let mut i: usize = 0;
        while i + 1 < n
            invariant
                n == self.ids.len(),
                n >= 2,
                i + 1 <= n,
                out@.len() == i,
                forall|j: int| 0 <= j < i ==> out@[j] == (self.ids@[j], self.ids@[j + 1]),
            decreases n - i,
        {
            out.push((self.ids[i], self.ids[i + 1]));
            i += 1;
        }
        assert(out@ =~= adjacent_pairs(self@));
        out
    }

    /// Replaces every non-overlapping occurrence of `pair`, found left to
    /// right, by `new_id`, and returns what this does to the pair counts of this
    /// word: `-1` for each adjacent pair that goes, `+1` for each that comes.
    pub fn merge_pair(&mut self, pair: Pair, new_id: u32) -> (deltas: Vec<Delta>)
        ensures
            final(self)@ == merged(old(self)@, pair, new_id),
            deltas@ == merge_deltas(None, old(self)@, pair, new_id),
    {
        let n = self.ids.len();
        let mut deltas: Vec<Delta> = Vec::new();
        if n < 2 {
            return deltas;
        }
        let mut out: Vec<u32> = Vec::new();
        let ghost src = self.ids@;
        let mut i: usize = 0;
        proof {
            assert(src.skip(0) =~= src);
            assert(out@ + merged(src, pair, new_id) =~= merged(src, pair, new_id));
            assert(deltas@ + merge_deltas(None, src, pair, new_id) =~= merge_deltas(
                None,
                src,
                pair,
                new_id,
            ));
        }
        while i < n
            invariant
                n == self.ids.len(),
                src == self.ids@,
                i <= n,
                out@.len() <= i,
                i > 0 ==> out@.len() > 0,
                merged(src, pair, new_id) == out@ + merged(src.skip(i as int), pair, new_id),
                merge_deltas(None, src, pair, new_id) == deltas@ + merge_deltas(
                    if out@.len() > 0 {
                        Some(out@.last())
                    } else {
                        None
                    },
                    src.skip(i as int),
                    pair,
                    new_id,
                ),
            decreases n - i,
        {
            let ghost rest = src.skip(i as int);
            let ghost left: Option<u32> = if out@.len() > 0 {
                Some(out@.last())
            } else {
                None
            };
            if i + 1 < n && self.ids[i] == pair.0 && self.ids[i + 1] == pair.1 {
                let ghost before = deltas@;
                if out.len() > 0 {
                    let x = out[out.len() - 1];
                    deltas.push(((x, pair.0), -1));
                    deltas.push(((x, new_id), 1));
                }
                deltas.push((pair, -1));
                if i + 2 < n {
                    let y = self.ids[i + 2];
                    deltas.push(((pair.1, y), -1));
                    deltas.push(((new_id, y), 1));
                }
                proof {
                    assert(rest.skip(2) =~= src.skip(i + 2));
                    assert(deltas@ =~= before + site_deltas(
                        left,
                        right_neighbor(rest),
                        pair,
                        new_id,
                    ));
                    assert(out@.push(new_id) + merged(src.skip(i + 2), pair, new_id) =~= out@ + (
                    seq![new_id] + merged(rest.skip(2), pair, new_id)));
                }
                out.push(new_id);
                i += 2;
            } else {
                proof {
                    assert(rest.skip(1) =~= src.skip(i + 1));
                    if rest.len() >= 2 {
                        assert(out@.push(rest[0]) + merged(src.skip(i + 1), pair, new_id) =~= out@
                            + (seq![rest[0]] + merged(rest.skip(1), pair, new_id)));
                    } else {
                        assert(rest.len() == 1);
                        assert(merged(src.skip(i + 1), pair, new_id) =~= Seq::<u32>::empty());
                        assert(out@.push(rest[0]) + merged(src.skip(i + 1), pair, new_id) =~= out@
                            + rest);
                    }
                }
                out.push(self.ids[i]);
                i += 1;
            }
        }
        proof {
            assert(src.skip(n as int) =~= Seq::<u32>::empty());
            assert(out@ + Seq::<u32>::empty() =~= out@);
            assert(deltas@ + Seq::<Delta>::empty() =~= deltas@);
        }
        self.ids = out;
        deltas
    }
}

} // verus!
