//! Hash tables keyed by pairs: the tables of `ahash` behind their contracts, and
//! the slot index that the pair statistics are built on.

use crate::word::Pair;
use ahash::AHashMap;
use ahash::AHashSet;
use ahash::RandomState;
use vstd::prelude::*;

verus! {

#[verifier::external_type_specification]
#[verifier::external_body]
pub struct ExRandomState(RandomState);

#[verifier::external_type_specification]
#[verifier::external_body]
#[verifier::reject_recursive_types(K)]
#[verifier::reject_recursive_types(V)]
#[verifier::reject_recursive_types(S)]
pub struct ExAHashMap<K, V, S>(AHashMap<K, V, S>);

#[verifier::external_type_specification]
#[verifier::external_body]
#[verifier::reject_recursive_types(T)]
#[verifier::reject_recursive_types(S)]
pub struct ExAHashSet<T, S>(AHashSet<T, S>);

/// The entries of a map from pairs to slots.
pub uninterp spec fn slot_entries(m: AHashMap<Pair, usize>) -> Map<Pair, usize>;

/// The word indices that a set holds.
pub uninterp spec fn index_set(s: AHashSet<usize>) -> Set<usize>;

/// `ahash::AHashMap::new`: a map without entries.
#[verifier::external_body]
pub(crate) fn slots_new() -> (m: AHashMap<Pair, usize>)
    ensures
        slot_entries(m).dom() == Set::<Pair>::empty(),
{
    AHashMap::new()
}

/// `ahash::AHashMap::get`: the slot stored under `pair`, if there is one.
#[verifier::external_body]
pub(crate) fn slots_get(m: &AHashMap<Pair, usize>, pair: Pair) -> (slot: Option<usize>)
    ensures
        slot == if slot_entries(*m).dom().contains(pair) {
            Some(slot_entries(*m)[pair])
        } else {
            None
        },
{
    m.get(&pair).copied()
}

/// `ahash::AHashMap::insert`: afterwards `pair` maps to `slot`, and every other
/// entry is as before.
#[verifier::external_body]
pub(crate) fn slots_insert(m: &mut AHashMap<Pair, usize>, pair: Pair, slot: usize)
    ensures
        slot_entries(*final(m)) == slot_entries(*old(m)).insert(pair, slot),
{
    m.insert(pair, slot);
}

/// `ahash::AHashSet::new`: a set without elements.
#[verifier::external_body]
pub(crate) fn set_new() -> (s: AHashSet<usize>)
    ensures
        index_set(s) == Set::<usize>::empty(),
{
    AHashSet::new()
}

/// `HashSet::insert` on an `ahash::AHashSet`: afterwards the set holds `index`
/// besides what it held.
#[verifier::external_body]
pub(crate) fn set_insert(s: &mut AHashSet<usize>, index: usize)
    ensures
        index_set(*final(s)) == index_set(*old(s)).insert(index),
{
    s.insert(index);
}

/// `HashSet::iter` on an `ahash::AHashSet`, collected: every element once, in
/// an order that is not specified.
#[verifier::external_body]
pub(crate) fn set_to_vec(s: &AHashSet<usize>) -> (v: Vec<usize>)
    ensures
        v@.no_duplicates(),
        forall|i: usize| v@.contains(i) <==> index_set(*s).contains(i),
{
    s.iter().copied().collect()
}

/// An interning table: each pair that was entered has one slot, numbered in
/// the order of entry.
pub struct PairIndex {
    slot_of: AHashMap<Pair, usize>,
    pairs: Vec<Pair>,
}

impl View for PairIndex {
    type V = Seq<Pair>;

    /// The pairs entered so far, by slot.
    closed spec fn view(&self) -> Seq<Pair> {
        self.pairs@
    }
}

impl PairIndex {
    /// The map and the list agree: a pair maps to the slot at which it is listed.
    pub closed spec fn wf(&self) -> bool {
        let m = slot_entries(self.slot_of);
        &&& forall|p: Pair| #[trigger]
            m.dom().contains(p) ==> m[p] < self.pairs@.len() && self.pairs@[m[p] as int] == p
        &&& forall|s: int|
            0 <= s < self.pairs@.len() ==> m.dom().contains(#[trigger] self.pairs@[s])
                && m[self.pairs@[s]] == s
    }

    /// The slot of `p`: the one index at which `p` is listed.
    pub open spec fn slot(&self, p: Pair) -> Option<int> {
        if self@.contains(p) {
            Some(self@.index_of(p))
        } else {
            None
        }
    }

    /// No pair is listed twice.
    pub proof fn lemma_distinct(&self)
        requires
            self.wf(),
        ensures
            self@.no_duplicates(),
            forall|s: int| 0 <= s < self@.len() ==> self.slot(#[trigger] self@[s]) == Some(s),
    {
        let m = slot_entries(self.slot_of);
        assert forall|i: int, j: int| 0 <= i < self@.len() && 0 <= j < self@.len() && i != j implies self@[i]
            != self@[j] by {
            assert(m[self.pairs@[i]] == i);
            assert(m[self.pairs@[j]] == j);
        }
        assert forall|s: int| 0 <= s < self@.len() implies self.slot(#[trigger] self@[s]) == Some(
            s,
        ) by {
            let p = self@[s];
            assert(self@.contains(p));
            let k = self@.index_of(p);
            assert(0 <= k < self@.len() && self@[k] == p);
        }
    }

    /// What `slot` says: the one listed position of `q`, or that `q` is not listed.
    pub proof fn lemma_slot(&self, q: Pair)
        requires
            self.wf(),
        ensures
            match self.slot(q) {
                Some(s) => 0 <= s < self@.len() && self@[s] == q,
                None => forall|s: int| 0 <= s < self@.len() ==> self@[s] != q,
            },
            forall|s: int| 0 <= s < self@.len() && self@[s] == q ==> self.slot(q) == Some(s),
    {
        self.lemma_distinct();
        if self@.contains(q) {
            let k = self@.index_of(q);
            assert(0 <= k < self@.len() && self@[k] == q);
        }
    }

    /// The list of pairs, by slot, of an index that is given up.
    pub fn into_pairs(self) -> (pairs: Vec<Pair>)
        ensures
            pairs@ == self@,
    {
        self.pairs
    }

    /// An index without pairs.
    pub fn new() -> (index: PairIndex)
        ensures
            index.wf(),
            index@ == Seq::<Pair>::empty(),
    {
        let index = PairIndex { slot_of: slots_new(), pairs: Vec::new() };
        assert(index@ =~= Seq::<Pair>::empty());
        index
    }

    /// The number of pairs entered.
    pub fn len(&self) -> (n: usize)
        ensures
            n == self@.len(),
    {
        self.pairs.len()
    }

    /// The pair at `slot`.
    pub fn pair_at(&self, slot: usize) -> (p: Pair)
        requires
            slot < self@.len(),
        ensures
            p == self@[slot as int],
    {
        self.pairs[slot]
    }

    /// The slot of `pair`, or `None` where it was never entered.
    pub fn find(&self, pair: Pair) -> (slot: Option<usize>)
        requires
            self.wf(),
        ensures
            match slot {
                Some(s) => s < self@.len() && self@[s as int] == pair && self.slot(pair) == Some(
                    s as int,
                ),
                None => !self@.contains(pair) && self.slot(pair).is_none(),
            },
    {
        let r = slots_get(&self.slot_of, pair);
        proof {
            self.lemma_distinct();
            match r {
                Some(s) => {},
                None => {
                    if self@.contains(pair) {
                        let k = self@.index_of(pair);
                        assert(self.pairs@[k] == pair);
                    }
                },
            }
        }
        r
    }

    /// The slot of `pair`, which is entered at the end where it is new.
    pub fn intern(&mut self, pair: Pair) -> (slot: usize)
        requires
            old(self).wf(),
        ensures
            final(self).wf(),
            final(self)@.len() > slot,
            final(self)@[slot as int] == pair,
            final(self).slot(pair) == Some(slot as int),
            old(self)@.contains(pair) ==> final(self)@ == old(self)@,
            !old(self)@.contains(pair) ==> final(self)@ == old(self)@.push(pair) && slot == old(
                self,
            )@.len(),
    {
        match self.find(pair) {
            Some(s) => s,
            None => {
                let s = self.pairs.len();
                slots_insert(&mut self.slot_of, pair, s);
                self.pairs.push(pair);
                proof {
                    let m = slot_entries(self.slot_of);
                    assert forall|t: int| 0 <= t < self.pairs@.len() implies m.dom().contains(
                        #[trigger] self.pairs@[t],
                    ) && m[self.pairs@[t]] == t by {
                        if t < s {
                            assert(self.pairs@[t] == old(self).pairs@[t]);
                            assert(old(self)@.contains(old(self).pairs@[t]));
                        }
                    }
                    self.lemma_distinct();
                }
                s
            },
        }
    }
}

} // verus!
