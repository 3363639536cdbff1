//! The merge table: the learned merges in the order in which they were learned.

use crate::word::Pair;
use std::collections::HashMap;
use vstd::prelude::*;

verus! {

/// The number of base tokens, one for each byte value.
pub const BASE_TOKENS: u32 = 256;

/// The integer under which a pair is looked up.
pub open spec fn pair_key(p: Pair) -> u64 {
    (p.0 as u64 * 0x1_0000_0000 + p.1 as u64) as u64
}

/// The token id of the merge at position `i` of the table.
pub open spec fn merge_id(i: int) -> int {
    BASE_TOKENS + i
}

/// A list of merges that can stand in a table: no pair twice, each pair made
/// of ids that exist before its own, and every id within `u32`.
pub open spec fn merges_valid(merges: Seq<Pair>) -> bool {
    &&& merge_id(merges.len() as int) - 1 <= u32::MAX
    &&& merges.no_duplicates()
    &&& forall|i: int|
        0 <= i < merges.len() ==> (#[trigger] merges[i]).0 < merge_id(i) && merges[i].1 < merge_id(
            i,
        )
}

/// The token id into which `p` is merged, if the table holds `p`.
pub open spec fn merge_of(merges: Seq<Pair>, p: Pair) -> Option<u32> {
    if merges.contains(p) {
        Some(merge_id(merges.index_of(p)) as u32)
    } else {
        None
    }
}

/// What `merge_of` says of a valid list: the id of the one position of `p`.
pub proof fn lemma_merge_of(merges: Seq<Pair>, p: Pair)
    requires
        merges_valid(merges),
    ensures
        match merge_of(merges, p) {
            Some(id) => BASE_TOKENS <= id < merge_id(merges.len() as int) && merges[id
                - BASE_TOKENS] == p,
            None => forall|i: int| 0 <= i < merges.len() ==> merges[i] != p,
        },
        forall|i: int|
            0 <= i < merges.len() && merges[i] == p ==> merge_of(merges, p) == Some(
                merge_id(i) as u32,
            ),
{
    if merges.contains(p) {
        let k = merges.index_of(p);
        assert(0 <= k < merges.len() && merges[k] == p);
    }
}

/// An insertion-ordered mapping from pairs to merged token ids: the merge at
/// position `i` has the id `256 + i`.
pub struct MergeTable {
    pairs: Vec<Pair>,
    ids: HashMap<u64, u32>,
}

impl View for MergeTable {
    type V = Seq<Pair>;

    /// The merges in the order in which they were entered.
    closed spec fn view(&self) -> Seq<Pair> {
        self.pairs@
    }
}

impl MergeTable {
    /// The list is valid and the lookup map holds exactly its merges.
    pub closed spec fn wf(&self) -> bool {
        &&& merges_valid(self.pairs@)
        &&& forall|i: int|
            0 <= i < self.pairs@.len() ==> self.ids@.contains_key(
                pair_key(#[trigger] self.pairs@[i]),
            ) && self.ids@[pair_key(self.pairs@[i])] == merge_id(i)
        &&& forall|k: u64| #[trigger]
            self.ids@.contains_key(k) ==> BASE_TOKENS <= self.ids@[k] < merge_id(
                self.pairs@.len() as int,
            ) && pair_key(self.pairs@[self.ids@[k] - BASE_TOKENS]) == k
    }

    /// A well-formed table holds a valid list.
    pub proof fn lemma_valid(&self)
        requires
            self.wf(),
        ensures
            merges_valid(self@),
    {
    }

    /// A table without merges.
    pub fn new() -> (table: MergeTable)
        ensures
            table.wf(),
            table@ == Seq::<Pair>::empty(),
    {
        let table = MergeTable { pairs: Vec::new(), ids: HashMap::new() };
        assert(table@ =~= Seq::<Pair>::empty());
        table
    }

    /// The number of merges.
    pub fn len(&self) -> (n: usize)
        ensures
            n == self@.len(),
    {
        self.pairs.len()
    }

    /// The merge at position `i`.
    pub fn pair_at(&self, i: usize) -> (p: Pair)
        requires
            i < self@.len(),
        ensures
            p == self@[i as int],
    {
        self.pairs[i]
    }

    /// The merges as a list, in the order in which they were entered.
    pub fn pairs(&self) -> (out: Vec<Pair>)
        ensures
            out@ == self@,
    {
        let mut out: Vec<Pair> = Vec::new();
        let mut i: usize = 0;
        while i < self.pairs.len()
            invariant
                i <= self.pairs@.len(),
                out@ == self.pairs@.take(i as int),
            decreases self.pairs@.len() - i,
        {
            out.push(self.pairs[i]);
            proof {
                assert(self.pairs@.take(i + 1) =~= self.pairs@.take(i as int).push(
                    self.pairs@[i as int],
                ));
            }
            i += 1;
        }
        proof {
            assert(self.pairs@.take(self.pairs@.len() as int) =~= self.pairs@);
        }
        out
    }

    /// The token id into which `pair` is merged, if the table holds it.
    pub fn get(&self, pair: Pair) -> (id: Option<u32>)
        requires
            self.wf(),
        ensures
            id == merge_of(self@, pair),
    {
        let key: u64 = pair.0 as u64 * 0x1_0000_0000 + pair.1 as u64;
        proof {
            lemma_merge_of(self@, pair);
        }
        match self.ids.get(&key) {
            Some(id) => {
                proof {
                    let q = self.pairs@[*id - BASE_TOKENS];
                    lemma_pair_key_injective(q, pair);
                }
                Some(*id)
            },
            None => None,
        }
    }

    /// Enters `pair` as the next merge and returns its id. The pair is refused,
    /// and the table left as it is, where it is already in the table, where one
    /// of its ids does not exist yet, or where no id is left.
    pub fn insert(&mut self, pair: Pair) -> (id: Option<u32>)
        requires
            old(self).wf(),
        ensures
            final(self).wf(),
            id is Some <==> merges_valid(old(self)@.push(pair)),
            match id {
                Some(v) => final(self)@ == old(self)@.push(pair) && v == merge_id(
                    old(self)@.len() as int,
                ),
                None => final(self)@ == old(self)@,
            },
    {
        let n = self.pairs.len();
        let ghost before = self.pairs@;
        proof {
            lemma_merge_of(before, pair);
        }
        if n >= (u32::MAX - BASE_TOKENS) as usize + 1 {
            return None;
        }
        let next: u32 = BASE_TOKENS + n as u32;
        if pair.0 >= next || pair.1 >= next {
            proof {
                assert(before.push(pair)[n as int] == pair);
            }
            return None;
        }
        if self.get(pair).is_some() {
            proof {
                let k = before.index_of(pair);
                assert(before.push(pair)[k] == pair);
                assert(before.push(pair)[n as int] == pair);
            }
            return None;
        }
        let key: u64 = pair.0 as u64 * 0x1_0000_0000 + pair.1 as u64;
        self.ids.insert(key, next);
        self.pairs.push(pair);
        proof {
            let after = self.pairs@;
            assert forall|i: int, j: int| 0 <= i < after.len() && 0 <= j < after.len() && i
                != j implies after[i] != after[j] by {
                if i < n {
                    assert(after[i] == before[i]);
                }
                if j < n {
                    assert(after[j] == before[j]);
                }
            }
            assert forall|i: int| 0 <= i < after.len() implies self.ids@.contains_key(
                pair_key(#[trigger] after[i]),
            ) && self.ids@[pair_key(after[i])] == merge_id(i) by {
                if i < n {
                    assert(after[i] == before[i]);
                    lemma_pair_key_injective(before[i], pair);
                }
            }
            assert forall|k: u64| #[trigger] self.ids@.contains_key(k) implies BASE_TOKENS
                <= self.ids@[k] < merge_id(after.len() as int) && pair_key(
                after[self.ids@[k] - BASE_TOKENS],
            ) == k by {
                if k != key {
                    assert(old(self).ids@.contains_key(k));
                    assert(after[old(self).ids@[k] - BASE_TOKENS] == before[old(self).ids@[k]
                        - BASE_TOKENS]);
                }
            }
        }
        Some(next)
    }
}

/// Two pairs with one key are one pair.
pub proof fn lemma_pair_key_injective(a: Pair, b: Pair)
    ensures
        pair_key(a) == pair_key(b) <==> a == b,
{
}

} // verus!
