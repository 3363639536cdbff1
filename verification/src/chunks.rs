//! Chunk counting: the unique chunks of a corpus in the order in which they
//! first occur, each with the number of its occurrences.

use crate::encoder::byte_ids;
use crate::stats::corpus_upto;
use crate::stats::lemma_corpus_agrees;
use crate::stats::WEIGHT_LIMIT;
use crate::stats::word_seqs;
use crate::word::Word;
use ahash::AHashMap;
use compact_str::CompactString;
use vstd::utf8::encode_utf8;
use vstd::prelude::*;

verus! {

/// A map from chunks to slots: an `ahash::AHashMap` keyed by
/// `compact_str::CompactString`.
#[verifier::external_body]
pub struct ChunkSlots {
    map: AHashMap<CompactString, usize>,
}

/// The entries of a map from chunks to slots, each chunk as its text.
pub uninterp spec fn chunk_slots(m: ChunkSlots) -> Map<Seq<char>, usize>;

/// `ahash::AHashMap::new`, for chunks: a map without entries.
#[verifier::external_body]
pub(crate) fn chunk_slots_new() -> (m: ChunkSlots)
    ensures
        chunk_slots(m).dom() == Set::<Seq<char>>::empty(),
{
    ChunkSlots { map: AHashMap::new() }
}

/// `ahash::AHashMap::get`, for chunks: the slot stored under the chunk's
/// text, if there is one.
#[verifier::external_body]
pub(crate) fn chunk_slots_get(m: &ChunkSlots, chunk: &str) -> (slot: Option<usize>)
    ensures
        slot == if chunk_slots(*m).dom().contains(chunk@) {
            Some(chunk_slots(*m)[chunk@])
        } else {
            None
        },
{
    m.map.get(chunk).copied()
}

/// `ahash::AHashMap::insert` under a key made by `CompactString::from`:
/// afterwards the chunk's text maps to `slot`, and every other entry is as
/// before.
#[verifier::external_body]
pub(crate) fn chunk_slots_insert(m: &mut ChunkSlots, chunk: &str, slot: usize)
    ensures
        chunk_slots(*final(m)) == chunk_slots(*old(m)).insert(chunk@, slot),
{
    m.map.insert(CompactString::from(chunk), slot);
}

/// How often `c` is among `fed`.
pub open spec fn multiplicity(fed: Seq<Seq<char>>, c: Seq<char>) -> nat
    decreases fed.len(),
{
    if fed.len() == 0 {
        0
    } else {
        multiplicity(fed.drop_last(), c) + if fed.last() == c {
            1nat
        } else {
            0nat
        }
    }
}

/// The chunks of `fed` without repetitions, in the order of their first
/// occurrence.
pub open spec fn distinct(fed: Seq<Seq<char>>) -> Seq<Seq<char>>
    decreases fed.len(),
{
    if fed.len() == 0 {
        seq![]
    } else {
        let seen = distinct(fed.drop_last());
        if seen.contains(fed.last()) {
            seen
        } else {
            seen.push(fed.last())
        }
    }
}

/// The number of bytes of all chunks of `fed` together.
pub open spec fn total_bytes(fed: Seq<Seq<char>>) -> nat
    decreases fed.len(),
{
    if fed.len() == 0 {
        0
    } else {
        total_bytes(fed.drop_last()) + encode_utf8(fed.last()).len()
    }
}

/// The chunks can be counted within `limit`: no chunk occurs more often than
/// an `i32` holds, and all together they have no more than `limit` bytes.
pub open spec fn fits_within(fed: Seq<Seq<char>>, limit: nat) -> bool {
    &&& forall|c: Seq<char>| #[trigger] multiplicity(fed, c) <= i32::MAX
    &&& total_bytes(fed) <= limit
}

/// The chunks can be counted within the largest limit, which is what the
/// statistics can weigh.
pub open spec fn fits(fed: Seq<Seq<char>>) -> bool {
    fits_within(fed, WEIGHT_LIMIT as nat)
}

/// The words of a corpus: the bytes of each distinct chunk as base token ids.
pub open spec fn chunk_words(fed: Seq<Seq<char>>) -> Seq<Seq<u32>> {
    Seq::new(distinct(fed).len(), |i: int| byte_ids(encode_utf8(distinct(fed)[i])))
}

/// The counts of a corpus: for each distinct chunk the number of its
/// occurrences.
pub open spec fn chunk_counts(fed: Seq<Seq<char>>) -> Seq<i32> {
    Seq::new(distinct(fed).len(), |i: int| multiplicity(fed, distinct(fed)[i]) as i32)
}

/// The distinct chunks are the chunks that occur, each listed once.
pub proof fn lemma_distinct(fed: Seq<Seq<char>>)
    ensures
        distinct(fed).no_duplicates(),
        forall|c: Seq<char>| distinct(fed).contains(c) <==> multiplicity(fed, c) > 0,
    decreases fed.len(),
{
    if fed.len() > 0 {
        let seen = distinct(fed.drop_last());
        let last = fed.last();
        lemma_distinct(fed.drop_last());
        assert forall|c: Seq<char>| distinct(fed).contains(c) <==> multiplicity(fed, c) > 0 by {
            if seen.contains(last) {
            } else {
                let grown = seen.push(last);
                if seen.contains(c) {
                    let i = seen.index_of(c);
                    assert(grown[i] == c);
                }
                if c == last {
                    assert(grown[seen.len() as int] == c);
                }
                if grown.contains(c) {
                    let i = grown.index_of(c);
                    if i < seen.len() {
                        assert(seen[i] == c);
                    }
                }
            }
        }
    } else {
        assert forall|c: Seq<char>| !distinct(fed).contains(c) by {}
    }
}

/// The unique chunks of the texts fed so far, with their counts.
pub struct ChunkCounter {
    slot_of: ChunkSlots,
    words: Vec<Word>,
    counts: Vec<i32>,
    size: u64,
    limit: u64,
    fed: Ghost<Seq<Seq<char>>>,
}

impl ChunkCounter {
    /// The chunks counted so far, in the order in which they were fed.
    pub closed spec fn fed(&self) -> Seq<Seq<char>> {
        self.fed@
    }

    /// The number of bytes up to which the counter counts.
    pub closed spec fn limit(&self) -> nat {
        self.limit as nat
    }

    /// The counter holds the distinct chunks of what was fed, in order, each
    /// with its multiplicity, and what was fed is within the limit.
    pub closed spec fn wf(&self) -> bool {
        let keys = distinct(self.fed@);
        let m = chunk_slots(self.slot_of);
        &&& self.limit <= WEIGHT_LIMIT
        &&& fits_within(self.fed@, self.limit as nat)
        &&& self.size == total_bytes(self.fed@)
        &&& self.words@.len() == keys.len()
        &&& self.counts@.len() == keys.len()
        &&& forall|s: int|
            0 <= s < keys.len() ==> (#[trigger] self.words@[s])@ == byte_ids(encode_utf8(keys[s]))
        &&& forall|s: int|
            0 <= s < keys.len() ==> #[trigger] self.counts@[s] == multiplicity(self.fed@, keys[s])
        &&& forall|c: Seq<char>| #[trigger]
            m.dom().contains(c) ==> m[c] < keys.len() && keys[m[c] as int] == c
        &&& forall|s: int|
            0 <= s < keys.len() ==> m.dom().contains(#[trigger] keys[s]) && m[keys[s]] == s
    }

    /// What a well-formed counter was fed is within its limit, and so can be
    /// counted.
    pub proof fn lemma_fits(&self)
        requires
            self.wf(),
        ensures
            self.limit() <= WEIGHT_LIMIT,
            fits_within(self.fed(), self.limit()),
            fits(self.fed()),
    {
    }

    /// A counter to which nothing was fed, with the largest limit.
    pub fn new() -> (counter: ChunkCounter)
        ensures
            counter.wf(),
            counter.limit() == WEIGHT_LIMIT,
            counter.fed() == Seq::<Seq<char>>::empty(),
    {
        ChunkCounter::with_limit(WEIGHT_LIMIT)
    }

    /// A counter to which nothing was fed, which counts up to `limit` bytes,
    /// or up to the largest limit where `limit` is above it.
    pub fn with_limit(limit: u64) -> (counter: ChunkCounter)
        ensures
            counter.wf(),
            counter.limit() == if limit <= WEIGHT_LIMIT {
                limit
            } else {
                WEIGHT_LIMIT
            },
            counter.fed() == Seq::<Seq<char>>::empty(),
    {
        let counter = ChunkCounter {
            slot_of: chunk_slots_new(),
            words: Vec::new(),
            counts: Vec::new(),
            size: 0,
            limit: if limit <= WEIGHT_LIMIT {
                limit
            } else {
                WEIGHT_LIMIT
            },
            fed: Ghost(Seq::empty()),
        };
        assert(counter.fed() =~= Seq::<Seq<char>>::empty());
        counter
    }

    /// The number of distinct chunks.
    pub fn len(&self) -> (n: usize)
        requires
            self.wf(),
        ensures
            n == distinct(self.fed()).len(),
    {
        self.words.len()
    }

    /// Counts one more occurrence of `chunk`. Where that cannot be counted, the
    /// counter stays as it is and the answer is `false`.
    pub fn add(&mut self, chunk: &str) -> (counted: bool)
        requires
            old(self).wf(),
        ensures
            final(self).wf(),
            final(self).limit() == old(self).limit(),
            counted == fits_within(old(self).fed().push(chunk@), old(self).limit()),
            final(self).fed() == if counted {
                old(self).fed().push(chunk@)
            } else {
                old(self).fed()
            },
    {
        let ghost before = self.fed@;
        let ghost after = before.push(chunk@);
        let ghost keys = distinct(before);
        let bytes = chunk.as_bytes();
        let len = bytes.len();
        proof {
            assert(after.drop_last() =~= before);
            assert(after.last() == chunk@);
            lemma_distinct(before);
            lemma_distinct(after);
        }
        if len as u64 > self.limit - self.size {
            return false;
        }
        match chunk_slots_get(&self.slot_of, chunk) {
            Some(s) => {
                let count = self.counts[s];
                if count == i32::MAX {
                    proof {
                        assert(multiplicity(after, chunk@) > i32::MAX);
                    }
                    return false;
                }
                self.counts.set(s, count + 1);
                self.size = self.size + len as u64;
                self.fed = Ghost(after);
                proof {
                    assert(keys.contains(chunk@));
                    assert(distinct(after) == keys);
                    assert forall|c: Seq<char>| #[trigger] multiplicity(after, c) <= i32::MAX by {
                        assert(multiplicity(before, c) <= i32::MAX);
                    }
                }
                true
            },
            None => {
                let s = self.words.len();
                let mut ids: Vec<u32> = Vec::new();
                let mut i: usize = 0;
                while i < len
                    invariant
                        len == bytes@.len(),
                        i <= len,
                        ids@.len() == i,
                        forall|j: int| 0 <= j < i ==> ids@[j] == bytes@[j] as u32,
                    decreases len - i,
                {
                    ids.push(bytes[i] as u32);
                    i += 1;
                }
                proof {
                    assert(ids@ =~= byte_ids(encode_utf8(chunk@)));
                    if keys.contains(chunk@) {
                        let k = keys.index_of(chunk@);
                        assert(keys[k] == chunk@);
                    }
                    assert(!keys.contains(chunk@));
                    assert(multiplicity(before, chunk@) == 0);
                }
                chunk_slots_insert(&mut self.slot_of, chunk, s);
                self.words.push(Word::new(ids));
                self.counts.push(1);
                self.size = self.size + len as u64;
                self.fed = Ghost(after);
                proof {
                    let grown = distinct(after);
                    assert(grown == keys.push(chunk@));
                    let m = chunk_slots(self.slot_of);
                    assert forall|c: Seq<char>| #[trigger] multiplicity(after, c) <= i32::MAX by {
                        assert(multiplicity(before, c) <= i32::MAX);
                    }
                    assert forall|t: int| 0 <= t < grown.len() implies m.dom().contains(
                        #[trigger] grown[t],
                    ) && m[grown[t]] == t by {
                        if t < s {
                            assert(grown[t] == keys[t]);
                            assert(keys.contains(keys[t]));
                        }
                    }
                    assert forall|t: int| 0 <= t < grown.len() implies #[trigger] self.counts@[t]
                        == multiplicity(after, grown[t]) by {
                        if t < s {
                            assert(grown[t] == keys[t]);
                            assert(keys.contains(keys[t]));
                        }
                    }
                    assert forall|t: int| 0 <= t < grown.len() implies (#[trigger] self.words@[t])@
                        == byte_ids(encode_utf8(grown[t])) by {
                        if t < s {
                            assert(grown[t] == keys[t]);
                        }
                    }
                }
                true
            },
        }
    }

    /// Gives the words and their counts: the counter's distinct chunks in the
    /// order of their first occurrence, as base token ids, and beside each the
    /// number of its occurrences.
    pub fn finish(self) -> (out: (Vec<Word>, Vec<i32>))
        requires
            self.wf(),
        ensures
            word_seqs(out.0@) == chunk_words(self.fed()),
            out.1@ == chunk_counts(self.fed()),
    {
        proof {
            assert(word_seqs(self.words@) =~= chunk_words(self.fed@));
            assert(self.counts@ =~= chunk_counts(self.fed@));
        }
        (self.words, self.counts)
    }
}

/// With one more chunk counted, the weighted size of the words grows by the
/// bytes of that chunk: the size of a counted corpus is the number of its
/// bytes.
pub proof fn lemma_corpus_is_total_bytes(fed: Seq<Seq<char>>)
    requires
        forall|c: Seq<char>| #[trigger] multiplicity(fed, c) <= i32::MAX,
    ensures
        corpus_upto(chunk_words(fed), chunk_counts(fed), distinct(fed).len()) == total_bytes(fed),
    decreases fed.len(),
{
    if fed.len() > 0 {
        let before = fed.drop_last();
        let last = fed.last();
        assert forall|c: Seq<char>| #[trigger] multiplicity(before, c) <= i32::MAX by {
            assert(multiplicity(fed, c) <= i32::MAX);
        }
        lemma_corpus_is_total_bytes(before);
        lemma_distinct(before);
        lemma_distinct(fed);
        let keys = distinct(before);
        let n = keys.len();
        let w0 = chunk_words(before);
        let c0 = chunk_counts(before);
        let w1 = chunk_words(fed);
        let c1 = chunk_counts(fed);
        if keys.contains(last) {
            let s = keys.index_of(last);
            assert(w1 =~= w0);
            assert(c1 =~= c0.update(s, (c0[s] + 1) as i32)) by {
                assert forall|t: int| 0 <= t < n implies c1[t] == c0.update(
                    s,
                    (c0[s] + 1) as i32,
                )[t] by {
                    assert(multiplicity(before, keys[t]) <= i32::MAX);
                    assert(multiplicity(fed, keys[t]) <= i32::MAX);
                }
            }
            lemma_corpus_count_up(w0, c0, s, n);
        } else {
            assert(multiplicity(before, last) == 0);
            assert(w1 =~= w0.push(byte_ids(encode_utf8(last))));
            assert(c1 =~= c0.push(1i32)) by {
                assert forall|t: int| 0 <= t < n implies c1[t] == c0[t] by {
                    assert(keys.contains(keys[t]));
                }
            }
            lemma_corpus_agrees(w0, c0, w1, c1, n);
        }
    }
}

proof fn lemma_corpus_count_up(words: Seq<Seq<u32>>, counts: Seq<i32>, s: int, n: nat)
    requires
        0 <= s < counts.len(),
        n <= counts.len(),
        n <= words.len(),
        counts[s] < i32::MAX,
    ensures
        corpus_upto(words, counts.update(s, (counts[s] + 1) as i32), n) == corpus_upto(
            words,
            counts,
            n,
        ) + if s < n {
            words[s].len() as int
        } else {
            0
        },
    decreases n,
{
    if n > 0 {
        lemma_corpus_count_up(words, counts, s, (n - 1) as nat);
        if s == n - 1 {
            let c = counts[s] as int;
            let l = words[s].len() as int;
            assert((c + 1) * l == c * l + l) by (nonlinear_arith);
        }
    }
}

} // verus!
