//! Encoding: the greedy application of the learned merges to the bytes of a
//! chunk.

use crate::merges::merge_of;
use crate::merges::MergeTable;
use crate::word::Pair;
use vstd::utf8::encode_utf8;
use vstd::prelude::*;

verus! {

/// The base token ids of a byte string: each byte is its own id.
pub open spec fn byte_ids(bytes: Seq<u8>) -> Seq<u32> {
    Seq::new(bytes.len(), |i: int| bytes[i] as u32)
}

/// The merge id of the pair at site `j` of `ids`, where the table has one.
pub open spec fn site_rank(merges: Seq<Pair>, ids: Seq<u32>, j: int) -> Option<u32> {
    merge_of(merges, (ids[j], ids[j + 1]))
}

/// The site to merge next among the first `n` sites: the one whose merge id is
/// lowest, and the leftmost of those; `None` where no site has a merge.
pub open spec fn best_site_upto(merges: Seq<Pair>, ids: Seq<u32>, n: nat) -> Option<int>
    decreases n,
{
    if n == 0 {
        None
    } else {
        let found = best_site_upto(merges, ids, (n - 1) as nat);
        let j = n - 1;
        match (site_rank(merges, ids, j), found) {
            (None, _) => found,
            (Some(_), None) => Some(j),
            (Some(r), Some(b)) => if r < site_rank(merges, ids, b).unwrap() {
                Some(j)
            } else {
                found
            },
        }
    }
}

/// The site to merge next in `ids`.
pub open spec fn best_site(merges: Seq<Pair>, ids: Seq<u32>) -> Option<int> {
    if ids.len() < 2 {
        None
    } else {
        best_site_upto(merges, ids, (ids.len() - 1) as nat)
    }
}

/// `ids` with the two ids at site `j` replaced by `id`.
pub open spec fn merge_at(ids: Seq<u32>, j: int, id: u32) -> Seq<u32> {
    ids.update(j, id).remove(j + 1)
}

/// The token ids of a chunk: the merge at the best site is applied, again and
/// again, until no site has a merge.
pub open spec fn encode_ids(merges: Seq<Pair>, ids: Seq<u32>) -> Seq<u32>
    decreases ids.len(),
{
    match best_site(merges, ids) {
        Some(j) => if 0 <= j < ids.len() - 1 {
            encode_ids(merges, merge_at(ids, j, site_rank(merges, ids, j).unwrap()))
        } else {
            ids
        },
        None => ids,
    }
}

/// The token ids of a text that was split into `chunks`: the chunks' ids, one
/// chunk after the other.
pub open spec fn encode_chunks(merges: Seq<Pair>, chunks: Seq<Seq<u8>>) -> Seq<u32>
    decreases chunks.len(),
{
    if chunks.len() == 0 {
        seq![]
    } else {
        encode_chunks(merges, chunks.drop_last()) + encode_ids(merges, byte_ids(chunks.last()))
    }
}

/// What the best site is: a site with a merge such that no site has a lower
/// merge id and no site to its left has the same; and where there is none, no
/// site has a merge.
pub proof fn lemma_best_site(merges: Seq<Pair>, ids: Seq<u32>, n: nat)
    ensures
        match best_site_upto(merges, ids, n) {
            Some(b) => {
                &&& 0 <= b < n
                &&& site_rank(merges, ids, b) is Some
                &&& forall|j: int|
                    0 <= j < n ==> match #[trigger] site_rank(merges, ids, j) {
                        Some(r) => site_rank(merges, ids, b).unwrap() < r || (site_rank(
                            merges,
                            ids,
                            b,
                        ).unwrap() == r && b <= j),
                        None => true,
                    }
            },
            None => forall|j: int| 0 <= j < n ==> #[trigger] site_rank(merges, ids, j) is None,
        },
    decreases n,
{
    if n > 0 {
        lemma_best_site(merges, ids, (n - 1) as nat);
    }
}

/// The token ids of one chunk.
pub fn encode_chunk(table: &MergeTable, chunk: &[u8]) -> (out: Vec<u32>)
    requires
        table.wf(),
    ensures
        out@ == encode_ids(table@, byte_ids(chunk@)),
{
    let mut ids: Vec<u32> = Vec::new();
    let mut i: usize = 0;
    while i < chunk.len()
        invariant
            i <= chunk@.len(),
            ids@.len() == i,
            forall|j: int| 0 <= j < i ==> ids@[j] == chunk@[j] as u32,
        decreases chunk@.len() - i,
    {
        ids.push(chunk[i] as u32);
        i += 1;
    }
    assert(ids@ =~= byte_ids(chunk@));
    let ghost start = ids@;
    let mut done = false;
    while ids.len() >= 2 && !done
        invariant
            table.wf(),
            encode_ids(table@, start) == encode_ids(table@, ids@),
            done ==> encode_ids(table@, ids@) == ids@,
        decreases ids@.len() + if done { 0nat } else { 1nat },
    {
        let mut best: Option<(usize, u32)> = None;
        let mut j: usize = 0;
        let n = ids.len();
        while j + 1 < n
            invariant
                table.wf(),
                n == ids@.len(),
                n >= 2,
                j + 1 <= n,
                match best {
                    Some((b, r)) => best_site_upto(table@, ids@, j as nat) == Some(b as int)
                        && site_rank(table@, ids@, b as int) == Some(r) && b < j,
                    None => best_site_upto(table@, ids@, j as nat).is_none(),
                },
            decreases n - j,
        {
            let pair: Pair = (ids[j], ids[j + 1]);
            match table.get(pair) {
                Some(id) => {
                    match best {
                        Some((_, r)) => {
                            if id < r {
                                best = Some((j, id));
                            }
                        },
                        None => {
                            best = Some((j, id));
                        },
                    }
                },
                None => {},
            }
            j += 1;
        }
        match best {
            Some((b, id)) => {
                ids.set(b, id);
                ids.remove(b + 1);
            },
            None => {
                done = true;
            },
        }
    }
    proof {
        if !done {
            assert(best_site(table@, ids@).is_none());
        }
    }
    ids
}

/// The bytes of each chunk, as UTF-8.
pub open spec fn chunk_bytes(chunks: Seq<Seq<char>>) -> Seq<Seq<u8>> {
    Seq::new(chunks.len(), |i: int| encode_utf8(chunks[i]))
}

/// The texts of a list of chunks.
pub open spec fn texts_of(chunks: Seq<String>) -> Seq<Seq<char>> {
    Seq::new(chunks.len(), |i: int| chunks[i]@)
}

/// The token ids of a text that was split into `chunks`.
pub fn encode_all(table: &MergeTable, chunks: &Vec<String>) -> (out: Vec<u32>)
    requires
        table.wf(),
    ensures
        out@ == encode_chunks(table@, chunk_bytes(texts_of(chunks@))),
{
    let ghost views = chunk_bytes(texts_of(chunks@));
    let mut out: Vec<u32> = Vec::new();
    let mut i: usize = 0;
    while i < chunks.len()
        invariant
            table.wf(),
            views == chunk_bytes(texts_of(chunks@)),
            i <= chunks@.len(),
            out@ == encode_chunks(table@, views.take(i as int)),
        decreases chunks@.len() - i,
    {
        let mut ids = encode_chunk(table, chunks[i].as_str().as_bytes());
        proof {
            assert(views.take(i + 1).drop_last() =~= views.take(i as int));
            assert(views.take(i + 1).last() == encode_utf8(chunks@[i as int]@));
        }
        out.append(&mut ids);
        i += 1;
    }
    proof {
        assert(views.take(chunks@.len() as int) =~= views);
    }
    out
}

} // verus!
