//! Decoding: the bytes behind each token id, the vocabulary, and the way back
//! from token ids to text.

use crate::encoder::best_site;
use crate::encoder::byte_ids;
use crate::encoder::encode_chunks;
use crate::encoder::encode_ids;
use crate::encoder::lemma_best_site;
use crate::encoder::merge_at;
use crate::encoder::site_rank;
use crate::error::TokenizerError;
use crate::merges::BASE_TOKENS;
use crate::merges::lemma_merge_of;
use crate::merges::merge_id;
use crate::merges::merges_valid;
use crate::merges::MergeTable;
use crate::word::Pair;
use vstd::utf8::decode_utf8;
use vstd::utf8::valid_utf8;
use vstd::prelude::*;

verus! {

/// The bytes that the token `id` stands for: a base token is its byte, a merge
/// is the bytes of its left id followed by those of its right id. An id that
/// the table does not define stands for nothing.
pub open spec fn token_bytes(merges: Seq<Pair>, id: int) -> Seq<u8>
    decreases id,
{
    if id < 0 {
        seq![]
    } else if id < BASE_TOKENS {
        seq![id as u8]
    } else if id - BASE_TOKENS < merges.len() {
        let p = merges[id - BASE_TOKENS];
        if p.0 < id && p.1 < id {
            token_bytes(merges, p.0 as int) + token_bytes(merges, p.1 as int)
        } else {
            seq![]
        }
    } else {
        seq![]
    }
}

/// The table defines `id`.
pub open spec fn is_known(merges: Seq<Pair>, id: u32) -> bool {
    id < merge_id(merges.len() as int)
}

/// The table defines every id of `ids`.
pub open spec fn all_known(merges: Seq<Pair>, ids: Seq<u32>) -> bool {
    forall|i: int| 0 <= i < ids.len() ==> is_known(merges, #[trigger] ids[i])
}

/// The bytes that `ids` stand for, one token after the other.
pub open spec fn decode_bytes(merges: Seq<Pair>, ids: Seq<u32>) -> Seq<u8>
    decreases ids.len(),
{
    if ids.len() == 0 {
        seq![]
    } else {
        decode_bytes(merges, ids.drop_last()) + token_bytes(merges, ids.last() as int)
    }
}

/// The bytes of `chunks`, one chunk after the other.
pub open spec fn concat(chunks: Seq<Seq<u8>>) -> Seq<u8>
    decreases chunks.len(),
{
    if chunks.len() == 0 {
        seq![]
    } else {
        concat(chunks.drop_last()) + chunks.last()
    }
}

/// The bytes of a concatenation are the bytes of its parts.
pub proof fn lemma_decode_bytes_concat(merges: Seq<Pair>, a: Seq<u32>, b: Seq<u32>)
    ensures
        decode_bytes(merges, a + b) == decode_bytes(merges, a) + decode_bytes(merges, b),
    decreases b.len(),
{
    if b.len() == 0 {
        assert(a + b =~= a);
        assert(decode_bytes(merges, a) + decode_bytes(merges, b) =~= decode_bytes(merges, a));
    } else {
        lemma_decode_bytes_concat(merges, a, b.drop_last());
        assert((a + b).drop_last() =~= a + b.drop_last());
        assert(decode_bytes(merges, a + b) =~= decode_bytes(merges, a) + decode_bytes(merges, b));
    }
}

/// Base ids stand for their bytes.
pub proof fn lemma_decode_byte_ids(merges: Seq<Pair>, bytes: Seq<u8>)
    ensures
        decode_bytes(merges, byte_ids(bytes)) == bytes,
        all_known(merges, byte_ids(bytes)),
    decreases bytes.len(),
{
    if bytes.len() > 0 {
        lemma_decode_byte_ids(merges, bytes.drop_last());
        assert(byte_ids(bytes).drop_last() =~= byte_ids(bytes.drop_last()));
        assert(decode_bytes(merges, byte_ids(bytes)) =~= bytes);
    } else {
        assert(decode_bytes(merges, byte_ids(bytes)) =~= bytes);
    }
}

/// One id stands for the bytes of its token.
pub proof fn lemma_decode_single(merges: Seq<Pair>, id: u32)
    ensures
        decode_bytes(merges, seq![id]) == token_bytes(merges, id as int),
{
    let one = seq![id];
    assert(one.drop_last() =~= Seq::<u32>::empty());
    assert(decode_bytes(merges, one.drop_last()) =~= Seq::<u8>::empty());
    assert(one.last() == id);
    assert(decode_bytes(merges, one) =~= token_bytes(merges, id as int));
}

/// Applying a merge of the table changes neither the bytes that the ids stand
/// for nor that the table defines them.
pub proof fn lemma_merge_at_keeps_bytes(merges: Seq<Pair>, ids: Seq<u32>, j: int)
    requires
        merges_valid(merges),
        0 <= j < ids.len() - 1,
        site_rank(merges, ids, j) is Some,
    ensures
        decode_bytes(merges, merge_at(ids, j, site_rank(merges, ids, j).unwrap())) == decode_bytes(
            merges,
            ids,
        ),
        all_known(merges, ids) ==> all_known(
            merges,
            merge_at(ids, j, site_rank(merges, ids, j).unwrap()),
        ),
{
    let id = site_rank(merges, ids, j).unwrap();
    let p: Pair = (ids[j], ids[j + 1]);
    lemma_merge_of(merges, p);
    let head = ids.take(j);
    let tail = ids.skip(j + 2);
    let after = merge_at(ids, j, id);
    assert(after =~= head + seq![id] + tail);
    assert(ids =~= head + seq![ids[j], ids[j + 1]] + tail);
    lemma_decode_bytes_concat(merges, head + seq![id], tail);
    lemma_decode_bytes_concat(merges, head, seq![id]);
    lemma_decode_bytes_concat(merges, head + seq![ids[j], ids[j + 1]], tail);
    lemma_decode_bytes_concat(merges, head, seq![ids[j], ids[j + 1]]);
    let two = seq![ids[j], ids[j + 1]];
    lemma_decode_single(merges, id);
    lemma_decode_single(merges, ids[j]);
    lemma_decode_single(merges, ids[j + 1]);
    assert(two =~= seq![ids[j]] + seq![ids[j + 1]]);
    lemma_decode_bytes_concat(merges, seq![ids[j]], seq![ids[j + 1]]);
    assert(merges[id - BASE_TOKENS] == p);
    if all_known(merges, ids) {
        assert forall|i: int| 0 <= i < after.len() implies is_known(merges, #[trigger] after[i]) by {
            if i < j {
                assert(after[i] == ids[i]);
            } else if i > j {
                assert(after[i] == ids[i + 1]);
            }
        }
    }
}

/// Encoding keeps the bytes: the token ids of a chunk stand for the chunk's
/// bytes, and the table defines each of them.
pub proof fn lemma_encode_keeps_bytes(merges: Seq<Pair>, ids: Seq<u32>)
    requires
        merges_valid(merges),
    ensures
        decode_bytes(merges, encode_ids(merges, ids)) == decode_bytes(merges, ids),
        all_known(merges, ids) ==> all_known(merges, encode_ids(merges, ids)),
    decreases ids.len(),
{
    match best_site(merges, ids) {
        Some(j) => {
            lemma_best_site(merges, ids, (ids.len() - 1) as nat);
            if 0 <= j < ids.len() - 1 {
                let next = merge_at(ids, j, site_rank(merges, ids, j).unwrap());
                lemma_merge_at_keeps_bytes(merges, ids, j);
                lemma_encode_keeps_bytes(merges, next);
            }
        },
        None => {},
    }
}

/// The round trip on bytes: the token ids of a split text stand for the
/// chunks' bytes in order, and the table defines each of them.
pub proof fn lemma_round_trip_bytes(merges: Seq<Pair>, chunks: Seq<Seq<u8>>)
    requires
        merges_valid(merges),
    ensures
        decode_bytes(merges, encode_chunks(merges, chunks)) == concat(chunks),
        all_known(merges, encode_chunks(merges, chunks)),
    decreases chunks.len(),
{
    if chunks.len() > 0 {
        let head = encode_chunks(merges, chunks.drop_last());
        let last = encode_ids(merges, byte_ids(chunks.last()));
        lemma_round_trip_bytes(merges, chunks.drop_last());
        lemma_decode_byte_ids(merges, chunks.last());
        lemma_encode_keeps_bytes(merges, byte_ids(chunks.last()));
        lemma_decode_bytes_concat(merges, head, last);
        assert forall|i: int| 0 <= i < (head + last).len() implies is_known(
            merges,
            #[trigger] (head + last)[i],
        ) by {
            if i < head.len() {
                assert((head + last)[i] == head[i]);
            } else {
                assert((head + last)[i] == last[i - head.len()]);
            }
        }
    }
}

/// `String::from_utf8`: the text that the bytes encode, or, where the bytes
/// are not UTF-8, the length of their longest prefix that is.
#[verifier::external_body]
pub(crate) fn string_from_utf8(bytes: Vec<u8>) -> (r: Result<String, usize>)
    ensures
        r is Ok <==> valid_utf8(bytes@),
        r matches Ok(s) ==> s@ == decode_utf8(bytes@),
        r matches Err(n) ==> n < bytes@.len() && valid_utf8(bytes@.take(n as int)),
        r matches Err(n) ==> forall|m: int| n < m <= bytes@.len() ==> !valid_utf8(bytes@.take(m)),
{
    String::from_utf8(bytes).map_err(|e| e.utf8_error().valid_up_to())
}

/// Appends a copy of `src` to `dst`.
fn append_bytes(dst: &mut Vec<u8>, src: &Vec<u8>)
    ensures
        final(dst)@ == old(dst)@ + src@,
{
    let mut i: usize = 0;
    while i < src.len()
        invariant
            i <= src@.len(),
            dst@ == old(dst)@ + src@.take(i as int),
        decreases src@.len() - i,
    {
        dst.push(src[i]);
        proof {
            assert(src@.take(i + 1) =~= src@.take(i as int).push(src@[i as int]));
            assert(dst@ =~= old(dst)@ + src@.take(i + 1));
        }
        i += 1;
    }
    proof {
        assert(src@.take(src@.len() as int) =~= src@);
    }
}

/// The bytes of every token that the table defines, by id.
pub fn token_table(table: &MergeTable) -> (out: Vec<Vec<u8>>)
    requires
        table.wf(),
    ensures
        out@.len() == merge_id(table@.len() as int),
        forall|i: int| 0 <= i < out@.len() ==> (#[trigger] out@[i])@ == token_bytes(table@, i),
{
    let mut out: Vec<Vec<u8>> = Vec::new();
    let mut b: u32 = 0;
    while b < BASE_TOKENS
        invariant
            b <= BASE_TOKENS,
            out@.len() == b,
            forall|i: int| 0 <= i < out@.len() ==> (#[trigger] out@[i])@ == token_bytes(table@, i),
        decreases BASE_TOKENS - b,
    {
        let mut one: Vec<u8> = Vec::new();
        one.push(b as u8);
        proof {
            assert(one@ =~= seq![b as u8]);
        }
        out.push(one);
        b += 1;
    }
    let n = table.len();
    let mut m: usize = 0;
    proof {
        table.lemma_valid();
    }
    while m < n
        invariant
            table.wf(),
            merges_valid(table@),
            n == table@.len(),
            m <= n,
            out@.len() == BASE_TOKENS + m,
            forall|i: int| 0 <= i < out@.len() ==> (#[trigger] out@[i])@ == token_bytes(table@, i),
        decreases n - m,
    {
        let pair = table.pair_at(m);
        let mut bytes: Vec<u8> = Vec::new();
        append_bytes(&mut bytes, &out[pair.0 as usize]);
        append_bytes(&mut bytes, &out[pair.1 as usize]);
        proof {
            assert(bytes@ =~= token_bytes(table@, BASE_TOKENS + m));
        }
        out.push(bytes);
        m += 1;
    }
    out
}

/// The vocabulary: every token that the table defines, by id, as its bytes
/// beside its id.
pub fn vocabulary(table: &MergeTable) -> (out: Vec<(Vec<u8>, u32)>)
    requires
        table.wf(),
    ensures
        out@.len() == merge_id(table@.len() as int),
        forall|i: int|
            0 <= i < out@.len() ==> (#[trigger] out@[i]).0@ == token_bytes(table@, i) && out@[i].1
                == i,
{
    let mut bytes = token_table(table);
    let mut out: Vec<(Vec<u8>, u32)> = Vec::new();
    let n = bytes.len();
    let mut i: usize = 0;
    proof {
        table.lemma_valid();
    }
    while i < n
        invariant
            n == bytes@.len(),
            n == merge_id(table@.len() as int),
            n - 1 <= u32::MAX,
            i <= n,
            out@.len() == i,
            forall|k: int| i <= k < n ==> (#[trigger] bytes@[k])@ == token_bytes(table@, k),
            forall|k: int|
                0 <= k < i ==> (#[trigger] out@[k]).0@ == token_bytes(table@, k) && out@[k].1 == k,
        decreases n - i,
    {
        let mut taken: Vec<u8> = Vec::new();
        std::mem::swap(&mut bytes[i], &mut taken);
        out.push((taken, i as u32));
        i += 1;
    }
    out
}

/// The bytes that `ids` stand for, or the first id that the table does not
/// define.
pub fn decode_to_bytes(table: &MergeTable, ids: &Vec<u32>) -> (r: Result<Vec<u8>, u32>)
    requires
        table.wf(),
    ensures
        r is Ok <==> all_known(table@, ids@),
        r matches Ok(bytes) ==> bytes@ == decode_bytes(table@, ids@),
        r matches Err(id) ==> exists|i: int|
            0 <= i < ids@.len() && #[trigger] ids@[i] == id && !is_known(table@, id) && all_known(
                table@,
                ids@.take(i),
            ),
{
    let tokens = token_table(table);
    let mut out: Vec<u8> = Vec::new();
    let mut i: usize = 0;
    proof {
        assert(ids@.take(0) =~= Seq::<u32>::empty());
    }
    while i < ids.len()
        invariant
            i <= ids@.len(),
            tokens@.len() == merge_id(table@.len() as int),
            forall|k: int| 0 <= k < tokens@.len() ==> (#[trigger] tokens@[k])@ == token_bytes(table@, k),
            all_known(table@, ids@.take(i as int)),
            out@ == decode_bytes(table@, ids@.take(i as int)),
        decreases ids@.len() - i,
    {
        let id = ids[i];
        if id as usize >= tokens.len() {
            proof {
                assert(ids@[i as int] == id);
            }
            return Err(id);
        }
        append_bytes(&mut out, &tokens[id as usize]);
        proof {
            let next = ids@.take(i + 1);
            assert(next.drop_last() =~= ids@.take(i as int));
            assert(next.last() == id);
            assert forall|k: int| 0 <= k < next.len() implies is_known(table@, #[trigger] next[k]) by {
                if k < i {
                    assert(next[k] == ids@.take(i as int)[k]);
                }
            }
        }
        i += 1;
    }
    proof {
        assert(ids@.take(ids@.len() as int) =~= ids@);
    }
    Ok(out)
}

/// The text that `ids` stand for. Fails with `UnknownToken` where the table
/// does not define an id, of which it names the first, and otherwise with
/// `InvalidUtf8` where the bytes are not UTF-8.
pub fn decode_ids(table: &MergeTable, ids: &Vec<u32>) -> (r: Result<String, TokenizerError>)
    requires
        table.wf(),
    ensures
        r is Ok <==> all_known(table@, ids@) && valid_utf8(decode_bytes(table@, ids@)),
        r matches Ok(text) ==> text@ == decode_utf8(decode_bytes(table@, ids@)),
        r matches Err(e) ==> match e {
            TokenizerError::UnknownToken(id) => exists|i: int|
                0 <= i < ids@.len() && #[trigger] ids@[i] == id && !is_known(table@, id)
                    && all_known(table@, ids@.take(i)),
            TokenizerError::InvalidUtf8(n) => all_known(table@, ids@) && n < decode_bytes(
                table@,
                ids@,
            ).len() && valid_utf8(decode_bytes(table@, ids@).take(n as int)) && !valid_utf8(
                decode_bytes(table@, ids@).take(n + 1),
            ),
            _ => false,
        },
{
    match decode_to_bytes(table, ids) {
        Err(id) => Err(TokenizerError::UnknownToken(id)),
        Ok(bytes) => {
            match string_from_utf8(bytes) {
                Ok(text) => Ok(text),
                Err(n) => Err(TokenizerError::InvalidUtf8(n)),
            }
        },
    }
}

} // verus!
