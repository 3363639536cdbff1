//! The tokenizer: a merge table and a splitting pattern, with training,
//! encoding, decoding and the export of the vocabulary.

use crate::chunks::chunk_counts;
use crate::chunks::chunk_words;
use crate::chunks::ChunkCounter;
use crate::chunks::distinct;
use crate::chunks::fits;
use crate::chunks::fits_within;
use crate::chunks::lemma_corpus_is_total_bytes;
use crate::chunks::lemma_distinct;
use crate::chunks::multiplicity;
use crate::corpus::Corpus;
use crate::decoder::all_known;
use crate::decoder::concat;
use crate::decoder::decode_bytes;
use crate::decoder::decode_ids;
use crate::decoder::is_known;
use crate::decoder::lemma_round_trip_bytes;
use crate::decoder::token_bytes;
use crate::decoder::vocabulary;
use crate::encoder::chunk_bytes;
use crate::encoder::encode_all;
use crate::encoder::encode_chunks;
use crate::encoder::texts_of;
use crate::error::TokenizerError;
use crate::learning::learned;
use crate::merges::BASE_TOKENS;
use crate::merges::merge_id;
use crate::merges::merges_valid;
use crate::merges::MergeTable;
use crate::pattern::compile;
use crate::pattern::compile_result;
use crate::pattern::describe;
use crate::pattern::find_chunks;
use crate::pattern::GPT4_PATTERN;
use crate::pattern::pattern_compiles;
use crate::pattern::split_result;
use crate::stats::WEIGHT_LIMIT;
use crate::stats::word_seqs;
use crate::trainer::train_core;
use crate::trainer::train_corpus;
use crate::trainer::trainable;
use crate::word::Pair;
use crate::word::Word;
use fancy_regex::Regex;
use vstd::utf8::decode_utf8;
use vstd::utf8::encode_utf8;
use vstd::utf8::encode_utf8_decode_utf8;
use vstd::utf8::encode_utf8_valid_utf8;
use vstd::utf8::valid_utf8;
use vstd::prelude::*;

verus! {

/// The token ids of `text` under a table and a pattern: the text is split
/// into chunks, and the chunks' ids follow one another. `None` where the
/// search for the pattern gives up on the text.
pub open spec fn encode_text(merges: Seq<Pair>, pattern: Seq<char>, text: Seq<char>) -> Option<
    Seq<u32>,
> {
    match split_result(pattern, text) {
        Some(chunks) => Some(encode_chunks(merges, chunk_bytes(chunks))),
        None => None,
    }
}

/// Every one of the first `n` records can be split.
pub open spec fn all_split(pattern: Seq<char>, records: Seq<Seq<char>>, n: nat) -> bool {
    forall|i: int| 0 <= i < n ==> (#[trigger] split_result(pattern, records[i])) is Some
}

/// The chunks of the first `n` records, record after record.
pub open spec fn corpus_chunks(pattern: Seq<char>, records: Seq<Seq<char>>, n: nat) -> Seq<
    Seq<char>,
>
    decreases n,
{
    if n == 0 {
        seq![]
    } else {
        corpus_chunks(pattern, records, (n - 1) as nat) + match split_result(
            pattern,
            records[n - 1],
        ) {
            Some(chunks) => chunks,
            None => seq![],
        }
    }
}

/// The number of records at the beginning, among the first `n`, that can all
/// be split: `n`, or the index of the first record on which the search gives
/// up.
pub open spec fn split_upto(pattern: Seq<char>, records: Seq<Seq<char>>, n: nat) -> nat
    decreases n,
{
    if n == 0 {
        0
    } else {
        let k = split_upto(pattern, records, (n - 1) as nat);
        if k == n - 1 && split_result(pattern, records[n - 1]) is Some {
            n
        } else {
            k
        }
    }
}

/// What `split_upto` is: the records before it can all be split, and it is
/// `n` or the index of a record that cannot.
pub proof fn lemma_split_upto(pattern: Seq<char>, records: Seq<Seq<char>>, n: nat)
    ensures
        split_upto(pattern, records, n) <= n,
        all_split(pattern, records, split_upto(pattern, records, n)),
        split_upto(pattern, records, n) < n ==> split_result(
            pattern,
            records[split_upto(pattern, records, n) as int],
        ) is None,
        forall|k: nat|
            k <= n && all_split(pattern, records, k) ==> k <= split_upto(pattern, records, n),
    decreases n,
{
    if n > 0 {
        lemma_split_upto(pattern, records, (n - 1) as nat);
        let f = split_upto(pattern, records, (n - 1) as nat);
        assert forall|k: nat| k <= n && all_split(pattern, records, k) implies k <= split_upto(
            pattern,
            records,
            n,
        ) by {
            if k == n {
                assert(all_split(pattern, records, (n - 1) as nat));
                assert(split_result(pattern, records[n - 1]) is Some);
            }
        }
    }
}

/// Counting stopped at chunk `k`: the chunks before it were counted on top of
/// `before`, which gave `after`, and chunk `k` could no longer be counted.
pub open spec fn stopped_at(
    before: Seq<Seq<char>>,
    chunks: Seq<Seq<char>>,
    after: Seq<Seq<char>>,
    limit: nat,
    k: int,
) -> bool {
    &&& 0 <= k < chunks.len()
    &&& after == before + chunks.take(k)
    &&& !fits_within(before + chunks.take(k + 1), limit)
}

/// What can be counted stays countable when chunks are taken off its end.
pub proof fn lemma_fits_prefix(a: Seq<Seq<char>>, b: Seq<Seq<char>>, limit: nat)
    requires
        fits_within(a + b, limit),
    ensures
        fits_within(a, limit),
    decreases b.len(),
{
    if b.len() == 0 {
        assert(a + b =~= a);
    } else {
        let shorter = a + b.drop_last();
        assert((a + b).drop_last() =~= shorter);
        assert forall|c: Seq<char>| #[trigger] multiplicity(shorter, c) <= i32::MAX by {
            assert(multiplicity(a + b, c) <= i32::MAX);
        }
        lemma_fits_prefix(a, b.drop_last(), limit);
    }
}

/// A byte-pair-encoding tokenizer: the merges it has learned, and the pattern
/// by which it splits text into chunks.
pub struct Tokenizer {
    merges: MergeTable,
    pattern: String,
    compiled: Option<Regex>,
}

impl Tokenizer {
    /// The table is well formed, and the pattern is held compiled exactly
    /// where it compiles.
    pub closed spec fn wf(&self) -> bool {
        &&& self.merges.wf()
        &&& self.compiled == compile_result(self.pattern@)
    }

    /// The learned merges, in order.
    pub closed spec fn merges(&self) -> Seq<Pair> {
        self.merges@
    }

    /// The splitting pattern.
    pub closed spec fn pattern(&self) -> Seq<char> {
        self.pattern@
    }

    /// The merges of a tokenizer can stand in a table.
    pub proof fn lemma_merges_valid(&self)
        requires
            self.wf(),
        ensures
            merges_valid(self.merges()),
    {
        self.merges.lemma_valid();
    }

    /// A tokenizer without merges and with the empty pattern.
    pub fn new() -> (tokenizer: Tokenizer)
        ensures
            tokenizer.wf(),
            tokenizer.merges() == Seq::<Pair>::empty(),
            tokenizer.pattern() == Seq::<char>::empty(),
    {
        let pattern = String::new();
        let compiled = match compile(pattern.as_str()) {
            Ok(re) => Some(re),
            Err(_) => None,
        };
        Tokenizer { merges: MergeTable::new(), pattern, compiled }
    }

    /// A tokenizer without merges that splits by `pattern`. Fails with
    /// `InvalidConfig` exactly where the pattern does not compile.
    pub fn with_pattern(pattern: &str) -> (r: Result<Tokenizer, TokenizerError>)
        ensures
            r is Ok <==> pattern_compiles(pattern@),
            r matches Ok(tokenizer) ==> tokenizer.wf() && tokenizer.merges() == Seq::<Pair>::empty()
                && tokenizer.pattern() == pattern@,
            r matches Err(e) ==> e is InvalidConfig,
    {
        match compile(pattern) {
            Ok(re) => Ok(
                Tokenizer {
                    merges: MergeTable::new(),
                    pattern: pattern.to_owned(),
                    compiled: Some(re),
                },
            ),
            Err(e) => Err(TokenizerError::InvalidConfig(describe(&e))),
        }
    }

    /// Enters `pair` as the next merge of the table and returns its id, or
    /// refuses it, leaving the tokenizer as it is, where the pair cannot
    /// follow the merges that the table holds.
    pub fn insert_merge(&mut self, pair: Pair) -> (id: Option<u32>)
        requires
            old(self).wf(),
        ensures
            final(self).wf(),
            final(self).pattern() == old(self).pattern(),
            id is Some <==> merges_valid(old(self).merges().push(pair)),
            match id {
                Some(v) => final(self).merges() == old(self).merges().push(pair) && v == merge_id(
                    old(self).merges().len() as int,
                ),
                None => final(self).merges() == old(self).merges(),
            },
    {
        self.merges.insert(pair)
    }

    /// The learned merges as a list, in the order in which they were learned:
    /// the merge at position `i` has the id `256 + i`.
    pub fn merge_list(&self) -> (out: Vec<Pair>)
        ensures
            out@ == self.merges(),
    {
        self.merges.pairs()
    }

    /// The number of merges.
    pub fn merge_count(&self) -> (n: usize)
        ensures
            n == self.merges().len(),
    {
        self.merges.len()
    }

    /// The id into which `pair` is merged, if the table holds the pair.
    pub fn merge_of(&self, pair: Pair) -> (id: Option<u32>)
        requires
            self.wf(),
        ensures
            id == crate::merges::merge_of(self.merges(), pair),
    {
        self.merges.get(pair)
    }

    /// The splitting pattern.
    pub fn get_pattern(&self) -> (pattern: String)
        ensures
            pattern@ == self.pattern(),
    {
        self.pattern.clone()
    }

    /// The vocabulary: for every token id, from the bytes to the last merge,
    /// the bytes of the token beside the id.
    pub fn get_mergeable_ranks(&self) -> (ranks: Vec<(Vec<u8>, u32)>)
        requires
            self.wf(),
        ensures
            ranks@.len() == merge_id(self.merges().len() as int),
            forall|i: int|
                0 <= i < ranks@.len() ==> (#[trigger] ranks@[i]).0@ == token_bytes(
                    self.merges(),
                    i,
                ) && ranks@[i].1 == i,
    {
        vocabulary(&self.merges)
    }

    /// The chunks of `text` under the pattern, in order. Fails with
    /// `InvalidConfig` where the pattern does not compile, and with
    /// `MatchFailed` where the search for the pattern gives up on the text.
    pub fn split(&self, text: &str) -> (r: Result<Vec<String>, TokenizerError>)
        requires
            self.wf(),
        ensures
            r is Ok <==> pattern_compiles(self.pattern()) && split_result(self.pattern(), text@)
                is Some,
            r matches Ok(chunks) ==> Some(texts_of(chunks@)) == split_result(
                self.pattern(),
                text@,
            ),
            r matches Err(e) ==> if pattern_compiles(self.pattern()) {
                e is MatchFailed
            } else {
                e is InvalidConfig
            },
    {
        match &self.compiled {
            None => Err(TokenizerError::InvalidConfig("the pattern does not compile".to_owned())),
            Some(re) => {
                match find_chunks(re, text) {
                    None => Err(TokenizerError::MatchFailed),
                    Some(chunks) => {
                        proof {
                            assert(texts_of(chunks@) =~= split_result(
                                self.pattern@,
                                text@,
                            ).unwrap());
                        }
                        Ok(chunks)
                    },
                }
            },
        }
    }

    /// The token ids of `text`. Fails with `InvalidConfig` where the pattern
    /// does not compile, and with `MatchFailed` where the search for the
    /// pattern gives up on the text.
    pub fn encode(&self, text: &str) -> (r: Result<Vec<u32>, TokenizerError>)
        requires
            self.wf(),
        ensures
            r is Ok <==> pattern_compiles(self.pattern()) && encode_text(
                self.merges(),
                self.pattern(),
                text@,
            ) is Some,
            r matches Ok(ids) ==> Some(ids@) == encode_text(self.merges(), self.pattern(), text@),
            r matches Err(e) ==> if pattern_compiles(self.pattern()) {
                e is MatchFailed
            } else {
                e is InvalidConfig
            },
    {
        match &self.compiled {
            None => Err(TokenizerError::InvalidConfig("the pattern does not compile".to_owned())),
            Some(re) => {
                match find_chunks(re, text) {
                    None => Err(TokenizerError::MatchFailed),
                    Some(chunks) => {
                        proof {
                            assert(texts_of(chunks@) =~= split_result(
                                self.pattern@,
                                text@,
                            ).unwrap());
                        }
                        Ok(encode_all(&self.merges, &chunks))
                    },
                }
            },
        }
    }

    /// The token ids of each text, in the order of the texts: what `encode`
    /// gives for each of them. Fails as `encode` fails on the first text on
    /// which it does.
    pub fn encode_batch(&self, texts: &Vec<String>) -> (r: Result<Vec<Vec<u32>>, TokenizerError>)
        requires
            self.wf(),
        ensures
            r is Ok <==> texts@.len() == 0 || (pattern_compiles(self.pattern()) && forall|i: int|
                0 <= i < texts@.len() ==> (#[trigger] encode_text(
                    self.merges(),
                    self.pattern(),
                    texts@[i]@,
                )) is Some),
            r matches Ok(all) ==> all@.len() == texts@.len() && forall|i: int|
                0 <= i < texts@.len() ==> Some((#[trigger] all@[i])@) == encode_text(
                    self.merges(),
                    self.pattern(),
                    texts@[i]@,
                ),
            r matches Err(e) ==> if pattern_compiles(self.pattern()) {
                e is MatchFailed
            } else {
                e is InvalidConfig
            },
    {
        let mut all: Vec<Vec<u32>> = Vec::new();
        let mut i: usize = 0;
        while i < texts.len()
            invariant
                self.wf(),
                i <= texts@.len(),
                all@.len() == i,
                i > 0 ==> pattern_compiles(self.pattern()),
                forall|k: int|
                    0 <= k < i ==> (#[trigger] encode_text(
                        self.merges(),
                        self.pattern(),
                        texts@[k]@,
                    )) is Some,
                forall|k: int|
                    0 <= k < i ==> Some((#[trigger] all@[k])@) == encode_text(
                        self.merges(),
                        self.pattern(),
                        texts@[k]@,
                    ),
            decreases texts@.len() - i,
        {
            match self.encode(texts[i].as_str()) {
                Ok(ids) => {
                    all.push(ids);
                },
                Err(e) => {
                    return Err(e);
                },
            }
            i += 1;
        }
        Ok(all)
    }

    /// The text that `ids` stand for. Fails with `UnknownToken` where an id is
    /// neither a byte nor a merge of the table, naming the first such id, and
    /// otherwise with `InvalidUtf8` where the bytes are not UTF-8.
    pub fn decode(&self, ids: &Vec<u32>) -> (r: Result<String, TokenizerError>)
        requires
            self.wf(),
        ensures
            r is Ok <==> all_known(self.merges(), ids@) && valid_utf8(
                decode_bytes(self.merges(), ids@),
            ),
            r matches Ok(text) ==> text@ == decode_utf8(decode_bytes(self.merges(), ids@)),
            r matches Err(e) ==> match e {
                TokenizerError::UnknownToken(id) => exists|i: int|
                    0 <= i < ids@.len() && #[trigger] ids@[i] == id && !is_known(
                        self.merges(),
                        id,
                    ) && all_known(self.merges(), ids@.take(i)),
                TokenizerError::InvalidUtf8(n) => all_known(self.merges(), ids@) && n
                    < decode_bytes(self.merges(), ids@).len() && valid_utf8(
                    decode_bytes(self.merges(), ids@).take(n as int),
                ) && !valid_utf8(decode_bytes(self.merges(), ids@).take(n + 1)),
                _ => false,
            },
    {
        decode_ids(&self.merges, ids)
    }

    /// Learns the merges from unique words and their counts, in place of the
    /// merges that the tokenizer holds.
    pub fn train_core_incremental(&mut self, words: Vec<Word>, counts: Vec<i32>, vocab_size: u32)
        requires
            old(self).wf(),
            vocab_size >= BASE_TOKENS,
            trainable(word_seqs(words@), counts@),
        ensures
            final(self).wf(),
            final(self).pattern() == old(self).pattern(),
            final(self).merges() == learned(
                word_seqs(words@),
                counts@,
                BASE_TOKENS,
                (vocab_size - BASE_TOKENS) as nat,
            ),
    {
        self.merges = train_core(words, counts, vocab_size);
    }

    /// Learns the merges from a scanned corpus, in place of the merges that
    /// the tokenizer holds. Fails with `InvalidConfig`, and leaves the
    /// tokenizer as it is, exactly where `vocab_size` is below 256.
    pub fn train_scanned(&mut self, corpus: Corpus, vocab_size: u32) -> (r: Result<
        (),
        TokenizerError,
    >)
        requires
            old(self).wf(),
            corpus.wf(),
        ensures
            final(self).wf(),
            final(self).pattern() == old(self).pattern(),
            r is Ok <==> vocab_size >= BASE_TOKENS,
            r is Ok ==> final(self).merges() == learned(
                corpus.words(),
                corpus.counts(),
                BASE_TOKENS,
                (vocab_size - BASE_TOKENS) as nat,
            ),
            r matches Err(e) ==> e is InvalidConfig && final(self).merges() == old(self).merges(),
    {
        if vocab_size < BASE_TOKENS {
            return Err(
                TokenizerError::InvalidConfig("vocab_size must be at least 256".to_owned()),
            );
        }
        self.merges = train_corpus(corpus, vocab_size);
        Ok(())
    }

    /// Counts the chunks of one record. Fails with `InvalidConfig` where the
    /// pattern does not compile, with `MatchFailed` where the search gives up
    /// on the record, and with `OversizedInput` where a chunk can no longer be
    /// counted; the chunks before that one are then counted.
    pub fn ingest(&self, counter: &mut ChunkCounter, record: &str) -> (r: Result<
        (),
        TokenizerError,
    >)
        requires
            self.wf(),
            old(counter).wf(),
        ensures
            final(counter).wf(),
            final(counter).limit() == old(counter).limit(),
            r is Ok <==> pattern_compiles(self.pattern()) && split_result(self.pattern(), record@)
                is Some && fits_within(
                old(counter).fed() + split_result(self.pattern(), record@).unwrap(),
                old(counter).limit(),
            ),
            r is Ok ==> final(counter).fed() == old(counter).fed() + split_result(
                self.pattern(),
                record@,
            ).unwrap(),
            r matches Err(e) ==> match e {
                TokenizerError::InvalidConfig(_) => !pattern_compiles(self.pattern())
                    && final(counter).fed() == old(counter).fed(),
                TokenizerError::MatchFailed => pattern_compiles(self.pattern()) && split_result(
                    self.pattern(),
                    record@,
                ) is None && final(counter).fed() == old(counter).fed(),
                TokenizerError::OversizedInput => pattern_compiles(self.pattern()) && split_result(
                    self.pattern(),
                    record@,
                ) is Some && exists|k: int|
                    stopped_at(
                        old(counter).fed(),
                        split_result(self.pattern(), record@).unwrap(),
                        final(counter).fed(),
                        old(counter).limit(),
                        k,
                    ),
                _ => false,
            },
    {
        match &self.compiled {
            None => Err(TokenizerError::InvalidConfig("the pattern does not compile".to_owned())),
            Some(re) => {
                match find_chunks(re, record) {
                    None => Err(TokenizerError::MatchFailed),
                    Some(chunks) => {
                        let ghost all = split_result(self.pattern@, record@).unwrap();
                        let ghost start = counter.fed();
                        let mut i: usize = 0;
                        proof {
                            assert(texts_of(chunks@) =~= all);
                            assert(start + all.take(0) =~= start);
                        }
                        while i < chunks.len()
                            invariant
                                self.wf(),
                                pattern_compiles(self.pattern()),
                                split_result(self.pattern(), record@) == Some(all),
                                start == old(counter).fed(),
                                counter.limit() == old(counter).limit(),
                                counter.wf(),
                                i <= chunks@.len(),
                                texts_of(chunks@) == all,
                                counter.fed() == start + all.take(i as int),
                            decreases chunks@.len() - i,
                        {
                            let counted = counter.add(chunks[i].as_str());
                            proof {
                                assert(all[i as int] == chunks@[i as int]@);
                                assert((start + all.take(i as int)).push(all[i as int]) =~= start
                                    + all.take(i + 1));
                            }
                            if !counted {
                                proof {
                                    assert(counter.fed() == start + all.take(i as int));
                                    assert(!fits_within(start + all.take(i + 1), counter.limit()));
                                    assert(stopped_at(
                                        start,
                                        all,
                                        counter.fed(),
                                        counter.limit(),
                                        i as int,
                                    ));
                                    assert(split_result(self.pattern(), record@).unwrap() == all);
                                    assert(pattern_compiles(self.pattern()));
                                    if fits_within(start + all, counter.limit()) {
                                        assert(start + all =~= (start + all.take(i + 1))
                                            + all.skip(i + 1));
                                        lemma_fits_prefix(
                                            start + all.take(i + 1),
                                            all.skip(i + 1),
                                            counter.limit(),
                                        );
                                    }
                                }
                                return Err(TokenizerError::OversizedInput);
                            }
                            i += 1;
                        }
                        proof {
                            assert(all.take(chunks@.len() as int) =~= all);
                            counter.lemma_fits();
                        }
                        Ok(())
                    },
                }
            },
        }
    }

    /// Learns the merges from counted chunks, in place of the merges that the
    /// tokenizer holds. Fails with `InvalidConfig`, and leaves the tokenizer as
    /// it is, exactly where `vocab_size` is below 256.
    pub fn train_on(&mut self, counter: ChunkCounter, vocab_size: u32) -> (r: Result<
        (),
        TokenizerError,
    >)
        requires
            old(self).wf(),
            counter.wf(),
        ensures
            final(self).wf(),
            final(self).pattern() == old(self).pattern(),
            r is Ok <==> vocab_size >= BASE_TOKENS,
            r is Ok ==> final(self).merges() == learned(
                chunk_words(counter.fed()),
                chunk_counts(counter.fed()),
                BASE_TOKENS,
                (vocab_size - BASE_TOKENS) as nat,
            ),
            r matches Err(e) ==> e is InvalidConfig && final(self).merges() == old(self).merges(),
    {
        if vocab_size < BASE_TOKENS {
            return Err(
                TokenizerError::InvalidConfig("vocab_size must be at least 256".to_owned()),
            );
        }
        let ghost fed = counter.fed();
        proof {
            counter.lemma_fits();
            lemma_corpus_is_total_bytes(fed);
            lemma_distinct(fed);
            assert forall|i: int| 0 <= i < chunk_counts(fed).len() implies chunk_counts(fed)[i]
                > 0 by {
                let c = distinct(fed)[i];
                assert(distinct(fed).contains(c));
                assert(multiplicity(fed, c) <= i32::MAX);
            }
            assert(trainable(chunk_words(fed), chunk_counts(fed)));
        }
        let parts = counter.finish();
        self.train_core_incremental(parts.0, parts.1, vocab_size);
        Ok(())
    }

    /// Trains on a corpus: splits each record into chunks by `pattern`, or by
    /// the default pattern where none is given, counts the chunks, and learns
    /// merges until the vocabulary has `vocab_size` tokens or no pair is left
    /// to merge. On success the tokenizer holds the pattern and the learned
    /// merges; on failure it is as it was. `buffer_size` is the number of
    /// records that a caller who streams the corpus takes at a time: it has no
    /// bearing on what is learned.
    pub fn train_from_iterator(
        &mut self,
        records: &Vec<String>,
        vocab_size: u32,
        buffer_size: usize,
        pattern: Option<String>,
    ) -> (r: Result<(), TokenizerError>)
        requires
            old(self).wf(),
        ensures
            final(self).wf(),
            r is Ok <==> {
                let p = pattern_or_default(pattern);
                &&& vocab_size >= BASE_TOKENS
                &&& pattern_compiles(p)
                &&& all_split(p, texts_of(records@), records@.len())
                &&& fits(corpus_chunks(p, texts_of(records@), records@.len()))
            },
            r is Ok ==> {
                let p = pattern_or_default(pattern);
                let fed = corpus_chunks(p, texts_of(records@), records@.len());
                &&& final(self).pattern() == p
                &&& final(self).merges() == learned(
                    chunk_words(fed),
                    chunk_counts(fed),
                    BASE_TOKENS,
                    (vocab_size - BASE_TOKENS) as nat,
                )
            },
            r is Err ==> final(self).pattern() == old(self).pattern() && final(self).merges()
                == old(self).merges(),
            r matches Err(e) ==> {
                let p = pattern_or_default(pattern);
                let recs = texts_of(records@);
                let done = split_upto(p, recs, records@.len());
                if vocab_size < BASE_TOKENS || !pattern_compiles(p) {
                    e is InvalidConfig
                } else if !fits(corpus_chunks(p, recs, done)) {
                    e is OversizedInput
                } else {
                    e is MatchFailed && done < records@.len()
                }
            },
    {
        let _ = buffer_size;
        let chosen: String = match pattern {
            Some(p) => p,
            None => GPT4_PATTERN.to_owned(),
        };
        let ghost p = chosen@;
        let ghost recs = texts_of(records@);
        if vocab_size < BASE_TOKENS {
            return Err(
                TokenizerError::InvalidConfig("vocab_size must be at least 256".to_owned()),
            );
        }
        let mut next = match Tokenizer::with_pattern(chosen.as_str()) {
            Ok(t) => t,
            Err(e) => {
                return Err(e);
            },
        };
        let mut counter = ChunkCounter::new();
        let mut i: usize = 0;
        proof {
            assert(counter.fed() =~= corpus_chunks(p, recs, 0));
        }
        while i < records.len()
            invariant
                *self == *old(self),
                self.wf(),
                vocab_size >= BASE_TOKENS,
                p == pattern_or_default(pattern),
                next.wf(),
                next.pattern() == p,
                pattern_compiles(p),
                recs == texts_of(records@),
                counter.wf(),
                counter.limit() == WEIGHT_LIMIT,
                i <= records@.len(),
                all_split(p, recs, i as nat),
                counter.fed() == corpus_chunks(p, recs, i as nat),
            decreases records@.len() - i,
        {
            let ghost before = counter.fed();
            match next.ingest(&mut counter, records[i].as_str()) {
                Ok(_) => {},
                Err(e) => {
                    proof {
                        assert(recs[i as int] == records@[i as int]@);
                        let n = records@.len() as nat;
                        let done = split_upto(p, recs, n);
                        lemma_split_upto(p, recs, n);
                        counter.lemma_fits();
                        match split_result(p, recs[i as int]) {
                            Some(chunks) => {
                                assert(all_split(p, recs, (i + 1) as nat));
                                assert(e is OversizedInput);
                                let k = choose|k: int|
                                    stopped_at(before, chunks, counter.fed(), WEIGHT_LIMIT as nat, k);
                                let upto = corpus_chunks(p, recs, (i + 1) as nat);
                                assert(upto =~= (before + chunks.take(k + 1)) + chunks.skip(k + 1));
                                let rest = lemma_corpus_chunks_prefix(p, recs, (i + 1) as nat, done);
                                if fits(corpus_chunks(p, recs, done)) {
                                    lemma_fits_prefix(upto, rest, WEIGHT_LIMIT as nat);
                                    lemma_fits_prefix(
                                        before + chunks.take(k + 1),
                                        chunks.skip(k + 1),
                                        WEIGHT_LIMIT as nat,
                                    );
                                }
                            },
                            None => {
                                assert(e is MatchFailed);
                                if done > i {
                                    assert(split_result(p, recs[i as int]) is Some);
                                }
                                assert(done == i);
                            },
                        }
                    }
                    return Err(e);
                },
            }
            proof {
                assert(recs[i as int] == records@[i as int]@);
            }
            i += 1;
        }
        proof {
            counter.lemma_fits();
            lemma_split_upto(p, recs, records@.len());
        }
        match next.train_on(counter, vocab_size) {
            Ok(_) => {},
            Err(e) => {
                return Err(e);
            },
        }
        *self = next;
        Ok(())
    }
}

/// The round trip: where the chunks of a text, put together, are the text,
/// the token ids of the text are all defined by the table, and decoding them
/// gives the text back.
pub proof fn lemma_round_trip(merges: Seq<Pair>, pattern: Seq<char>, text: Seq<char>)
    requires
        merges_valid(merges),
        split_result(pattern, text) is Some,
        concat(chunk_bytes(split_result(pattern, text).unwrap())) == encode_utf8(text),
    ensures
        encode_text(merges, pattern, text) is Some,
        all_known(merges, encode_text(merges, pattern, text).unwrap()),
        valid_utf8(decode_bytes(merges, encode_text(merges, pattern, text).unwrap())),
        decode_utf8(decode_bytes(merges, encode_text(merges, pattern, text).unwrap())) == text,
{
    let chunks = chunk_bytes(split_result(pattern, text).unwrap());
    lemma_round_trip_bytes(merges, chunks);
    encode_utf8_valid_utf8(text);
    encode_utf8_decode_utf8(text);
}

/// The pattern that training uses: the one given, or the default.
pub open spec fn pattern_or_default(pattern: Option<String>) -> Seq<char> {
    match pattern {
        Some(p) => p@,
        None => GPT4_PATTERN@,
    }
}

/// The chunks of the first records are the beginning of the chunks of more
/// records; what follows them is returned.
pub proof fn lemma_corpus_chunks_prefix(
    pattern: Seq<char>,
    records: Seq<Seq<char>>,
    n: nat,
    m: nat,
) -> (rest: Seq<Seq<char>>)
    requires
        n <= m,
    ensures
        corpus_chunks(pattern, records, m) == corpus_chunks(pattern, records, n) + rest,
    decreases m - n,
{
    if n == m {
        let rest = Seq::<Seq<char>>::empty();
        assert(corpus_chunks(pattern, records, m) =~= corpus_chunks(pattern, records, n) + rest);
        rest
    } else {
        let before = lemma_corpus_chunks_prefix(pattern, records, n, (m - 1) as nat);
        let tail = match split_result(pattern, records[m - 1]) {
            Some(chunks) => chunks,
            None => seq![],
        };
        assert(corpus_chunks(pattern, records, m) =~= corpus_chunks(pattern, records, n) + (before
            + tail));
        before + tail
    }
}

} // verus!
