//! The splitting pattern: text is cut into chunks by a regular expression of
//! `fancy_regex`, which stands behind the contracts of this file.

use fancy_regex::Error;
use fancy_regex::Regex;
use vstd::prelude::*;

verus! {

/// The default splitting pattern: contractions, runs of letters with at most
/// one other character before them, runs of up to three digits, runs of
/// punctuation with the line ends that follow, and white space.
pub const GPT4_PATTERN: &'static str =
    r"'(?i:[sdmt]|ll|ve|re)|[^\r\n\p{L}\p{N}]?\p{L}+|\p{N}{1,3}| ?[^\s\p{L}\p{N}]+[\r\n]*|\s*[\r\n]|\s+(?!\S)|\s+";

#[verifier::external_type_specification]
#[verifier::external_body]
pub struct ExRegex(Regex);

#[verifier::external_type_specification]
#[verifier::external_body]
pub struct ExRegexError(Error);

/// What `Regex::new` makes of `pattern`: the compiled expression, or `None`
/// where the pattern does not compile.
pub uninterp spec fn compile_result(pattern: Seq<char>) -> Option<Regex>;

/// What a compiled expression finds in `text`: its successive matches that do
/// not overlap, left to right; `None` where a search gives up on the text.
pub uninterp spec fn find_result(re: Regex, text: Seq<char>) -> Option<Seq<Seq<char>>>;

/// Whether `pattern` is a regular expression that compiles.
pub open spec fn pattern_compiles(pattern: Seq<char>) -> bool {
    compile_result(pattern) is Some
}

/// The chunks of `text` under `pattern`; `None` where the pattern does not
/// compile or the search gives up on the text.
pub open spec fn split_result(pattern: Seq<char>, text: Seq<char>) -> Option<Seq<Seq<char>>> {
    match compile_result(pattern) {
        Some(re) => find_result(re, text),
        None => None,
    }
}

/// What a list of chunks says, chunk by chunk.
pub open spec fn chunk_texts(chunks: Option<Vec<String>>) -> Option<Seq<Seq<char>>> {
    match chunks {
        Some(v) => Some(Seq::new(v@.len(), |i: int| v@[i]@)),
        None => None,
    }
}

/// `fancy_regex::Regex::new`: the compiled expression, or the error of a
/// pattern that does not compile. One pattern always gives the same.
#[verifier::external_body]
pub(crate) fn compile(pattern: &str) -> (r: Result<Regex, Error>)
    ensures
        r is Ok <==> compile_result(pattern@) is Some,
        r matches Ok(re) ==> compile_result(pattern@) == Some(re),
{
    Regex::new(pattern)
}

/// The text of a compile error, as `fancy_regex` words it.
#[verifier::external_body]
pub(crate) fn describe(error: &Error) -> (text: String) {
    format!("Invalid regex pattern: {}", error)
}

/// `fancy_regex::Regex::find_iter`, run to its end: the matched pieces of
/// `text` in order, or `None` where a search ends in an error. What comes back
/// depends on the expression and the text alone.
#[verifier::external_body]
pub(crate) fn find_chunks(re: &Regex, text: &str) -> (chunks: Option<Vec<String>>)
    ensures
        chunk_texts(chunks) == find_result(*re, text@),
{
    let mut out: Vec<String> = Vec::new();
    for found in re.find_iter(text) {
        match found {
            Ok(m) => out.push(m.as_str().to_owned()),
            Err(_) => return None,
        }
    }
    Some(out)
}

} // verus!
