//! A byte-pair-encoding tokenizer.
//!
//! Training learns an ordered list of merges from the chunks of a corpus;
//! encoding applies the merges to the bytes of a text, and decoding turns token
//! ids back into text. The tokenizer itself is in `tokenizer`; the modules
//! below it hold its parts, each with the contracts that it is verified
//! against.

#![allow(unused_imports)]

pub mod chunks;
pub mod corpus;
pub mod decoder;
pub mod encoder;
pub mod error;
pub mod heap;
pub mod job_order;
pub mod learning;
pub mod merges;
pub mod pattern;
pub mod scheduler;
pub mod stats;
pub mod tables;
pub mod tokenizer;
pub mod trainer;
pub mod word;
