//! Verified core of a sharded n-gram similarity search engine.
//!
//! An index is a set of shards. Each shard pairs a finite-state transducer,
//! which maps an n-gram to the packed address of a bucket, with a posting
//! file of fixed-width records. This crate holds the integer logic of such
//! an index: the pairing codec, the record format, the hash that gives an
//! n-gram its shard, the n-grams of a query, the lookups in the map of a
//! shard, the ranking of results, and what the tools that build an index
//! need to lay one out. Reading and writing files and the floating-point
//! arithmetic of scoring are left to the caller, which hands scores over as
//! IEEE-754 binary32 bit patterns.

pub mod builder;
pub mod codec;
pub mod config;
pub mod engine;
pub mod hash;
pub mod index;
pub mod ngrams;
pub mod paths;
pub mod posting;
pub mod rank;
pub mod request;
pub mod results;
pub mod sid;
