//! Counting the states of a sliding-tile puzzle that a seed board reaches,
//! in bounded memory: sets of 64-bit board fingerprints (open addressing, a
//! cache in front of a sorted run, a Bloom-filtered variant, shards, and
//! per-shard locks), a stack that spills its oldest items in batches, and a
//! resumable search built from them.
use vstd::prelude::*;

pub mod big_set;
pub mod big_stack;
pub mod bloom;
pub mod board;
pub mod fingerprint;
pub mod out_of_core;
pub mod parallel;
pub mod primes;
pub mod search;
pub mod unordered_queue;
