//! Core of a memory-ranking service: a deterministic generator, a
//! hash-trick tokenizer, calendar arithmetic for stored timestamps, a
//! versioned binary checkpoint codec with its JSON configuration blob,
//! the ranker's parameter layout and input validation, the training
//! loop's sample checks and canary bookkeeping, and the service
//! counters. Every function here carries a contract and is verified
//! against it; the floating-point tape that consumes these decisions
//! lives with the transport, outside the library.

pub mod checkpoint;
pub mod config_codec;
pub mod data;
pub mod dates;
pub mod model;
pub mod protocol;
pub mod rng;
pub mod tokenizer;
pub mod training;
