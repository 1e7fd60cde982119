//! Fast indexed regex search.
//!
//! A sparse n-gram index is built over a source tree once; regex queries are
//! then answered by pruning files through the index and verifying the
//! candidates exactly. Nothing in this library touches a file: it takes and
//! gives bytes.
//!
//! * [`ngram`], [`valleys`], [`grams`]: the n-grams of a text, and the keys of a
//!   file.
//! * [`builder`], [`tables`], [`cache`], [`paths`]: building and updating an
//!   index.
//! * [`index`]: opening an index and asking it.
//! * [`query`], [`matcher`], [`search`]: plans, candidates and matches.
//! * [`scanner`], [`publish`], [`cli`]: which files are indexed, how a rebuilt
//!   index is put in place, and the command line.
//! * [`roundtrip`], [`incremental`]: what an index gives back, and what an
//!   update promises.

pub mod builder;
pub mod cache;
pub mod cli;
pub mod codec;
pub mod fingerprint;
pub mod grams;
pub mod incremental;
pub mod index;
pub mod keys;
pub mod matcher;
pub mod ngram;
pub mod paths;
pub mod publish;
pub mod query;
pub mod roundtrip;
pub mod scanner;
pub mod search;
pub mod sort;
pub mod tables;
pub mod text;
pub mod valleys;
