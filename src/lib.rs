//! Folder and file comparison engine.
//!
//! The pipeline indexes two trees, fingerprints each file, pairs files up
//! and compares each pair with a line-diff or a keyed record join. Every
//! decision that the pipeline takes is a verified function of this crate;
//! reading files, walking directories and writing reports is left to the
//! caller, which hands plain values in and takes plain values back.

pub mod bignum;
pub mod classify;
pub mod decimal;
pub mod engine;
pub mod exclude;
pub mod fingerprint;
pub mod lines;
pub mod matching;
pub mod ranges;
pub mod results;
pub mod run_state;
pub mod scores;
pub mod strs;
pub mod structured;
pub mod text_compare;
pub mod textdiff;
pub mod textfmt;
pub mod types;
