//! Proof-of-work mining of commit identifiers.
//!
//! A commit record is given a nonce field of 32 symbols that git and signature
//! verifiers pass over, and the field is varied until the SHA-1 identifier of the commit
//! has a wanted number of leading zero bits.
//!
//! - `nonce`: the codec between 128-bit nonces and their 32 symbols.
//! - `score`: the leading zero bits of a digest.
//! - `text`: searching and editing byte strings.
//! - `hasher`: the identifier of a commit, in one pass or on top of a cached prefix.
//! - `commit`: parsing a commit, placing its nonce field, rewriting the field in place.
//! - `placement`: what holds of the placement for every commit.
//! - `partition`: the ranges of nonces of the workers of a search.
//! - `search`: the worker, its messages, and the coordinator's decisions.
//! - `oid`, `signal`: the object id of the store, the shared flags and the clock.

pub mod commit;
pub mod error;
pub mod hasher;
pub mod nonce;
pub mod oid;
pub mod partition;
pub mod placement;
pub mod score;
pub mod search;
pub mod signal;
pub mod text;
