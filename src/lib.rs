//! A dynamic index over short strings that answers which live records
//! contain a query as an ordered, not necessarily contiguous, subsequence of
//! characters.
//!
//! - `matcher`: the subsequence predicate every index agrees with.
//! - `store`: the records, their ids and their liveness.
//! - `linear`: the reference search, a scan of every live record.
//! - `trie`: a prefix trie whose nodes carry the ids passing through them,
//!   and its subsequence search.
//! - `index`: the store and the trie kept in step.
//! - `query` and `generator`: workloads of commands against the index.
pub mod matcher;
pub mod store;
pub mod linear;
pub mod trie;
pub mod index;
pub mod query;
pub mod generator;
