//! A prefix cache over token sequences, kept as a page-aligned radix tree.
//!
//! [`RadixPrefixCache`] is the cache for one thread, [`ConcurrentRadixPrefixCache`] the one for
//! many. What they do is stated over the mathematical [`model`]; what follows from that for the
//! cache as a whole stands under [`laws`].

pub mod align;
pub mod cache;
mod changes;
mod children;
pub mod concurrent;
mod draining;
pub mod dump;
mod evict;
pub mod integrity;
pub mod laws;
mod lex;
mod locks;
mod lookup;
mod matching;
pub mod model;
mod node;
mod queue;
mod span;
pub mod sums;
pub mod text;
mod tree;
mod trie;
mod walk;

pub use cache::{
    InsertResult, LookupResult, MatchResult, RadixCacheHandle, RadixPrefixCache, SizeInfo,
};
pub use concurrent::{ConcurrentRadixPrefixCache, Refusal, SharedRadixPrefixCache};
pub use integrity::IntegrityError;
pub use model::Token;
