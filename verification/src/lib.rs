//! A persistent (immutable, structurally shared) Patricia trie mapping
//! string keys to values.
//!
//! Every update returns a new trie that shares all untouched subtrees with
//! the old one; no trie value is ever mutated in place. The trie is modelled
//! as a finite map from character sequences to values, and `bind` and
//! `lookup` are verified against that model.

pub mod laws;
pub mod trie;

pub use trie::first_char_unwrap;
pub use trie::longest_common_prefix;
pub use trie::PatriciaTrie;
