mod children;
pub mod recycle;
mod text;
pub mod trie;
pub mod trie_old;
