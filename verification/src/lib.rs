//! A verified in-memory dictionary core: a byte-offset record store over
//! WordNet-style corpus files, a character trie for prefix queries, and a
//! metric (BK) tree for typo-tolerant suggestions.

pub mod bktree;
pub mod database;
pub mod distance;
pub mod record;
pub mod snowflake;
pub mod text;
pub mod trie;
pub mod wordnet;

pub use bktree::BKTree;
pub use database::Database;
pub use record::Gloassary;
pub use record::Word;
pub use snowflake::Snowflake;
pub use trie::WordTrie;
pub use wordnet::WordNetDatabase;
