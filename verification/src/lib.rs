//! State trie, storage and execution rules of a Gravity node.
//!
//! - The state trie: [`tree`] is the model, [`node`] and [`trie`] are the trie in memory,
//!   [`store`], [`stored`] and [`reader`] are the trie at rest, [`output`] is what goes from one
//!   to the other, and [`nested_root`], [`table_source`] and [`state_db`] compute the state root.
//!   [`laws`], [`trie_laws`], [`reader_laws`] and [`state_laws`] say what holds of it all.
//! - The database: [`engine`], [`dupsort`], [`cursor`] and [`cursor_laws`] for tables, and
//!   [`batch`] and [`tx`] for transactions. [`text_laws`] says what is reported of its statistics.
//! - Execution: [`channel`] and [`pipe_error`] for the block pipe, [`hardfork`] and
//!   [`hardfork_laws`] for the changes that hardforks make to the state.
//!
//! Traits that stand for what is outside of the library carry a model of it: spec functions that
//! say what there is to be read, and when reads and writes fail. What is proved through such a
//! trait holds of implementations that keep to its model. The library has one of each in memory.

pub mod batch;
pub mod bytes;
pub mod chain;
pub mod channel;
pub mod config;
pub mod cursor;
pub mod cursor_laws;
pub mod database;
pub mod dupsort;
pub mod engine;
pub mod errors;
pub mod hardfork;
pub mod hardfork_laws;
pub mod hashed_tables;
pub mod laws;
pub mod memory;
pub mod nested_root;
pub mod nibbles;
pub mod node;
pub mod output;
pub mod pipe_error;
pub mod reader;
pub mod reader_laws;
pub mod rlp;
pub mod stall;
pub mod state;
pub mod state_db;
pub mod state_laws;
pub mod state_provider;
pub mod store;
pub mod stored;
pub mod table_source;
pub mod text;
pub mod text_laws;
pub mod transaction;
pub mod tree;
pub mod trie;
pub mod trie_cache;
pub mod trie_laws;
pub mod tx;
pub mod vec_map;
