//! Square-root oblivious RAM: a key-value store that hides its access pattern.
//!
//! The store keeps `n` blocks behind a storage that an observer may watch.
//! Every access touches the same slots whatever key it is for: the whole
//! shelter, one slot before the shelter that the tag of a key or of a decoy
//! selects, and the next free slot of the shelter. When the shelter is full
//! the blocks are brought home, tagged anew and shuffled by an oblivious
//! sort.
//!
//! - [`engine`] holds the store itself, [`laws`] what holds of it as a whole;
//! - [`sort`] is the oblivious sort, proved in [`network`] and [`zero_one`];
//! - [`block`] and [`data`] give the blocks their form in storage;
//! - [`db`] is the storage: in memory, or in a LevelDB database on disk.

pub mod arrangement;
pub mod block;
pub mod data;
pub mod db;
pub mod endian;
pub mod engine;
pub mod entropy;
pub mod error;
pub mod laws;
pub mod network;
pub mod schedule;
pub mod sort;
pub mod vec_store;
pub mod zero_one;

pub use crate::data::Data;
pub use crate::engine::SqrtOram;
pub use crate::error::OramError;
