//! An in-memory key-value store from text keys to text values.
//!
//! The store owns every value it holds: `get` lends a value out for reading,
//! `delete` hands it back to the caller.
mod store;

pub use store::KeyValueStore;
pub mod laws;
