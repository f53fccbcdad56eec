//! Kernel of an embedded full-text search engine: bit sets and packed
//! integers, terms, the norms buffer of the write path, and the scorer tree
//! of the query path, each with a machine-checked contract.

pub mod codec;
pub mod error;
pub mod index;
pub mod search;
pub mod store;
pub mod util;
