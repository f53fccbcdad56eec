//! The unit of search.

pub mod term;
