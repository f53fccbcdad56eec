//! Storage-side descriptions that the engine hands to a directory.

pub mod io_context;
