//! The runtime proper: the value store, the lookup index and the builder.

pub mod builder;
pub mod construction;
pub mod graph;
pub mod groups;
pub mod injector;
pub mod unsafe_storage;
mod walk;
