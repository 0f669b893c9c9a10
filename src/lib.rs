//! Incremental composition runtime: a node tree whose dirty nodes are
//! recomposed in document (depth-first) order, one driver step at a time.

pub mod arena;
pub mod composer;
pub mod debug_tree;
pub mod pending;
pub mod ready;
pub mod runtime;
