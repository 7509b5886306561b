//! Resolution of local bindings in one source file.
//!
//! A per-language query marks positions of a parse tree as scopes,
//! definitions and references. This library turns those captures into
//! a tree of nested scopes and binds each reference to the nearest
//! visible definition of the same name.

pub mod model;
pub mod classify;
pub mod names;
pub mod order;
pub mod tree;
pub mod resolve;
pub mod locals;
pub mod laws;
