//! Symbols for stack frames: an interval tree of the functions that cover the addresses of an
//! executable, finding the functions behind a frame in it, and a store that keeps one such tree
//! for each executable.

pub mod concurrent;
pub mod frame;
pub mod laws;
pub mod order;
pub mod query;
pub mod store;
pub mod symbolize;
pub mod symdb;
pub mod symtree;
pub mod symvec;
pub mod text;
pub mod todo;
pub mod tree;
