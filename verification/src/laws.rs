//! What the operations promise, said of what goes into them and what comes out of them alone.

pub mod frames;
pub mod names;
pub mod storage;
pub mod trees;
