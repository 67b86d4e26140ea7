//! An ordered key-value store: a B-tree in memory, and the records of the
//! append-only log that make it last.

pub mod order;
pub mod btree;
pub mod reshape;
pub mod descent;
pub mod rotate;
pub mod steps;
pub mod inorder;
pub mod laws;
pub mod record;
pub mod log;
