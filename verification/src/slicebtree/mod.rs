//! A copy-on-write B+Tree whose nodes are allocations of a pool.

pub mod counts;
pub mod debug;
pub mod handles;
pub mod leaf;
pub mod node;
pub mod order;
pub mod teardown;
pub mod tree;
