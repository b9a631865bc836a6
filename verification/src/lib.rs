//! Fundamental containers over a pool of fixed-size records: stacks, queues and a
//! leaf-oriented search tree, each with a verified contract.

pub mod allocator;
pub mod chains;
pub mod order;
pub mod queues;
pub mod stacks;
pub mod trees;
