//! A persistent stack of fixed-capacity chunks with cheap snapshots.
pub mod stack;
