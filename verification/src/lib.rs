//! Tree-assembled metadata for hierarchical item libraries.
//!
//! Metadata is authored in sidecar files placed at each directory level: a
//! parent file describing the directory itself and a siblings file describing
//! the entries inside it.  This crate holds the core that binds parsed
//! sidecar blocks to item paths (the plexer), merges ancestor metadata into a
//! flattened block (the processor), streams field values collected from
//! sub-trees (the aggregator), and transforms resolved values through a small
//! stack machine of iterator operators (the resolver).
//!
//! The crate works on plain values: paths are strings, directory listings
//! and sidecar blocks arrive decoded, and every function here is verified.

pub mod aggregator;
pub mod blocks;
pub mod config;
pub mod laws;
pub mod matcher;
pub mod numbers;
pub mod operator;
pub mod order;
pub mod plexer;
pub mod processor;
pub mod resolver;
pub mod selection;
pub mod sorter;
pub mod stream;
pub mod target;
pub mod values;
