//! A typed, hierarchical configuration tree.
//!
//! A document is a tree of [`config::Config`] nodes: scalars, sequences and
//! maps. It is addressed by keys and positions, read through typed
//! accessors, merged with other documents, and assembled from a file and
//! the files that it includes.
//!
//! The mathematical model of a document is [`node::Node`]. Every contract in
//! this crate is stated over that model.
//!
//! - [`node`], [`order`]: the model, and the total order that keeps maps in
//!   one shape.
//! - [`entries`], [`laws`]: maps as ascending sequences of entries, and what
//!   holds of lookup, insertion, removal and merging.
//! - [`config`], [`path`]: the executable tree and how it is addressed.
//! - [`get`]: typed accessors.
//! - [`yaml`]: documents from YAML.
//! - [`load`], [`error`]: loading with includes, and why a load may fail.

pub mod node;
pub mod order;
pub mod entries;
pub mod config;
pub mod get;
pub mod error;
pub mod yaml;
pub mod load;
pub mod path;
pub mod laws;
