//! A dataflow graph engine: a mutable directed graph of computation nodes,
//! memoized evaluation of a requested node, and invalidation of cached results
//! when the graph is edited.
//!
//! [`GraphEngine`] holds the graph and its cache. Its contracts are stated
//! over the model in [`model`], by the functions of [`contract`]. [`sound`]
//! and [`computed`] prove that every operation keeps a valid state valid and
//! the cache in step with the graph; [`laws`] states what holds across
//! operations.

pub mod computed;
pub mod contract;
pub mod definitions;
pub mod engine;
pub mod error;
pub mod graph;
pub mod laws;
pub mod logic;
pub mod model;
pub mod reach;
pub mod sound;
pub mod trace;
pub mod value;

pub use definitions::{
    get_node_registry, DataDef, DataUI, Logic, NodeDefinition, NodeSchema, SocketDef, SocketUI, IO,
};
pub use engine::GraphEngine;
pub use error::EngineError;
pub use graph::{InputConnection, Node, OutputConnection};
pub use logic::{Arithmetic, NoArithmetic, Operation};
pub use trace::NodeCache;
