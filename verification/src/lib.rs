//! A dataflow graph engine: computational nodes expose typed input and output
//! sockets, are wired into a directed acyclic graph, and can be solved on
//! demand by executing their dependency subgraph in dependency order.
//!
//! The crate is organised bottom-up:
//!
//! - [`socket`] holds the identity and socket model: socket ids, shapes and
//!   their compatibility relation, and the sorted-unique collections that
//!   carry sockets and values across the node boundary.
//! - [`value`] holds the type-erased, shareable [`value::Value`] container.
//! - [`errors`] holds the error types shared by the whole engine.
//! - [`node`] defines the capability contract a computational node
//!   implements; what a node computes is the implementor's business.
//! - [`link`] keeps the socket-to-socket connections between one ordered
//!   pair of nodes as a sorted, duplicate-free edge set.
//! - [`paths`] is the spec-level theory of paths and reachability that the
//!   acyclicity guarantee is stated and proved in.
//! - [`hash_graph`] and [`vector_graph`] are the two interchangeable
//!   storage backends — an id-keyed map and a dense arena — both enforcing
//!   the same invariant: the link relation never becomes cyclic, no empty
//!   edge set is retained, and node ids are never reused.
//! - [`traversal`] offers walkers over dependencies and dependents that
//!   hold no borrow of the graph between steps.
//! - [`solve`] drives node execution: dependencies before dependents, each
//!   node at most once, with output masks naming what is actually needed.
//! - [`dirty`] is a small change-tracking wrapper, and [`cached`] layers an
//!   output cache with downstream invalidation over the graph.

pub mod cached;
pub mod dirty;
pub mod errors;
pub mod graph;
pub mod hash_graph;
pub mod link;
pub mod node;
pub mod paths;
pub mod solve;
pub mod socket;
pub mod traversal;
pub mod value;
pub mod vector_graph;
