//! The error types shared by the whole engine.

use vstd::prelude::*;

use crate::socket::SocketId;

verus! {

/// Returned when inserting a link would form a directed cycle through the
/// node ids of the graph. The graph is left exactly as it was.
#[derive(Clone, Copy, PartialEq, Eq, Structural, Debug)]
pub struct WouldCycle;

/// An error a node reports while trying to execute.
#[derive(Clone, Copy, PartialEq, Eq, Structural, Debug)]
pub enum NodeExecutionError {
    /// The node did not receive values for the inputs it requires.
    NotEnoughInputs,

    /// The output mask excluded an output the node cannot omit computing.
    MustUseOutput {
        /// The id of the output socket that was masked out.
        socket: SocketId,
    },
}

/// An error that ends a solve request.
#[derive(Clone, Copy, PartialEq, Eq, Structural, Debug)]
pub enum GraphSolveError {
    /// A directed cycle was met while walking dependencies. The storage
    /// layer never admits a cycle and the solve drivers are proved never
    /// to return this; the variant remains as the vocabulary for graphs
    /// from outside this crate's guarantees.
    DirectedCycleOccurred,

    /// A node in the dependency chain failed to execute.
    NodeExecutionFailed {
        /// The id of the node that failed.
        node: crate::node::NodeId,

        /// The error the node returned.
        error: NodeExecutionError,
    },
}

} // verus!
