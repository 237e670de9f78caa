//! The node model: node identifiers and the capability contract a
//! computational node implements.

use vstd::prelude::*;

use crate::errors::NodeExecutionError;
use crate::socket::OutputMask;
use crate::socket::SocketSet;
use crate::socket::SocketValues;

verus! {

/// A unique identifier for a node within one graph.
///
/// A `NodeId` is only meaningful for the graph that issued it, and is never
/// reassigned to a different node while that graph is alive.
#[derive(Clone, Copy, PartialEq, Eq, Structural, Hash, Debug, Default)]
pub struct NodeId(pub u32);

/// The capability contract of a computational node.
///
/// The engine defines only the protocol: how a node names itself, which
/// sockets it exposes, and how it turns input values into output values.
/// What a node computes is entirely the implementor's business.
pub trait Node {
    /// A stable identifier for the node type (not the node instance; node
    /// instances are identified by [`NodeId`]).
    fn discriminator(&self) -> &str;

    /// The input sockets the node exposes.
    fn input_sockets(&self) -> SocketSet<'_>;

    /// The output sockets the node exposes.
    fn output_sockets(&self) -> SocketSet<'_>;

    /// Computes the node's outputs from the given input values.
    ///
    /// `mask` names the outputs the caller actually needs, letting the node
    /// skip expensive unused outputs. A node that cannot omit one of its
    /// outputs answers a mask excluding it with
    /// [`NodeExecutionError::MustUseOutput`]; a node missing a required
    /// input answers with [`NodeExecutionError::NotEnoughInputs`].
    fn execute(&self, inputs: SocketValues, mask: OutputMask<'_>) -> Result<
        SocketValues,
        NodeExecutionError,
    >;
}

/// A shared reference to a node held by a graph.
pub struct NodeRef<'a, N> {
    inner: &'a N,
}

impl<'a, N> NodeRef<'a, N> {
    /// The node the reference points at.
    pub closed spec fn spec_node(self) -> &'a N {
        self.inner
    }

    /// Wraps a shared node reference.
    pub fn new(inner: &'a N) -> (r: Self)
        ensures
            r.spec_node() == inner,
    {
        NodeRef { inner }
    }

    /// The node itself.
    pub fn get(&self) -> (r: &'a N)
        ensures
            r == self.spec_node(),
    {
        self.inner
    }
}

/// A type that can produce new nodes, used by editor layers to spawn nodes
/// with a default configuration.
pub trait NodeFactory {
    /// The node type this factory produces.
    type Output;

    /// Creates a new node instance with its default configuration.
    fn new_default(&self) -> Self::Output;
}

} // verus!
