//! The abstract contract of a graph storage backend.
//!
//! A [`Graph`] owns nodes of type `N` and the edge sets between ordered
//! node pairs, and promises — whichever backing strategy it uses — the same
//! observable behaviour: node ids are issued fresh and never reused, link
//! insertion refuses exactly the links that would close a directed cycle
//! and otherwise changes nothing but the link set, node removal atomically
//! severs and reports every link touching the node, and no empty edge set
//! is ever retained. Interchangeable implementations live in
//! [`crate::hash_graph`] and [`crate::vector_graph`].

use vstd::prelude::*;

use crate::errors::WouldCycle;
use crate::link::Links;
use crate::node::NodeId;
use crate::node::NodeRef;
use crate::paths::acyclic;
use crate::paths::reaches;
use crate::socket::NodeLinkId;
use crate::socket::SocketLinkId;
use crate::socket::NodeSocketId;

verus! {

/// Holds when the link `l` has the node `id` on either of its ends.
pub open spec fn touches(l: NodeLinkId, id: NodeId) -> bool {
    l.left.node == id || l.right.node == id
}

/// Holds when some socket-level link of `ls` runs between the ordered
/// node pair `p`.
pub open spec fn pair_linked(ls: Set<NodeLinkId>, p: (u32, u32)) -> bool {
    exists|x: NodeLinkId|
        #[trigger] ls.contains(x) && x.left.node.0 == p.0 && x.right.node.0 == p.1
}

/// The record of the links severed by a node removal, handed out one link
/// at a time. A fresh record stands at its first link; each call to
/// [`SeveredLinks::next`] yields the next one.
pub struct SeveredLinks {
    index: usize,
    items: Vec<NodeLinkId>,
}

impl View for SeveredLinks {
    type V = Seq<NodeLinkId>;

    closed spec fn view(&self) -> Seq<NodeLinkId> {
        self.items@
    }
}

impl SeveredLinks {
    /// How far the record has been read.
    pub closed spec fn position(&self) -> int {
        self.index as int
    }

    #[verifier::type_invariant]
    spec fn inv(self) -> bool {
        self.index <= self@.len()
    }

    /// Wraps a freshly collected record, standing at its first link.
    pub(crate) fn fresh(items: Vec<NodeLinkId>) -> (r: SeveredLinks)
        ensures
            r@ == items@,
            r.position() == 0,
    {
        SeveredLinks { index: 0, items }
    }

    /// The next severed link, or `None` once all have been handed out.
    pub fn next(&mut self) -> (r: Option<NodeLinkId>)
        ensures
            final(self)@ == old(self)@,
            old(self).position() < old(self)@.len() ==> r == Some(
                old(self)@[old(self).position()],
            ) && final(self).position() == old(self).position() + 1,
            old(self).position() >= old(self)@.len() ==> r is None && final(self).position()
                == old(self).position(),
    {
        proof {
            use_type_invariant(&*self);
        }
        if self.index == self.items.len() {
            return None;
        }
        let item = self.items[self.index];
        self.index = self.index + 1;
        Some(item)
    }

    /// How many severed links are left to read.
    pub fn remaining(&self) -> (r: usize)
        ensures
            r == self@.len() - self.position(),
    {
        proof {
            use_type_invariant(&*self);
        }
        self.items.len() - self.index
    }
}

/// Data storage for a node graph: the abstract contract every backend
/// satisfies. The model is a map from node id to node, the set of
/// socket-level links, and the node-level edge relation the links project
/// to; `wf` is the backend's invariant, which every operation preserves
/// and which keeps the edge relation acyclic.
pub trait Graph<N> where Self: Sized {
    /// The nodes of the graph, as a map from node id to node.
    spec fn nodes(&self) -> Map<u32, N>;

    /// The node-level edge relation: `(l, r)` is an edge exactly when at
    /// least one socket link runs from node `l` to node `r`.
    spec fn edges(&self) -> Set<(u32, u32)>;

    /// The full set of socket-level links.
    spec fn link_set(&self) -> Set<NodeLinkId>;

    /// The next node id the graph will issue; ids below it are never
    /// issued again.
    spec fn next_index(&self) -> u32;

    /// The backend's invariant. Established by construction, preserved by
    /// every operation.
    spec fn wf(&self) -> bool;

    /// A well-formed graph's edge relation is acyclic.
    proof fn lemma_wf_acyclic(&self)
        requires
            self.wf(),
        ensures
            acyclic(self.edges()),
    ;

    /// A well-formed graph's edges run between present nodes.
    proof fn lemma_wf_edges_between_nodes(&self)
        requires
            self.wf(),
        ensures
            forall|p: (u32, u32)| #[trigger]
                self.edges().contains(p) ==> self.nodes().dom().contains(p.0)
                    && self.nodes().dom().contains(p.1),
    ;

    /// A graph holds finitely many nodes.
    proof fn lemma_nodes_finite(&self)
        requires
            self.wf(),
        ensures
            self.nodes().dom().finite(),
    ;

    /// The edge relation is exactly the node-pair projection of the link
    /// set: no empty edge set is ever retained, so a node pair is an edge
    /// precisely while some socket link runs between the pair.
    proof fn lemma_edges_projection(&self)
        requires
            self.wf(),
        ensures
            forall|p: (u32, u32)|
                #[trigger] self.edges().contains(p) <==> pair_linked(self.link_set(), p),
    ;

    /// Adds a node to the graph, issuing it a fresh id that no node of
    /// this graph has ever carried.
    fn insert_node(&mut self, node: N) -> (id: NodeId)
        requires
            old(self).wf(),
            old(self).next_index() < u32::MAX,
        ensures
            final(self).wf(),
            id.0 == old(self).next_index(),
            !old(self).nodes().dom().contains(id.0),
            final(self).nodes() == old(self).nodes().insert(id.0, node),
            final(self).link_set() == old(self).link_set(),
            final(self).edges() == old(self).edges(),
            final(self).next_index() == old(self).next_index() + 1,
    ;

    /// Removes the node `id`, severing every link that touches it in the
    /// same atomic step, and returns the node together with a record of
    /// exactly the links that were severed. Returns `None`, changing
    /// nothing, if `id` is absent.
    fn remove_node(&mut self, id: NodeId) -> (r: Option<(N, SeveredLinks)>)
        requires
            old(self).wf(),
        ensures
            final(self).wf(),
            final(self).next_index() == old(self).next_index(),
            match r {
                None => {
                    &&& !old(self).nodes().dom().contains(id.0)
                    &&& final(self).nodes() == old(self).nodes()
                    &&& final(self).link_set() == old(self).link_set()
                    &&& final(self).edges() == old(self).edges()
                },
                Some((node, severed)) => {
                    &&& old(self).nodes().dom().contains(id.0)
                    &&& node == old(self).nodes()[id.0]
                    &&& final(self).nodes() == old(self).nodes().remove(id.0)
                    &&& final(self).link_set() == Set::new(
                        |x: NodeLinkId| old(self).link_set().contains(x) && !touches(x, id),
                    )
                    &&& severed@.to_set() == Set::new(
                        |x: NodeLinkId| old(self).link_set().contains(x) && touches(x, id),
                    )
                    &&& severed@.no_duplicates()
                    &&& severed.position() == 0
                    &&& forall|p: (u32, u32)| #[trigger]
                        final(self).edges().contains(p) ==> p.0 != id.0 && p.1 != id.0
                },
            },
    ;

    /// Returns `true` if a node with id `id` is present.
    fn has_node(&self, id: NodeId) -> (r: bool)
        requires
            self.wf(),
        ensures
            r == self.nodes().dom().contains(id.0),
    ;

    /// Borrows the node with id `id`, if it is present.
    fn get_node(&self, id: NodeId) -> (r: Option<NodeRef<'_, N>>)
        requires
            self.wf(),
        ensures
            match r {
                Some(nr) => self.nodes().dom().contains(id.0) && *nr.spec_node()
                    == self.nodes()[id.0],
                None => !self.nodes().dom().contains(id.0),
            },
    ;

    /// The number of nodes the graph holds.
    fn node_count(&self) -> (r: usize)
        requires
            self.wf(),
        ensures
            r == self.nodes().dom().len(),
    ;

    /// Inserts the socket-level link `link` between two present nodes.
    ///
    /// Before touching any state, the graph checks whether the new edge
    /// would let `link.right`'s node reach back to `link.left`'s node; if
    /// so, nothing changes and [`WouldCycle`] is returned. Otherwise the
    /// link is added, idempotently: inserting a link that is already
    /// present succeeds and leaves the graph as it was. The reachability
    /// search dominates the cost of insertion: in the worst case it visits
    /// every node and every edge once.
    fn insert_link(&mut self, link: NodeLinkId) -> (r: Result<(), WouldCycle>)
        requires
            old(self).wf(),
            old(self).nodes().dom().contains(link.left.node.0),
            old(self).nodes().dom().contains(link.right.node.0),
        ensures
            final(self).wf(),
            final(self).nodes() == old(self).nodes(),
            final(self).next_index() == old(self).next_index(),
            match r {
                Ok(()) => final(self).link_set() == old(self).link_set().insert(link)
                    && final(self).edges() == old(self).edges().insert(
                    (link.left.node.0, link.right.node.0),
                ),
                Err(e) => *final(self) == *old(self),
            },
            (r is Err) == reaches(old(self).edges(), link.right.node.0, link.left.node.0),
    ;

    /// Removes the socket-level link `link`, if it is present; removing an
    /// absent link leaves the graph exactly as it was. An edge set emptied
    /// by the removal is pruned at once, so the node pair does not linger
    /// as an empty key (and, by [`Graph::lemma_edges_projection`], stops
    /// being an edge).
    fn remove_link(&mut self, link: NodeLinkId)
        requires
            old(self).wf(),
        ensures
            final(self).wf(),
            final(self).nodes() == old(self).nodes(),
            final(self).next_index() == old(self).next_index(),
            final(self).link_set() == old(self).link_set().remove(link),
            !old(self).link_set().contains(link) ==> *final(self) == *old(self),
    ;

    /// Returns `true` if the socket-level link `link` is present.
    fn has_link(&self, link: NodeLinkId) -> (r: bool)
        requires
            self.wf(),
        ensures
            r == self.link_set().contains(link),
    ;

    /// Counts the links of the graph, summed over every node pair.
    fn link_count(&self) -> (r: usize)
        requires
            self.wf(),
            self.link_set().len() <= usize::MAX,
        ensures
            r == self.link_set().len(),
    ;

    /// Borrows the edge set between the ordered node pair `(left, right)`,
    /// if any link runs between them. An absent pair answers `None`:
    /// empty edge sets are never retained.
    fn get_edges(&self, left: NodeId, right: NodeId) -> (r: Option<&Links>)
        requires
            self.wf(),
        ensures
            match r {
                Some(lks) => {
                    &&& self.edges().contains((left.0, right.0))
                    &&& lks.wf()
                    &&& lks@.len() > 0
                    &&& forall|p: SocketLinkId| #[trigger]
                        lks@.contains(p) == self.link_set().contains(
                            NodeLinkId {
                                left: NodeSocketId { node: left, socket: p.from },
                                right: NodeSocketId { node: right, socket: p.to },
                            },
                        )
                },
                None => !self.edges().contains((left.0, right.0)),
            },
    ;

    /// The nodes that `node` directly depends on: every producer wired
    /// into one of its inputs, each listed once.
    fn iter_direct_dependencies(&self, node: NodeId) -> (r: Vec<NodeId>)
        requires
            self.wf(),
        ensures
            forall|x: NodeId| #[trigger] r@.contains(x) == self.edges().contains((x.0, node.0)),
            r@.no_duplicates(),
    ;

    /// The nodes that directly depend on `node`: every consumer wired to
    /// one of its outputs, each listed once.
    fn iter_direct_dependents(&self, node: NodeId) -> (r: Vec<NodeId>)
        requires
            self.wf(),
        ensures
            forall|x: NodeId| #[trigger] r@.contains(x) == self.edges().contains((node.0, x.0)),
            r@.no_duplicates(),
    ;
}

} // verus!
