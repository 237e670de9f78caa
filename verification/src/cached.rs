//! The caching layer: a graph that remembers each node's last computed
//! outputs and reuses them while no upstream change has invalidated them.
//!
//! A cache entry is only kept while it is known valid: any change that can
//! affect a node's output — replacing the node, or touching a link on its
//! input side — drops the entry, and the entries of every node downstream
//! of it, before the change is observable. Solving then reuses a kept
//! entry whenever it covers the outputs a dependent actually needs, and
//! recomputes otherwise.

use vstd::prelude::*;

use crate::errors::GraphSolveError;
use crate::errors::WouldCycle;
use crate::graph::touches;
use crate::graph::Graph;
use crate::hash_graph::HashGraph;
use crate::graph::SeveredLinks;
use crate::node::Node;
use crate::node::NodeId;
use crate::node::NodeRef;
use crate::paths::lemma_reaches_refl;
use crate::paths::reaches;
use crate::paths::reversed;
use crate::socket::NodeLinkId;
use crate::socket::OutputMask;
use crate::socket::SocketId;
use crate::socket::SocketValue;
use crate::socket::SocketValues;
use crate::solve::assemble_inputs;
use crate::solve::dependency_order;
use crate::solve::execute_node;
use crate::solve::needed_outputs;
use crate::solve::ResolvedEntry;

verus! {

/// Graphs that keep computed node outputs and can be told to drop them.
pub trait CachingGraph {
    /// What must hold of the graph for its cache to be operated on.
    spec fn cache_wf(&self) -> bool;

    /// The edge relation invalidation propagates along.
    spec fn cache_edges(&self) -> Set<(u32, u32)>;

    /// Whether outputs of node `k` are cached.
    spec fn cache_has(&self, k: u32) -> bool;

    /// The cached outputs of node `k`.
    spec fn cache_entry(&self, k: u32) -> Seq<SocketValue>;

    /// Drops the cached outputs of `node` and of every node downstream of
    /// it — a cached output is only valid while nothing upstream changed —
    /// and keeps every other entry untouched.
    fn clear_cached_output(&mut self, node: NodeId)
        requires
            old(self).cache_wf(),
        ensures
            final(self).cache_wf(),
            final(self).cache_edges() == old(self).cache_edges(),
            forall|k: u32| #[trigger]
                final(self).cache_has(k) == (old(self).cache_has(k) && !(k == node.0 || reaches(
                    old(self).cache_edges(),
                    node.0,
                    k,
                ))),
            forall|k: u32| #[trigger]
                final(self).cache_has(k) ==> final(self).cache_entry(k) == old(self).cache_entry(
                    k,
                ),
    ;
}

/// The remembered outputs of one node.
struct CacheSlot {
    node: u32,
    values: SocketValues,
}

/// A [`HashGraph`] that caches node outputs to avoid recomputing nodes
/// whose inputs have not changed.
pub struct CachedGraph<N> {
    inner: HashGraph<N>,
    cache: Vec<CacheSlot>,
}

impl<N> CachedGraph<N> {
    /// The nodes of the graph, as a map from node id to node.
    pub closed spec fn nodes(&self) -> Map<u32, N> {
        self.inner.nodes()
    }

    /// The node-level edge relation.
    pub closed spec fn edges(&self) -> Set<(u32, u32)> {
        self.inner.edges()
    }

    /// The full set of socket-level links.
    pub closed spec fn link_set(&self) -> Set<NodeLinkId> {
        self.inner.link_set()
    }

    /// The next node id the graph will issue.
    pub closed spec fn next_index(&self) -> u32 {
        self.inner.next_index()
    }

    /// The graph's invariant: the wrapped storage invariant, and a cache
    /// that holds at most one entry per node.
    pub closed spec fn wf(&self) -> bool {
        &&& self.inner.wf()
        &&& forall|i: int, j: int|
            0 <= i < j < self.cache@.len() ==> (#[trigger] self.cache@[i]).node != (
            #[trigger] self.cache@[j]).node
    }

    /// Creates an empty caching graph.
    pub fn new() -> (r: Self)
        ensures
            r.wf(),
            r.nodes() == Map::<u32, N>::empty(),
            r.link_set() == Set::<NodeLinkId>::empty(),
            r.edges() == Set::<(u32, u32)>::empty(),
            r.next_index() == 0,
    {
        CachedGraph { inner: HashGraph::new(), cache: Vec::new() }
    }

    /// Finds the cache entry of node `id`.
    fn find_slot(&self, id: u32) -> (r: Option<usize>)
        ensures
            match r {
                Some(i) => i < self.cache@.len() && self.cache@[i as int].node == id,
                None => forall|k: int|
                    0 <= k < self.cache@.len() ==> (#[trigger] self.cache@[k]).node != id,
            },
    {
        let n = self.cache.len();
        let mut i: usize = 0;
        while i < n
            invariant
                n == self.cache@.len(),
                0 <= i <= n,
                forall|k: int| 0 <= k < i ==> (#[trigger] self.cache@[k]).node != id,
            decreases n - i,
        {
            if self.cache[i].node == id {
                return Some(i);
            }
            i = i + 1;
        }
        None
    }

    /// With one entry per node, the cached view of a node is exactly the
    /// values of its slot.
    proof fn lemma_cache_entry_at(&self, i: int)
        requires
            self.wf(),
            0 <= i < self.cache@.len(),
        ensures
            self.cache_has(self.cache@[i].node),
            self.cache_entry(self.cache@[i].node) == self.cache@[i].values@,
    {
        let k = self.cache@[i].node;
        assert(self.cache@[i].node == k);
        let j = choose|j: int| 0 <= j < self.cache@.len() && (#[trigger] self.cache@[j]).node == k;
        if j != i {
            if j < i {
                assert(self.cache@[j].node != self.cache@[i].node);
            } else {
                assert(self.cache@[i].node != self.cache@[j].node);
            }
            assert(false);
        }
    }

    /// Drops the cache entry of node `id`, if one is kept; every other
    /// entry is untouched.
    fn drop_slot(&mut self, id: u32)
        requires
            old(self).wf(),
        ensures
            final(self).wf(),
            final(self).inner == old(self).inner,
            !final(self).cache_has(id),
            forall|k: u32|
                k != id ==> #[trigger] final(self).cache_has(k) == old(self).cache_has(k),
            forall|k: u32|
                k != id && #[trigger] final(self).cache_has(k) ==> final(self).cache_entry(k)
                    == old(self).cache_entry(k),
            forall|k: int|
                0 <= k < final(self).cache@.len() ==> (#[trigger] final(self).cache@[k]).node
                    != id,
    {
        let ghost cache0 = self.cache@;
        match self.find_slot(id) {
            Some(i) => {
                self.cache.remove(i);
                proof {
                    assert forall|a: int, b: int| 0 <= a < b < self.cache@.len() implies (
                    #[trigger] self.cache@[a]).node != (#[trigger] self.cache@[b]).node by {
                        assert(self.cache@[a] == cache0.remove(i as int)[a]);
                        assert(self.cache@[b] == cache0.remove(i as int)[b]);
                    }
                    assert forall|k: int| 0 <= k < self.cache@.len() implies (
                    #[trigger] self.cache@[k]).node != id by {
                        if k < i {
                            assert(self.cache@[k] == cache0[k]);
                            if cache0[k].node == id {
                                assert(cache0[k].node != cache0[i as int].node);
                            }
                        } else {
                            assert(self.cache@[k] == cache0[k + 1]);
                            if cache0[k + 1].node == id {
                                assert(cache0[i as int].node != cache0[k + 1].node);
                            }
                        }
                    }
                    if self.cache_has(id) {
                        let k = choose|k: int|
                            0 <= k < self.cache@.len() && (#[trigger] self.cache@[k]).node == id;
                        assert(false);
                    }
                    assert forall|k: u32| k != id implies #[trigger] self.cache_has(k) == old(
                        self,
                    ).cache_has(k) && (self.cache_has(k) ==> self.cache_entry(k) == old(
                        self,
                    ).cache_entry(k)) by {
                        if self.cache_has(k) {
                            let m = choose|m: int|
                                0 <= m < self.cache@.len() && (#[trigger] self.cache@[m]).node
                                    == k;
                            self.lemma_cache_entry_at(m);
                            if m < i {
                                assert(cache0[m].node == k);
                                old(self).lemma_cache_entry_at(m);
                            } else {
                                assert(cache0[m + 1].node == k);
                                old(self).lemma_cache_entry_at(m + 1);
                            }
                        }
                        if old(self).cache_has(k) {
                            let m = choose|m: int|
                                0 <= m < cache0.len() && (#[trigger] cache0[m]).node == k;
                            if m < i {
                                assert(self.cache@[m].node == k);
                                assert(self.cache_has(k));
                            } else {
                                assert(m != i);
                                assert(self.cache@[m - 1].node == k);
                                assert(self.cache_has(k));
                            }
                        }
                    }
                }
            },
            None => {
                proof {
                    if self.cache_has(id) {
                        let k = choose|k: int|
                            0 <= k < self.cache@.len() && (#[trigger] self.cache@[k]).node == id;
                        assert(false);
                    }
                }
            },
        }
    }

    /// Stores `values` as the cached outputs of node `id`, replacing any
    /// older entry and leaving every other entry untouched.
    fn store_slot(&mut self, id: u32, values: SocketValues)
        requires
            old(self).wf(),
        ensures
            final(self).wf(),
            final(self).inner == old(self).inner,
            final(self).cache_has(id),
            final(self).cache_entry(id) == values@,
            forall|k: u32|
                k != id ==> #[trigger] final(self).cache_has(k) == old(self).cache_has(k),
            forall|k: u32|
                k != id && #[trigger] final(self).cache_has(k) ==> final(self).cache_entry(k)
                    == old(self).cache_entry(k),
    {
        self.drop_slot(id);
        let ghost mid = *self;
        let ghost cache1 = self.cache@;
        self.cache.push(CacheSlot { node: id, values });
        proof {
            assert forall|a: int, b: int| 0 <= a < b < self.cache@.len() implies (
            #[trigger] self.cache@[a]).node != (#[trigger] self.cache@[b]).node by {
                if b < cache1.len() {
                    assert(self.cache@[a] == cache1[a] && self.cache@[b] == cache1[b]);
                } else {
                    assert(self.cache@[a] == cache1[a]);
                }
            }
            assert(self.cache@[self.cache@.len() - 1].node == id);
            self.lemma_cache_entry_at(self.cache@.len() - 1);
            assert forall|k: u32| k != id implies #[trigger] self.cache_has(k) == mid.cache_has(k)
                && (self.cache_has(k) ==> self.cache_entry(k) == mid.cache_entry(k)) by {
                if self.cache_has(k) {
                    let m = choose|m: int|
                        0 <= m < self.cache@.len() && (#[trigger] self.cache@[m]).node == k;
                    assert(m < cache1.len());
                    assert(cache1[m].node == k);
                    self.lemma_cache_entry_at(m);
                    mid.lemma_cache_entry_at(m);
                }
                if mid.cache_has(k) {
                    let m = choose|m: int| 0 <= m < cache1.len() && (#[trigger] cache1[m]).node == k;
                    assert(self.cache@[m].node == k);
                    assert(self.cache_has(k));
                }
            }
        }
    }

    /// Drops the cache entries of `start` and of every node reachable
    /// downstream from it along the dependents relation, keeping every
    /// other entry untouched. Each kept slot is checked with the storage
    /// layer's own reachability search.
    #[verifier::rlimit(100)]
    fn invalidate_downstream(&mut self, start: NodeId)
        requires
            old(self).wf(),
        ensures
            final(self).wf(),
            final(self).inner == old(self).inner,
            forall|k: u32| #[trigger]
                final(self).cache_has(k) == (old(self).cache_has(k) && !(k == start.0 || reaches(
                    old(self).inner.edges(),
                    start.0,
                    k,
                ))),
            forall|k: u32| #[trigger]
                final(self).cache_has(k) ==> final(self).cache_entry(k) == old(self).cache_entry(
                    k,
                ),
    {
        let ghost e = self.inner.edges();
        // Snapshot the cached node ids; the sweep below only ever shrinks
        // the cache, so the snapshot covers every entry it could drop.
        let mut ids: Vec<u32> = Vec::new();
        let n_slots = self.cache.len();
        let mut i: usize = 0;
        while i < n_slots
            invariant
                self.wf(),
                self == old(self),
                n_slots == self.cache@.len(),
                0 <= i <= n_slots,
                ids@.len() == i,
                forall|m: int| 0 <= m < i ==> #[trigger] ids@[m] == self.cache@[m].node,
            decreases n_slots - i,
        {
            ids.push(self.cache[i].node);
            i = i + 1;
        }
        proof {
            assert forall|k: u32| #[trigger] old(self).cache_has(k) == ids@.contains(k) by {
                if old(self).cache_has(k) {
                    let m = choose|m: int|
                        0 <= m < self.cache@.len() && (#[trigger] self.cache@[m]).node == k;
                    assert(ids@[m] == k);
                }
                if ids@.contains(k) {
                    let m = choose|m: int| 0 <= m < ids@.len() && ids@[m] == k;
                    assert(self.cache@[m].node == k);
                }
            }
        }
        let present = self.inner.has_node(start);
        proof {
            if !present {
                self.inner.lemma_wf_edges_between_nodes();
                assert forall|k: u32| k != start.0 implies !reaches(e, start.0, k) by {
                    if reaches(e, start.0, k) {
                        let pth = choose|pth: Seq<u32>|
                            crate::paths::is_path(e, pth) && pth.first() == start.0 && pth.last()
                                == k;
                        if pth.len() >= 2 {
                            assert(e.contains((pth[0], pth[1])));
                        }
                    }
                }
            }
        }
        let n_ids = ids.len();
        let mut j: usize = 0;
        while j < n_ids
            invariant
                self.wf(),
                self.inner == old(self).inner,
                e == self.inner.edges(),
                present == self.inner.nodes().dom().contains(start.0),
                !present ==> forall|k: u32| k != start.0 ==> !reaches(e, start.0, k),
                n_ids == ids@.len(),
                0 <= j <= n_ids,
                forall|k: u32| #[trigger] old(self).cache_has(k) == ids@.contains(k),
                forall|k: u32| #[trigger]
                    self.cache_has(k) == (old(self).cache_has(k) && !((k == start.0 || reaches(
                        e,
                        start.0,
                        k,
                    )) && (exists|m: int| 0 <= m < j && #[trigger] ids@[m] == k))),
                forall|k: u32| #[trigger]
                    self.cache_has(k) ==> self.cache_entry(k) == old(self).cache_entry(k),
            decreases n_ids - j,
        {
            let id = ids[j];
            let ghost pre = *self;
            if id == start.0 || (present && self.inner.can_reach(start.0, id)) {
                self.drop_slot(id);
                proof {
                    assert forall|k: u32| #[trigger]
                        self.cache_has(k) == (old(self).cache_has(k) && !((k == start.0 || reaches(
                            e,
                            start.0,
                            k,
                        )) && (exists|m: int| 0 <= m < j + 1 && #[trigger] ids@[m] == k))) by {
                        if k == id {
                            assert(!self.cache_has(k));
                            assert(ids@[j as int] == k);
                        } else {
                            assert(self.cache_has(k) == pre.cache_has(k));
                            if exists|m: int| 0 <= m < j + 1 && #[trigger] ids@[m] == k {
                                let m = choose|m: int| 0 <= m < j + 1 && #[trigger] ids@[m] == k;
                                if m < j {
                                    assert(exists|m2: int|
                                        0 <= m2 < j && #[trigger] ids@[m2] == k);
                                }
                            }
                        }
                    }
                }
            } else {
                proof {
                    assert(!(id == start.0 || reaches(e, start.0, id)));
                    assert forall|k: u32| #[trigger]
                        self.cache_has(k) == (old(self).cache_has(k) && !((k == start.0 || reaches(
                            e,
                            start.0,
                            k,
                        )) && (exists|m: int| 0 <= m < j + 1 && #[trigger] ids@[m] == k))) by {
                        if exists|m: int| 0 <= m < j + 1 && #[trigger] ids@[m] == k {
                            let m = choose|m: int| 0 <= m < j + 1 && #[trigger] ids@[m] == k;
                            if m == j {
                                assert(k == id);
                            } else {
                                assert(exists|m2: int| 0 <= m2 < j && #[trigger] ids@[m2] == k);
                            }
                        }
                    }
                }
            }
            j = j + 1;
        }
        proof {
            assert forall|k: u32| #[trigger]
                self.cache_has(k) == (old(self).cache_has(k) && !(k == start.0 || reaches(
                    e,
                    start.0,
                    k,
                ))) by {
                if old(self).cache_has(k) && (k == start.0 || reaches(e, start.0, k)) {
                    assert(ids@.contains(k));
                    let m = choose|m: int| 0 <= m < ids@.len() && ids@[m] == k;
                    assert(exists|m2: int| 0 <= m2 < n_ids && #[trigger] ids@[m2] == k);
                }
            }
        }
    }

    /// Adds a node to the graph, issuing it a fresh id that no node of    /// Adds a node to the graph, issuing it a fresh id that no node of
    /// this graph has ever carried.
    pub fn insert_node(&mut self, node: N) -> (id: NodeId)
        requires
            old(self).wf(),
            old(self).next_index() < u32::MAX,
        ensures
            final(self).wf(),
            id.0 == old(self).next_index(),
            !old(self).nodes().dom().contains(id.0),
            final(self).nodes() == old(self).nodes().insert(id.0, node),
            final(self).link_set() == old(self).link_set(),
            final(self).edges() == old(self).edges(),
            final(self).next_index() == old(self).next_index() + 1,
    {
        self.inner.insert_node(node)
    }

    /// Removes the node `id` with every link touching it, reporting the
    /// severed links, exactly as [`HashGraph::remove_node`] does, and also
    /// invalidates everything downstream of the removed node.
    pub fn remove_node(&mut self, id: NodeId) -> (r: Option<(N, SeveredLinks)>)
        requires
            old(self).wf(),
        ensures
            final(self).wf(),
            final(self).next_index() == old(self).next_index(),
            match r {
                None => {
                    &&& !old(self).nodes().dom().contains(id.0)
                    &&& final(self).nodes() == old(self).nodes()
                    &&& final(self).link_set() == old(self).link_set()
                },
                Some((node, severed)) => {
                    &&& old(self).nodes().dom().contains(id.0)
                    &&& node == old(self).nodes()[id.0]
                    &&& final(self).nodes() == old(self).nodes().remove(id.0)
                    &&& final(self).link_set() == Set::new(
                        |x: NodeLinkId| old(self).link_set().contains(x) && !touches(x, id),
                    )
                    &&& severed@.no_duplicates()
                    &&& severed@.to_set() == Set::new(
                        |x: NodeLinkId| old(self).link_set().contains(x) && touches(x, id),
                    )
                },
            },
    {
        self.invalidate_downstream(id);
        self.inner.remove_node(id)
    }

    /// Returns `true` if a node with id `id` is present.
    pub fn has_node(&self, id: NodeId) -> (r: bool)
        ensures
            r == self.nodes().dom().contains(id.0),
    {
        self.inner.has_node(id)
    }

    /// Borrows the node with id `id`, if it is present.
    pub fn get_node(&self, id: NodeId) -> (r: Option<NodeRef<'_, N>>)
        ensures
            match r {
                Some(nr) => self.nodes().dom().contains(id.0) && *nr.spec_node()
                    == self.nodes()[id.0],
                None => !self.nodes().dom().contains(id.0),
            },
    {
        self.inner.get_node(id)
    }

    /// Replaces the node stored under `id`, returning the one it held, and
    /// invalidates the cached outputs of `id` and of everything downstream
    /// of it.
    pub fn replace_node(&mut self, id: NodeId, node: N) -> (r: Option<N>)
        requires
            old(self).wf(),
        ensures
            final(self).wf(),
            final(self).next_index() == old(self).next_index(),
            final(self).link_set() == old(self).link_set(),
            final(self).edges() == old(self).edges(),
            match r {
                Some(n) => old(self).nodes().dom().contains(id.0) && n == old(self).nodes()[id.0]
                    && final(self).nodes() == old(self).nodes().insert(id.0, node),
                None => !old(self).nodes().dom().contains(id.0) && final(self).nodes() == old(
                    self,
                ).nodes(),
            },
    {
        self.invalidate_downstream(id);
        self.inner.replace_node(id, node)
    }

    /// The number of nodes the graph holds.
    pub fn node_count(&self) -> (r: usize)
        ensures
            r == self.nodes().dom().len(),
    {
        self.inner.node_count()
    }

    /// Inserts the socket-level link `link` between two present nodes,
    /// refusing it exactly when it would create a cycle, as
    /// [`HashGraph::insert_link`] does. A successful insertion invalidates
    /// the consumer's cached outputs and everything downstream of them.
    pub fn insert_link(&mut self, link: NodeLinkId) -> (r: Result<(), WouldCycle>)
        requires
            old(self).wf(),
            old(self).nodes().dom().contains(link.left.node.0),
            old(self).nodes().dom().contains(link.right.node.0),
        ensures
            final(self).wf(),
            final(self).nodes() == old(self).nodes(),
            final(self).next_index() == old(self).next_index(),
            match r {
                Ok(()) => final(self).link_set() == old(self).link_set().insert(link)
                    && final(self).edges() == old(self).edges().insert(
                    (link.left.node.0, link.right.node.0),
                ),
                Err(e) => final(self).link_set() == old(self).link_set() && final(self).edges()
                    == old(self).edges(),
            },
            (r is Err) == reaches(old(self).edges(), link.right.node.0, link.left.node.0),
    {
        let r = self.inner.insert_link(link);
        if r.is_ok() {
            self.invalidate_downstream(link.right.node);
        }
        r
    }

    /// Removes the socket-level link `link` (a no-op when absent), as
    /// [`HashGraph::remove_link`] does, and invalidates the consumer's
    /// cached outputs and everything downstream of them.
    pub fn remove_link(&mut self, link: NodeLinkId)
        requires
            old(self).wf(),
        ensures
            final(self).wf(),
            final(self).nodes() == old(self).nodes(),
            final(self).next_index() == old(self).next_index(),
            final(self).link_set() == old(self).link_set().remove(link),
    {
        self.inner.remove_link(link);
        self.invalidate_downstream(link.right.node);
    }

    /// Returns `true` if the socket-level link `link` is present.
    pub fn has_link(&self, link: NodeLinkId) -> (r: bool)
        requires
            self.wf(),
        ensures
            r == self.link_set().contains(link),
    {
        self.inner.has_link(link)
    }

    /// Returns `true` if the cached outputs in `values` cover every socket
    /// id of `ids`.
    fn covers(values: &SocketValues, ids: &Vec<SocketId>) -> bool {
        let n = ids.len();
        let mut i: usize = 0;
        while i < n
            invariant
                n == ids@.len(),
                0 <= i <= n,
            decreases n - i,
        {
            if values.get(ids[i]).is_none() {
                return false;
            }
            i = i + 1;
        }
        true
    }

    /// Solves `node` as [`crate::solve::solve_node`] does, but reuses a
    /// node's cached outputs whenever they cover every output its
    /// dependents need, and caches what every executed node produced. As
    /// for the uncached driver, a failure is always the error of one
    /// present node inside the target's dependency closure; a cycle can
    /// never be met.
    pub fn solve_node(&mut self, node: NodeId, outputs: OutputMask<'_>) -> (r: Result<
        SocketValues,
        GraphSolveError,
    >) where N: Node
        requires
            old(self).wf(),
            old(self).nodes().dom().contains(node.0),
            outputs.wf(),
        ensures
            final(self).wf(),
            final(self).nodes() == old(self).nodes(),
            final(self).link_set() == old(self).link_set(),
            final(self).edges() == old(self).edges(),
            final(self).next_index() == old(self).next_index(),
            match r {
                Ok(_) => true,
                Err(e) => e matches GraphSolveError::NodeExecutionFailed { node: f, error: er }
                    && old(self).nodes().dom().contains(f.0) && reaches(
                    reversed(old(self).edges()),
                    node.0,
                    f.0,
                ),
            },
    {
        let order = dependency_order(&self.inner, node);
        let mut resolved: Vec<ResolvedEntry> = Vec::new();
        let n_order = order.len();
        let mut idx: usize = 0;
        while idx < n_order
            invariant
                self.wf(),
                self.inner == old(self).inner,
                self.inner.nodes().dom().contains(node.0),
                outputs.wf(),
                n_order == order@.len(),
                0 <= idx <= n_order,
                order@.no_duplicates(),
                forall|n2: NodeId| #[trigger]
                    order@.contains(n2) == reaches(reversed(self.inner.edges()), node.0, n2.0),
                forall|m: int|
                    0 <= m < order@.len() ==> self.inner.nodes().dom().contains(
                        (#[trigger] order@[m]).0,
                    ),
                forall|m: int, d: u32|
                    0 <= m < order@.len() && #[trigger] self.inner.edges().contains(
                        (d, order@[m].0),
                    ) ==> exists|m2: int| 0 <= m2 < m && (#[trigger] order@[m2]).0 == d,
                resolved@.len() == idx,
                forall|m: int| 0 <= m < idx ==> (#[trigger] resolved@[m]).node == order@[m].0,
                forall|m: int| 0 <= m < idx ==> (#[trigger] order@[m]).0 != node.0,
            decreases n_order - idx,
        {
            let n = order[idx];
            proof {
                assert forall|d: u32| #[trigger]
                    self.inner.edges().contains((d, n.0)) implies exists|i: int|
                    0 <= i < resolved@.len() && (#[trigger] resolved@[i]).node == d by {
                    let m2 = choose|m2: int| 0 <= m2 < idx && (#[trigger] order@[m2]).0 == d;
                    assert(resolved@[m2].node == d);
                }
                assert forall|i: int, j: int| 0 <= i < j < resolved@.len() implies (
                #[trigger] resolved@[i]).node != (#[trigger] resolved@[j]).node by {
                    if resolved@[i].node == resolved@[j].node {
                        assert(order@[i].0 == order@[j].0);
                        assert(NodeId(order@[i].0) == NodeId(order@[j].0));
                        assert(order@[i] == order@[j]);
                    }
                }
            }
            if n.0 == node.0 {
                // The target itself: reuse its cache when it covers the
                // requested outputs, else execute it with the caller's mask.
                proof {
                    assert(self.edges() == self.inner.edges());
                    assert(self.nodes() == self.inner.nodes());
                    lemma_reaches_refl(reversed(self.inner.edges()), node.0);
                }
                let mut wanted: Vec<SocketId> = Vec::new();
                let n_mask = outputs.len();
                let mut w: usize = 0;
                while w < n_mask
                    invariant
                        outputs.wf(),
                        n_mask == outputs@.len(),
                        0 <= w <= n_mask,
                    decreases n_mask - w,
                {
                    wanted.push(outputs.id_at(w));
                    w = w + 1;
                }
                match self.find_slot(n.0) {
                    Some(i) => {
                        if Self::covers(&self.cache[i].values, &wanted) {
                            return Ok(self.cache[i].values.clone());
                        }
                    },
                    None => {
                    },
                }
                let inputs = assemble_inputs(&self.inner, n, &resolved);
                return match execute_node(&self.inner, n, inputs, outputs) {
                    Ok(vals) => {
                        self.store_slot(n.0, vals.clone());
                        Ok(vals)
                    },
                    Err(e) => Err(e),
                };
            }
            let mask_ids = needed_outputs(&self.inner, n);
            let mut reused = false;
            match self.find_slot(n.0) {
                Some(i) => {
                    if Self::covers(&self.cache[i].values, &mask_ids) {
                        resolved.push(
                            ResolvedEntry { node: n.0, values: self.cache[i].values.clone() },
                        );
                        reused = true;
                    }
                },
                None => {
                },
            }
            if !reused {
                let inputs = assemble_inputs(&self.inner, n, &resolved);
                let mask = match OutputMask::new(mask_ids.as_slice()) {
                    Ok(m) => m,
                    Err(_) => {
                        proof {
                            assert(false);
                        }
                        vstd::pervasive::unreached()
                    },
                };
                match execute_node(&self.inner, n, inputs, mask) {
                    Ok(vals) => {
                        self.store_slot(n.0, vals.clone());
                        resolved.push(ResolvedEntry { node: n.0, values: vals });
                    },
                    Err(e) => {
                        proof {
                            assert(order@.contains(order@[idx as int]));
                            assert(self.edges() == self.inner.edges());
                            assert(self.nodes() == self.inner.nodes());
                        }
                        return Err(e);
                    },
                }
            }
            idx = idx + 1;
        }
        proof {
            lemma_reaches_refl(reversed(self.inner.edges()), node.0);
            assert(order@.contains(NodeId(node.0)));
            let m = choose|m: int| 0 <= m < order@.len() && order@[m] == NodeId(node.0);
            assert(order@[m].0 != node.0);
            assert(false);
        }
        vstd::pervasive::unreached()
    }
}

impl<N> CachingGraph for CachedGraph<N> {
    open spec fn cache_wf(&self) -> bool {
        self.wf()
    }

    closed spec fn cache_edges(&self) -> Set<(u32, u32)> {
        self.inner.edges()
    }

    closed spec fn cache_has(&self, k: u32) -> bool {
        exists|i: int| 0 <= i < self.cache@.len() && (#[trigger] self.cache@[i]).node == k
    }

    closed spec fn cache_entry(&self, k: u32) -> Seq<SocketValue> {
        self.cache@[choose|i: int|
            0 <= i < self.cache@.len() && (#[trigger] self.cache@[i]).node == k].values@
    }

    fn clear_cached_output(&mut self, node: NodeId) {
        self.invalidate_downstream(node);
    }
}

} // verus!
