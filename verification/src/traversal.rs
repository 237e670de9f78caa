//! Traversal helpers: the duplicate-rejecting set of visited nodes used by
//! the depth-first walkers and by the cycle check.

use vstd::prelude::*;

use core::marker::PhantomData;

use crate::graph::Graph;
use crate::paths::lemma_closed_set_reach;
use crate::paths::lemma_reaches_edge;
use crate::paths::lemma_reaches_refl;
use crate::paths::lemma_reaches_trans;
use crate::paths::reaches;
use crate::paths::reversed;
use crate::node::NodeId;

verus! {

/// Holds when the node ids of `s` are strictly ascending, which also makes
/// them pairwise distinct.
pub open spec fn ids_sorted(s: Seq<NodeId>) -> bool {
    forall|i: int, j: int| 0 <= i < j < s.len() ==> (#[trigger] s[i]).0 < (#[trigger] s[j]).0
}

/// A strictly ascending id sequence whose ids all lie in a finite set is no
/// longer than that set: traversals that only discover present nodes are
/// bounded by the node count.
pub proof fn lemma_sorted_ids_bounded(s: Seq<NodeId>, d: Set<u32>)
    requires
        ids_sorted(s),
        forall|n: NodeId| s.contains(n) ==> d.contains(n.0),
        d.finite(),
    ensures
        s.len() <= d.len(),
    decreases s.len(),
{
    if s.len() > 0 {
        let last = s.last();
        assert(s.contains(last));
        assert(d.contains(last.0));
        let t = s.drop_last();
        let d2 = d.remove(last.0);
        assert forall|i: int, j: int| 0 <= i < j < t.len() implies (#[trigger] t[i]).0 < (
        #[trigger] t[j]).0 by {
            assert(t[i] == s[i] && t[j] == s[j]);
        }
        assert forall|n: NodeId| t.contains(n) implies d2.contains(n.0) by {
            let i = choose|i: int| 0 <= i < t.len() && t[i] == n;
            assert(s[i] == n);
            assert(s.contains(n));
            assert(s[i].0 < last.0);
        }
        lemma_sorted_ids_bounded(t, d2);
        assert(d2.len() == d.len() - 1);
    }
}

/// A strictly ascending id sequence whose ids are all below `n` is no
/// longer than `n`: traversals over an arena of `n` slots are bounded by
/// the slot count.
pub proof fn lemma_sorted_ids_below(s: Seq<NodeId>, n: int)
    requires
        n >= 0,
        ids_sorted(s),
        forall|m: int| 0 <= m < s.len() ==> (#[trigger] s[m]).0 < n,
    ensures
        s.len() <= n,
    decreases s.len(),
{
    if s.len() > 0 {
        let last = s.last();
        let t = s.drop_last();
        assert forall|i: int, j: int| 0 <= i < j < t.len() implies (#[trigger] t[i]).0 < (
        #[trigger] t[j]).0 by {
            assert(t[i] == s[i] && t[j] == s[j]);
        }
        assert forall|m: int| 0 <= m < t.len() implies (#[trigger] t[m]).0 < last.0 by {
            assert(t[m] == s[m]);
        }
        lemma_sorted_ids_below(t, last.0 as int);
        assert(s[s.len() - 1] == last);
        assert(last.0 < n);
    }
}

/// A sorted, duplicate-rejecting collection of node ids that a traversal
/// has discovered.
pub struct Visited {
    seen: Vec<NodeId>,
}

impl View for Visited {
    type V = Seq<NodeId>;

    closed spec fn view(&self) -> Seq<NodeId> {
        self.seen@
    }
}

impl Visited {
    /// Holds when the collection is strictly ascending by node id.
    pub open spec fn wf(self) -> bool {
        ids_sorted(self@)
    }

    /// Creates an empty collection.
    pub fn new() -> (r: Visited)
        ensures
            r@ == Seq::<NodeId>::empty(),
            r.wf(),
    {
        Visited { seen: Vec::new() }
    }

    /// The number of ids discovered so far.
    pub fn count(&self) -> (r: usize)
        ensures
            r == self@.len(),
    {
        self.seen.len()
    }

    /// Binary search for `id`: `Ok` at its position, `Err` at its insertion
    /// position.
    fn position(&self, id: NodeId) -> (r: Result<usize, usize>)
        requires
            self.wf(),
        ensures
            match r {
                Ok(i) => i < self@.len() && self@[i as int] == id && self@.contains(id),
                Err(i) => {
                    &&& i <= self@.len()
                    &&& !self@.contains(id)
                    &&& forall|k: int| 0 <= k < i ==> (#[trigger] self@[k]).0 < id.0
                    &&& forall|k: int| i <= k < self@.len() ==> id.0 < (#[trigger] self@[k]).0
                },
            },
    {
        let mut lo: usize = 0;
        let mut hi: usize = self.seen.len();
        while lo < hi
            invariant
                self.wf(),
                0 <= lo <= hi <= self@.len(),
                forall|k: int| 0 <= k < lo ==> (#[trigger] self@[k]).0 < id.0,
                forall|k: int| hi <= k < self@.len() ==> id.0 < (#[trigger] self@[k]).0,
            decreases hi - lo,
        {
            let mid = lo + (hi - lo) / 2;
            let v = self.seen[mid].0;
            if v < id.0 {
                lo = mid + 1;
            } else if v > id.0 {
                hi = mid;
            } else {
                proof {
                    assert(self@[mid as int] == id);
                }
                return Ok(mid);
            }
        }
        proof {
            if self@.contains(id) {
                let k = choose|k: int| 0 <= k < self@.len() && self@[k] == id;
                assert(k < lo || lo <= k);
            }
        }
        Err(lo)
    }

    /// Returns `true` if `id` has been discovered.
    pub fn is_visited(&self, id: NodeId) -> (r: bool)
        requires
            self.wf(),
        ensures
            r == self@.contains(id),
    {
        match self.position(id) {
            Ok(_) => true,
            Err(_) => false,
        }
    }

    /// Discovers `id`. Returns `true` if it was new, `false` if it had been
    /// discovered before (in which case nothing changes).
    pub fn visit(&mut self, id: NodeId) -> (was_new: bool)
        requires
            old(self).wf(),
        ensures
            final(self).wf(),
            was_new == !old(self)@.contains(id),
            final(self)@.to_set() == old(self)@.to_set().insert(id),
            !was_new ==> final(self)@ == old(self)@,
            final(self)@.len() == old(self)@.len() + (if was_new {
                1int
            } else {
                0int
            }),
    {
        match self.position(id) {
            Ok(_) => {
                proof {
                    assert(self@.to_set().contains(id));
                    assert(self@.to_set() =~= self@.to_set().insert(id));
                }
                false
            },
            Err(i) => {
                let ghost before = self@;
                self.seen.insert(i, id);
                proof {
                    assert(self@ == before.insert(i as int, id));
                    assert forall|a: int, b: int| 0 <= a < b < self@.len() implies (
                    #[trigger] self@[a]).0 < (#[trigger] self@[b]).0 by {
                        assert(self@[a] == before.insert(i as int, id)[a]);
                        assert(self@[b] == before.insert(i as int, id)[b]);
                    }
                    assert forall|x: NodeId| self@.to_set().contains(x) == before.to_set().insert(
                        id,
                    ).contains(x) by {
                        if self@.contains(x) {
                            let k = choose|k: int| 0 <= k < self@.len() && self@[k] == x;
                            if k < i {
                                assert(before[k] == x);
                            } else if k > i {
                                assert(before[k - 1] == x);
                            }
                        }
                        if before.contains(x) {
                            let k = choose|k: int| 0 <= k < before.len() && before[k] == x;
                            if k < i {
                                assert(self@[k] == x);
                            } else {
                                assert(self@[k + 1] == x);
                            }
                        }
                        assert(self@[i as int] == id);
                        assert(self@.contains(id));
                    }
                    assert(self@.to_set() =~= before.to_set().insert(id));
                }
                true
            },
        }
    }
}

/// A traversal state that holds no borrow of the graph it walks, so the
/// graph stays readable between steps. A walker is single-pass: for a fresh
/// traversal, build a fresh walker. Structural mutation of the graph while
/// a walker is live invalidates what the walker has remembered; step a
/// walker only over the unchanged graph it was built for.
pub trait Walker<G> {
    /// What the walker needs of the graph handed to each step.
    spec fn compatible(&self, graph: &G) -> bool;

    /// The nodes the walker has yielded so far.
    spec fn emitted(&self) -> Set<NodeId>;

    /// Whether the walker may still yield `n`: what each `Some` answer is
    /// drawn from, and what a `None` answer certifies is spent.
    spec fn may_emit(&self, graph: &G, n: NodeId) -> bool;

    /// Walks to the next node, or `None` once the traversal is finished:
    /// every yielded node is fresh and admissible, and `None` certifies
    /// that everything admissible has been yielded — so later calls yield
    /// `None` forever, and the yields never outnumber the admissible
    /// nodes.
    fn next(&mut self, graph: &G) -> (r: Option<NodeId>)
        requires
            old(self).compatible(graph),
        ensures
            final(self).compatible(graph),
            match r {
                Some(n) => !old(self).emitted().contains(n) && old(self).may_emit(graph, n)
                    && final(self).emitted() == old(self).emitted().insert(n),
                None => final(self).emitted() == old(self).emitted() && (forall|m: NodeId|
                    old(self).may_emit(graph, m) ==> old(self).emitted().contains(m)),
            },
    ;
}

/// Graphs that state what a traversal may assume of them.
pub trait Walkable {
    /// What must hold of the graph for its walkers to be built and stepped.
    spec fn walkable(&self) -> bool;

    /// Whether the node is present, as the walk factories see it.
    spec fn walk_node_present(&self, node: NodeId) -> bool;
}

/// Graphs that hand out a walker over everything a node transitively
/// depends on.
pub trait WalkDependencies: Walkable where Self: Sized {
    /// The walker handed out.
    type Walker: Walker<Self>;

    /// Returns a walker over the dependencies of `node`, or `None` if
    /// `node` is absent.
    fn walk_dependencies(&self, node: NodeId) -> (r: Option<Self::Walker>)
        requires
            self.walkable(),
        ensures
            (r is Some) == self.walk_node_present(node),
            match r {
                Some(w) => w.compatible(self) && w.emitted() == Set::<NodeId>::empty(),
                None => true,
            },
    ;
}

/// Graphs that hand out a walker over everything transitively dependent on
/// a node.
pub trait WalkDependents: Walkable where Self: Sized {
    /// The walker handed out.
    type Walker: Walker<Self>;

    /// Returns a walker over the dependents of `node`, or `None` if `node`
    /// is absent.
    fn walk_dependents(&self, node: NodeId) -> (r: Option<Self::Walker>)
        requires
            self.walkable(),
        ensures
            (r is Some) == self.walk_node_present(node),
            match r {
                Some(w) => w.compatible(self) && w.emitted() == Set::<NodeId>::empty(),
                None => true,
            },
    ;
}

/// Graphs that hand out a walker over the direct dependencies of a node,
/// without recursing.
pub trait WalkDirectDependencies: Walkable where Self: Sized {
    /// The walker handed out.
    type Walker: Walker<Self>;

    /// Returns a walker over the direct dependencies of `node`, or `None`
    /// if `node` is absent.
    fn walk_direct_dependencies(&self, node: NodeId) -> (r: Option<Self::Walker>)
        requires
            self.walkable(),
        ensures
            (r is Some) == self.walk_node_present(node),
            match r {
                Some(w) => w.compatible(self) && w.emitted() == Set::<NodeId>::empty(),
                None => true,
            },
    ;
}

/// Graphs that hand out a walker over the nodes directly dependent on a
/// node, without recursing.
pub trait WalkDirectDependents: Walkable where Self: Sized {
    /// The walker handed out.
    type Walker: Walker<Self>;

    /// Returns a walker over the direct dependents of `node`, or `None` if
    /// `node` is absent.
    fn walk_direct_dependents(&self, node: NodeId) -> (r: Option<Self::Walker>)
        requires
            self.walkable(),
        ensures
            (r is Some) == self.walk_node_present(node),
            match r {
                Some(w) => w.compatible(self) && w.emitted() == Set::<NodeId>::empty(),
                None => true,
            },
    ;
}


/// The edge relation a walk follows: the edges themselves when walking
/// downstream (towards dependents), their reversal when walking upstream
/// (towards dependencies).
pub open spec fn walk_dir(e: Set<(u32, u32)>, downstream: bool) -> Set<(u32, u32)> {
    if downstream {
        e
    } else {
        reversed(e)
    }
}

/// A depth-first walker over everything a node transitively depends on,
/// or — walking downstream — over everything that transitively depends on
/// it, for any storage backend. Each reachable node is emitted exactly
/// once, the starting node first.
pub struct GraphDfs<N> {
    stack: Vec<u32>,
    discovered: Visited,
    downstream: bool,
    start: Ghost<NodeId>,
    marker: PhantomData<N>,
}

impl<N> GraphDfs<N> {
    /// The node the walk started from.
    pub closed spec fn start_node(&self) -> NodeId {
        self.start@
    }

    /// Whether the walk follows dependents (downstream) rather than
    /// dependencies.
    pub closed spec fn downstream_walk(&self) -> bool {
        self.downstream
    }

    /// The nodes the walk has yielded so far.
    pub closed spec fn emitted_nodes(&self) -> Set<NodeId> {
        self.discovered@.to_set()
    }

    /// A walker over the dependency closure of `start`.
    pub fn dependencies_of<G: Graph<N>>(graph: &G, start: NodeId) -> (r: GraphDfs<N>)
        requires
            graph.wf(),
            graph.nodes().dom().contains(start.0),
        ensures
            r.compatible(graph),
            r.emitted_nodes() == Set::<NodeId>::empty(),
            r.start_node() == start,
            !r.downstream_walk(),
    {
        let mut stack: Vec<u32> = Vec::new();
        stack.push(start.0);
        let r = GraphDfs {
            stack,
            discovered: Visited::new(),
            downstream: false,
            start: Ghost(start),
            marker: PhantomData,
        };
        proof {
            assert(r.stack@ =~= seq![start.0]);
            assert(r.stack@[0] == start.0);
            assert(r.stack@.contains(start.0));
            lemma_reaches_refl(walk_dir(graph.edges(), false), start.0);
            assert(r.emitted_nodes() =~= Set::<NodeId>::empty());
        }
        r
    }

    /// A walker over the dependent closure of `start`.
    pub fn dependents_of<G: Graph<N>>(graph: &G, start: NodeId) -> (r: GraphDfs<N>)
        requires
            graph.wf(),
            graph.nodes().dom().contains(start.0),
        ensures
            r.compatible(graph),
            r.emitted_nodes() == Set::<NodeId>::empty(),
            r.start_node() == start,
            r.downstream_walk(),
    {
        let mut stack: Vec<u32> = Vec::new();
        stack.push(start.0);
        let r = GraphDfs {
            stack,
            discovered: Visited::new(),
            downstream: true,
            start: Ghost(start),
            marker: PhantomData,
        };
        proof {
            assert(r.stack@ =~= seq![start.0]);
            assert(r.stack@[0] == start.0);
            assert(r.stack@.contains(start.0));
            lemma_reaches_refl(walk_dir(graph.edges(), true), start.0);
            assert(r.emitted_nodes() =~= Set::<NodeId>::empty());
        }
        r
    }
}

impl<N, G: Graph<N>> Walker<G> for GraphDfs<N> {
    closed spec fn compatible(&self, graph: &G) -> bool {
        let e = walk_dir(graph.edges(), self.downstream);
        &&& graph.wf()
        &&& self.discovered.wf()
        &&& forall|k: int|
            0 <= k < self.stack@.len() ==> graph.nodes().dom().contains(#[trigger] self.stack@[k])
        &&& forall|n: NodeId| #[trigger]
            self.discovered@.contains(n) ==> graph.nodes().dom().contains(n.0)
        &&& forall|n: NodeId| #[trigger]
            self.discovered@.contains(n) ==> reaches(e, self.start@.0, n.0)
        &&& forall|k: int|
            0 <= k < self.stack@.len() ==> reaches(e, self.start@.0, #[trigger] self.stack@[k])
        &&& (self.stack@.contains(self.start@.0) || self.discovered@.contains(self.start@))
        &&& forall|x: u32, y: u32|
            self.discovered@.contains(NodeId(x)) && #[trigger] e.contains((x, y))
                ==> self.discovered@.contains(NodeId(y)) || self.stack@.contains(y)
        &&& (self.discovered@.len() == 0 ==> self.stack@ == seq![self.start@.0])
    }

    open spec fn emitted(&self) -> Set<NodeId> {
        self.emitted_nodes()
    }

    open spec fn may_emit(&self, graph: &G, n: NodeId) -> bool {
        &&& reaches(walk_dir(graph.edges(), self.downstream_walk()), self.start_node().0, n.0)
        &&& (self.emitted_nodes() == Set::<NodeId>::empty() ==> n == self.start_node())
    }

    #[verifier::rlimit(100)]
    fn next(&mut self, graph: &G) -> (r: Option<NodeId>) {
        let ghost e = walk_dir(graph.edges(), self.downstream);
        let ghost dom = graph.nodes().dom();
        let ghost start = self.start@;
        while self.stack.len() > 0
            invariant
                graph.wf(),
                e == walk_dir(graph.edges(), self.downstream),
                dom == graph.nodes().dom(),
                start == self.start@,
                self.downstream == old(self).downstream,
                self.start == old(self).start,
                self.discovered@ == old(self).discovered@,
                self.discovered.wf(),
                forall|k: int|
                    0 <= k < self.stack@.len() ==> dom.contains(#[trigger] self.stack@[k]),
                forall|n: NodeId| #[trigger] self.discovered@.contains(n) ==> dom.contains(n.0),
                forall|n: NodeId| #[trigger]
                    self.discovered@.contains(n) ==> reaches(e, start.0, n.0),
                forall|k: int|
                    0 <= k < self.stack@.len() ==> reaches(e, start.0, #[trigger] self.stack@[k]),
                self.stack@.contains(start.0) || self.discovered@.contains(start),
                forall|x: u32, y: u32|
                    self.discovered@.contains(NodeId(x)) && #[trigger] e.contains((x, y))
                        ==> self.discovered@.contains(NodeId(y)) || self.stack@.contains(y),
                (self.discovered@.len() == 0 ==> self.stack@ == seq![start.0]),
            decreases self.stack@.len(),
        {
            let ghost stack0 = self.stack@;
            let node = match self.stack.pop() {
                Some(n) => n,
                None => {
                    proof {
                        assert(false);
                    }
                    0
                },
            };
            proof {
                assert(node == stack0[stack0.len() - 1]);
                assert(dom.contains(stack0[stack0.len() - 1]));
                assert(reaches(e, start.0, node));
                assert forall|y: u32| stack0.contains(y) implies self.stack@.contains(y) || y
                    == node by {
                    let k = choose|k: int| 0 <= k < stack0.len() && stack0[k] == y;
                    if k < stack0.len() - 1 {
                        assert(self.stack@[k] == y);
                    }
                }
            }
            let ghost vis0 = self.discovered@;
            if self.discovered.visit(NodeId(node)) {
                proof {
                    assert(self.discovered@.contains(NodeId(node))) by {
                        assert(self.discovered@.to_set().contains(NodeId(node)));
                    }
                    assert forall|n: NodeId| #[trigger]
                        self.discovered@.contains(n) implies dom.contains(n.0) && reaches(
                        e,
                        start.0,
                        n.0,
                    ) by {
                        assert(self.discovered@.to_set().contains(n));
                        if n != NodeId(node) {
                            assert(vis0.to_set().contains(n));
                            assert(vis0.contains(n));
                        }
                    }
                    graph.lemma_wf_edges_between_nodes();
                    if vis0.len() == 0 {
                        assert(stack0 == seq![start.0]);
                        assert(node == start.0);
                    }
                    assert forall|x: u32, y: u32|
                        self.discovered@.contains(NodeId(x)) && x != node && #[trigger] e.contains(
                            (x, y),
                        ) implies self.discovered@.contains(NodeId(y)) || self.stack@.contains(
                        y,
                    ) by {
                        assert(self.discovered@.to_set().contains(NodeId(x)));
                        assert(vis0.to_set().contains(NodeId(x)));
                        assert(vis0.contains(NodeId(x)));
                        assert(vis0.contains(NodeId(y)) || stack0.contains(y));
                        if vis0.contains(NodeId(y)) {
                            assert(self.discovered@.to_set().contains(NodeId(y)));
                        } else {
                            assert(self.stack@.contains(y) || y == node);
                        }
                    }
                    assert(self.stack@.contains(start.0) || self.discovered@.contains(start)) by {
                        if vis0.contains(start) {
                            assert(vis0.to_set().contains(start));
                            assert(self.discovered@.to_set().contains(start));
                            assert(self.discovered@.contains(start));
                        } else {
                            assert(stack0.contains(start.0));
                            if !self.stack@.contains(start.0) {
                                assert(start.0 == node);
                                assert(self.discovered@.contains(NodeId(node)));
                            }
                        }
                    }
                }
                let neigh = if self.downstream {
                    graph.iter_direct_dependents(NodeId(node))
                } else {
                    graph.iter_direct_dependencies(NodeId(node))
                };
                proof {
                    assert forall|m: int| 0 <= m < neigh@.len() implies dom.contains(
                        (#[trigger] neigh@[m]).0,
                    ) && e.contains((node, neigh@[m].0)) by {
                        assert(neigh@.contains(neigh@[m]));
                        if self.downstream {
                            assert(graph.edges().contains((node, neigh@[m].0)));
                        } else {
                            assert(graph.edges().contains((neigh@[m].0, node)));
                        }
                    }
                }
                let n_neigh = neigh.len();
                let mut k: usize = 0;
                while k < n_neigh
                    invariant
                        graph.wf(),
                        e == walk_dir(graph.edges(), self.downstream),
                        dom == graph.nodes().dom(),
                        start == self.start@,
                        self.downstream == old(self).downstream,
                        self.start == old(self).start,
                        n_neigh == neigh@.len(),
                        0 <= k <= n_neigh,
                        self.discovered.wf(),
                        self.discovered@.contains(NodeId(node)),
                        reaches(e, start.0, node),
                        forall|m: int|
                            0 <= m < neigh@.len() ==> dom.contains((#[trigger] neigh@[m]).0)
                                && e.contains((node, neigh@[m].0)),
                        forall|k2: int|
                            0 <= k2 < self.stack@.len() ==> dom.contains(#[trigger] self.stack@[k2]),
                        forall|n: NodeId| #[trigger]
                            self.discovered@.contains(n) ==> dom.contains(n.0),
                        forall|n: NodeId| #[trigger]
                            self.discovered@.contains(n) ==> reaches(e, start.0, n.0),
                        forall|k2: int|
                            0 <= k2 < self.stack@.len() ==> reaches(
                                e,
                                start.0,
                                #[trigger] self.stack@[k2],
                            ),
                        self.stack@.contains(start.0) || self.discovered@.contains(start),
                        forall|x: u32, y: u32|
                            self.discovered@.contains(NodeId(x)) && x != node && #[trigger]
                                e.contains((x, y)) ==> self.discovered@.contains(NodeId(y))
                                || self.stack@.contains(y),
                        forall|k2: int|
                            0 <= k2 < k ==> self.discovered@.contains(#[trigger] neigh@[k2])
                                || self.stack@.contains(neigh@[k2].0),
                        self.discovered@.to_set() == vis0.to_set().insert(NodeId(node)),
                        !vis0.contains(NodeId(node)),
                        vis0.len() == 0 ==> node == start.0,
                        vis0 == old(self).discovered@,
                    decreases n_neigh - k,
                {
                    let ghost stack1 = self.stack@;
                    let nd = neigh[k];
                    if !self.discovered.is_visited(nd) {
                        proof {
                            lemma_reaches_edge(e, node, nd.0);
                            lemma_reaches_trans(e, start.0, node, nd.0);
                        }
                        self.stack.push(nd.0);
                        proof {
                            assert forall|k2: int|
                                0 <= k2 < self.stack@.len() implies dom.contains(
                                #[trigger] self.stack@[k2],
                            ) && reaches(e, start.0, self.stack@[k2]) by {
                                if k2 < stack1.len() {
                                    assert(self.stack@[k2] == stack1[k2]);
                                } else {
                                    assert(self.stack@[k2] == nd.0);
                                }
                            }
                            assert forall|y: u32| stack1.contains(y) implies self.stack@.contains(
                                y,
                            ) by {
                                let k2 = choose|k2: int| 0 <= k2 < stack1.len() && stack1[k2] == y;
                                assert(self.stack@[k2] == y);
                            }
                            assert(self.stack@[self.stack@.len() - 1] == nd.0);
                            assert(self.stack@.contains(nd.0));
                        }
                    }
                    k = k + 1;
                }
                proof {
                    assert forall|x: u32, y: u32|
                        self.discovered@.contains(NodeId(x)) && #[trigger] e.contains(
                            (x, y),
                        ) implies self.discovered@.contains(NodeId(y)) || self.stack@.contains(
                        y,
                    ) by {
                        if x == node {
                            if self.downstream {
                                assert(graph.edges().contains((x, y)));
                            } else {
                                assert(graph.edges().contains((y, x)));
                            }
                            assert(neigh@.contains(NodeId(y)));
                            let i = choose|i: int|
                                0 <= i < neigh@.len() && (#[trigger] neigh@[i]) == NodeId(y);
                            assert(self.discovered@.contains(neigh@[i]) || self.stack@.contains(
                                neigh@[i].0,
                            ));
                        }
                    }
                    assert(self.emitted_nodes() == vis0.to_set().insert(NodeId(node)));
                    assert(!vis0.to_set().contains(NodeId(node)));
                    if old(self).emitted_nodes() == Set::<NodeId>::empty() {
                        if vis0.len() > 0 {
                            assert(vis0.contains(vis0[0]));
                            assert(vis0.to_set().contains(vis0[0]));
                        }
                        assert(NodeId(node) == start);
                    }
                }
                return Some(NodeId(node));
            } else {
                proof {
                    assert(self.discovered@ == vis0);
                    assert forall|x: u32, y: u32|
                        self.discovered@.contains(NodeId(x)) && #[trigger] e.contains(
                            (x, y),
                        ) implies self.discovered@.contains(NodeId(y)) || self.stack@.contains(
                        y,
                    ) by {
                        assert(vis0.contains(NodeId(y)) || stack0.contains(y));
                        if !vis0.contains(NodeId(y)) {
                            assert(self.stack@.contains(y) || y == node);
                            assert(vis0.contains(NodeId(node)));
                        }
                    }
                    assert(self.stack@.contains(start.0) || self.discovered@.contains(start)) by {
                        if !vis0.contains(start) {
                            assert(stack0.contains(start.0));
                            if !self.stack@.contains(start.0) {
                                assert(start.0 == node);
                                assert(vis0.contains(NodeId(node)));
                            }
                        }
                    }
                    assert(vis0.len() > 0) by {
                        assert(vis0.contains(NodeId(node)));
                    }
                }
            }
        }
        proof {
            let su = Set::new(|x: u32| self.discovered@.contains(NodeId(x)));
            assert forall|x: u32, y: u32| su.contains(x) && #[trigger] e.contains(
                (x, y),
            ) implies su.contains(y) by {
                assert(self.discovered@.contains(NodeId(x)));
                assert(self.discovered@.contains(NodeId(y)) || self.stack@.contains(y));
                assert(self.discovered@.contains(NodeId(y)));
            }
            assert forall|m: NodeId| old(self).may_emit(graph, m) implies old(
                self,
            ).emitted_nodes().contains(m) by {
                if self.discovered@.len() == 0 {
                    assert(self.stack@ == seq![start.0]);
                    assert(false);
                }
                assert(self.discovered@.contains(start));
                if old(self).emitted_nodes() == Set::<NodeId>::empty() {
                    assert(self.discovered@.to_set().contains(start));
                    assert(false);
                }
                assert(reaches(e, start.0, m.0));
                assert(su.contains(start.0));
                lemma_closed_set_reach(e, su, start.0, m.0);
                assert(su.contains(m.0));
                assert(self.discovered@.contains(NodeId(m.0)));
                assert(NodeId(m.0) == m);
                assert(self.discovered@.to_set().contains(m));
            }
        }
        None
    }
}

/// A walker over a fixed, duplicate-free list of nodes, used for the
/// single-hop traversals.
pub struct GraphDirectWalk {
    items: Vec<NodeId>,
    index: usize,
}

impl GraphDirectWalk {
    #[verifier::type_invariant]
    spec fn inv(self) -> bool {
        self.index <= self.items@.len() && self.items@.no_duplicates()
    }

    /// The nodes not yet handed out, in order.
    pub closed spec fn pending(&self) -> Seq<NodeId> {
        self.items@.skip(self.index as int)
    }

    /// A walker that hands out exactly the given nodes, in order.
    pub fn over(items: Vec<NodeId>) -> (r: GraphDirectWalk)
        requires
            items@.no_duplicates(),
        ensures
            r.pending() == items@,
            r.emitted_set() == Set::<NodeId>::empty(),
    {
        let r = GraphDirectWalk { items, index: 0 };
        proof {
            assert(r.pending() =~= r.items@);
            assert(r.items@.take(0) =~= Seq::<NodeId>::empty());
            assert(r.emitted_set() =~= Set::<NodeId>::empty());
        }
        r
    }

    /// The nodes handed out so far.
    pub closed spec fn emitted_set(&self) -> Set<NodeId> {
        self.items@.take(self.index as int).to_set()
    }
}

impl<G> Walker<G> for GraphDirectWalk {
    open spec fn compatible(&self, graph: &G) -> bool {
        true
    }

    open spec fn emitted(&self) -> Set<NodeId> {
        self.emitted_set()
    }

    open spec fn may_emit(&self, graph: &G, n: NodeId) -> bool {
        self.pending().contains(n)
    }

    fn next(&mut self, graph: &G) -> (r: Option<NodeId>) {
        proof {
            use_type_invariant(&*self);
        }
        let ghost items = self.items@;
        let ghost idx0 = self.index as int;
        if self.index < self.items.len() {
            let nd = self.items[self.index];
            self.index = self.index + 1;
            proof {
                assert(nd == items[idx0]);
                if items.take(idx0).to_set().contains(nd) {
                    let pre = items.take(idx0);
                    let j = choose|j: int| 0 <= j < pre.len() && pre[j] == nd;
                    assert(items[j] == nd);
                    assert(false);
                }
                assert(old(self).pending().contains(old(self).pending()[0]));
                assert(old(self).pending()[0] == nd) by {
                    assert(items.skip(idx0)[0] == items[idx0]);
                }
                assert forall|x: NodeId|
                    items.take(idx0 + 1).to_set().contains(x) == items.take(idx0).to_set().insert(
                        nd,
                    ).contains(x) by {
                    let up = items.take(idx0 + 1);
                    if up.contains(x) {
                        let j = choose|j: int| 0 <= j < up.len() && up[j] == x;
                        if j < idx0 {
                            assert(items.take(idx0)[j] == x);
                        } else {
                            assert(x == nd);
                        }
                    }
                    let lo_seq = items.take(idx0);
                    if lo_seq.contains(x) {
                        let j = choose|j: int| 0 <= j < lo_seq.len() && lo_seq[j] == x;
                        assert(up[j] == x);
                    }
                    if x == nd {
                        assert(up[idx0] == x);
                        assert(up.contains(x));
                    }
                }
                assert(self.emitted_set() =~= old(self).emitted_set().insert(nd));
            }
            Some(nd)
        } else {
            proof {
                assert(self.pending() =~= Seq::<NodeId>::empty());
                assert forall|m: NodeId| old(self).may_emit(graph, m) implies old(
                    self,
                ).emitted_set().contains(m) by {
                    assert(old(self).pending().contains(m));
                    let j = choose|j: int|
                        0 <= j < old(self).pending().len() && old(self).pending()[j] == m;
                }
            }
            None
        }
    }
}

} // verus!
