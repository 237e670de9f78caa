//! The solve protocol: computing a node's requested outputs by resolving
//! its dependency subgraph in dependency order, over any storage backend
//! that implements the [`Graph`] contract.
//!
//! The driver collects the target's dependency closure, then lines it up
//! dependencies-first — the order is proved to exist because the stored
//! edge relation is acyclic — and executes each node at most once: its
//! inputs are assembled from the resolved outputs of its direct
//! dependencies, matched link by link, and it is handed a mask naming only
//! the outputs its dependents actually consume. A failing node aborts the
//! whole solve, tagged with its id; nothing is substituted for a missing
//! value, and a cycle can provably never be met.

use vstd::prelude::*;

use crate::errors::GraphSolveError;
use crate::graph::Graph;
use crate::node::Node;
use crate::node::NodeId;
use crate::paths::lemma_closed_set_reach;
use crate::paths::lemma_acyclic_pick;
use crate::paths::lemma_reaches_edge;
use crate::paths::lemma_reaches_refl;
use crate::paths::lemma_reaches_trans;
use crate::paths::reaches;
use crate::paths::reversed;
use crate::socket::sorted_strict;
use crate::socket::OutputMask;
use crate::socket::SocketId;
use crate::socket::SocketKeyed;
use crate::socket::NodeLinkId;
use crate::socket::NodeSocketId;
use crate::socket::SocketLinkId;
use crate::socket::SocketValue;
use crate::socket::SocketValues;
use crate::traversal::lemma_sorted_ids_bounded;
use crate::traversal::Visited;

verus! {

/// The resolved outputs of one node, kept while a solve is in flight.
pub(crate) struct ResolvedEntry {
    pub(crate) node: u32,
    pub(crate) values: SocketValues,
}

/// Finds the resolved outputs of node `id`, if it has been executed.
pub(crate) fn find_resolved(resolved: &Vec<ResolvedEntry>, id: u32) -> (r: Option<&SocketValues>)
    ensures
        match r {
            Some(v) => exists|i: int|
                0 <= i < resolved@.len() && (#[trigger] resolved@[i]).node == id && *v
                    == resolved@[i].values,
            None => forall|i: int|
                0 <= i < resolved@.len() ==> (#[trigger] resolved@[i]).node != id,
        },
{
    let n = resolved.len();
    let mut i: usize = 0;
    while i < n
        invariant
            n == resolved@.len(),
            0 <= i <= n,
            forall|k: int| 0 <= k < i ==> (#[trigger] resolved@[k]).node != id,
        decreases n - i,
    {
        if resolved[i].node == id {
            return Some(&resolved[i].values);
        }
        i = i + 1;
    }
    None
}

/// Holds when the values `vs` bind socket `t`.
pub open spec fn values_bind(vs: Seq<SocketValue>, t: SocketId) -> bool {
    exists|j: int| 0 <= j < vs.len() && (#[trigger] vs[j]).id == t
}

/// The socket-level link from output `p.from` of node `d` into input
/// `p.to` of node `n`.
pub open spec fn link_of(d: NodeId, n: NodeId, p: SocketLinkId) -> NodeLinkId {
    NodeLinkId {
        left: NodeSocketId { node: d, socket: p.from },
        right: NodeSocketId { node: n, socket: p.to },
    }
}

/// Holds when the resolved entries hold outputs of node `d` that bind
/// socket `f`.
pub(crate) open spec fn resolved_has(rs: Seq<ResolvedEntry>, d: u32, f: SocketId) -> bool {
    exists|i: int|
        0 <= i < rs.len() && (#[trigger] rs[i]).node == d && values_bind(rs[i].values@, f)
}

/// Inserts `id` into a strictly ascending id list, keeping it ascending;
/// an id already present is left alone.
pub(crate) fn sorted_insert_socket(v: &mut Vec<SocketId>, id: SocketId)
    requires
        sorted_strict(old(v)@),
    ensures
        sorted_strict(final(v)@),
{
    let n = v.len();
    let mut lo: usize = 0;
    let mut hi: usize = n;
    while lo < hi
        invariant
            sorted_strict(v@),
            0 <= lo <= hi <= v@.len(),
            forall|k: int| 0 <= k < lo ==> (#[trigger] v@[k]).0 < id.0,
            forall|k: int| hi <= k < v@.len() ==> id.0 < (#[trigger] v@[k]).0,
        decreases hi - lo,
    {
        let mid = lo + (hi - lo) / 2;
        let w = v[mid].0;
        if w < id.0 {
            proof {
                assert forall|k: int| 0 <= k < mid + 1 implies (#[trigger] v@[k]).0 < id.0 by {
                    if k < mid {
                        assert(v@[k].skey() < v@[mid as int].skey());
                    }
                }
            }
            lo = mid + 1;
        } else if w > id.0 {
            proof {
                assert forall|k: int| mid <= k < v@.len() implies id.0 < (#[trigger] v@[k]).0 by {
                    if k > mid {
                        assert(v@[mid as int].skey() < v@[k].skey());
                    }
                }
            }
            hi = mid;
        } else {
            return ;
        }
    }
    let ghost before = v@;
    v.insert(lo, id);
    proof {
        assert forall|a: int, b: int| 0 <= a < b < v@.len() implies (#[trigger] v@[a]).skey() < (
        #[trigger] v@[b]).skey() by {
            assert(v@[a] == before.insert(lo as int, id)[a]);
            assert(v@[b] == before.insert(lo as int, id)[b]);
        }
    }
}

/// Inserts a socket value into a list strictly ascending by socket id,
/// keeping it ascending; a socket that already has a value keeps its first
/// one.
pub(crate) fn sorted_insert_value(v: &mut Vec<SocketValue>, sv: SocketValue)
    requires
        sorted_strict(old(v)@),
    ensures
        sorted_strict(final(v)@),
        forall|t: SocketId| #[trigger]
            values_bind(final(v)@, t) == (values_bind(old(v)@, t) || t == sv.id),
{
    let n = v.len();
    let mut lo: usize = 0;
    let mut hi: usize = n;
    while lo < hi
        invariant
            sorted_strict(v@),
            0 <= lo <= hi <= v@.len(),
            forall|k: int| 0 <= k < lo ==> (#[trigger] v@[k]).id.0 < sv.id.0,
            forall|k: int| hi <= k < v@.len() ==> sv.id.0 < (#[trigger] v@[k]).id.0,
        decreases hi - lo,
    {
        let mid = lo + (hi - lo) / 2;
        let w = v[mid].id.0;
        if w < sv.id.0 {
            proof {
                assert forall|k: int| 0 <= k < mid + 1 implies (#[trigger] v@[k]).id.0
                    < sv.id.0 by {
                    if k < mid {
                        assert(v@[k].skey() < v@[mid as int].skey());
                    }
                }
            }
            lo = mid + 1;
        } else if w > sv.id.0 {
            proof {
                assert forall|k: int| mid <= k < v@.len() implies sv.id.0 < (
                #[trigger] v@[k]).id.0 by {
                    if k > mid {
                        assert(v@[mid as int].skey() < v@[k].skey());
                    }
                }
            }
            hi = mid;
        } else {
            proof {
                assert(v@[mid as int].id == sv.id);
                assert forall|t: SocketId| #[trigger]
                    values_bind(v@, t) == (values_bind(old(v)@, t) || t == sv.id) by {
                    if t == sv.id {
                        assert(values_bind(v@, t));
                    }
                }
            }
            return ;
        }
    }
    let ghost before = v@;
    v.insert(lo, sv);
    proof {
        assert forall|a: int, b: int| 0 <= a < b < v@.len() implies (#[trigger] v@[a]).skey() < (
        #[trigger] v@[b]).skey() by {
            assert(v@[a] == before.insert(lo as int, sv)[a]);
            assert(v@[b] == before.insert(lo as int, sv)[b]);
        }
        assert forall|t: SocketId| #[trigger]
            values_bind(v@, t) == (values_bind(before, t) || t == sv.id) by {
            if values_bind(v@, t) {
                let j = choose|j: int| 0 <= j < v@.len() && (#[trigger] v@[j]).id == t;
                if j < lo {
                    assert(before[j].id == t);
                } else if j > lo {
                    assert(before[j - 1].id == t);
                } else {
                    assert(t == sv.id);
                }
            }
            if values_bind(before, t) {
                let j = choose|j: int| 0 <= j < before.len() && (#[trigger] before[j]).id == t;
                if j < lo {
                    assert(v@[j].id == t);
                } else {
                    assert(v@[j + 1].id == t);
                }
            }
            if t == sv.id {
                assert(v@[lo as int].id == t);
            }
        }
    }
}

/// Returns `true` if every node of `deps` has been emitted.
fn all_emitted(emitted: &Visited, deps: &Vec<NodeId>) -> (r: bool)
    requires
        emitted.wf(),
    ensures
        r == (forall|m: int| 0 <= m < deps@.len() ==> emitted@.contains(#[trigger] deps@[m])),
{
    let n = deps.len();
    let mut m: usize = 0;
    while m < n
        invariant
            emitted.wf(),
            n == deps@.len(),
            0 <= m <= n,
            forall|k: int| 0 <= k < m ==> emitted@.contains(#[trigger] deps@[k]),
        decreases n - m,
    {
        if !emitted.is_visited(deps[m]) {
            return false;
        }
        m = m + 1;
    }
    true
}

/// Collects the target's dependency closure: every node the target
/// transitively depends on, the target itself included, each exactly once.
fn dependency_closure<N, G: Graph<N>>(graph: &G, target: NodeId) -> (r: Vec<NodeId>)
    requires
        graph.wf(),
        graph.nodes().dom().contains(target.0),
    ensures
        forall|n: NodeId| #[trigger]
            r@.contains(n) == reaches(reversed(graph.edges()), target.0, n.0),
        r@.no_duplicates(),
        forall|m: int| 0 <= m < r@.len() ==> graph.nodes().dom().contains((#[trigger] r@[m]).0),
{
    let ghost e = reversed(graph.edges());
    let ghost dom = graph.nodes().dom();
    let mut out: Vec<NodeId> = Vec::new();
    let mut visited = Visited::new();
    let mut stack: Vec<u32> = Vec::new();
    stack.push(target.0);
    proof {
        lemma_reaches_refl(e, target.0);
        assert(stack@[stack@.len() - 1] == target.0);
        assert(stack@.contains(target.0));
    }
    while stack.len() > 0
        invariant
            graph.wf(),
            e == reversed(graph.edges()),
            dom == graph.nodes().dom(),
            dom.contains(target.0),
            visited.wf(),
            forall|n: NodeId| #[trigger] visited@.contains(n) ==> dom.contains(n.0),
            forall|k: int| 0 <= k < stack@.len() ==> dom.contains(#[trigger] stack@[k]),
            forall|n: NodeId| #[trigger] visited@.contains(n) ==> reaches(e, target.0, n.0),
            forall|k: int| 0 <= k < stack@.len() ==> reaches(e, target.0, #[trigger] stack@[k]),
            stack@.contains(target.0) || visited@.contains(NodeId(target.0)),
            forall|x: u32, y: u32|
                visited@.contains(NodeId(x)) && #[trigger] e.contains((x, y))
                    ==> visited@.contains(NodeId(y)) || stack@.contains(y),
            visited@.len() <= dom.len(),
            forall|x: NodeId| #[trigger] out@.contains(x) == visited@.contains(x),
            out@.no_duplicates(),
        decreases dom.len() - visited@.len(), stack@.len(),
    {
        let ghost stack0 = stack@;
        let node = match stack.pop() {
            Some(n) => n,
            None => {
                proof {
                    assert(false);
                }
                0
            },
        };
        proof {
            assert(node == stack0[stack0.len() - 1]);
            assert(reaches(e, target.0, node));
            assert(dom.contains(stack0[stack0.len() - 1]));
            assert forall|y: u32| stack0.contains(y) implies stack@.contains(y) || y == node by {
                let k = choose|k: int| 0 <= k < stack0.len() && stack0[k] == y;
                if k < stack0.len() - 1 {
                    assert(stack@[k] == y);
                }
            }
        }
        let ghost vis0 = visited@;
        let ghost out0 = out@;
        if visited.visit(NodeId(node)) {
            out.push(NodeId(node));
            proof {
                assert(visited@.contains(NodeId(node))) by {
                    assert(visited@.to_set().contains(NodeId(node)));
                }
                assert forall|n: NodeId| #[trigger] visited@.contains(n) implies dom.contains(n.0)
                    && reaches(e, target.0, n.0) by {
                    assert(visited@.to_set().contains(n));
                    if n != NodeId(node) {
                        assert(vis0.to_set().contains(n));
                        assert(vis0.contains(n));
                    }
                }
                graph.lemma_nodes_finite();
                lemma_sorted_ids_bounded(visited@, dom);
                assert forall|x: u32, y: u32|
                    visited@.contains(NodeId(x)) && x != node && #[trigger] e.contains(
                        (x, y),
                    ) implies visited@.contains(NodeId(y)) || stack@.contains(y) by {
                    assert(visited@.to_set().contains(NodeId(x)));
                    assert(vis0.to_set().contains(NodeId(x)));
                    assert(vis0.contains(NodeId(x)));
                    assert(vis0.contains(NodeId(y)) || stack0.contains(y));
                    if vis0.contains(NodeId(y)) {
                        assert(visited@.to_set().contains(NodeId(y)));
                    } else {
                        assert(stack@.contains(y) || y == node);
                    }
                }
                assert(stack@.contains(target.0) || visited@.contains(NodeId(target.0))) by {
                    if vis0.contains(NodeId(target.0)) {
                        assert(vis0.to_set().contains(NodeId(target.0)));
                        assert(visited@.to_set().contains(NodeId(target.0)));
                        assert(visited@.contains(NodeId(target.0)));
                    } else {
                        assert(stack0.contains(target.0));
                        if !stack@.contains(target.0) {
                            assert(target.0 == node);
                            assert(visited@.contains(NodeId(node)));
                        }
                    }
                }
                assert forall|x: NodeId| #[trigger] out@.contains(x) == visited@.contains(x) by {
                    if out@.contains(x) {
                        let m = choose|m: int| 0 <= m < out@.len() && out@[m] == x;
                        if m < out0.len() {
                            assert(out0[m] == x);
                            assert(out0.contains(x));
                            assert(vis0.contains(x));
                            assert(vis0.to_set().contains(x));
                            assert(visited@.to_set().contains(x));
                        } else {
                            assert(x == NodeId(node));
                        }
                    }
                    if visited@.contains(x) {
                        assert(visited@.to_set().contains(x));
                        if x == NodeId(node) {
                            assert(out@[out@.len() - 1] == x);
                        } else {
                            assert(vis0.to_set().contains(x));
                            assert(vis0.contains(x));
                            assert(out0.contains(x));
                            let m = choose|m: int| 0 <= m < out0.len() && out0[m] == x;
                            assert(out@[m] == x);
                        }
                    }
                }
                assert forall|a: int, b: int|
                    0 <= a < out@.len() && 0 <= b < out@.len() && a != b implies (
                #[trigger] out@[a]) != (#[trigger] out@[b]) by {
                    if a < out0.len() && b < out0.len() {
                        assert(out0[a] == out@[a] && out0[b] == out@[b]);
                    } else if a < out0.len() {
                        assert(out0.contains(out0[a]));
                        assert(vis0.contains(out@[a]));
                        assert(out@[b] == NodeId(node));
                    } else {
                        assert(out0.contains(out0[b]));
                        assert(vis0.contains(out@[b]));
                        assert(out@[a] == NodeId(node));
                    }
                }
            }
            let deps = graph.iter_direct_dependencies(NodeId(node));
            proof {
                graph.lemma_wf_edges_between_nodes();
                assert forall|m: int| 0 <= m < deps@.len() implies dom.contains(
                    (#[trigger] deps@[m]).0,
                ) && e.contains((node, deps@[m].0)) by {
                    assert(deps@.contains(deps@[m]));
                    assert(graph.edges().contains((deps@[m].0, node)));
                }
            }
            let n_deps = deps.len();
            let mut k: usize = 0;
            while k < n_deps
                invariant
                    graph.wf(),
                    e == reversed(graph.edges()),
                    dom == graph.nodes().dom(),
                    dom.contains(target.0),
                    n_deps == deps@.len(),
                    0 <= k <= n_deps,
                    visited.wf(),
                    visited@.contains(NodeId(node)),
                    reaches(e, target.0, node),
                    forall|n: NodeId| #[trigger] visited@.contains(n) ==> dom.contains(n.0),
                    forall|m: int|
                        0 <= m < deps@.len() ==> dom.contains((#[trigger] deps@[m]).0)
                            && e.contains((node, deps@[m].0)),
                    forall|k2: int| 0 <= k2 < stack@.len() ==> dom.contains(#[trigger] stack@[k2]),
                    forall|n: NodeId| #[trigger] visited@.contains(n) ==> reaches(e, target.0, n.0),
                    forall|k2: int|
                        0 <= k2 < stack@.len() ==> reaches(e, target.0, #[trigger] stack@[k2]),
                    stack@.contains(target.0) || visited@.contains(NodeId(target.0)),
                    forall|x: u32, y: u32|
                        visited@.contains(NodeId(x)) && x != node && #[trigger] e.contains((x, y))
                            ==> visited@.contains(NodeId(y)) || stack@.contains(y),
                    forall|k2: int|
                        0 <= k2 < k ==> visited@.contains(#[trigger] deps@[k2]) || stack@.contains(
                            deps@[k2].0,
                        ),
                    visited@.len() <= dom.len(),
                decreases n_deps - k,
            {
                let ghost stack1 = stack@;
                let nd = deps[k];
                if !visited.is_visited(nd) {
                    stack.push(nd.0);
                    proof {
                        assert forall|y: u32| stack1.contains(y) implies stack@.contains(y) by {
                            let k2 = choose|k2: int| 0 <= k2 < stack1.len() && stack1[k2] == y;
                            assert(stack@[k2] == y);
                        }
                        assert(stack@[stack@.len() - 1] == nd.0);
                        assert(stack@.contains(nd.0));
                        lemma_reaches_edge(e, node, nd.0);
                        lemma_reaches_trans(e, target.0, node, nd.0);
                    }
                }
                k = k + 1;
            }
            proof {
                assert forall|x: u32, y: u32|
                    visited@.contains(NodeId(x)) && #[trigger] e.contains(
                        (x, y),
                    ) implies visited@.contains(NodeId(y)) || stack@.contains(y) by {
                    if x == node {
                        assert(graph.edges().contains((y, x)));
                        assert(deps@.contains(NodeId(y)));
                        let i = choose|i: int|
                            0 <= i < deps@.len() && (#[trigger] deps@[i]) == NodeId(y);
                        assert(visited@.contains(deps@[i]) || stack@.contains(deps@[i].0));
                    }
                }
            }
        } else {
            proof {
                assert(visited@ == vis0);
                assert forall|x: u32, y: u32|
                    visited@.contains(NodeId(x)) && #[trigger] e.contains(
                        (x, y),
                    ) implies visited@.contains(NodeId(y)) || stack@.contains(y) by {
                    assert(vis0.contains(NodeId(y)) || stack0.contains(y));
                    if !vis0.contains(NodeId(y)) {
                        assert(stack@.contains(y) || y == node);
                        assert(vis0.contains(NodeId(node)));
                    }
                }
                assert(stack@.contains(target.0) || visited@.contains(NodeId(target.0))) by {
                    if !vis0.contains(NodeId(target.0)) {
                        assert(stack0.contains(target.0));
                        if !stack@.contains(target.0) {
                            assert(target.0 == node);
                            assert(vis0.contains(NodeId(node)));
                        }
                    }
                }
            }
        }
    }
    proof {
        let su = Set::new(|x: u32| visited@.contains(NodeId(x)));
        assert(visited@.contains(NodeId(target.0)));
        assert(su.contains(target.0));
        assert forall|x: u32, y: u32| su.contains(x) && #[trigger] e.contains(
            (x, y),
        ) implies su.contains(y) by {
            assert(visited@.contains(NodeId(x)));
            assert(visited@.contains(NodeId(y)) || stack@.contains(y));
            assert(visited@.contains(NodeId(y)));
        }
        assert forall|n: NodeId| #[trigger] out@.contains(n) == reaches(e, target.0, n.0) by {
            if out@.contains(n) {
                assert(visited@.contains(n));
            }
            if reaches(e, target.0, n.0) {
                lemma_closed_set_reach(e, su, target.0, n.0);
                assert(su.contains(n.0));
                assert(visited@.contains(NodeId(n.0)));
                assert(NodeId(n.0) == n);
            }
        }
        assert forall|m: int| 0 <= m < out@.len() implies dom.contains((#[trigger] out@[m]).0) by {
            assert(out@.contains(out@[m]));
            assert(visited@.contains(out@[m]));
        }
    }
    out
}

/// Finds a node of the closure that is ready to emit: not yet emitted,
/// with every direct dependency already emitted.
fn find_ready<N, G: Graph<N>>(graph: &G, closure: &Vec<NodeId>, emitted: &Visited) -> (r: Option<
    usize,
>)
    requires
        graph.wf(),
        emitted.wf(),
    ensures
        match r {
            Some(j) => {
                &&& j < closure@.len()
                &&& !emitted@.contains(closure@[j as int])
                &&& forall|d: u32| #[trigger]
                    graph.edges().contains((d, closure@[j as int].0)) ==> emitted@.contains(
                        NodeId(d),
                    )
            },
            None => forall|k: int|
                0 <= k < closure@.len() ==> emitted@.contains(#[trigger] closure@[k]) || exists|
                    d: u32,
                |
                    #[trigger] graph.edges().contains((d, closure@[k].0)) && !emitted@.contains(
                        NodeId(d),
                    ),
        },
{
    let n = closure.len();
    let mut j: usize = 0;
    while j < n
        invariant
            graph.wf(),
            emitted.wf(),
            n == closure@.len(),
            0 <= j <= n,
            forall|k: int|
                0 <= k < j ==> emitted@.contains(#[trigger] closure@[k]) || exists|d: u32|
                    #[trigger] graph.edges().contains((d, closure@[k].0)) && !emitted@.contains(
                        NodeId(d),
                    ),
        decreases n - j,
    {
        let cand = closure[j];
        if !emitted.is_visited(cand) {
            let deps = graph.iter_direct_dependencies(cand);
            if all_emitted(emitted, &deps) {
                proof {
                    assert forall|d: u32| #[trigger]
                        graph.edges().contains((d, cand.0)) implies emitted@.contains(
                        NodeId(d),
                    ) by {
                        assert(deps@.contains(NodeId(d)));
                        let m = choose|m: int| 0 <= m < deps@.len() && deps@[m] == NodeId(d);
                        assert(emitted@.contains(deps@[m]));
                    }
                }
                return Some(j);
            }
            proof {
                let m = choose|m: int|
                    0 <= m < deps@.len() && !emitted@.contains(#[trigger] deps@[m]);
                assert(deps@.contains(deps@[m]));
                assert(graph.edges().contains((deps@[m].0, cand.0)));
                assert(NodeId(deps@[m].0) == deps@[m]);
            }
        }
        j = j + 1;
    }
    None
}

/// A strictly ascending id sequence has no duplicates.
proof fn lemma_ids_sorted_no_dup(s: Seq<NodeId>)
    requires
        crate::traversal::ids_sorted(s),
    ensures
        s.no_duplicates(),
{
    assert forall|i: int, j: int|
        0 <= i < s.len() && 0 <= j < s.len() && i != j implies (#[trigger] s[i]) != (
    #[trigger] s[j]) by {
        if i < j {
            assert(s[i].0 < s[j].0);
        } else {
            assert(s[j].0 < s[i].0);
        }
    }
}

/// The target's dependency closure in dependencies-first order: every node
/// the target transitively depends on, the target itself included, appears
/// exactly once, and only after every one of its direct dependencies. The
/// order is built by repeatedly emitting a node whose dependencies are all
/// emitted; the storage invariant (acyclicity) guarantees one always
/// exists, which is what [`lemma_acyclic_pick`] certifies.
#[verifier::rlimit(100)]
pub(crate) fn dependency_order<N, G: Graph<N>>(graph: &G, target: NodeId) -> (r: Vec<NodeId>)
    requires
        graph.wf(),
        graph.nodes().dom().contains(target.0),
    ensures
        r@.no_duplicates(),
        forall|n: NodeId| #[trigger]
            r@.contains(n) == reaches(reversed(graph.edges()), target.0, n.0),
        forall|m: int| 0 <= m < r@.len() ==> graph.nodes().dom().contains((#[trigger] r@[m]).0),
        forall|m: int, d: u32|
            0 <= m < r@.len() && #[trigger] graph.edges().contains((d, r@[m].0)) ==> exists|
                m2: int,
            |
                0 <= m2 < m && (#[trigger] r@[m2]).0 == d,
{
    let closure = dependency_closure(graph, target);
    let n_closure = closure.len();
    let mut order: Vec<NodeId> = Vec::new();
    let mut emitted = Visited::new();
    while order.len() < n_closure
        invariant
            graph.wf(),
            graph.nodes().dom().contains(target.0),
            n_closure == closure@.len(),
            closure@.no_duplicates(),
            forall|n: NodeId| #[trigger]
                closure@.contains(n) == reaches(reversed(graph.edges()), target.0, n.0),
            forall|m: int|
                0 <= m < closure@.len() ==> graph.nodes().dom().contains(
                    (#[trigger] closure@[m]).0,
                ),
            emitted.wf(),
            order@.len() == emitted@.len(),
            forall|x: NodeId| #[trigger] order@.contains(x) == emitted@.contains(x),
            forall|x: NodeId| #[trigger] emitted@.contains(x) ==> closure@.contains(x),
            order@.no_duplicates(),
            forall|m: int|
                0 <= m < order@.len() ==> graph.nodes().dom().contains((#[trigger] order@[m]).0),
            forall|m: int, d: u32|
                0 <= m < order@.len() && #[trigger] graph.edges().contains((d, order@[m].0))
                    ==> exists|m2: int| 0 <= m2 < m && (#[trigger] order@[m2]).0 == d,
        decreases n_closure - order@.len(),
    {
        let ghost order0 = order@;
        let ghost em0 = emitted@;
        match find_ready(graph, &closure, &emitted) {
            Some(j) => {
                let cand = closure[j];
                emitted.visit(cand);
                order.push(cand);
                proof {
                    assert(order@ == order0.push(cand));
                    assert(closure@.contains(cand));
                    assert forall|x: NodeId| #[trigger] order@.contains(x) == emitted@.contains(
                        x,
                    ) by {
                        if order@.contains(x) {
                            let m = choose|m: int| 0 <= m < order@.len() && order@[m] == x;
                            if m < order0.len() {
                                assert(order0[m] == x);
                                assert(order0.contains(x));
                                assert(em0.contains(x));
                                assert(em0.to_set().contains(x));
                                assert(emitted@.to_set().contains(x));
                            } else {
                                assert(x == cand);
                                assert(emitted@.to_set().contains(x));
                            }
                        }
                        if emitted@.contains(x) {
                            assert(emitted@.to_set().contains(x));
                            if x == cand {
                                assert(order@[order@.len() - 1] == x);
                            } else {
                                assert(em0.to_set().contains(x));
                                assert(em0.contains(x));
                                assert(order0.contains(x));
                                let m = choose|m: int| 0 <= m < order0.len() && order0[m] == x;
                                assert(order@[m] == x);
                            }
                        }
                    }
                    assert forall|x: NodeId| #[trigger]
                        emitted@.contains(x) implies closure@.contains(x) by {
                        assert(emitted@.to_set().contains(x));
                        if x != cand {
                            assert(em0.to_set().contains(x));
                            assert(em0.contains(x));
                        }
                    }
                    assert forall|a: int, b: int|
                        0 <= a < order@.len() && 0 <= b < order@.len() && a != b implies (
                    #[trigger] order@[a]) != (#[trigger] order@[b]) by {
                        if a < order0.len() && b < order0.len() {
                            assert(order0[a] == order@[a] && order0[b] == order@[b]);
                        } else if a < order0.len() {
                            assert(order0.contains(order0[a]));
                            assert(em0.contains(order@[a]));
                            assert(order@[b] == cand);
                        } else {
                            assert(order0.contains(order0[b]));
                            assert(em0.contains(order@[b]));
                            assert(order@[a] == cand);
                        }
                    }
                    assert forall|m: int, d: u32|
                        0 <= m < order@.len() && #[trigger] graph.edges().contains(
                            (d, order@[m].0),
                        ) implies exists|m2: int| 0 <= m2 < m && (#[trigger] order@[m2]).0 == d by {
                        if m < order0.len() {
                            assert(order@[m] == order0[m]);
                            let m2 = choose|m2: int|
                                0 <= m2 < m && (#[trigger] order0[m2]).0 == d;
                            assert(order@[m2].0 == d);
                        } else {
                            assert(order@[m] == cand);
                            assert(em0.contains(NodeId(d)));
                            assert(order0.contains(NodeId(d)));
                            let m2 = choose|m2: int|
                                0 <= m2 < order0.len() && order0[m2] == NodeId(d);
                            assert(order@[m2].0 == d);
                        }
                    }
                }
            },
            None => {
                proof {
                    let ghost cl_set = closure@.to_set();
                    let ghost em_set = emitted@.to_set();
                    closure@.unique_seq_to_set();
                    lemma_ids_sorted_no_dup(emitted@);
                    emitted@.unique_seq_to_set();
                    vstd::seq_lib::seq_to_set_is_finite::<NodeId>(closure@);
                    vstd::seq_lib::seq_to_set_is_finite::<NodeId>(emitted@);
                    if forall|k: int|
                        0 <= k < closure@.len() ==> emitted@.contains(#[trigger] closure@[k]) {
                        assert forall|x: NodeId| #[trigger]
                            cl_set.contains(x) implies em_set.contains(x) by {
                            assert(closure@.contains(x));
                            let k = choose|k: int| 0 <= k < closure@.len() && closure@[k] == x;
                            assert(emitted@.contains(closure@[k]));
                        }
                        vstd::set_lib::lemma_len_subset(cl_set, em_set);
                        assert(false);
                    } else {
                        let k0 = choose|k0: int|
                            0 <= k0 < closure@.len() && !emitted@.contains(#[trigger] closure@[k0]);
                        let c = closure@[k0].0;
                        let s = Set::new(
                            |x: u32| closure@.contains(NodeId(x)) && !emitted@.contains(NodeId(x)),
                        );
                        assert(NodeId(c) == closure@[k0]);
                        assert(closure@.contains(closure@[k0]));
                        assert(s.contains(c));
                        let ids = Seq::new(closure@.len(), |i: int| closure@[i].0);
                        vstd::seq_lib::seq_to_set_is_finite::<u32>(ids);
                        assert forall|x: u32| #[trigger] s.contains(x) implies ids.to_set(
                        ).contains(x) by {
                            assert(closure@.contains(NodeId(x)));
                            let m = choose|m: int|
                                0 <= m < closure@.len() && closure@[m] == NodeId(x);
                            assert(ids[m] == x);
                            assert(ids.contains(x));
                        }
                        vstd::set_lib::lemma_set_subset_finite(ids.to_set(), s);
                        graph.lemma_wf_acyclic();
                        lemma_acyclic_pick(graph.edges(), s, c);
                        let m = choose|m: u32|
                            #[trigger] s.contains(m) && (forall|d: u32| #[trigger]
                                graph.edges().contains((d, m)) ==> !s.contains(d));
                        assert(closure@.contains(NodeId(m)));
                        let km = choose|km: int|
                            0 <= km < closure@.len() && closure@[km] == NodeId(m);
                        assert(emitted@.contains(closure@[km]) || exists|d: u32|
                            #[trigger] graph.edges().contains((d, closure@[km].0))
                                && !emitted@.contains(NodeId(d)));
                        assert(!emitted@.contains(NodeId(m)));
                        let d = choose|d: u32|
                            #[trigger] graph.edges().contains((d, closure@[km].0))
                                && !emitted@.contains(NodeId(d));
                        assert(graph.edges().contains((d, m)));
                        assert(!s.contains(d));
                        assert(!closure@.contains(NodeId(d)));
                        assert(reaches(reversed(graph.edges()), target.0, m));
                        assert(reversed(graph.edges()).contains((m, d)));
                        lemma_reaches_edge(reversed(graph.edges()), m, d);
                        lemma_reaches_trans(reversed(graph.edges()), target.0, m, d);
                        assert(closure@.contains(NodeId(d)));
                        assert(false);
                    }
                }
            },
        }
    }
    proof {
        let cl_set = closure@.to_set();
        let em_set = emitted@.to_set();
        closure@.unique_seq_to_set();
        lemma_ids_sorted_no_dup(emitted@);
        emitted@.unique_seq_to_set();
        vstd::seq_lib::seq_to_set_is_finite::<NodeId>(closure@);
        vstd::seq_lib::seq_to_set_is_finite::<NodeId>(emitted@);
        assert forall|x: NodeId| #[trigger] em_set.contains(x) implies cl_set.contains(x) by {
            assert(emitted@.contains(x));
            assert(closure@.contains(x));
        }
        assert forall|x: NodeId| #[trigger] cl_set.contains(x) implies em_set.contains(x) by {
            if !em_set.contains(x) {
                assert(em_set.subset_of(cl_set.remove(x)));
                vstd::set_lib::lemma_len_subset(em_set, cl_set.remove(x));
                assert(cl_set.remove(x).len() == cl_set.len() - 1);
                assert(false);
            }
        }
        assert forall|n: NodeId| #[trigger] order@.contains(n) == reaches(
            reversed(graph.edges()),
            target.0,
            n.0,
        ) by {
            if order@.contains(n) {
                assert(emitted@.contains(n));
                assert(closure@.contains(n));
            }
            if reaches(reversed(graph.edges()), target.0, n.0) {
                assert(closure@.contains(n));
                assert(cl_set.contains(n));
                assert(em_set.contains(n));
                assert(emitted@.contains(n));
            }
        }
    }
    order
}

/// Executes one node with the given inputs and mask. A failure is the
/// error this very node returned, wrapped with this very node's id.
pub(crate) fn execute_node<N: Node, G: Graph<N>>(
    graph: &G,
    node: NodeId,
    inputs: SocketValues,
    mask: OutputMask<'_>,
) -> (r: Result<SocketValues, GraphSolveError>)
    requires
        graph.wf(),
        graph.nodes().dom().contains(node.0),
    ensures
        match r {
            Ok(_) => true,
            Err(e) => e matches GraphSolveError::NodeExecutionFailed { node: f, error: er } && f
                == node && graph.nodes().dom().contains(f.0),
        },
{
    match graph.get_node(node) {
        Some(nr) => match nr.get().execute(inputs, mask) {
            Ok(vals) => Ok(vals),
            Err(e) => Err(GraphSolveError::NodeExecutionFailed { node, error: e }),
        },
        None => {
            proof {
                assert(false);
            }
            Err(GraphSolveError::NodeExecutionFailed {
                node,
                error: crate::errors::NodeExecutionError::NotEnoughInputs,
            })
        },
    }
}

/// Assembles the input values of `node` from the resolved outputs of its
/// direct dependencies, matched link by link: every input socket that a
/// resolved dependency feeds through a link is bound — to the value that
/// dependency produced on the link's output socket. A dependency that did
/// not deliver a linked output contributes nothing to that socket, and the
/// node itself judges whether its inputs suffice. The caller hands in a
/// resolved entry for every direct dependency, one per node.
#[verifier::rlimit(100)]
pub(crate) fn assemble_inputs<N, G: Graph<N>>(
    graph: &G,
    node: NodeId,
    resolved: &Vec<ResolvedEntry>,
) -> (r: SocketValues)
    requires
        graph.wf(),
        forall|d: u32| #[trigger]
            graph.edges().contains((d, node.0)) ==> exists|i: int|
                0 <= i < resolved@.len() && (#[trigger] resolved@[i]).node == d,
        forall|i: int, j: int|
            0 <= i < j < resolved@.len() ==> (#[trigger] resolved@[i]).node != (
            #[trigger] resolved@[j]).node,
    ensures
        forall|d: NodeId, p: SocketLinkId|
            #[trigger] graph.link_set().contains(link_of(d, node, p)) && resolved_has(
                resolved@,
                d.0,
                p.from,
            ) ==> values_bind(r@, p.to),
{
    let ghost ls = graph.link_set();
    let deps = graph.iter_direct_dependencies(node);
    proof {
        graph.lemma_edges_projection();
    }
    let mut invals: Vec<SocketValue> = Vec::new();
    let n_deps = deps.len();
    let mut di: usize = 0;
    while di < n_deps
        invariant
            graph.wf(),
            ls == graph.link_set(),
            n_deps == deps@.len(),
            0 <= di <= n_deps,
            sorted_strict(invals@),
            forall|x: NodeId| #[trigger] deps@.contains(x) == graph.edges().contains((x.0, node.0)),
            forall|d2: u32| #[trigger]
                graph.edges().contains((d2, node.0)) ==> exists|i: int|
                    0 <= i < resolved@.len() && (#[trigger] resolved@[i]).node == d2,
            forall|i: int, j: int|
                0 <= i < j < resolved@.len() ==> (#[trigger] resolved@[i]).node != (
                #[trigger] resolved@[j]).node,
            forall|k: int, p: SocketLinkId|
                0 <= k < di && #[trigger] ls.contains(link_of(deps@[k], node, p)) && resolved_has(
                    resolved@,
                    deps@[k].0,
                    p.from,
                ) ==> values_bind(invals@, p.to),
        decreases n_deps - di,
    {
        let ghost invals_before_dep = invals@;
        let dep = deps[di];
        let vals = match find_resolved(resolved, dep.0) {
            Some(v) => v,
            None => {
                proof {
                    assert(deps@.contains(deps@[di as int]));
                    assert(graph.edges().contains((dep.0, node.0)));
                    assert(false);
                }
                vstd::pervasive::unreached()
            },
        };
        match graph.get_edges(dep, node) {
            None => {
                proof {
                    graph.lemma_edges_projection();
                    assert forall|p: SocketLinkId|
                        !(#[trigger] ls.contains(link_of(dep, node, p))) by {
                        if ls.contains(link_of(dep, node, p)) {
                            assert(crate::graph::pair_linked(ls, (dep.0, node.0)));
                            assert(graph.edges().contains((dep.0, node.0)));
                        }
                    }
                }
            },
            Some(lks) => {
                let cnt = lks.count();
                let mut e: usize = 0;
                while e < cnt
                    invariant
                        graph.wf(),
                        ls == graph.link_set(),
                        lks.wf(),
                        cnt == lks@.len(),
                        0 <= e <= cnt,
                        sorted_strict(invals@),
                        forall|p: SocketLinkId| #[trigger]
                            lks@.contains(p) == ls.contains(link_of(dep, node, p)),
                        forall|t: SocketId| #[trigger]
                            values_bind(invals_before_dep, t) ==> values_bind(invals@, t),
                        forall|k2: int|
                            0 <= k2 < e && values_bind(vals@, (#[trigger] lks@[k2]).from)
                                ==> values_bind(invals@, lks@[k2].to),
                        exists|i: int|
                            0 <= i < resolved@.len() && (#[trigger] resolved@[i]).node == dep.0
                                && resolved@[i].values == *vals,
                        forall|i: int, j: int|
                            0 <= i < j < resolved@.len() ==> (#[trigger] resolved@[i]).node != (
                            #[trigger] resolved@[j]).node,
                    decreases cnt - e,
                {
                    let ghost invals0 = invals@;
                    let sl = lks.link_at(e);
                    match vals.get(sl.from) {
                        Some(value) => {
                            sorted_insert_value(&mut invals, SocketValue { id: sl.to, value });
                            proof {
                                assert(values_bind(invals@, sl.to));
                            }
                        },
                        None => {
                            proof {
                                if values_bind(vals@, sl.from) {
                                    let j = choose|j: int|
                                        0 <= j < vals@.len() && (#[trigger] vals@[j]).id
                                            == sl.from;
                                    assert(false);
                                }
                            }
                        },
                    }
                    e = e + 1;
                    proof {
                        assert forall|k2: int|
                            0 <= k2 < e && values_bind(
                                vals@,
                                (#[trigger] lks@[k2]).from,
                            ) implies values_bind(invals@, lks@[k2].to) by {
                            if k2 < e - 1 {
                                assert(values_bind(invals0, lks@[k2].to));
                            }
                        }
                    }
                }
                proof {
                    assert forall|p: SocketLinkId|
                        #[trigger] ls.contains(link_of(dep, node, p)) && resolved_has(
                            resolved@,
                            dep.0,
                            p.from,
                        ) implies values_bind(invals@, p.to) by {
                        assert(lks@.contains(p));
                        let k2 = choose|k2: int| 0 <= k2 < lks@.len() && lks@[k2] == p;
                        let i = choose|i: int|
                            0 <= i < resolved@.len() && (#[trigger] resolved@[i]).node == dep.0
                                && values_bind(resolved@[i].values@, p.from);
                        let i2 = choose|i2: int|
                            0 <= i2 < resolved@.len() && (#[trigger] resolved@[i2]).node == dep.0
                                && resolved@[i2].values == *vals;
                        assert(i == i2);
                        assert(values_bind(vals@, p.from));
                        assert(values_bind(invals@, lks@[k2].to));
                    }
                }
            },
        }
        di = di + 1;
        proof {
            assert forall|k: int, p: SocketLinkId|
                0 <= k < di && #[trigger] ls.contains(link_of(deps@[k], node, p)) && resolved_has(
                    resolved@,
                    deps@[k].0,
                    p.from,
                ) implies values_bind(invals@, p.to) by {
                if k < di - 1 {
                    assert(values_bind(invals_before_dep, p.to));
                }
            }
        }
    }
    let r = match SocketValues::new(invals) {
        Ok(v) => v,
        Err(_) => {
            proof {
                assert(false);
            }
            vstd::pervasive::unreached()
        },
    };
    proof {
        assert forall|d: NodeId, p: SocketLinkId|
            #[trigger] graph.link_set().contains(link_of(d, node, p)) && resolved_has(
                resolved@,
                d.0,
                p.from,
            ) implies values_bind(r@, p.to) by {
            assert(crate::graph::pair_linked(ls, (d.0, node.0)));
            assert(graph.edges().contains((d.0, node.0)));
            assert(deps@.contains(d));
            let k = choose|k: int| 0 <= k < deps@.len() && deps@[k] == d;
            assert(ls.contains(link_of(deps@[k], node, p)));
        }
    }
    r
}

/// Builds the output mask an intermediate node is executed with: exactly
/// the output sockets that feed some direct dependent, so the node may
/// skip every output nothing consumes.
pub(crate) fn needed_outputs<N, G: Graph<N>>(graph: &G, node: NodeId) -> (r: Vec<SocketId>)
    requires
        graph.wf(),
    ensures
        sorted_strict(r@),
{
    let dpts = graph.iter_direct_dependents(node);
    let mut mask_ids: Vec<SocketId> = Vec::new();
    let n_dpts = dpts.len();
    let mut d: usize = 0;
    while d < n_dpts
        invariant
            graph.wf(),
            n_dpts == dpts@.len(),
            0 <= d <= n_dpts,
            sorted_strict(mask_ids@),
        decreases n_dpts - d,
    {
        match graph.get_edges(node, dpts[d]) {
            None => {
            },
            Some(lks) => {
                let cnt = lks.count();
                let mut e: usize = 0;
                while e < cnt
                    invariant
                        lks.wf(),
                        cnt == lks@.len(),
                        0 <= e <= cnt,
                        sorted_strict(mask_ids@),
                    decreases cnt - e,
                {
                    let sl = lks.link_at(e);
                    sorted_insert_socket(&mut mask_ids, sl.from);
                    e = e + 1;
                }
            },
        }
        d = d + 1;
    }
    mask_ids
}

/// Solves `node`: walks its dependency closure dependencies-first,
/// executes every node in the closure exactly once with the inputs its
/// links deliver, and finally executes `node` itself with the caller's
/// output mask, returning its outputs.
///
/// A failure of any node in the chain aborts the solve, tagged with the id
/// of that very node — always a present node inside the target's
/// dependency closure. No other error is possible: the dependencies-first
/// order is proved total over the closure, so a cycle can never be met.
pub fn solve_node<N: Node, G: Graph<N>>(graph: &G, node: NodeId, outputs: OutputMask<'_>) -> (r:
    Result<SocketValues, GraphSolveError>)
    requires
        graph.wf(),
        graph.nodes().dom().contains(node.0),
        outputs.wf(),
    ensures
        match r {
            Ok(_) => true,
            Err(e) => e matches GraphSolveError::NodeExecutionFailed { node: f, error: er }
                && graph.nodes().dom().contains(f.0) && reaches(
                reversed(graph.edges()),
                node.0,
                f.0,
            ),
        },
{
    let order = dependency_order(graph, node);
    let mut resolved: Vec<ResolvedEntry> = Vec::new();
    let n_order = order.len();
    let mut idx: usize = 0;
    while idx < n_order
        invariant
            graph.wf(),
            graph.nodes().dom().contains(node.0),
            outputs.wf(),
            n_order == order@.len(),
            0 <= idx <= n_order,
            order@.no_duplicates(),
            forall|n2: NodeId| #[trigger]
                order@.contains(n2) == reaches(reversed(graph.edges()), node.0, n2.0),
            forall|m: int|
                0 <= m < order@.len() ==> graph.nodes().dom().contains((#[trigger] order@[m]).0),
            forall|m: int, d: u32|
                0 <= m < order@.len() && #[trigger] graph.edges().contains((d, order@[m].0))
                    ==> exists|m2: int| 0 <= m2 < m && (#[trigger] order@[m2]).0 == d,
            resolved@.len() == idx,
            forall|m: int| 0 <= m < idx ==> (#[trigger] resolved@[m]).node == order@[m].0,
            forall|m: int| 0 <= m < idx ==> (#[trigger] order@[m]).0 != node.0,
        decreases n_order - idx,
    {
        let n = order[idx];
        proof {
            assert forall|d: u32| #[trigger]
                graph.edges().contains((d, n.0)) implies exists|i: int|
                0 <= i < resolved@.len() && (#[trigger] resolved@[i]).node == d by {
                let m2 = choose|m2: int| 0 <= m2 < idx && (#[trigger] order@[m2]).0 == d;
                assert(resolved@[m2].node == d);
            }
            assert forall|i: int, j: int| 0 <= i < j < resolved@.len() implies (
            #[trigger] resolved@[i]).node != (#[trigger] resolved@[j]).node by {
                if resolved@[i].node == resolved@[j].node {
                    assert(order@[i].0 == order@[j].0);
                    assert(NodeId(order@[i].0) == NodeId(order@[j].0));
                    assert(order@[i] == order@[j]);
                }
            }
        }
        let inputs = assemble_inputs(graph, n, &resolved);
        if n.0 == node.0 {
            proof {
                lemma_reaches_refl(reversed(graph.edges()), node.0);
            }
            return execute_node(graph, n, inputs, outputs);
        }
        let mask_ids = needed_outputs(graph, n);
        let mask = match OutputMask::new(mask_ids.as_slice()) {
            Ok(m) => m,
            Err(_) => {
                proof {
                    assert(false);
                }
                vstd::pervasive::unreached()
            },
        };
        match execute_node(graph, n, inputs, mask) {
            Ok(vals) => {
                resolved.push(ResolvedEntry { node: n.0, values: vals });
            },
            Err(e) => {
                proof {
                    assert(order@.contains(order@[idx as int]));
                }
                return Err(e);
            },
        }
        idx = idx + 1;
    }
    proof {
        lemma_reaches_refl(reversed(graph.edges()), node.0);
        assert(order@.contains(NodeId(node.0)));
        let m = choose|m: int| 0 <= m < order@.len() && order@[m] == NodeId(node.0);
        assert(order@[m].0 != node.0);
        assert(false);
    }
    vstd::pervasive::unreached()
}

} // verus!
