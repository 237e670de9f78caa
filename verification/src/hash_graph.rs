//! The adjacency-map storage backend: an id-keyed map of nodes plus the
//! edge sets between ordered node pairs, with the acyclicity invariant
//! enforced at every link insertion.
//!
//! Nodes live in a hash map keyed by their id; the edge sets live in a
//! sequence kept strictly ascending by ordered node pair, so that the set
//! of links between two nodes is found by binary search. [`HashGraph`]
//! satisfies the whole [`Graph`] contract: after every public mutation the
//! node-level edge relation is acyclic, no empty edge set is retained,
//! every edge endpoint is a present node, and node ids are never reused.

use vstd::prelude::*;

use std::collections::HashMap;

use crate::errors::WouldCycle;
use crate::graph::touches;
use crate::graph::Graph;
use crate::graph::SeveredLinks;
use crate::link::Links;
use crate::node::NodeId;
use crate::node::NodeRef;
use crate::paths::acyclic;
use crate::paths::is_path;
use crate::paths::lemma_acyclic_edge_no_return;
use crate::paths::lemma_acyclic_insert;
use crate::paths::lemma_acyclic_subset;
use crate::paths::lemma_closed_set_reach;
use crate::paths::lemma_reaches_edge;
use crate::paths::lemma_reaches_refl;
use crate::paths::lemma_reaches_trans;
use crate::paths::reaches;
use crate::socket::NodeLinkId;
use crate::socket::NodeSocketId;
use crate::socket::SocketLinkId;
use crate::traversal::lemma_sorted_ids_bounded;
use crate::traversal::Walkable;
use crate::traversal::WalkDependencies;
use crate::traversal::WalkDependents;
use crate::traversal::WalkDirectDependencies;
use crate::traversal::WalkDirectDependents;
use crate::traversal::GraphDfs;
use crate::traversal::GraphDirectWalk;
use crate::traversal::Visited;

verus! {

/// The links between one ordered pair of nodes.
struct EdgeEntry {
    left: u32,
    right: u32,
    links: Links,
}

/// The strict order on ordered node pairs: first by producing node, then by
/// consuming node.
spec fn entry_lt(a: (u32, u32), b: (u32, u32)) -> bool {
    a.0 < b.0 || (a.0 == b.0 && a.1 < b.1)
}

/// Holds when the entries are strictly ascending by ordered node pair.
spec fn entries_sorted(s: Seq<EdgeEntry>) -> bool {
    forall|i: int, j: int|
        0 <= i < j < s.len() ==> entry_lt(
            ((#[trigger] s[i]).left, s[i].right),
            ((#[trigger] s[j]).left, s[j].right),
        )
}

/// Holds when the entries are sorted, each edge set is sorted, and no edge
/// set is empty.
spec fn entries_wf(s: Seq<EdgeEntry>) -> bool {
    &&& entries_sorted(s)
    &&& forall|i: int| 0 <= i < s.len() ==> (#[trigger] s[i]).links.wf()
    &&& forall|i: int| 0 <= i < s.len() ==> (#[trigger] s[i]).links@.len() > 0
}

/// The full set of socket-level links held by the entries.
spec fn seq_link_set(s: Seq<EdgeEntry>) -> Set<NodeLinkId> {
    Set::new(
        |l: NodeLinkId|
            exists|i: int|
                {
                    &&& 0 <= i < s.len()
                    &&& (#[trigger] s[i]).left == l.left.node.0
                    &&& s[i].right == l.right.node.0
                    &&& s[i].links@.contains(
                        SocketLinkId { from: l.left.socket, to: l.right.socket },
                    )
                },
    )
}

/// The node-level edge relation held by the entries.
spec fn seq_edge_set(s: Seq<EdgeEntry>) -> Set<(u32, u32)> {
    Set::new(
        |p: (u32, u32)|
            exists|i: int| 0 <= i < s.len() && (#[trigger] s[i]).left == p.0 && s[i].right == p.1,
    )
}

/// The total number of socket pairs held by the entries.
spec fn count_entry_links(s: Seq<EdgeEntry>) -> int
    decreases s.len(),
{
    if s.len() == 0 {
        0
    } else {
        count_entry_links(s.drop_last()) + s.last().links@.len()
    }
}

proof fn lemma_count_nonneg(s: Seq<EdgeEntry>)
    ensures
        count_entry_links(s) >= 0,
    decreases s.len(),
{
    if s.len() > 0 {
        lemma_count_nonneg(s.drop_last());
    }
}

/// A prefix of the entries accounts for at most the whole count.
proof fn lemma_count_prefix(s: Seq<EdgeEntry>, j: int)
    requires
        0 <= j <= s.len(),
    ensures
        count_entry_links(s.take(j)) <= count_entry_links(s),
    decreases s.len() - j,
{
    if j < s.len() {
        lemma_count_prefix(s, j + 1);
        assert(s.take(j + 1).drop_last() =~= s.take(j));
        assert(s.take(j + 1).last() == s[j]);
    } else {
        assert(s.take(j) =~= s);
    }
}

/// Two disjoint finite sets contribute their sizes to the union in full.
proof fn lemma_disjoint_union_len<A>(s1: Set<A>, s2: Set<A>)
    requires
        s1.finite(),
        s2.finite(),
        s1.disjoint(s2),
    ensures
        s1.union(s2).len() == s1.len() + s2.len(),
    decreases s1.len(),
{
    if s1.is_empty() {
        assert(s1.union(s2) =~= s2);
    } else {
        let a = s1.choose();
        assert(s1.contains(a));
        assert(!s2.contains(a));
        assert(s1.union(s2).remove(a) =~= s1.remove(a).union(s2));
        lemma_disjoint_union_len(s1.remove(a), s2);
        assert(s1.union(s2).contains(a));
        assert(s1.union(s2).len() == s1.union(s2).remove(a).len() + 1);
    }
}

/// The link set of well-formed entries is finite, and as large as the sum
/// of the per-pair edge set sizes: every stored socket pair stands for
/// exactly one distinct link.
proof fn lemma_link_set_card(s: Seq<EdgeEntry>)
    requires
        entries_wf(s),
    ensures
        seq_link_set(s).finite(),
        seq_link_set(s).len() == count_entry_links(s),
    decreases s.len(),
{
    vstd::seq_lib::seq_to_set_is_finite::<NodeLinkId>(Seq::<NodeLinkId>::empty());
    if s.len() == 0 {
        assert(seq_link_set(s) =~= Set::<NodeLinkId>::empty());
        assert(Set::<NodeLinkId>::empty().len() == 0);
    } else {
        let t = s.drop_last();
        let last = s.last();
        assert forall|a: int, b: int| 0 <= a < b < t.len() implies entry_lt(
            ((#[trigger] t[a]).left, t[a].right),
            ((#[trigger] t[b]).left, t[b].right),
        ) by {
            assert(t[a] == s[a] && t[b] == s[b]);
        }
        assert forall|k: int| 0 <= k < t.len() implies (#[trigger] t[k]).links.wf()
            && t[k].links@.len() > 0 by {
            assert(t[k] == s[k]);
        }
        lemma_link_set_card(t);
        let lifted = Seq::new(
            last.links@.len(),
            |m: int| lift_link(last.left, last.right, last.links@[m]),
        );
        assert(last == s[s.len() - 1]);
        assert(last.links.wf());
        assert forall|a: int, b: int| 0 <= a < b < lifted.len() implies #[trigger] lifted[a]
            != #[trigger] lifted[b] by {
            assert(crate::link::link_lt(last.links@[a], last.links@[b]));
            assert(lifted[a] == lift_link(last.left, last.right, last.links@[a]));
            assert(lifted[b] == lift_link(last.left, last.right, last.links@[b]));
        }
        lifted.unique_seq_to_set();
        vstd::seq_lib::seq_to_set_is_finite::<NodeLinkId>(lifted);
        assert(seq_link_set(s) =~= seq_link_set(t).union(lifted.to_set())) by {
            assert forall|x: NodeLinkId|
                seq_link_set(s).contains(x) == (seq_link_set(t).contains(x) || lifted.to_set(
                ).contains(x)) by {
                let xpair = SocketLinkId { from: x.left.socket, to: x.right.socket };
                if seq_link_set(s).contains(x) {
                    let k = choose|k: int|
                        {
                            &&& 0 <= k < s.len()
                            &&& (#[trigger] s[k]).left == x.left.node.0
                            &&& s[k].right == x.right.node.0
                            &&& s[k].links@.contains(xpair)
                        };
                    if k < s.len() - 1 {
                        assert(t[k].links@.contains(xpair));
                        assert(seq_link_set(t).contains(x));
                    } else {
                        let m = choose|m: int|
                            0 <= m < last.links@.len() && last.links@[m] == xpair;
                        assert(lifted[m] == lift_link(last.left, last.right, xpair));
                        assert(lift_link(last.left, last.right, xpair) == x);
                        assert(lifted.contains(x));
                    }
                }
                if seq_link_set(t).contains(x) {
                    let k = choose|k: int|
                        {
                            &&& 0 <= k < t.len()
                            &&& (#[trigger] t[k]).left == x.left.node.0
                            &&& t[k].right == x.right.node.0
                            &&& t[k].links@.contains(xpair)
                        };
                    assert(s[k].links@.contains(xpair));
                    assert(seq_link_set(s).contains(x));
                }
                if lifted.to_set().contains(x) {
                    let m = choose|m: int| 0 <= m < lifted.len() && lifted[m] == x;
                    assert(x == lift_link(last.left, last.right, last.links@[m]));
                    assert(last.links@.contains(last.links@[m]));
                    assert(s[s.len() - 1].links@.contains(xpair));
                    assert(seq_link_set(s).contains(x));
                }
            }
        }
        assert(seq_link_set(t).disjoint(lifted.to_set())) by {
            assert forall|x: NodeLinkId| #[trigger]
                seq_link_set(t).contains(x) implies !lifted.to_set().contains(x) by {
                if lifted.to_set().contains(x) {
                    let m = choose|m: int| 0 <= m < lifted.len() && lifted[m] == x;
                    assert(x == lift_link(last.left, last.right, last.links@[m]));
                    let k = choose|k: int|
                        {
                            &&& 0 <= k < t.len()
                            &&& (#[trigger] t[k]).left == x.left.node.0
                            &&& t[k].right == x.right.node.0
                            &&& t[k].links@.contains(
                                SocketLinkId { from: x.left.socket, to: x.right.socket },
                            )
                        };
                    assert(t[k] == s[k]);
                    assert(entry_lt(
                        (s[k].left, s[k].right),
                        (s[s.len() - 1].left, s[s.len() - 1].right),
                    ));
                    assert(false);
                }
            }
        }
        vstd::set_lib::lemma_set_union_finite_iff(seq_link_set(t), lifted.to_set());
        lemma_disjoint_union_len(seq_link_set(t), lifted.to_set());
        assert(count_entry_links(s) == count_entry_links(t) + last.links@.len());
        assert(seq_link_set(s).len() == seq_link_set(t).len() + lifted.to_set().len());
    }
}

/// The socket-level link formed by one socket pair of the edge set between
/// nodes `l` and `r`.
spec fn lift_link(l: u32, r: u32, p: SocketLinkId) -> NodeLinkId {
    NodeLinkId {
        left: NodeSocketId { node: NodeId(l), socket: p.from },
        right: NodeSocketId { node: NodeId(r), socket: p.to },
    }
}

/// A directed acyclic graph of nodes of type `N`, stored as an id-keyed
/// hash map of nodes and a sorted sequence of per-node-pair edge sets.
pub struct HashGraph<N> {
    last_idx: u32,
    vertices: HashMap<u32, N>,
    links: Vec<EdgeEntry>,
}

impl<N> HashGraph<N> {
    /// A well-formed graph's edge relation is acyclic.
    pub proof fn lemma_wf_acyclic(&self)
        requires
            self.wf(),
        ensures
            acyclic(self.edges()),
    {
    }

    /// The set of present node ids is finite (it is the domain of a hash
    /// map).
    pub proof fn lemma_nodes_finite(&self)
        ensures
            self.nodes().dom().finite(),
    {
    }

    /// The edge relation is exactly the node-pair projection of the link
    /// set: entries are pruned as soon as they empty, so a node pair is an
    /// edge precisely while some socket link runs between the pair.
    pub proof fn lemma_edges_projection(&self)
        requires
            self.wf(),
        ensures
            forall|p: (u32, u32)|
                #[trigger] self.edges().contains(p) <==> crate::graph::pair_linked(
                    self.link_set(),
                    p,
                ),
    {
        assert forall|p: (u32, u32)|
            #[trigger] self.edges().contains(p) <==> crate::graph::pair_linked(
            self.link_set(),
            p,
        ) by {
            if self.edges().contains(p) {
                let k = choose|k: int|
                    0 <= k < self.links@.len() && (#[trigger] self.links@[k]).left == p.0
                        && self.links@[k].right == p.1;
                let x = lift_link(self.links@[k].left, self.links@[k].right, self.links@[k].links@[0]);
                assert(self.links@[k].links@.contains(self.links@[k].links@[0]));
                assert(seq_link_set(self.links@).contains(x));
                assert(self.link_set().contains(x));
                assert(x.left.node.0 == p.0 && x.right.node.0 == p.1);
            }
            if crate::graph::pair_linked(self.link_set(), p) {
                let x = choose|x: NodeLinkId|
                    #[trigger] self.link_set().contains(x) && x.left.node.0 == p.0
                        && x.right.node.0 == p.1;
                let k = choose|k: int|
                    {
                        &&& 0 <= k < self.links@.len()
                        &&& (#[trigger] self.links@[k]).left == x.left.node.0
                        &&& self.links@[k].right == x.right.node.0
                        &&& self.links@[k].links@.contains(
                            SocketLinkId { from: x.left.socket, to: x.right.socket },
                        )
                    };
                assert(seq_edge_set(self.links@).contains(p));
                assert(self.edges().contains(p));
            }
        }
    }

    /// A well-formed graph's edges run between present nodes.
    pub proof fn lemma_wf_edges_between_nodes(&self)
        requires
            self.wf(),
        ensures
            forall|p: (u32, u32)| #[trigger]
                self.edges().contains(p) ==> self.nodes().dom().contains(p.0)
                    && self.nodes().dom().contains(p.1),
    {
        assert forall|p: (u32, u32)| #[trigger] self.edges().contains(p) implies self.nodes().dom(
        ).contains(p.0) && self.nodes().dom().contains(p.1) by {
            let i = choose|i: int|
                0 <= i < self.links@.len() && (#[trigger] self.links@[i]).left == p.0
                    && self.links@[i].right == p.1;
            assert(self.nodes().dom().contains(self.links@[i].left));
        }
    }

    /// Creates an empty graph.
    pub fn new() -> (r: Self)
        ensures
            r.wf(),
            r.nodes() == Map::<u32, N>::empty(),
            r.link_set() == Set::<NodeLinkId>::empty(),
            r.edges() == Set::<(u32, u32)>::empty(),
            r.next_index() == 0,
    {
        let r = HashGraph { last_idx: 0, vertices: HashMap::new(), links: Vec::new() };
        proof {
            assert(r.link_set() =~= Set::<NodeLinkId>::empty());
            assert(r.edges() =~= Set::<(u32, u32)>::empty());
            assert forall|p: Seq<u32>| (#[trigger] is_path(r.edges(), p)) && p.len()
                >= 2 implies p.first() != p.last() by {
                assert(r.edges().contains((p[0], p[1])));
            }
        }
        r
    }

    /// Adds a node to the graph, issuing it a fresh id that no node of this
    /// graph has ever carried.
    pub fn insert_node(&mut self, node: N) -> (id: NodeId)
        requires
            old(self).wf(),
            old(self).next_index() < u32::MAX,
        ensures
            final(self).wf(),
            id.0 == old(self).next_index(),
            !old(self).nodes().dom().contains(id.0),
            final(self).nodes() == old(self).nodes().insert(id.0, node),
            final(self).link_set() == old(self).link_set(),
            final(self).edges() == old(self).edges(),
            final(self).next_index() == old(self).next_index() + 1,
    {
        let id = self.last_idx;
        self.last_idx = self.last_idx + 1;
        self.vertices.insert(id, node);
        proof {
            assert(self.link_set() =~= old(self).link_set());
            assert(self.edges() =~= old(self).edges());
            assert forall|k: u32| self.nodes().dom().contains(k) implies k < self.last_idx by {
                if k != id {
                    assert(old(self).nodes().dom().contains(k));
                }
            }
            assert forall|i: int| 0 <= i < self.links@.len() implies self.nodes().dom().contains(
                (#[trigger] self.links@[i]).left,
            ) && self.nodes().dom().contains(self.links@[i].right) by {
                assert(old(self).nodes().dom().contains(self.links@[i].left));
                assert(old(self).nodes().dom().contains(self.links@[i].right));
            }
        }
        NodeId(id)
    }

    /// Returns `true` if a node with id `id` is present.
    pub fn has_node(&self, id: NodeId) -> (r: bool)
        ensures
            r == self.nodes().dom().contains(id.0),
    {
        self.vertices.contains_key(&id.0)
    }

    /// Borrows the node with id `id`, if it is present.
    pub fn get_node(&self, id: NodeId) -> (r: Option<NodeRef<'_, N>>)
        ensures
            match r {
                Some(nr) => self.nodes().dom().contains(id.0) && *nr.spec_node()
                    == self.nodes()[id.0],
                None => !self.nodes().dom().contains(id.0),
            },
    {
        match self.vertices.get(&id.0) {
            Some(n) => Some(NodeRef::new(n)),
            None => None,
        }
    }

    /// The number of nodes the graph holds.
    pub fn node_count(&self) -> (r: usize)
        ensures
            r == self.nodes().dom().len(),
    {
        self.vertices.len()
    }

    /// Binary search for the edge entry of the ordered pair
    /// `(left, right)`: `Ok` at its position, `Err` at its insertion
    /// position.
    fn position_entry(&self, left: u32, right: u32) -> (r: Result<usize, usize>)
        requires
            entries_sorted(self.links@),
        ensures
            match r {
                Ok(i) => i < self.links@.len() && self.links@[i as int].left == left
                    && self.links@[i as int].right == right,
                Err(i) => {
                    &&& i <= self.links@.len()
                    &&& forall|k: int|
                        0 <= k < i ==> entry_lt(
                            ((#[trigger] self.links@[k]).left, self.links@[k].right),
                            (left, right),
                        )
                    &&& forall|k: int|
                        i <= k < self.links@.len() ==> entry_lt(
                            (left, right),
                            ((#[trigger] self.links@[k]).left, self.links@[k].right),
                        )
                    &&& forall|k: int|
                        0 <= k < self.links@.len() ==> !((#[trigger] self.links@[k]).left == left
                            && self.links@[k].right == right)
                },
            },
    {
        let mut lo: usize = 0;
        let mut hi: usize = self.links.len();
        while lo < hi
            invariant
                entries_sorted(self.links@),
                0 <= lo <= hi <= self.links@.len(),
                forall|k: int|
                    0 <= k < lo ==> entry_lt(
                        ((#[trigger] self.links@[k]).left, self.links@[k].right),
                        (left, right),
                    ),
                forall|k: int|
                    hi <= k < self.links@.len() ==> entry_lt(
                        (left, right),
                        ((#[trigger] self.links@[k]).left, self.links@[k].right),
                    ),
            decreases hi - lo,
        {
            let mid = lo + (hi - lo) / 2;
            let el = self.links[mid].left;
            let er = self.links[mid].right;
            if el < left || (el == left && er < right) {
                proof {
                    assert forall|k: int| 0 <= k < mid + 1 implies entry_lt(
                        ((#[trigger] self.links@[k]).left, self.links@[k].right),
                        (left, right),
                    ) by {
                        if k < mid {
                            assert(entry_lt(
                                (self.links@[k].left, self.links@[k].right),
                                (self.links@[mid as int].left, self.links@[mid as int].right),
                            ));
                        }
                    }
                }
                lo = mid + 1;
            } else if el == left && er == right {
                return Ok(mid);
            } else {
                proof {
                    assert forall|k: int| mid <= k < self.links@.len() implies entry_lt(
                        (left, right),
                        ((#[trigger] self.links@[k]).left, self.links@[k].right),
                    ) by {
                        if k > mid {
                            assert(entry_lt(
                                (self.links@[mid as int].left, self.links@[mid as int].right),
                                (self.links@[k].left, self.links@[k].right),
                            ));
                        }
                    }
                }
                hi = mid;
            }
        }
        Err(lo)
    }

    /// Decides whether `target` is reachable from `start` along the
    /// node-level edge relation, by a depth-first search with a
    /// duplicate-rejecting visited set. This search is the dominant cost of
    /// link insertion: in the worst case it visits every node and scans the
    /// edge entries once per visited node.
    #[verifier::rlimit(100)]
    pub(crate) fn can_reach(&self, start: u32, target: u32) -> (r: bool)
        requires
            self.wf(),
            self.nodes().dom().contains(start),
        ensures
            r == reaches(self.edges(), start, target),
    {
        let ghost e = self.edges();
        let ghost dom = self.nodes().dom();
        let mut visited = Visited::new();
        let mut stack: Vec<u32> = Vec::new();
        stack.push(start);
        proof {
            lemma_reaches_refl(e, start);
            assert(stack@[stack@.len() - 1] == start);
            assert(stack@.contains(start));
        }
        while stack.len() > 0
            invariant
                self.wf(),
                e == self.edges(),
                dom == self.nodes().dom(),
                dom.contains(start),
                visited.wf(),
                forall|n: NodeId| #[trigger] visited@.contains(n) ==> dom.contains(n.0),
                forall|k: int| 0 <= k < stack@.len() ==> dom.contains(#[trigger] stack@[k]),
                forall|n: NodeId| #[trigger] visited@.contains(n) ==> reaches(e, start, n.0),
                forall|k: int| 0 <= k < stack@.len() ==> reaches(e, start, #[trigger] stack@[k]),
                stack@.contains(start) || visited@.contains(NodeId(start)),
                !visited@.contains(NodeId(target)),
                forall|x: u32, y: u32|
                    visited@.contains(NodeId(x)) && #[trigger] e.contains((x, y))
                        ==> visited@.contains(NodeId(y)) || stack@.contains(y),
                visited@.len() <= dom.len(),
            decreases dom.len() - visited@.len(), stack@.len(),
        {
            let ghost stack0 = stack@;
            let node = match stack.pop() {
                Some(n) => n,
                None => {
                    proof {
                        assert(false);
                    }
                    0
                },
            };
            proof {
                assert(node == stack0[stack0.len() - 1]);
                assert(reaches(e, start, node));
                assert forall|y: u32| stack0.contains(y) implies stack@.contains(y) || y
                    == node by {
                    let k = choose|k: int| 0 <= k < stack0.len() && stack0[k] == y;
                    if k < stack0.len() - 1 {
                        assert(stack@[k] == y);
                    }
                }
            }
            if node == target {
                return true;
            }
            proof {
                assert(dom.contains(stack0[stack0.len() - 1]));
            }
            let ghost vis0 = visited@;
            let was_new = visited.visit(NodeId(node));
            proof {
                assert(visited@.contains(NodeId(node))) by {
                    assert(visited@.to_set().contains(NodeId(node)));
                }
                assert forall|n: NodeId| #[trigger] visited@.contains(n) implies dom.contains(n.0)
                    && reaches(e, start, n.0) by {
                    assert(visited@.to_set().contains(n));
                    if n != NodeId(node) {
                        assert(vis0.to_set().contains(n));
                        assert(vis0.contains(n));
                    }
                }
                lemma_sorted_ids_bounded(visited@, dom);
                assert(!visited@.contains(NodeId(target))) by {
                    if visited@.contains(NodeId(target)) {
                        assert(visited@.to_set().contains(NodeId(target)));
                        assert(vis0.to_set().contains(NodeId(target)) || NodeId(target) == NodeId(
                            node,
                        ));
                        if vis0.to_set().contains(NodeId(target)) {
                            assert(vis0.contains(NodeId(target)));
                        }
                    }
                }
                assert forall|x: u32, y: u32|
                    visited@.contains(NodeId(x)) && x != node && #[trigger] e.contains(
                        (x, y),
                    ) implies visited@.contains(NodeId(y)) || stack@.contains(y) by {
                    assert(visited@.to_set().contains(NodeId(x)));
                    assert(vis0.to_set().contains(NodeId(x)));
                    assert(vis0.contains(NodeId(x)));
                    assert(vis0.contains(NodeId(y)) || stack0.contains(y));
                    if vis0.contains(NodeId(y)) {
                        assert(visited@.to_set().contains(NodeId(y)));
                    } else {
                        assert(stack@.contains(y) || y == node);
                    }
                }
                if !was_new {
                    assert forall|x: u32, y: u32|
                        visited@.contains(NodeId(x)) && #[trigger] e.contains(
                            (x, y),
                        ) implies visited@.contains(NodeId(y)) || stack@.contains(y) by {
                        assert(visited@ == vis0);
                        assert(vis0.contains(NodeId(y)) || stack0.contains(y));
                        if !vis0.contains(NodeId(y)) {
                            assert(stack@.contains(y) || y == node);
                        }
                    }
                }
                assert(stack@.contains(start) || visited@.contains(NodeId(start))) by {
                    if vis0.contains(NodeId(start)) {
                        assert(vis0.to_set().contains(NodeId(start)));
                        assert(visited@.to_set().contains(NodeId(start)));
                        assert(visited@.contains(NodeId(start)));
                    } else {
                        assert(stack0.contains(start));
                        if !stack@.contains(start) {
                            assert(start == node);
                            assert(visited@.contains(NodeId(node)));
                        }
                    }
                }
            }
            if was_new {
                let n_entries = self.links.len();
                let mut j: usize = 0;
                while j < n_entries
                    invariant
                        self.wf(),
                        e == self.edges(),
                        dom == self.nodes().dom(),
                        dom.contains(start),
                        n_entries == self.links@.len(),
                        0 <= j <= n_entries,
                        visited.wf(),
                        visited@.contains(NodeId(node)),
                        reaches(e, start, node),
                        node != target,
                        forall|n: NodeId| #[trigger] visited@.contains(n) ==> dom.contains(n.0),
                        forall|k: int| 0 <= k < stack@.len() ==> dom.contains(#[trigger] stack@[k]),
                        forall|n: NodeId| #[trigger] visited@.contains(n) ==> reaches(e, start, n.0),
                        forall|k: int|
                            0 <= k < stack@.len() ==> reaches(e, start, #[trigger] stack@[k]),
                        stack@.contains(start) || visited@.contains(NodeId(start)),
                        !visited@.contains(NodeId(target)),
                        forall|x: u32, y: u32|
                            visited@.contains(NodeId(x)) && x != node && #[trigger] e.contains(
                                (x, y),
                            ) ==> visited@.contains(NodeId(y)) || stack@.contains(y),
                        forall|k: int|
                            0 <= k < j && (#[trigger] self.links@[k]).left == node
                                ==> stack@.contains(self.links@[k].right),
                        visited@.len() <= dom.len(),
                    decreases n_entries - j,
                {
                    let ghost stack1 = stack@;
                    let e_left = self.links[j].left;
                    if e_left == node {
                        let e_right = self.links[j].right;
                        proof {
                            assert(e.contains((node, e_right)));
                            lemma_reaches_edge(e, node, e_right);
                            lemma_reaches_trans(e, start, node, e_right);
                            assert(dom.contains(self.links@[j as int].right));
                        }
                        stack.push(e_right);
                        proof {
                            assert forall|y: u32| stack1.contains(y) implies stack@.contains(
                                y,
                            ) by {
                                let k = choose|k: int| 0 <= k < stack1.len() && stack1[k] == y;
                                assert(stack@[k] == y);
                            }
                            assert(stack@[stack@.len() - 1] == e_right);
                            assert(stack@.contains(e_right));
                        }
                    }
                    j = j + 1;
                }
                proof {
                    assert forall|x: u32, y: u32|
                        visited@.contains(NodeId(x)) && #[trigger] e.contains(
                            (x, y),
                        ) implies visited@.contains(NodeId(y)) || stack@.contains(y) by {
                        if x == node {
                            let i = choose|i: int|
                                0 <= i < self.links@.len() && (#[trigger] self.links@[i]).left == x
                                    && self.links@[i].right == y;
                            assert(stack@.contains(self.links@[i].right));
                        }
                    }
                }
            }
        }
        proof {
            let s = Set::new(|x: u32| visited@.contains(NodeId(x)));
            assert(visited@.contains(NodeId(start)));
            assert(s.contains(start));
            assert forall|x: u32, y: u32| s.contains(x) && #[trigger] e.contains(
                (x, y),
            ) implies s.contains(y) by {
                assert(visited@.contains(NodeId(x)));
                assert(visited@.contains(NodeId(y)) || stack@.contains(y));
                assert(visited@.contains(NodeId(y)));
            }
            if reaches(e, start, target) {
                lemma_closed_set_reach(e, s, start, target);
                assert(s.contains(target));
                assert(visited@.contains(NodeId(target)));
                assert(false);
            }
        }
        false
    }

    /// Inserts the socket-level link `link` between two present nodes.
    ///
    /// Before touching any state, the graph checks whether the new edge
    /// would let `link.right`'s node reach back to `link.left`'s node; if
    /// so, nothing changes and [`WouldCycle`] is returned. Otherwise the
    /// link is added, idempotently: inserting a link that is already
    /// present succeeds and leaves the graph as it was. The reachability
    /// search dominates the cost of insertion.
    #[verifier::rlimit(100)]
    pub fn insert_link(&mut self, link: NodeLinkId) -> (r: Result<(), WouldCycle>)
        requires
            old(self).wf(),
            old(self).nodes().dom().contains(link.left.node.0),
            old(self).nodes().dom().contains(link.right.node.0),
        ensures
            final(self).wf(),
            final(self).nodes() == old(self).nodes(),
            final(self).next_index() == old(self).next_index(),
            match r {
                Ok(()) => final(self).link_set() == old(self).link_set().insert(link)
                    && final(self).edges() == old(self).edges().insert(
                    (link.left.node.0, link.right.node.0),
                ),
                Err(e) => *final(self) == *old(self),
            },
            (r is Err) == reaches(old(self).edges(), link.right.node.0, link.left.node.0),
    {
        let l = link.left.node.0;
        let rr = link.right.node.0;
        let pair = SocketLinkId { from: link.left.socket, to: link.right.socket };
        match self.position_entry(l, rr) {
            Ok(i) => {
                proof {
                    assert(self.edges().contains((l, rr)));
                    lemma_acyclic_edge_no_return(self.edges(), l, rr);
                }
                let ghost before = self.links@;
                let mut entry = self.links.remove(i);
                entry.links.insert(pair);
                self.links.insert(i, entry);
                proof {
                    let after = self.links@;
                    assert(after =~= before.update(i as int, after[i as int]));
                    let e2 = after[i as int];
                    assert(e2.left == l && e2.right == rr);
                    assert(e2.links@.to_set() == before[i as int].links@.to_set().insert(pair));
                    assert(e2.links@.contains(pair));
                    assert forall|a: int, b: int| 0 <= a < b < after.len() implies entry_lt(
                        ((#[trigger] after[a]).left, after[a].right),
                        ((#[trigger] after[b]).left, after[b].right),
                    ) by {
                        assert(after[a].left == before[a].left && after[a].right
                            == before[a].right);
                        assert(after[b].left == before[b].left && after[b].right
                            == before[b].right);
                    }
                    assert forall|k: int| 0 <= k < after.len() implies (
                    #[trigger] after[k]).links.wf() && after[k].links@.len() > 0
                        && self.nodes().dom().contains(after[k].left) && self.nodes().dom(
                    ).contains(after[k].right) by {
                        if k != i {
                            assert(after[k] == before[k]);
                        }
                    }
                    assert(self.edges() =~= old(self).edges()) by {
                        assert forall|p: (u32, u32)|
                            seq_edge_set(after).contains(p) == seq_edge_set(before).contains(
                                p,
                            ) by {
                            if seq_edge_set(after).contains(p) {
                                let k = choose|k: int|
                                    0 <= k < after.len() && (#[trigger] after[k]).left == p.0
                                        && after[k].right == p.1;
                                assert(before[k].left == p.0 && before[k].right == p.1);
                            }
                            if seq_edge_set(before).contains(p) {
                                let k = choose|k: int|
                                    0 <= k < before.len() && (#[trigger] before[k]).left == p.0
                                        && before[k].right == p.1;
                                assert(after[k].left == p.0 && after[k].right == p.1);
                            }
                        }
                    }
                    assert(old(self).edges().contains((l, rr)));
                    assert(self.edges() =~= old(self).edges().insert((l, rr)));
                    assert(self.link_set() =~= old(self).link_set().insert(link)) by {
                        assert forall|x: NodeLinkId|
                            seq_link_set(after).contains(x) == (seq_link_set(before).contains(x)
                                || x == link) by {
                            let xpair = SocketLinkId { from: x.left.socket, to: x.right.socket };
                            if seq_link_set(after).contains(x) {
                                let k = choose|k: int|
                                    {
                                        &&& 0 <= k < after.len()
                                        &&& (#[trigger] after[k]).left == x.left.node.0
                                        &&& after[k].right == x.right.node.0
                                        &&& after[k].links@.contains(xpair)
                                    };
                                if k != i {
                                    assert(before[k].links@.contains(xpair));
                                    assert(seq_link_set(before).contains(x));
                                } else {
                                    assert(e2.links@.to_set().contains(xpair));
                                    if before[i as int].links@.to_set().contains(xpair) {
                                        assert(before[i as int].links@.contains(xpair));
                                        assert(seq_link_set(before).contains(x));
                                    } else {
                                        assert(xpair == pair);
                                        assert(x == link);
                                    }
                                }
                            }
                            if seq_link_set(before).contains(x) {
                                let k = choose|k: int|
                                    {
                                        &&& 0 <= k < before.len()
                                        &&& (#[trigger] before[k]).left == x.left.node.0
                                        &&& before[k].right == x.right.node.0
                                        &&& before[k].links@.contains(xpair)
                                    };
                                if k != i {
                                    assert(after[k].links@.contains(xpair));
                                    assert(seq_link_set(after).contains(x));
                                } else {
                                    assert(before[i as int].links@.to_set().contains(xpair));
                                    assert(e2.links@.to_set().contains(xpair));
                                    assert(e2.links@.contains(xpair));
                                    assert(seq_link_set(after).contains(x));
                                }
                            }
                            if x == link {
                                assert(e2.links@.contains(pair));
                                assert(seq_link_set(after).contains(x));
                            }
                        }
                    }
                }
                Ok(())
            },
            Err(pos) => {
                if self.can_reach(rr, l) {
                    Err(WouldCycle)
                } else {
                    let mut lks = Links::new();
                    lks.insert(pair);
                    let ghost before = self.links@;
                    self.links.insert(pos, EdgeEntry { left: l, right: rr, links: lks });
                    proof {
                        let after = self.links@;
                        let e2 = after[pos as int];
                        assert(after == before.insert(pos as int, e2));
                        assert(e2.left == l && e2.right == rr);
                        assert(e2.links@.to_set() == Seq::<SocketLinkId>::empty().to_set().insert(
                            pair,
                        ));
                        assert(e2.links@.contains(pair));
                        assert forall|xp: SocketLinkId| #[trigger]
                            e2.links@.contains(xp) implies xp == pair by {
                            assert(e2.links@.to_set().contains(xp));
                            if Seq::<SocketLinkId>::empty().to_set().contains(xp) {
                                let m = choose|m: int|
                                    0 <= m < Seq::<SocketLinkId>::empty().len() && Seq::<
                                        SocketLinkId,
                                    >::empty()[m] == xp;
                                assert(false);
                            }
                        }
                        assert forall|a: int, b: int| 0 <= a < b < after.len() implies entry_lt(
                            ((#[trigger] after[a]).left, after[a].right),
                            ((#[trigger] after[b]).left, after[b].right),
                        ) by {
                            assert(after[a] == before.insert(pos as int, e2)[a]);
                            assert(after[b] == before.insert(pos as int, e2)[b]);
                        }
                        assert forall|k: int| 0 <= k < after.len() implies (
                        #[trigger] after[k]).links.wf() && after[k].links@.len() > 0
                            && self.nodes().dom().contains(after[k].left) && self.nodes().dom(
                        ).contains(after[k].right) by {
                            if k < pos {
                                assert(after[k] == before[k]);
                            } else if k > pos {
                                assert(after[k] == before[k - 1]);
                            }
                        }
                        assert(self.edges() =~= old(self).edges().insert((l, rr))) by {
                            assert forall|p: (u32, u32)|
                                seq_edge_set(after).contains(p) == (seq_edge_set(before).contains(
                                    p,
                                ) || p == (l, rr)) by {
                                if seq_edge_set(after).contains(p) {
                                    let k = choose|k: int|
                                        0 <= k < after.len() && (#[trigger] after[k]).left == p.0
                                            && after[k].right == p.1;
                                    if k < pos {
                                        assert(before[k].left == p.0 && before[k].right == p.1);
                                    } else if k > pos {
                                        assert(before[k - 1].left == p.0 && before[k - 1].right
                                            == p.1);
                                    }
                                }
                                if seq_edge_set(before).contains(p) {
                                    let k = choose|k: int|
                                        0 <= k < before.len() && (#[trigger] before[k]).left == p.0
                                            && before[k].right == p.1;
                                    if k < pos {
                                        assert(after[k].left == p.0 && after[k].right == p.1);
                                    } else {
                                        assert(after[k + 1].left == p.0 && after[k + 1].right
                                            == p.1);
                                    }
                                }
                                if p == (l, rr) {
                                    assert(after[pos as int].left == p.0 && after[pos as int].right
                                        == p.1);
                                }
                            }
                        }
                        assert(self.link_set() =~= old(self).link_set().insert(link)) by {
                            assert forall|x: NodeLinkId|
                                seq_link_set(after).contains(x) == (seq_link_set(before).contains(
                                    x,
                                ) || x == link) by {
                                let xpair = SocketLinkId {
                                    from: x.left.socket,
                                    to: x.right.socket,
                                };
                                if seq_link_set(after).contains(x) {
                                    let k = choose|k: int|
                                        {
                                            &&& 0 <= k < after.len()
                                            &&& (#[trigger] after[k]).left == x.left.node.0
                                            &&& after[k].right == x.right.node.0
                                            &&& after[k].links@.contains(xpair)
                                        };
                                    if k < pos {
                                        assert(before[k].links@.contains(xpair));
                                        assert(seq_link_set(before).contains(x));
                                    } else if k > pos {
                                        assert(before[k - 1].links@.contains(xpair));
                                        assert(seq_link_set(before).contains(x));
                                    } else {
                                        assert(xpair == pair);
                                        assert(x == link);
                                    }
                                }
                                if seq_link_set(before).contains(x) {
                                    let k = choose|k: int|
                                        {
                                            &&& 0 <= k < before.len()
                                            &&& (#[trigger] before[k]).left == x.left.node.0
                                            &&& before[k].right == x.right.node.0
                                            &&& before[k].links@.contains(xpair)
                                        };
                                    if k < pos {
                                        assert(after[k].links@.contains(xpair));
                                        assert(seq_link_set(after).contains(x));
                                    } else {
                                        assert(after[k + 1].links@.contains(xpair));
                                        assert(seq_link_set(after).contains(x));
                                    }
                                }
                                if x == link {
                                    assert(after[pos as int].links@.contains(pair));
                                    assert(seq_link_set(after).contains(x));
                                }
                            }
                        }
                        lemma_acyclic_insert(old(self).edges(), l, rr);
                        lemma_acyclic_subset(self.edges(), old(self).edges().insert((l, rr)));
                    }
                    Ok(())
                }
            },
        }
    }

    /// Removes the socket-level link `link`, if it is present; removing an
    /// absent link is a no-op. An edge set emptied by the removal is pruned
    /// at once, so the node pair does not linger as an empty key.
    #[verifier::rlimit(100)]
    pub fn remove_link(&mut self, link: NodeLinkId)
        requires
            old(self).wf(),
        ensures
            final(self).wf(),
            final(self).nodes() == old(self).nodes(),
            final(self).next_index() == old(self).next_index(),
            final(self).link_set() == old(self).link_set().remove(link),
            !old(self).link_set().contains(link) ==> *final(self) == *old(self),
    {
        let l = link.left.node.0;
        let rr = link.right.node.0;
        let pair = SocketLinkId { from: link.left.socket, to: link.right.socket };
        match self.position_entry(l, rr) {
            Err(_) => {
                proof {
                    if self.link_set().contains(link) {
                        let k = choose|k: int|
                            {
                                &&& 0 <= k < self.links@.len()
                                &&& (#[trigger] self.links@[k]).left == link.left.node.0
                                &&& self.links@[k].right == link.right.node.0
                                &&& self.links@[k].links@.contains(pair)
                            };
                        assert(false);
                    }
                    assert(self.link_set() =~= self.link_set().remove(link));
                }
            },
            Ok(i) => {
                if !self.links[i].links.contains(pair) {
                    proof {
                        if self.link_set().contains(link) {
                            let j = choose|j: int|
                                {
                                    &&& 0 <= j < self.links@.len()
                                    &&& (#[trigger] self.links@[j]).left == link.left.node.0
                                    &&& self.links@[j].right == link.right.node.0
                                    &&& self.links@[j].links@.contains(pair)
                                };
                            if j < i as int {
                                assert(entry_lt(
                                    (self.links@[j].left, self.links@[j].right),
                                    (self.links@[i as int].left, self.links@[i as int].right),
                                ));
                            } else if j > i as int {
                                assert(entry_lt(
                                    (self.links@[i as int].left, self.links@[i as int].right),
                                    (self.links@[j].left, self.links@[j].right),
                                ));
                            }
                            assert(false);
                        }
                        assert(self.link_set() =~= self.link_set().remove(link));
                    }
                    return ;
                }
                let ghost before = self.links@;
                let mut entry = self.links.remove(i);
                entry.links.remove(pair);
                if entry.links.count() > 0 {
                    self.links.insert(i, entry);
                    proof {
                        let after = self.links@;
                        assert(after =~= before.update(i as int, after[i as int]));
                        let e2 = after[i as int];
                        assert(e2.left == l && e2.right == rr);
                        assert(e2.links@.to_set() == before[i as int].links@.to_set().remove(pair));
                        assert forall|a: int, b: int| 0 <= a < b < after.len() implies entry_lt(
                            ((#[trigger] after[a]).left, after[a].right),
                            ((#[trigger] after[b]).left, after[b].right),
                        ) by {
                            assert(after[a].left == before[a].left && after[a].right
                                == before[a].right);
                            assert(after[b].left == before[b].left && after[b].right
                                == before[b].right);
                        }
                        assert forall|k: int| 0 <= k < after.len() implies (
                        #[trigger] after[k]).links.wf() && after[k].links@.len() > 0
                            && self.nodes().dom().contains(after[k].left) && self.nodes().dom(
                        ).contains(after[k].right) by {
                            if k != i {
                                assert(after[k] == before[k]);
                            }
                        }
                        assert(self.edges() =~= old(self).edges()) by {
                            assert forall|p: (u32, u32)|
                                seq_edge_set(after).contains(p) == seq_edge_set(before).contains(
                                    p,
                                ) by {
                                if seq_edge_set(after).contains(p) {
                                    let k = choose|k: int|
                                        0 <= k < after.len() && (#[trigger] after[k]).left == p.0
                                            && after[k].right == p.1;
                                    assert(before[k].left == p.0 && before[k].right == p.1);
                                }
                                if seq_edge_set(before).contains(p) {
                                    let k = choose|k: int|
                                        0 <= k < before.len() && (#[trigger] before[k]).left == p.0
                                            && before[k].right == p.1;
                                    assert(after[k].left == p.0 && after[k].right == p.1);
                                }
                            }
                        }
                        assert(self.link_set() =~= old(self).link_set().remove(link)) by {
                            assert forall|x: NodeLinkId|
                                seq_link_set(after).contains(x) == (seq_link_set(before).contains(
                                    x,
                                ) && x != link) by {
                                let xpair = SocketLinkId {
                                    from: x.left.socket,
                                    to: x.right.socket,
                                };
                                if seq_link_set(after).contains(x) {
                                    let k = choose|k: int|
                                        {
                                            &&& 0 <= k < after.len()
                                            &&& (#[trigger] after[k]).left == x.left.node.0
                                            &&& after[k].right == x.right.node.0
                                            &&& after[k].links@.contains(xpair)
                                        };
                                    if k != i {
                                        assert(before[k].links@.contains(xpair));
                                        assert(seq_link_set(before).contains(x));
                                    } else {
                                        assert(e2.links@.to_set().contains(xpair));
                                        assert(before[i as int].links@.contains(xpair));
                                        assert(seq_link_set(before).contains(x));
                                        assert(xpair != pair);
                                    }
                                }
                                if seq_link_set(before).contains(x) && x != link {
                                    let k = choose|k: int|
                                        {
                                            &&& 0 <= k < before.len()
                                            &&& (#[trigger] before[k]).left == x.left.node.0
                                            &&& before[k].right == x.right.node.0
                                            &&& before[k].links@.contains(xpair)
                                        };
                                    if k != i {
                                        assert(after[k].links@.contains(xpair));
                                        assert(seq_link_set(after).contains(x));
                                    } else {
                                        assert(before[i as int].links@.to_set().contains(xpair));
                                        assert(xpair != pair);
                                        assert(e2.links@.to_set().contains(xpair));
                                        assert(e2.links@.contains(xpair));
                                        assert(seq_link_set(after).contains(x));
                                    }
                                }
                            }
                        }
                    }
                } else {
                    proof {
                        let after = self.links@;
                        assert(after == before.remove(i as int));
                        let e0 = before[i as int];
                        assert(entry.links@.to_set() == e0.links@.to_set().remove(pair));
                        assert(entry.links@.len() == 0);
                        assert forall|xp: SocketLinkId| #[trigger]
                            e0.links@.contains(xp) implies xp == pair by {
                            if xp != pair {
                                assert(e0.links@.to_set().contains(xp));
                                assert(entry.links@.to_set().contains(xp));
                                assert(entry.links@.contains(xp));
                                let m = choose|m: int|
                                    0 <= m < entry.links@.len() && entry.links@[m] == xp;
                                assert(false);
                            }
                        }
                        assert forall|a: int, b: int| 0 <= a < b < after.len() implies entry_lt(
                            ((#[trigger] after[a]).left, after[a].right),
                            ((#[trigger] after[b]).left, after[b].right),
                        ) by {
                            assert(after[a] == before.remove(i as int)[a]);
                            assert(after[b] == before.remove(i as int)[b]);
                        }
                        assert forall|k: int| 0 <= k < after.len() implies (
                        #[trigger] after[k]).links.wf() && after[k].links@.len() > 0
                            && self.nodes().dom().contains(after[k].left) && self.nodes().dom(
                        ).contains(after[k].right) by {
                            if k < i {
                                assert(after[k] == before[k]);
                            } else {
                                assert(after[k] == before[k + 1]);
                            }
                        }
                        assert forall|p: (u32, u32)| #[trigger]
                            seq_edge_set(after).contains(p) implies seq_edge_set(before).contains(
                            p,
                        ) by {
                            let k = choose|k: int|
                                0 <= k < after.len() && (#[trigger] after[k]).left == p.0
                                    && after[k].right == p.1;
                            if k < i {
                                assert(before[k].left == p.0 && before[k].right == p.1);
                            } else {
                                assert(before[k + 1].left == p.0 && before[k + 1].right == p.1);
                            }
                        }
                        assert(self.edges().subset_of(old(self).edges()));
                        lemma_acyclic_subset(self.edges(), old(self).edges());
                        assert(self.link_set() =~= old(self).link_set().remove(link)) by {
                            assert forall|x: NodeLinkId|
                                seq_link_set(after).contains(x) == (seq_link_set(before).contains(
                                    x,
                                ) && x != link) by {
                                let xpair = SocketLinkId {
                                    from: x.left.socket,
                                    to: x.right.socket,
                                };
                                if seq_link_set(after).contains(x) {
                                    let k = choose|k: int|
                                        {
                                            &&& 0 <= k < after.len()
                                            &&& (#[trigger] after[k]).left == x.left.node.0
                                            &&& after[k].right == x.right.node.0
                                            &&& after[k].links@.contains(xpair)
                                        };
                                    if k < i {
                                        assert(before[k].links@.contains(xpair));
                                        assert(seq_link_set(before).contains(x));
                                        if x == link {
                                            assert(entry_lt(
                                                (before[k].left, before[k].right),
                                                (before[i as int].left, before[i as int].right),
                                            ));
                                            assert(false);
                                        }
                                    } else {
                                        assert(before[k + 1].links@.contains(xpair));
                                        assert(seq_link_set(before).contains(x));
                                        if x == link {
                                            assert(entry_lt(
                                                (before[i as int].left, before[i as int].right),
                                                (before[k + 1].left, before[k + 1].right),
                                            ));
                                            assert(false);
                                        }
                                    }
                                }
                                if seq_link_set(before).contains(x) && x != link {
                                    let k = choose|k: int|
                                        {
                                            &&& 0 <= k < before.len()
                                            &&& (#[trigger] before[k]).left == x.left.node.0
                                            &&& before[k].right == x.right.node.0
                                            &&& before[k].links@.contains(xpair)
                                        };
                                    if k == i {
                                        assert(xpair == pair);
                                        assert(x == link);
                                        assert(false);
                                    } else if k < i {
                                        assert(after[k].links@.contains(xpair));
                                        assert(seq_link_set(after).contains(x));
                                    } else {
                                        assert(after[k - 1].links@.contains(xpair));
                                        assert(seq_link_set(after).contains(x));
                                    }
                                }
                            }
                        }
                    }
                }
            },
        }
    }

    /// Inserts every socket pair of `pairs` as a link from `from` to `to`,
    /// stopping at the first pair that would close a cycle. Only the first
    /// insertion can be refused: once an edge from `from` to `to` exists,
    /// further parallel pairs cannot create a cycle.
    #[verifier::rlimit(100)]
    pub fn insert_multiple_links(&mut self, from: NodeId, to: NodeId, pairs: &[SocketLinkId]) -> (r:
        Result<(), WouldCycle>)
        requires
            old(self).wf(),
            old(self).nodes().dom().contains(from.0),
            old(self).nodes().dom().contains(to.0),
        ensures
            final(self).wf(),
            final(self).nodes() == old(self).nodes(),
            final(self).next_index() == old(self).next_index(),
            match r {
                Ok(()) => final(self).link_set() == old(self).link_set() + Set::new(
                    |x: NodeLinkId| x.left.node == from && x.right.node == to
                        && pairs@.contains(SocketLinkId { from: x.left.socket, to: x.right.socket }),
                ),
                Err(e) => *final(self) == *old(self) && pairs@.len() > 0,
            },
            (r is Err) == (pairs@.len() > 0 && reaches(old(self).edges(), to.0, from.0)),
    {
        let n = pairs.len();
        let mut i: usize = 0;
        while i < n
            invariant
                self.wf(),
                n == pairs@.len(),
                0 < i <= n || i == 0,
                self.nodes() == old(self).nodes(),
                self.nodes().dom().contains(from.0),
                self.nodes().dom().contains(to.0),
                self.next_index() == old(self).next_index(),
                !reaches(old(self).edges(), to.0, from.0) || i == 0,
                i == 0 ==> *self == *old(self),
                self.link_set() =~= old(self).link_set() + Set::new(
                    |x: NodeLinkId| x.left.node == from && x.right.node == to
                        && pairs@.take(i as int).contains(
                        SocketLinkId { from: x.left.socket, to: x.right.socket },
                    ),
                ),
            decreases n - i,
        {
            let ghost before_ls = self.link_set();
            let pair = pairs[i];
            let l = NodeLinkId {
                left: NodeSocketId { node: from, socket: pair.from },
                right: NodeSocketId { node: to, socket: pair.to },
            };
            match self.insert_link(l) {
                Ok(()) => {
                },
                Err(e) => {
                    proof {
                        assert(i == 0) by {
                            if i > 0 {
                                let x0 = NodeLinkId {
                                    left: NodeSocketId { node: from, socket: pairs@[0].from },
                                    right: NodeSocketId { node: to, socket: pairs@[0].to },
                                };
                                assert(pairs@.take(i as int)[0] == pairs@[0]);
                                assert(pairs@.take(i as int).contains(pairs@[0]));
                                assert(SocketLinkId { from: x0.left.socket, to: x0.right.socket }
                                    == pairs@[0]);
                                assert(self.link_set().contains(x0));
                                assert(self.edges().contains((from.0, to.0))) by {
                                    assert(self.link_set() == seq_link_set(self.links@));
                                    let k = choose|k: int|
                                        {
                                            &&& 0 <= k < self.links@.len()
                                            &&& (#[trigger] self.links@[k]).left == x0.left.node.0
                                            &&& self.links@[k].right == x0.right.node.0
                                            &&& self.links@[k].links@.contains(
                                                SocketLinkId {
                                                    from: x0.left.socket,
                                                    to: x0.right.socket,
                                                },
                                            )
                                        };
                                }
                                lemma_acyclic_edge_no_return(self.edges(), from.0, to.0);
                                assert(false);
                            }
                        }
                    }
                    return Err(e);
                },
            }
            i = i + 1;
            proof {
                assert(self.link_set() =~= old(self).link_set() + Set::new(
                    |x: NodeLinkId| x.left.node == from && x.right.node == to
                        && pairs@.take(i as int).contains(
                        SocketLinkId { from: x.left.socket, to: x.right.socket },
                    ),
                )) by {
                    assert(self.link_set() == before_ls.insert(l));
                    assert forall|x: NodeLinkId| self.link_set().contains(x) == (old(
                        self,
                    ).link_set().contains(x) || (x.left.node == from && x.right.node == to
                        && pairs@.take(i as int).contains(
                        SocketLinkId { from: x.left.socket, to: x.right.socket },
                    ))) by {
                        let xp = SocketLinkId { from: x.left.socket, to: x.right.socket };
                        let curr = pairs@.take(i as int);
                        let prev = pairs@.take(i as int - 1);
                        if x == l {
                            assert(curr[i - 1] == pair);
                            assert(curr.contains(pair));
                        }
                        if x != l && curr.contains(xp) {
                            let m = choose|m: int| 0 <= m < curr.len() && curr[m] == xp;
                            if m < i - 1 {
                                assert(prev[m] == xp);
                                assert(prev.contains(xp));
                            } else {
                                assert(xp == pair);
                            }
                        }
                        if prev.contains(xp) {
                            let m = choose|m: int| 0 <= m < prev.len() && prev[m] == xp;
                            assert(curr[m] == xp);
                            assert(curr.contains(xp));
                        }
                    }
                }
            }
        }
        proof {
            assert(pairs@.take(n as int) =~= pairs@);
            if pairs@.len() > 0 && reaches(old(self).edges(), to.0, from.0) {
                assert(false);
            }
        }
        Ok(())
    }

    /// Removes every socket pair of `pairs` as a link from `from` to `to`;
    /// absent pairs are no-ops.
    #[verifier::rlimit(100)]
    pub fn remove_multiple_links(&mut self, from: NodeId, to: NodeId, pairs: &[SocketLinkId])
        requires
            old(self).wf(),
        ensures
            final(self).wf(),
            final(self).nodes() == old(self).nodes(),
            final(self).next_index() == old(self).next_index(),
            final(self).link_set() == old(self).link_set() - Set::new(
                |x: NodeLinkId| x.left.node == from && x.right.node == to && pairs@.contains(
                    SocketLinkId { from: x.left.socket, to: x.right.socket },
                ),
            ),
    {
        let n = pairs.len();
        let mut i: usize = 0;
        while i < n
            invariant
                self.wf(),
                n == pairs@.len(),
                0 <= i <= n,
                self.nodes() == old(self).nodes(),
                self.next_index() == old(self).next_index(),
                self.link_set() =~= old(self).link_set() - Set::new(
                    |x: NodeLinkId| x.left.node == from && x.right.node == to
                        && pairs@.take(i as int).contains(
                        SocketLinkId { from: x.left.socket, to: x.right.socket },
                    ),
                ),
            decreases n - i,
        {
            let ghost before_ls = self.link_set();
            let pair = pairs[i];
            let l = NodeLinkId {
                left: NodeSocketId { node: from, socket: pair.from },
                right: NodeSocketId { node: to, socket: pair.to },
            };
            self.remove_link(l);
            i = i + 1;
            proof {
                assert(self.link_set() == before_ls.remove(l));
                assert forall|x: NodeLinkId| self.link_set().contains(x) == (old(
                    self,
                ).link_set().contains(x) && !(x.left.node == from && x.right.node == to
                    && pairs@.take(i as int).contains(
                    SocketLinkId { from: x.left.socket, to: x.right.socket },
                ))) by {
                    let xp = SocketLinkId { from: x.left.socket, to: x.right.socket };
                    let curr = pairs@.take(i as int);
                    let prev = pairs@.take(i as int - 1);
                    if x == l {
                        assert(curr[i - 1] == pair);
                        assert(curr.contains(pair));
                    }
                    if x != l && curr.contains(xp) {
                        let m = choose|m: int| 0 <= m < curr.len() && curr[m] == xp;
                        if m < i - 1 {
                            assert(prev[m] == xp);
                            assert(prev.contains(xp));
                        } else {
                            assert(xp == pair);
                        }
                    }
                    if prev.contains(xp) {
                        let m = choose|m: int| 0 <= m < prev.len() && prev[m] == xp;
                        assert(curr[m] == xp);
                        assert(curr.contains(xp));
                    }
                }
                assert(self.link_set() =~= old(self).link_set() - Set::new(
                    |x: NodeLinkId| x.left.node == from && x.right.node == to
                        && pairs@.take(i as int).contains(
                        SocketLinkId { from: x.left.socket, to: x.right.socket },
                    ),
                ));
            }
        }
        proof {
            assert(pairs@.take(n as int) =~= pairs@);
        }
    }

    /// Removes the node `id`, severing every link that touches it in the
    /// same atomic step, and returns the node together with a record of
    /// exactly the links that were severed. Returns `None`, changing
    /// nothing, if `id` is absent. The id of a removed node is never issued
    /// again.
    #[verifier::rlimit(100)]
    pub fn remove_node(&mut self, id: NodeId) -> (r: Option<(N, SeveredLinks)>)
        requires
            old(self).wf(),
        ensures
            final(self).wf(),
            final(self).next_index() == old(self).next_index(),
            match r {
                None => {
                    &&& !old(self).nodes().dom().contains(id.0)
                    &&& final(self).nodes() == old(self).nodes()
                    &&& final(self).link_set() == old(self).link_set()
                    &&& final(self).edges() == old(self).edges()
                },
                Some((node, severed)) => {
                    &&& old(self).nodes().dom().contains(id.0)
                    &&& node == old(self).nodes()[id.0]
                    &&& final(self).nodes() == old(self).nodes().remove(id.0)
                    &&& final(self).link_set() == Set::new(
                        |x: NodeLinkId| old(self).link_set().contains(x) && !touches(x, id),
                    )
                    &&& severed@.to_set() == Set::new(
                        |x: NodeLinkId| old(self).link_set().contains(x) && touches(x, id),
                    )
                    &&& severed@.no_duplicates()
                    &&& severed.position() == 0
                    &&& forall|p: (u32, u32)| #[trigger]
                        final(self).edges().contains(p) ==> p.0 != id.0 && p.1 != id.0
                },
            },
    {
        let node = match self.vertices.remove(&id.0) {
            None => {
                proof {
                    assert(self.nodes() =~= old(self).nodes());
                    assert(self.link_set() =~= old(self).link_set());
                    assert(self.edges() =~= old(self).edges());
                }
                return None;
            },
            Some(n) => n,
        };
        let ghost orig = self.links@;
        let ghost old_ls = seq_link_set(orig);
        let mut severed_vec: Vec<NodeLinkId> = Vec::new();
        let mut i: usize = 0;
        while i < self.links.len()
            invariant
                self.nodes() == old(self).nodes().remove(id.0),
                self.next_index() == old(self).next_index(),
                old(self).wf(),
                old_ls == old(self).link_set(),
                entries_sorted(self.links@),
                forall|k: int|
                    0 <= k < self.links@.len() ==> (#[trigger] self.links@[k]).links.wf(),
                forall|k: int|
                    0 <= k < self.links@.len() ==> (#[trigger] self.links@[k]).links@.len() > 0,
                forall|k: int|
                    0 <= k < self.links@.len() ==> old(self).nodes().dom().contains(
                        (#[trigger] self.links@[k]).left,
                    ) && old(self).nodes().dom().contains(self.links@[k].right),
                0 <= i <= self.links@.len(),
                forall|k: int|
                    0 <= k < i ==> (#[trigger] self.links@[k]).left != id.0
                        && self.links@[k].right != id.0,
                forall|x: NodeLinkId| #[trigger]
                    old_ls.contains(x) == (seq_link_set(self.links@).contains(x)
                        || severed_vec@.to_set().contains(x)),
                forall|x: NodeLinkId|
                    severed_vec@.to_set().contains(x) ==> #[trigger] touches(x, id)
                        && old_ls.contains(x),
                forall|x: NodeLinkId|
                    severed_vec@.to_set().contains(x) ==> !(#[trigger] seq_link_set(
                        self.links@,
                    ).contains(x)),
                severed_vec@.no_duplicates(),
                forall|x: NodeLinkId|
                    seq_link_set(self.links@).contains(x) ==> #[trigger] old_ls.contains(x),
            decreases self.links@.len() - i,
        {
            let e_left = self.links[i].left;
            let e_right = self.links[i].right;
            if e_left == id.0 || e_right == id.0 {
                let ghost cur0 = self.links@;
                let ghost sev0 = severed_vec@;
                let entry = self.links.remove(i);
                let cnt = entry.links.count();
                let mut k: usize = 0;
                while k < cnt
                    invariant
                        0 <= k <= cnt,
                        cnt == entry.links@.len(),
                        entry.links.wf(),
                        severed_vec@.len() == sev0.len() + k,
                        forall|m: int| 0 <= m < sev0.len() ==> #[trigger] severed_vec@[m] == sev0[m],
                        forall|m: int|
                            0 <= m < k ==> #[trigger] severed_vec@[sev0.len() + m] == lift_link(
                                entry.left,
                                entry.right,
                                entry.links@[m],
                            ),
                    decreases cnt - k,
                {
                    let la = entry.links.link_at(k);
                    severed_vec.push(
                        NodeLinkId {
                            left: NodeSocketId { node: NodeId(entry.left), socket: la.from },
                            right: NodeSocketId { node: NodeId(entry.right), socket: la.to },
                        },
                    );
                    k = k + 1;
                }
                proof {
                    let cur1 = self.links@;
                    let sev1 = severed_vec@;
                    assert(cur1 == cur0.remove(i as int));
                    assert(entry == cur0[i as int]);
                    assert forall|a: int, b: int| 0 <= a < b < cur1.len() implies entry_lt(
                        ((#[trigger] cur1[a]).left, cur1[a].right),
                        ((#[trigger] cur1[b]).left, cur1[b].right),
                    ) by {
                        assert(cur1[a] == cur0.remove(i as int)[a]);
                        assert(cur1[b] == cur0.remove(i as int)[b]);
                    }
                    assert forall|k2: int| 0 <= k2 < cur1.len() implies !((
                    #[trigger] cur1[k2]).left == entry.left && cur1[k2].right == entry.right) by {
                        if k2 < i {
                            assert(cur1[k2] == cur0[k2]);
                            if cur1[k2].left == entry.left && cur1[k2].right == entry.right {
                                assert(entry_lt(
                                    (cur0[k2].left, cur0[k2].right),
                                    (cur0[i as int].left, cur0[i as int].right),
                                ));
                                assert(false);
                            }
                        } else {
                            assert(cur1[k2] == cur0[k2 + 1]);
                            if cur1[k2].left == entry.left && cur1[k2].right == entry.right {
                                assert(entry_lt(
                                    (cur0[i as int].left, cur0[i as int].right),
                                    (cur0[k2 + 1].left, cur0[k2 + 1].right),
                                ));
                                assert(false);
                            }
                        }
                    }
                    assert forall|x: NodeLinkId|
                        #![trigger seq_link_set(cur0).contains(x)]
                        #![trigger seq_link_set(cur1).contains(x)]
                        seq_link_set(cur0).contains(x) == (seq_link_set(cur1).contains(x) || (
                        x.left.node.0 == entry.left && x.right.node.0 == entry.right
                            && entry.links@.contains(
                            SocketLinkId { from: x.left.socket, to: x.right.socket },
                        ))) by {
                        let xpair = SocketLinkId { from: x.left.socket, to: x.right.socket };
                        if seq_link_set(cur0).contains(x) {
                            let k2 = choose|k2: int|
                                {
                                    &&& 0 <= k2 < cur0.len()
                                    &&& (#[trigger] cur0[k2]).left == x.left.node.0
                                    &&& cur0[k2].right == x.right.node.0
                                    &&& cur0[k2].links@.contains(xpair)
                                };
                            if k2 < i {
                                assert(cur1[k2].links@.contains(xpair));
                                assert(seq_link_set(cur1).contains(x));
                            } else if k2 > i {
                                assert(cur1[k2 - 1].links@.contains(xpair));
                                assert(seq_link_set(cur1).contains(x));
                            }
                        }
                        if seq_link_set(cur1).contains(x) {
                            let k2 = choose|k2: int|
                                {
                                    &&& 0 <= k2 < cur1.len()
                                    &&& (#[trigger] cur1[k2]).left == x.left.node.0
                                    &&& cur1[k2].right == x.right.node.0
                                    &&& cur1[k2].links@.contains(xpair)
                                };
                            if k2 < i {
                                assert(cur0[k2].links@.contains(xpair));
                            } else {
                                assert(cur0[k2 + 1].links@.contains(xpair));
                            }
                            assert(seq_link_set(cur0).contains(x));
                        }
                        if x.left.node.0 == entry.left && x.right.node.0 == entry.right
                            && entry.links@.contains(xpair) {
                            assert(cur0[i as int].links@.contains(xpair));
                            assert(seq_link_set(cur0).contains(x));
                        }
                    }
                    assert forall|x: NodeLinkId|
                        #![trigger sev1.to_set().contains(x)]
                        sev1.to_set().contains(x) == (sev0.to_set().contains(x) || (x.left.node.0
                            == entry.left && x.right.node.0 == entry.right && entry.links@.contains(
                            SocketLinkId { from: x.left.socket, to: x.right.socket },
                        ))) by {
                        let xpair = SocketLinkId { from: x.left.socket, to: x.right.socket };
                        if sev1.contains(x) {
                            let m = choose|m: int| 0 <= m < sev1.len() && sev1[m] == x;
                            if m < sev0.len() {
                                assert(sev0[m] == x);
                                assert(sev0.contains(x));
                            } else {
                                let mm = m - sev0.len();
                                assert(sev1[sev0.len() + mm] == lift_link(
                                    entry.left,
                                    entry.right,
                                    entry.links@[mm],
                                ));
                                assert(sev0.len() + mm == m);
                                assert(entry.links@.contains(entry.links@[mm]));
                            }
                        }
                        if sev0.contains(x) {
                            let m = choose|m: int| 0 <= m < sev0.len() && sev0[m] == x;
                            assert(sev1[m] == x);
                            assert(sev1.contains(x));
                        }
                        if x.left.node.0 == entry.left && x.right.node.0 == entry.right
                            && entry.links@.contains(xpair) {
                            let m = choose|m: int|
                                0 <= m < entry.links@.len() && entry.links@[m] == xpair;
                            assert(sev1[sev0.len() + m] == lift_link(
                                entry.left,
                                entry.right,
                                xpair,
                            ));
                            assert(lift_link(entry.left, entry.right, xpair) == x);
                            assert(sev1.contains(x));
                        }
                    }
                    assert forall|a: int, b: int| 0 <= a < b < sev1.len() implies #[trigger] sev1[a]
                        != #[trigger] sev1[b] by {
                        if b < sev0.len() {
                            assert(sev0[a] == sev1[a] && sev0[b] == sev1[b]);
                        } else if a >= sev0.len() {
                            let ma = a - sev0.len();
                            let mb = b - sev0.len();
                            assert(crate::link::link_lt(entry.links@[ma], entry.links@[mb]));
                            assert(sev1[sev0.len() + ma] == lift_link(
                                entry.left,
                                entry.right,
                                entry.links@[ma],
                            ));
                            assert(sev1[sev0.len() + mb] == lift_link(
                                entry.left,
                                entry.right,
                                entry.links@[mb],
                            ));
                            assert(sev0.len() + ma == a && sev0.len() + mb == b);
                        } else {
                            let mb = b - sev0.len();
                            assert(sev1[a] == sev0[a]);
                            assert(sev0.contains(sev0[a]));
                            assert(sev0.to_set().contains(sev1[a]));
                            assert(!seq_link_set(cur0).contains(sev1[a]));
                            assert(sev1[sev0.len() + mb] == lift_link(
                                entry.left,
                                entry.right,
                                entry.links@[mb],
                            ));
                            assert(sev0.len() + mb == b);
                            assert(entry.links@.contains(entry.links@[mb]));
                            assert(cur0[i as int].links@.contains(entry.links@[mb]));
                            assert(seq_link_set(cur0).contains(sev1[b]));
                        }
                    }
                    assert(sev1.no_duplicates());
                }
            } else {
                i = i + 1;
            }
        }
        proof {
            let cur = self.links@;
            let sev = severed_vec@;
            assert forall|k: int| 0 <= k < cur.len() implies self.nodes().dom().contains(
                (#[trigger] cur[k]).left,
            ) && self.nodes().dom().contains(cur[k].right) by {
                assert(cur[k].left != id.0 && cur[k].right != id.0);
                assert(old(self).nodes().dom().contains(cur[k].left));
                assert(old(self).nodes().dom().contains(cur[k].right));
            }
            assert forall|k2: u32| self.nodes().dom().contains(k2) implies k2
                < self.last_idx by {
                assert(old(self).nodes().dom().contains(k2));
            }
            assert forall|p: (u32, u32)| #[trigger] self.edges().contains(p) implies old(
                self,
            ).edges().contains(p) && p.0 != id.0 && p.1 != id.0 by {
                let k = choose|k: int|
                    0 <= k < cur.len() && (#[trigger] cur[k]).left == p.0 && cur[k].right == p.1;
                let x = lift_link(cur[k].left, cur[k].right, cur[k].links@[0]);
                assert(cur[k].links@.contains(cur[k].links@[0]));
                assert(seq_link_set(cur).contains(x));
                assert(old_ls.contains(x));
                let k0 = choose|k0: int|
                    {
                        &&& 0 <= k0 < orig.len()
                        &&& (#[trigger] orig[k0]).left == x.left.node.0
                        &&& orig[k0].right == x.right.node.0
                        &&& orig[k0].links@.contains(
                            SocketLinkId { from: x.left.socket, to: x.right.socket },
                        )
                    };
                assert(seq_edge_set(orig).contains(p));
            }
            lemma_acyclic_subset(self.edges(), old(self).edges());
            assert(self.link_set() =~= Set::new(
                |x: NodeLinkId| old(self).link_set().contains(x) && !touches(x, id),
            )) by {
                assert forall|x: NodeLinkId|
                    seq_link_set(cur).contains(x) == (old_ls.contains(x) && !touches(x, id)) by {
                    if seq_link_set(cur).contains(x) {
                        let k = choose|k: int|
                            {
                                &&& 0 <= k < cur.len()
                                &&& (#[trigger] cur[k]).left == x.left.node.0
                                &&& cur[k].right == x.right.node.0
                                &&& cur[k].links@.contains(
                                    SocketLinkId { from: x.left.socket, to: x.right.socket },
                                )
                            };
                        assert(cur[k].left != id.0 && cur[k].right != id.0);
                        assert(x.left.node.0 != id.0 && x.right.node.0 != id.0);
                        assert(!touches(x, id));
                        assert(old_ls.contains(x));
                    }
                    if old_ls.contains(x) && !touches(x, id) {
                        if severed_vec@.to_set().contains(x) {
                            assert(touches(x, id));
                            assert(false);
                        }
                        assert(seq_link_set(cur).contains(x));
                    }
                }
            }
            assert(sev.to_set() =~= Set::new(
                |x: NodeLinkId| old(self).link_set().contains(x) && touches(x, id),
            )) by {
                assert forall|x: NodeLinkId|
                    sev.to_set().contains(x) == (old_ls.contains(x) && touches(x, id)) by {
                    if sev.to_set().contains(x) {
                        assert(touches(x, id) && old_ls.contains(x));
                    }
                    if old_ls.contains(x) && touches(x, id) {
                        if seq_link_set(cur).contains(x) {
                            let k = choose|k: int|
                                {
                                    &&& 0 <= k < cur.len()
                                    &&& (#[trigger] cur[k]).left == x.left.node.0
                                    &&& cur[k].right == x.right.node.0
                                    &&& cur[k].links@.contains(
                                        SocketLinkId { from: x.left.socket, to: x.right.socket },
                                    )
                                };
                            assert(cur[k].left != id.0 && cur[k].right != id.0);
                            assert(!touches(x, id));
                            assert(false);
                        }
                        assert(sev.to_set().contains(x));
                    }
                }
            }
        }
        Some((node, SeveredLinks::fresh(severed_vec)))
    }

    /// The nodes that `node` directly depends on: every producer wired into
    /// one of its inputs, each listed once, in ascending id order.
    pub fn iter_direct_dependencies(&self, node: NodeId) -> (r: Vec<NodeId>)
        requires
            self.wf(),
        ensures
            forall|x: NodeId| #[trigger]
                r@.contains(x) == self.edges().contains((x.0, node.0)),
            crate::traversal::ids_sorted(r@),
    {
        let mut r: Vec<NodeId> = Vec::new();
        let n = self.links.len();
        let mut j: usize = 0;
        while j < n
            invariant
                self.wf(),
                n == self.links@.len(),
                0 <= j <= n,
                forall|x: NodeId| #[trigger]
                    r@.contains(x) == exists|k: int|
                        0 <= k < j && (#[trigger] self.links@[k]).right == node.0
                            && self.links@[k].left == x.0,
                crate::traversal::ids_sorted(r@),
            decreases n - j,
        {
            let ghost r0 = r@;
            if self.links[j].right == node.0 {
                let left = self.links[j].left;
                proof {
                    assert forall|m: int| 0 <= m < r0.len() implies (#[trigger] r0[m]).0
                        < left by {
                        assert(r0.contains(r0[m]));
                        let k = choose|k: int|
                            0 <= k < j && (#[trigger] self.links@[k]).right == node.0
                                && self.links@[k].left == r0[m].0;
                        assert(entry_lt(
                            (self.links@[k].left, self.links@[k].right),
                            (self.links@[j as int].left, self.links@[j as int].right),
                        ));
                    }
                }
                r.push(NodeId(left));
                proof {
                    assert(r@ == r0.push(NodeId(left)));
                    assert forall|x: NodeId| #[trigger] r@.contains(x) == (r0.contains(x) || x
                        == NodeId(left)) by {
                        if r@.contains(x) {
                            let m = choose|m: int| 0 <= m < r@.len() && r@[m] == x;
                            if m < r0.len() {
                                assert(r0[m] == x);
                            }
                        }
                        if r0.contains(x) {
                            let m = choose|m: int| 0 <= m < r0.len() && r0[m] == x;
                            assert(r@[m] == x);
                        }
                        assert(r@[r@.len() - 1] == NodeId(left));
                    }
                }
            }
            j = j + 1;
            proof {
                assert forall|x: NodeId| #[trigger]
                    r@.contains(x) == exists|k: int|
                        0 <= k < j && (#[trigger] self.links@[k]).right == node.0
                            && self.links@[k].left == x.0 by {
                    if r@.contains(x) && !r0.contains(x) {
                        assert(self.links@[j - 1].right == node.0 && self.links@[j - 1].left
                            == x.0);
                    }
                    if exists|k: int|
                        0 <= k < j && (#[trigger] self.links@[k]).right == node.0
                            && self.links@[k].left == x.0 {
                        let k = choose|k: int|
                            0 <= k < j && (#[trigger] self.links@[k]).right == node.0
                                && self.links@[k].left == x.0;
                        if k == j - 1 && self.links@[j - 1].right == node.0 {
                            assert(r@.contains(x) || x == NodeId(self.links@[j - 1].left));
                        }
                    }
                }
            }
        }
        proof {
            assert forall|x: NodeId| #[trigger] r@.contains(x) == self.edges().contains(
                (x.0, node.0),
            ) by {
                if self.edges().contains((x.0, node.0)) {
                    let k = choose|k: int|
                        0 <= k < self.links@.len() && (#[trigger] self.links@[k]).left == x.0
                            && self.links@[k].right == node.0;
                    assert(r@.contains(x));
                }
                if r@.contains(x) {
                    let k = choose|k: int|
                        0 <= k < j && (#[trigger] self.links@[k]).right == node.0
                            && self.links@[k].left == x.0;
                    assert(seq_edge_set(self.links@).contains((x.0, node.0)));
                }
            }
        }
        r
    }

    /// The nodes that directly depend on `node`: every consumer wired to
    /// one of its outputs, each listed once, in ascending id order.
    pub fn iter_direct_dependents(&self, node: NodeId) -> (r: Vec<NodeId>)
        requires
            self.wf(),
        ensures
            forall|x: NodeId| #[trigger]
                r@.contains(x) == self.edges().contains((node.0, x.0)),
            crate::traversal::ids_sorted(r@),
    {
        let mut r: Vec<NodeId> = Vec::new();
        let n = self.links.len();
        let mut j: usize = 0;
        while j < n
            invariant
                self.wf(),
                n == self.links@.len(),
                0 <= j <= n,
                forall|x: NodeId| #[trigger]
                    r@.contains(x) == exists|k: int|
                        0 <= k < j && (#[trigger] self.links@[k]).left == node.0
                            && self.links@[k].right == x.0,
                crate::traversal::ids_sorted(r@),
            decreases n - j,
        {
            let ghost r0 = r@;
            if self.links[j].left == node.0 {
                let right = self.links[j].right;
                proof {
                    assert forall|m: int| 0 <= m < r0.len() implies (#[trigger] r0[m]).0
                        < right by {
                        assert(r0.contains(r0[m]));
                        let k = choose|k: int|
                            0 <= k < j && (#[trigger] self.links@[k]).left == node.0
                                && self.links@[k].right == r0[m].0;
                        assert(entry_lt(
                            (self.links@[k].left, self.links@[k].right),
                            (self.links@[j as int].left, self.links@[j as int].right),
                        ));
                    }
                }
                r.push(NodeId(right));
                proof {
                    assert(r@ == r0.push(NodeId(right)));
                    assert forall|x: NodeId| #[trigger] r@.contains(x) == (r0.contains(x) || x
                        == NodeId(right)) by {
                        if r@.contains(x) {
                            let m = choose|m: int| 0 <= m < r@.len() && r@[m] == x;
                            if m < r0.len() {
                                assert(r0[m] == x);
                            }
                        }
                        if r0.contains(x) {
                            let m = choose|m: int| 0 <= m < r0.len() && r0[m] == x;
                            assert(r@[m] == x);
                        }
                        assert(r@[r@.len() - 1] == NodeId(right));
                    }
                }
            }
            j = j + 1;
            proof {
                assert forall|x: NodeId| #[trigger]
                    r@.contains(x) == exists|k: int|
                        0 <= k < j && (#[trigger] self.links@[k]).left == node.0
                            && self.links@[k].right == x.0 by {
                    if r@.contains(x) && !r0.contains(x) {
                        assert(self.links@[j - 1].left == node.0 && self.links@[j - 1].right
                            == x.0);
                    }
                    if exists|k: int|
                        0 <= k < j && (#[trigger] self.links@[k]).left == node.0
                            && self.links@[k].right == x.0 {
                        let k = choose|k: int|
                            0 <= k < j && (#[trigger] self.links@[k]).left == node.0
                                && self.links@[k].right == x.0;
                        if k == j - 1 && self.links@[j - 1].left == node.0 {
                            assert(r@.contains(x) || x == NodeId(self.links@[j - 1].right));
                        }
                    }
                }
            }
        }
        proof {
            assert forall|x: NodeId| #[trigger] r@.contains(x) == self.edges().contains(
                (node.0, x.0),
            ) by {
                if self.edges().contains((node.0, x.0)) {
                    let k = choose|k: int|
                        0 <= k < self.links@.len() && (#[trigger] self.links@[k]).left == node.0
                            && self.links@[k].right == x.0;
                    assert(r@.contains(x));
                }
                if r@.contains(x) {
                    let k = choose|k: int|
                        0 <= k < j && (#[trigger] self.links@[k]).left == node.0
                            && self.links@[k].right == x.0;
                    assert(seq_edge_set(self.links@).contains((node.0, x.0)));
                }
            }
        }
        r
    }

    /// The ordered node pairs that currently hold at least one link: the
    /// keys of every retained edge set, each exactly once, in ascending
    /// pair order.
    pub fn linked_pairs(&self) -> (r: Vec<(NodeId, NodeId)>)
        requires
            self.wf(),
        ensures
            forall|p: (NodeId, NodeId)| #[trigger]
                r@.contains(p) == self.edges().contains((p.0.0, p.1.0)),
            r@.no_duplicates(),
    {
        let mut r: Vec<(NodeId, NodeId)> = Vec::new();
        let n = self.links.len();
        let mut j: usize = 0;
        while j < n
            invariant
                self.wf(),
                n == self.links@.len(),
                0 <= j <= n,
                r@.len() == j,
                forall|m: int|
                    0 <= m < j ==> #[trigger] r@[m] == (
                        NodeId(self.links@[m].left),
                        NodeId(self.links@[m].right),
                    ),
            decreases n - j,
        {
            r.push((NodeId(self.links[j].left), NodeId(self.links[j].right)));
            j = j + 1;
        }
        proof {
            assert forall|p: (NodeId, NodeId)| #[trigger] r@.contains(p) == self.edges().contains(
                (p.0.0, p.1.0),
            ) by {
                if r@.contains(p) {
                    let m = choose|m: int| 0 <= m < r@.len() && r@[m] == p;
                    assert(self.links@[m].left == p.0.0 && self.links@[m].right == p.1.0);
                    assert(seq_edge_set(self.links@).contains((p.0.0, p.1.0)));
                }
                if self.edges().contains((p.0.0, p.1.0)) {
                    let m = choose|m: int|
                        0 <= m < self.links@.len() && (#[trigger] self.links@[m]).left == p.0.0
                            && self.links@[m].right == p.1.0;
                    assert(r@[m] == (NodeId(self.links@[m].left), NodeId(self.links@[m].right)));
                    assert(r@[m] == p);
                }
            }
            assert forall|a: int, b: int|
                0 <= a < r@.len() && 0 <= b < r@.len() && a != b implies (#[trigger] r@[a]) != (
            #[trigger] r@[b]) by {
                if a < b {
                    assert(entry_lt(
                        (self.links@[a].left, self.links@[a].right),
                        (self.links@[b].left, self.links@[b].right),
                    ));
                } else {
                    assert(entry_lt(
                        (self.links@[b].left, self.links@[b].right),
                        (self.links@[a].left, self.links@[a].right),
                    ));
                }
            }
        }
        r
    }

    /// Borrows the edge set between the ordered node pair
    /// `(left, right)`, if any link runs between them. An absent pair
    /// answers `None`: empty edge sets are never retained.
    pub fn get_edges(&self, left: NodeId, right: NodeId) -> (r: Option<&Links>)
        requires
            self.wf(),
        ensures
            match r {
                Some(lks) => {
                    &&& self.edges().contains((left.0, right.0))
                    &&& lks.wf()
                    &&& lks@.len() > 0
                    &&& forall|p: SocketLinkId| #[trigger]
                        lks@.contains(p) == self.link_set().contains(
                            NodeLinkId {
                                left: NodeSocketId { node: left, socket: p.from },
                                right: NodeSocketId { node: right, socket: p.to },
                            },
                        )
                },
                None => !self.edges().contains((left.0, right.0)),
            },
    {
        match self.position_entry(left.0, right.0) {
            Ok(i) => {
                let lks = &self.links[i].links;
                proof {
                    assert(self.edges().contains((left.0, right.0)));
                    assert forall|p: SocketLinkId| #[trigger]
                        lks@.contains(p) == self.link_set().contains(
                            NodeLinkId {
                                left: NodeSocketId { node: left, socket: p.from },
                                right: NodeSocketId { node: right, socket: p.to },
                            },
                        ) by {
                        let x = NodeLinkId {
                            left: NodeSocketId { node: left, socket: p.from },
                            right: NodeSocketId { node: right, socket: p.to },
                        };
                        if lks@.contains(p) {
                            assert(self.links@[i as int].links@.contains(
                                SocketLinkId { from: x.left.socket, to: x.right.socket },
                            ));
                            assert(seq_link_set(self.links@).contains(x));
                        }
                        if self.link_set().contains(x) {
                            let k = choose|k: int|
                                {
                                    &&& 0 <= k < self.links@.len()
                                    &&& (#[trigger] self.links@[k]).left == x.left.node.0
                                    &&& self.links@[k].right == x.right.node.0
                                    &&& self.links@[k].links@.contains(
                                        SocketLinkId { from: x.left.socket, to: x.right.socket },
                                    )
                                };
                            if k < i as int {
                                assert(entry_lt(
                                    (self.links@[k].left, self.links@[k].right),
                                    (self.links@[i as int].left, self.links@[i as int].right),
                                ));
                                assert(false);
                            } else if k > i as int {
                                assert(entry_lt(
                                    (self.links@[i as int].left, self.links@[i as int].right),
                                    (self.links@[k].left, self.links@[k].right),
                                ));
                                assert(false);
                            }
                        }
                    }
                }
                Some(lks)
            },
            Err(_) => {
                proof {
                    if self.edges().contains((left.0, right.0)) {
                        let k = choose|k: int|
                            0 <= k < self.links@.len() && (#[trigger] self.links@[k]).left
                                == left.0 && self.links@[k].right == right.0;
                        assert(false);
                    }
                }
                None
            },
        }
    }

    /// Replaces the node stored under `id`, returning the one it held, and
    /// leaving the links of `id` untouched. Returns `None`, changing
    /// nothing, if `id` is absent. This swap-out is the map backend's
    /// mutable access: the verifier has no contract for a mutable lookup
    /// into a hash map, so callers that must edit a node in place either
    /// replace it here or use the arena backend, which hands out `&mut`
    /// directly.
    pub fn replace_node(&mut self, id: NodeId, node: N) -> (r: Option<N>)
        requires
            old(self).wf(),
        ensures
            final(self).wf(),
            final(self).next_index() == old(self).next_index(),
            final(self).link_set() == old(self).link_set(),
            final(self).edges() == old(self).edges(),
            match r {
                Some(n) => old(self).nodes().dom().contains(id.0) && n == old(self).nodes()[id.0]
                    && final(self).nodes() == old(self).nodes().insert(id.0, node),
                None => !old(self).nodes().dom().contains(id.0) && final(self).nodes() == old(
                    self,
                ).nodes(),
            },
    {
        if !self.has_node(id) {
            return None;
        }
        let r = self.vertices.insert(id.0, node);
        proof {
            assert(self.edges() =~= old(self).edges());
            assert(self.link_set() =~= old(self).link_set());
            assert(self.nodes().dom() =~= old(self).nodes().dom());
            assert forall|k: u32| self.nodes().dom().contains(k) implies k < self.last_idx by {
                assert(old(self).nodes().dom().contains(k));
            }
        }
        r
    }

    /// Counts the links of the graph, summing the per-pair edge sets: the
    /// result is exactly the size of the link set.
    pub fn link_count(&self) -> (r: usize)
        requires
            self.wf(),
            self.link_set().len() <= usize::MAX,
        ensures
            r == self.link_set().len(),
    {
        proof {
            lemma_link_set_card(self.links@);
        }
        let n = self.links.len();
        let mut total: usize = 0;
        let mut j: usize = 0;
        proof {
            assert(self.links@.take(0) =~= Seq::<EdgeEntry>::empty());
            lemma_count_nonneg(self.links@);
        }
        while j < n
            invariant
                self.wf(),
                count_entry_links(self.links@) <= usize::MAX,
                n == self.links@.len(),
                0 <= j <= n,
                total == count_entry_links(self.links@.take(j as int)),
                total <= count_entry_links(self.links@),
            decreases n - j,
        {
            proof {
                lemma_count_prefix(self.links@, j as int + 1);
                assert(self.links@.take(j as int + 1).drop_last() =~= self.links@.take(j as int));
                assert(self.links@.take(j as int + 1).last() == self.links@[j as int]);
                lemma_count_nonneg(self.links@.take(j as int));
            }
            total = total + self.links[j].links.count();
            j = j + 1;
        }
        proof {
            assert(self.links@.take(n as int) =~= self.links@);
        }
        total
    }

    /// Returns `true` if the socket-level link `link` is present.
    pub fn has_link(&self, link: NodeLinkId) -> (r: bool)
        requires
            self.wf(),
        ensures
            r == self.link_set().contains(link),
    {
        let pair = SocketLinkId { from: link.left.socket, to: link.right.socket };
        match self.position_entry(link.left.node.0, link.right.node.0) {
            Ok(i) => {
                let c = self.links[i].links.contains(pair);
                proof {
                    if c {
                        assert(self.links@[i as int].links@.contains(pair));
                        assert(self.link_set().contains(link));
                    } else if self.link_set().contains(link) {
                        let j = choose|j: int|
                            {
                                &&& 0 <= j < self.links@.len()
                                &&& (#[trigger] self.links@[j]).left == link.left.node.0
                                &&& self.links@[j].right == link.right.node.0
                                &&& self.links@[j].links@.contains(
                                    SocketLinkId { from: link.left.socket, to: link.right.socket },
                                )
                            };
                        if j < i as int {
                            assert(entry_lt(
                                (self.links@[j].left, self.links@[j].right),
                                (self.links@[i as int].left, self.links@[i as int].right),
                            ));
                        } else if j > i as int {
                            assert(entry_lt(
                                (self.links@[i as int].left, self.links@[i as int].right),
                                (self.links@[j].left, self.links@[j].right),
                            ));
                        }
                        assert(false);
                    }
                }
                c
            },
            Err(_) => {
                proof {
                    if self.link_set().contains(link) {
                        let j = choose|j: int|
                            {
                                &&& 0 <= j < self.links@.len()
                                &&& (#[trigger] self.links@[j]).left == link.left.node.0
                                &&& self.links@[j].right == link.right.node.0
                                &&& self.links@[j].links@.contains(
                                    SocketLinkId { from: link.left.socket, to: link.right.socket },
                                )
                            };
                        assert(false);
                    }
                }
                false
            },
        }
    }
}


impl<N> Graph<N> for HashGraph<N> {
    closed spec fn nodes(&self) -> Map<u32, N> {
        self.vertices@
    }

    closed spec fn edges(&self) -> Set<(u32, u32)> {
        seq_edge_set(self.links@)
    }

    closed spec fn link_set(&self) -> Set<NodeLinkId> {
        seq_link_set(self.links@)
    }

    closed spec fn next_index(&self) -> u32 {
        self.last_idx
    }

    closed spec fn wf(&self) -> bool {
        &&& entries_wf(self.links@)
        &&& forall|i: int|
            0 <= i < self.links@.len() ==> self.nodes().dom().contains(
                (#[trigger] self.links@[i]).left,
            ) && self.nodes().dom().contains(self.links@[i].right)
        &&& forall|k: u32| self.nodes().dom().contains(k) ==> k < self.last_idx
        &&& acyclic(self.edges())
    }

    proof fn lemma_wf_acyclic(&self) {
        HashGraph::lemma_wf_acyclic(self);
    }

    proof fn lemma_wf_edges_between_nodes(&self) {
        HashGraph::lemma_wf_edges_between_nodes(self);
    }

    proof fn lemma_nodes_finite(&self) {
        HashGraph::lemma_nodes_finite(self);
    }

    proof fn lemma_edges_projection(&self) {
        HashGraph::lemma_edges_projection(self);
    }

    fn insert_node(&mut self, node: N) -> NodeId {
        HashGraph::insert_node(self, node)
    }

    fn remove_node(&mut self, id: NodeId) -> Option<(N, SeveredLinks)> {
        HashGraph::remove_node(self, id)
    }

    fn has_node(&self, id: NodeId) -> bool {
        HashGraph::has_node(self, id)
    }

    fn get_node(&self, id: NodeId) -> Option<NodeRef<'_, N>> {
        HashGraph::get_node(self, id)
    }

    fn node_count(&self) -> usize {
        HashGraph::node_count(self)
    }

    fn insert_link(&mut self, link: NodeLinkId) -> Result<(), WouldCycle> {
        HashGraph::insert_link(self, link)
    }

    fn remove_link(&mut self, link: NodeLinkId) {
        HashGraph::remove_link(self, link)
    }

    fn has_link(&self, link: NodeLinkId) -> bool {
        HashGraph::has_link(self, link)
    }

    fn link_count(&self) -> usize {
        HashGraph::link_count(self)
    }

    fn get_edges(&self, left: NodeId, right: NodeId) -> Option<&Links> {
        HashGraph::get_edges(self, left, right)
    }

    fn iter_direct_dependencies(&self, node: NodeId) -> Vec<NodeId> {
        let r = HashGraph::iter_direct_dependencies(self, node);
        proof {
            assert forall|a: int, b: int|
                0 <= a < r@.len() && 0 <= b < r@.len() && a != b implies (#[trigger] r@[a]) != (
            #[trigger] r@[b]) by {
                if a < b {
                    assert(r@[a].0 < r@[b].0);
                } else {
                    assert(r@[b].0 < r@[a].0);
                }
            }
        }
        r
    }

    fn iter_direct_dependents(&self, node: NodeId) -> Vec<NodeId> {
        let r = HashGraph::iter_direct_dependents(self, node);
        proof {
            assert forall|a: int, b: int|
                0 <= a < r@.len() && 0 <= b < r@.len() && a != b implies (#[trigger] r@[a]) != (
            #[trigger] r@[b]) by {
                if a < b {
                    assert(r@[a].0 < r@[b].0);
                } else {
                    assert(r@[b].0 < r@[a].0);
                }
            }
        }
        r
    }
}

impl<N> Default for HashGraph<N> {
    /// An empty graph, as [`HashGraph::new`] builds it.
    fn default() -> (r: Self)
        ensures
            r.wf(),
            r.nodes() == Map::<u32, N>::empty(),
            r.link_set() == Set::<NodeLinkId>::empty(),
            r.edges() == Set::<(u32, u32)>::empty(),
            r.next_index() == 0,
    {
        HashGraph::new()
    }
}

impl<N> Walkable for HashGraph<N> {
    open spec fn walkable(&self) -> bool {
        self.wf()
    }

    open spec fn walk_node_present(&self, node: NodeId) -> bool {
        self.nodes().dom().contains(node.0)
    }
}

impl<N> WalkDependencies for HashGraph<N> {
    type Walker = GraphDfs<N>;

    fn walk_dependencies(&self, node: NodeId) -> (r: Option<GraphDfs<N>>) {
        if self.has_node(node) {
            Some(GraphDfs::dependencies_of(self, node))
        } else {
            None
        }
    }
}

impl<N> WalkDependents for HashGraph<N> {
    type Walker = GraphDfs<N>;

    fn walk_dependents(&self, node: NodeId) -> (r: Option<GraphDfs<N>>) {
        if self.has_node(node) {
            Some(GraphDfs::dependents_of(self, node))
        } else {
            None
        }
    }
}

impl<N> WalkDirectDependencies for HashGraph<N> {
    type Walker = GraphDirectWalk;

    fn walk_direct_dependencies(&self, node: NodeId) -> (r: Option<GraphDirectWalk>) {
        if self.has_node(node) {
            Some(GraphDirectWalk::over(self.iter_direct_dependencies(node)))
        } else {
            None
        }
    }
}

impl<N> WalkDirectDependents for HashGraph<N> {
    type Walker = GraphDirectWalk;

    fn walk_direct_dependents(&self, node: NodeId) -> (r: Option<GraphDirectWalk>) {
        if self.has_node(node) {
            Some(GraphDirectWalk::over(self.iter_direct_dependents(node)))
        } else {
            None
        }
    }
}

} // verus!
