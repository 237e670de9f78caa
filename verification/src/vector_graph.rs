//! The arena-backed graph storage: nodes live in a dense vector of slots
//! whose indices are the node ids, and edge sets live as arena records
//! between slot indices.
//!
//! [`VectorGraph`] satisfies the same [`Graph`] contract as
//! [`crate::hash_graph::HashGraph`] — acyclicity enforced before any state
//! changes, no empty edge set retained, ids never reused — but trades the
//! id-keyed map for stable slot indices: a removed node leaves its slot
//! empty forever, so unrelated removals never move other nodes, and a
//! node is found by indexing rather than hashing. Unlike the map backend
//! it hands out direct mutable access to a stored node.

use vstd::prelude::*;

use crate::errors::WouldCycle;
use crate::graph::touches;
use crate::graph::Graph;
use crate::graph::SeveredLinks;
use crate::link::Links;
use crate::node::NodeId;
use crate::node::NodeRef;
use crate::paths::acyclic;
use crate::paths::is_path;
use crate::paths::lemma_acyclic_edge_no_return;
use crate::paths::lemma_acyclic_insert;
use crate::paths::lemma_acyclic_subset;
use crate::paths::lemma_closed_set_reach;
use crate::paths::lemma_reaches_edge;
use crate::paths::lemma_reaches_refl;
use crate::paths::lemma_reaches_trans;
use crate::paths::reaches;
use crate::socket::NodeLinkId;
use crate::socket::NodeSocketId;
use crate::socket::SocketLinkId;
use crate::traversal::lemma_sorted_ids_below;
use crate::traversal::GraphDfs;
use crate::traversal::GraphDirectWalk;
use crate::traversal::Walkable;
use crate::traversal::WalkDependencies;
use crate::traversal::WalkDependents;
use crate::traversal::WalkDirectDependencies;
use crate::traversal::WalkDirectDependents;
use crate::traversal::Visited;

verus! {

/// The links between one ordered pair of slots.
struct EdgeRec {
    left: u32,
    right: u32,
    links: Links,
}

/// Holds when no two records name the same ordered slot pair.
spec fn recs_unique(s: Seq<EdgeRec>) -> bool {
    forall|i: int, j: int|
        0 <= i < j < s.len() ==> !((#[trigger] s[i]).left == (#[trigger] s[j]).left && s[i].right
            == s[j].right)
}

/// The full set of socket-level links held by the records.
spec fn recs_link_set(s: Seq<EdgeRec>) -> Set<NodeLinkId> {
    Set::new(
        |l: NodeLinkId|
            exists|i: int|
                {
                    &&& 0 <= i < s.len()
                    &&& (#[trigger] s[i]).left == l.left.node.0
                    &&& s[i].right == l.right.node.0
                    &&& s[i].links@.contains(
                        SocketLinkId { from: l.left.socket, to: l.right.socket },
                    )
                },
    )
}

/// The node-level edge relation held by the records.
spec fn recs_edge_set(s: Seq<EdgeRec>) -> Set<(u32, u32)> {
    Set::new(
        |p: (u32, u32)|
            exists|i: int| 0 <= i < s.len() && (#[trigger] s[i]).left == p.0 && s[i].right == p.1,
    )
}

/// The socket-level link formed by one socket pair of the record between
/// slots `l` and `r`.
spec fn rec_link(l: u32, r: u32, p: SocketLinkId) -> NodeLinkId {
    NodeLinkId {
        left: NodeSocketId { node: NodeId(l), socket: p.from },
        right: NodeSocketId { node: NodeId(r), socket: p.to },
    }
}

/// The total number of socket pairs held by the records.
spec fn count_rec_links(s: Seq<EdgeRec>) -> int
    decreases s.len(),
{
    if s.len() == 0 {
        0
    } else {
        count_rec_links(s.drop_last()) + s.last().links@.len()
    }
}

proof fn lemma_rec_count_nonneg(s: Seq<EdgeRec>)
    ensures
        count_rec_links(s) >= 0,
    decreases s.len(),
{
    if s.len() > 0 {
        lemma_rec_count_nonneg(s.drop_last());
    }
}

/// A prefix of the records accounts for at most the whole count.
proof fn lemma_rec_count_prefix(s: Seq<EdgeRec>, j: int)
    requires
        0 <= j <= s.len(),
    ensures
        count_rec_links(s.take(j)) <= count_rec_links(s),
    decreases s.len() - j,
{
    if j < s.len() {
        lemma_rec_count_prefix(s, j + 1);
        assert(s.take(j + 1).drop_last() =~= s.take(j));
        assert(s.take(j + 1).last() == s[j]);
    } else {
        assert(s.take(j) =~= s);
    }
}

/// Two disjoint finite sets contribute their sizes to the union in full.
proof fn lemma_disjoint_union_size<A>(s1: Set<A>, s2: Set<A>)
    requires
        s1.finite(),
        s2.finite(),
        s1.disjoint(s2),
    ensures
        s1.union(s2).len() == s1.len() + s2.len(),
    decreases s1.len(),
{
    if s1.is_empty() {
        assert(s1.union(s2) =~= s2);
    } else {
        let a = s1.choose();
        assert(s1.contains(a));
        assert(!s2.contains(a));
        assert(s1.union(s2).remove(a) =~= s1.remove(a).union(s2));
        lemma_disjoint_union_size(s1.remove(a), s2);
        assert(s1.union(s2).contains(a));
        assert(s1.union(s2).len() == s1.union(s2).remove(a).len() + 1);
    }
}

/// The link set of well-formed records is finite, and as large as the sum
/// of the per-pair edge set sizes: every stored socket pair stands for
/// exactly one distinct link.
proof fn lemma_rec_link_set_card(s: Seq<EdgeRec>)
    requires
        recs_unique(s),
        forall|i: int| 0 <= i < s.len() ==> (#[trigger] s[i]).links.wf(),
    ensures
        recs_link_set(s).finite(),
        recs_link_set(s).len() == count_rec_links(s),
    decreases s.len(),
{
    if s.len() == 0 {
        assert(recs_link_set(s) =~= Set::<NodeLinkId>::empty());
        assert(Set::<NodeLinkId>::empty().len() == 0);
    } else {
        let t = s.drop_last();
        let last = s.last();
        assert forall|a: int, b: int| 0 <= a < b < t.len() implies !((#[trigger] t[a]).left == (
        #[trigger] t[b]).left && t[a].right == t[b].right) by {
            assert(t[a] == s[a] && t[b] == s[b]);
        }
        assert forall|k: int| 0 <= k < t.len() implies (#[trigger] t[k]).links.wf() by {
            assert(t[k] == s[k]);
        }
        lemma_rec_link_set_card(t);
        let lifted = Seq::new(
            last.links@.len(),
            |m: int| rec_link(last.left, last.right, last.links@[m]),
        );
        assert(last == s[s.len() - 1]);
        assert(last.links.wf());
        assert forall|a: int, b: int| 0 <= a < b < lifted.len() implies #[trigger] lifted[a]
            != #[trigger] lifted[b] by {
            assert(crate::link::link_lt(last.links@[a], last.links@[b]));
            assert(lifted[a] == rec_link(last.left, last.right, last.links@[a]));
            assert(lifted[b] == rec_link(last.left, last.right, last.links@[b]));
        }
        lifted.unique_seq_to_set();
        vstd::seq_lib::seq_to_set_is_finite::<NodeLinkId>(lifted);
        assert(recs_link_set(s) =~= recs_link_set(t).union(lifted.to_set())) by {
            assert forall|x: NodeLinkId|
                recs_link_set(s).contains(x) == (recs_link_set(t).contains(x) || lifted.to_set(
                ).contains(x)) by {
                let xpair = SocketLinkId { from: x.left.socket, to: x.right.socket };
                if recs_link_set(s).contains(x) {
                    let k = choose|k: int|
                        {
                            &&& 0 <= k < s.len()
                            &&& (#[trigger] s[k]).left == x.left.node.0
                            &&& s[k].right == x.right.node.0
                            &&& s[k].links@.contains(xpair)
                        };
                    if k < s.len() - 1 {
                        assert(t[k].links@.contains(xpair));
                        assert(recs_link_set(t).contains(x));
                    } else {
                        let m = choose|m: int|
                            0 <= m < last.links@.len() && last.links@[m] == xpair;
                        assert(lifted[m] == rec_link(last.left, last.right, xpair));
                        assert(rec_link(last.left, last.right, xpair) == x);
                        assert(lifted.contains(x));
                    }
                }
                if recs_link_set(t).contains(x) {
                    let k = choose|k: int|
                        {
                            &&& 0 <= k < t.len()
                            &&& (#[trigger] t[k]).left == x.left.node.0
                            &&& t[k].right == x.right.node.0
                            &&& t[k].links@.contains(xpair)
                        };
                    assert(s[k].links@.contains(xpair));
                    assert(recs_link_set(s).contains(x));
                }
                if lifted.to_set().contains(x) {
                    let m = choose|m: int| 0 <= m < lifted.len() && lifted[m] == x;
                    assert(x == rec_link(last.left, last.right, last.links@[m]));
                    assert(last.links@.contains(last.links@[m]));
                    assert(s[s.len() - 1].links@.contains(xpair));
                    assert(recs_link_set(s).contains(x));
                }
            }
        }
        assert(recs_link_set(t).disjoint(lifted.to_set())) by {
            assert forall|x: NodeLinkId| #[trigger]
                recs_link_set(t).contains(x) implies !lifted.to_set().contains(x) by {
                if lifted.to_set().contains(x) {
                    let m = choose|m: int| 0 <= m < lifted.len() && lifted[m] == x;
                    assert(x == rec_link(last.left, last.right, last.links@[m]));
                    let k = choose|k: int|
                        {
                            &&& 0 <= k < t.len()
                            &&& (#[trigger] t[k]).left == x.left.node.0
                            &&& t[k].right == x.right.node.0
                            &&& t[k].links@.contains(
                                SocketLinkId { from: x.left.socket, to: x.right.socket },
                            )
                        };
                    assert(t[k] == s[k]);
                    assert(!(s[k].left == s[s.len() - 1].left && s[k].right == s[s.len()
                        - 1].right));
                    assert(false);
                }
            }
        }
        vstd::set_lib::lemma_set_union_finite_iff(recs_link_set(t), lifted.to_set());
        lemma_disjoint_union_size(recs_link_set(t), lifted.to_set());
        assert(count_rec_links(s) == count_rec_links(t) + last.links@.len());
        assert(recs_link_set(s).len() == recs_link_set(t).len() + lifted.to_set().len());
    }
}

/// The ids of the filled slots with index below `n`.
spec fn filled_ids<N>(s: Seq<Option<N>>, n: int) -> Set<u32> {
    Set::new(|k: u32| (k as int) < n && (k as int) < s.len() && s[k as int] is Some)
}

/// Extending the window by one slot adds its id exactly when the slot is
/// filled.
proof fn lemma_filled_ids_step<N>(s: Seq<Option<N>>, i: int)
    requires
        0 <= i <= u32::MAX,
    ensures
        (i < s.len() && s[i] is Some) ==> filled_ids(s, i + 1) == filled_ids(s, i).insert(
            i as u32,
        ),
        !(i < s.len() && s[i] is Some) ==> filled_ids(s, i + 1) == filled_ids(s, i),
{
    if i < s.len() && s[i] is Some {
        assert(filled_ids(s, i + 1) =~= filled_ids(s, i).insert(i as u32));
    } else {
        assert(filled_ids(s, i + 1) =~= filled_ids(s, i));
    }
}

/// Every window of the slot sequence has finitely many filled ids, no more
/// than the window is wide.
proof fn lemma_filled_ids_finite<N>(s: Seq<Option<N>>, n: int)
    requires
        0 <= n <= u32::MAX,
    ensures
        filled_ids(s, n).finite(),
        filled_ids(s, n).len() <= n,
    decreases n,
{
    if n == 0 {
        assert(filled_ids(s, 0) =~= Set::<u32>::empty());
    } else {
        lemma_filled_ids_finite(s, n - 1);
        lemma_filled_ids_step(s, n - 1);
        if n - 1 < s.len() && s[n - 1] is Some {
            assert(!filled_ids(s, n - 1).contains((n - 1) as u32));
        }
    }
}

/// A directed acyclic graph of nodes of type `N`, stored in a dense arena:
/// the node with id `k` lives in slot `k`, and removal empties the slot
/// without disturbing any other.
pub struct VectorGraph<N> {
    slots: Vec<Option<N>>,
    links: Vec<EdgeRec>,
}

impl<N> VectorGraph<N> {
    /// A well-formed graph's edge relation is acyclic.
    pub proof fn lemma_wf_acyclic(&self)
        requires
            self.wf(),
        ensures
            acyclic(self.edges()),
    {
    }

    /// The edge relation is exactly the node-pair projection of the link
    /// set: records are pruned as soon as they empty, so a slot pair is an
    /// edge precisely while some socket link runs between the pair.
    pub proof fn lemma_edges_projection(&self)
        requires
            self.wf(),
        ensures
            forall|p: (u32, u32)|
                #[trigger] self.edges().contains(p) <==> crate::graph::pair_linked(
                    self.link_set(),
                    p,
                ),
    {
        assert forall|p: (u32, u32)|
            #[trigger] self.edges().contains(p) <==> crate::graph::pair_linked(
            self.link_set(),
            p,
        ) by {
            if self.edges().contains(p) {
                let k = choose|k: int|
                    0 <= k < self.links@.len() && (#[trigger] self.links@[k]).left == p.0
                        && self.links@[k].right == p.1;
                let x = rec_link(self.links@[k].left, self.links@[k].right, self.links@[k].links@[0]);
                assert(self.links@[k].links@.contains(self.links@[k].links@[0]));
                assert(recs_link_set(self.links@).contains(x));
                assert(self.link_set().contains(x));
                assert(x.left.node.0 == p.0 && x.right.node.0 == p.1);
            }
            if crate::graph::pair_linked(self.link_set(), p) {
                let x = choose|x: NodeLinkId|
                    #[trigger] self.link_set().contains(x) && x.left.node.0 == p.0
                        && x.right.node.0 == p.1;
                let k = choose|k: int|
                    {
                        &&& 0 <= k < self.links@.len()
                        &&& (#[trigger] self.links@[k]).left == x.left.node.0
                        &&& self.links@[k].right == x.right.node.0
                        &&& self.links@[k].links@.contains(
                            SocketLinkId { from: x.left.socket, to: x.right.socket },
                        )
                    };
                assert(recs_edge_set(self.links@).contains(p));
                assert(self.edges().contains(p));
            }
        }
    }

    /// A well-formed graph's edges run between present nodes.
    pub proof fn lemma_wf_edges_between_nodes(&self)
        requires
            self.wf(),
        ensures
            forall|p: (u32, u32)| #[trigger]
                self.edges().contains(p) ==> self.nodes().dom().contains(p.0)
                    && self.nodes().dom().contains(p.1),
    {
        assert forall|p: (u32, u32)| #[trigger] self.edges().contains(p) implies self.nodes().dom(
        ).contains(p.0) && self.nodes().dom().contains(p.1) by {
            let i = choose|i: int|
                0 <= i < self.links@.len() && (#[trigger] self.links@[i]).left == p.0
                    && self.links@[i].right == p.1;
            assert(self.nodes().dom().contains(self.links@[i].left));
        }
    }

    /// Creates a new, empty graph.
    pub fn new() -> (r: Self)
        ensures
            r.wf(),
            r.nodes() == Map::<u32, N>::empty(),
            r.link_set() == Set::<NodeLinkId>::empty(),
            r.edges() == Set::<(u32, u32)>::empty(),
            r.next_index() == 0,
    {
        let r = VectorGraph { slots: Vec::new(), links: Vec::new() };
        proof {
            assert(r.nodes() =~= Map::<u32, N>::empty());
            assert(r.link_set() =~= Set::<NodeLinkId>::empty());
            assert(r.edges() =~= Set::<(u32, u32)>::empty());
            assert forall|p: Seq<u32>| (#[trigger] is_path(r.edges(), p)) && p.len()
                >= 2 implies p.first() != p.last() by {
                assert(r.edges().contains((p[0], p[1])));
            }
        }
        r
    }

    /// Adds a node to the graph, issuing it the id of the freshly
    /// allocated slot; no node of this graph has ever carried it.
    pub fn insert_node(&mut self, node: N) -> (id: NodeId)
        requires
            old(self).wf(),
            old(self).next_index() < u32::MAX,
        ensures
            final(self).wf(),
            id.0 == old(self).next_index(),
            !old(self).nodes().dom().contains(id.0),
            final(self).nodes() == old(self).nodes().insert(id.0, node),
            final(self).link_set() == old(self).link_set(),
            final(self).edges() == old(self).edges(),
            final(self).next_index() == old(self).next_index() + 1,
    {
        let id = self.slots.len() as u32;
        self.slots.push(Some(node));
        proof {
            assert(self.nodes() =~= old(self).nodes().insert(id, node));
            assert(self.link_set() =~= old(self).link_set());
            assert(self.edges() =~= old(self).edges());
            assert forall|i: int| 0 <= i < self.links@.len() implies self.nodes().dom().contains(
                (#[trigger] self.links@[i]).left,
            ) && self.nodes().dom().contains(self.links@[i].right) by {
                assert(old(self).nodes().dom().contains(self.links@[i].left));
                assert(old(self).nodes().dom().contains(self.links@[i].right));
            }
        }
        NodeId(id)
    }

    /// Returns `true` if a node with id `id` is present.
    pub fn has_node(&self, id: NodeId) -> (r: bool)
        requires
            self.wf(),
        ensures
            r == self.nodes().dom().contains(id.0),
    {
        let idx = id.0 as usize;
        idx < self.slots.len() && self.slots[idx].is_some()
    }

    /// Borrows the node with id `id`, if it is present.
    pub fn get_node(&self, id: NodeId) -> (r: Option<NodeRef<'_, N>>)
        requires
            self.wf(),
        ensures
            match r {
                Some(nr) => self.nodes().dom().contains(id.0) && *nr.spec_node()
                    == self.nodes()[id.0],
                None => !self.nodes().dom().contains(id.0),
            },
    {
        let idx = id.0 as usize;
        if idx >= self.slots.len() {
            return None;
        }
        match &self.slots[idx] {
            Some(n) => Some(NodeRef::new(n)),
            None => None,
        }
    }

    /// Mutably borrows the node with id `id`. The arena backend can hand
    /// out direct mutable access because the slot index is the id.
    pub fn get_node_mut(&mut self, id: NodeId) -> (r: &mut N)
        requires
            old(self).wf(),
            old(self).nodes().dom().contains(id.0),
        ensures
            *r == old(self).nodes()[id.0],
            final(self).nodes() == old(self).nodes().insert(id.0, *final(r)),
            final(self).link_set() == old(self).link_set(),
            final(self).edges() == old(self).edges(),
            final(self).next_index() == old(self).next_index(),
            final(self).wf(),
    {
        let idx = id.0 as usize;
        let slot = &mut self.slots[idx];
        match slot {
            Some(n) => n,
            None => {
                proof {
                    assert(false);
                }
                vstd::pervasive::unreached()
            },
        }
    }

    /// The number of nodes the graph holds: the number of filled slots.
    pub fn node_count(&self) -> (r: usize)
        requires
            self.wf(),
        ensures
            r == self.nodes().dom().len(),
    {
        let n = self.slots.len();
        let mut count: usize = 0;
        let mut i: usize = 0;
        proof {
            lemma_filled_ids_finite(self.slots@, 0);
        }
        while i < n
            invariant
                self.wf(),
                n == self.slots@.len(),
                0 <= i <= n,
                filled_ids(self.slots@, i as int).finite(),
                count == filled_ids(self.slots@, i as int).len(),
            decreases n - i,
        {
            proof {
                lemma_filled_ids_finite(self.slots@, i as int);
                lemma_filled_ids_step(self.slots@, i as int);
            }
            if self.slots[i].is_some() {
                count = count + 1;
            }
            i = i + 1;
            proof {
                lemma_filled_ids_finite(self.slots@, i as int);
            }
        }
        proof {
            assert(filled_ids(self.slots@, n as int) =~= self.nodes().dom());
        }
        count
    }

    /// Removes the node `id`, severing every link that touches it in the
    /// same atomic step, and returns the node together with a record of
    /// exactly the links that were severed. Returns `None`, changing
    /// nothing, if `id` is absent. The emptied slot is never refilled, so
    /// the id is never issued again.
    #[verifier::rlimit(100)]
    pub fn remove_node(&mut self, id: NodeId) -> (r: Option<(N, SeveredLinks)>)
        requires
            old(self).wf(),
        ensures
            final(self).wf(),
            final(self).next_index() == old(self).next_index(),
            match r {
                None => {
                    &&& !old(self).nodes().dom().contains(id.0)
                    &&& final(self).nodes() == old(self).nodes()
                    &&& final(self).link_set() == old(self).link_set()
                    &&& final(self).edges() == old(self).edges()
                },
                Some((node, severed)) => {
                    &&& old(self).nodes().dom().contains(id.0)
                    &&& node == old(self).nodes()[id.0]
                    &&& final(self).nodes() == old(self).nodes().remove(id.0)
                    &&& final(self).link_set() == Set::new(
                        |x: NodeLinkId| old(self).link_set().contains(x) && !touches(x, id),
                    )
                    &&& severed@.to_set() == Set::new(
                        |x: NodeLinkId| old(self).link_set().contains(x) && touches(x, id),
                    )
                    &&& severed@.no_duplicates()
                    &&& severed.position() == 0
                    &&& forall|p: (u32, u32)| #[trigger]
                        final(self).edges().contains(p) ==> p.0 != id.0 && p.1 != id.0
                },
            },
    {
        let idx = id.0 as usize;
        if idx >= self.slots.len() {
            return None;
        }
        if self.slots[idx].is_none() {
            return None;
        }
        let mut taken: Option<N> = None;
        std::mem::swap(&mut taken, &mut self.slots[idx]);
        let node = match taken {
            Some(n) => n,
            None => {
                proof {
                    assert(false);
                }
                vstd::pervasive::unreached()
            },
        };
        proof {
            assert(self.nodes() =~= old(self).nodes().remove(id.0));
        }
        let ghost orig = self.links@;
        let ghost old_ls = recs_link_set(orig);
        let mut severed_vec: Vec<NodeLinkId> = Vec::new();
        let mut i: usize = 0;
        while i < self.links.len()
            invariant
                self.nodes() == old(self).nodes().remove(id.0),
                self.next_index() == old(self).next_index(),
                self.slots@.len() == old(self).slots@.len(),
                old(self).wf(),
                old_ls == old(self).link_set(),
                recs_unique(self.links@),
                forall|k: int|
                    0 <= k < self.links@.len() ==> (#[trigger] self.links@[k]).links.wf(),
                forall|k: int|
                    0 <= k < self.links@.len() ==> (#[trigger] self.links@[k]).links@.len() > 0,
                forall|k: int|
                    0 <= k < self.links@.len() ==> old(self).nodes().dom().contains(
                        (#[trigger] self.links@[k]).left,
                    ) && old(self).nodes().dom().contains(self.links@[k].right),
                0 <= i <= self.links@.len(),
                forall|k: int|
                    0 <= k < i ==> (#[trigger] self.links@[k]).left != id.0
                        && self.links@[k].right != id.0,
                forall|x: NodeLinkId| #[trigger]
                    old_ls.contains(x) == (recs_link_set(self.links@).contains(x)
                        || severed_vec@.to_set().contains(x)),
                forall|x: NodeLinkId|
                    severed_vec@.to_set().contains(x) ==> #[trigger] touches(x, id)
                        && old_ls.contains(x),
                forall|x: NodeLinkId|
                    severed_vec@.to_set().contains(x) ==> !(#[trigger] recs_link_set(
                        self.links@,
                    ).contains(x)),
                severed_vec@.no_duplicates(),
                forall|x: NodeLinkId|
                    recs_link_set(self.links@).contains(x) ==> #[trigger] old_ls.contains(x),
            decreases self.links@.len() - i,
        {
            let e_left = self.links[i].left;
            let e_right = self.links[i].right;
            if e_left == id.0 || e_right == id.0 {
                let ghost cur0 = self.links@;
                let ghost sev0 = severed_vec@;
                let rec = self.links.remove(i);
                let cnt = rec.links.count();
                let mut k: usize = 0;
                while k < cnt
                    invariant
                        0 <= k <= cnt,
                        cnt == rec.links@.len(),
                        rec.links.wf(),
                        severed_vec@.len() == sev0.len() + k,
                        forall|m: int| 0 <= m < sev0.len() ==> #[trigger] severed_vec@[m] == sev0[m],
                        forall|m: int|
                            0 <= m < k ==> #[trigger] severed_vec@[sev0.len() + m] == rec_link(
                                rec.left,
                                rec.right,
                                rec.links@[m],
                            ),
                    decreases cnt - k,
                {
                    let la = rec.links.link_at(k);
                    severed_vec.push(
                        NodeLinkId {
                            left: NodeSocketId { node: NodeId(rec.left), socket: la.from },
                            right: NodeSocketId { node: NodeId(rec.right), socket: la.to },
                        },
                    );
                    k = k + 1;
                }
                proof {
                    let cur1 = self.links@;
                    let sev1 = severed_vec@;
                    assert(cur1 == cur0.remove(i as int));
                    assert(rec == cur0[i as int]);
                    assert forall|a: int, b: int| 0 <= a < b < cur1.len() implies !((
                    #[trigger] cur1[a]).left == (#[trigger] cur1[b]).left && cur1[a].right
                        == cur1[b].right) by {
                        assert(cur1[a] == cur0.remove(i as int)[a]);
                        assert(cur1[b] == cur0.remove(i as int)[b]);
                    }
                    assert forall|k2: int| 0 <= k2 < cur1.len() implies !((
                    #[trigger] cur1[k2]).left == rec.left && cur1[k2].right == rec.right) by {
                        if k2 < i {
                            assert(cur1[k2] == cur0[k2]);
                        } else {
                            assert(cur1[k2] == cur0[k2 + 1]);
                        }
                    }
                    assert forall|x: NodeLinkId|
                        #![trigger recs_link_set(cur0).contains(x)]
                        #![trigger recs_link_set(cur1).contains(x)]
                        recs_link_set(cur0).contains(x) == (recs_link_set(cur1).contains(x) || (
                        x.left.node.0 == rec.left && x.right.node.0 == rec.right
                            && rec.links@.contains(
                            SocketLinkId { from: x.left.socket, to: x.right.socket },
                        ))) by {
                        let xpair = SocketLinkId { from: x.left.socket, to: x.right.socket };
                        if recs_link_set(cur0).contains(x) {
                            let k2 = choose|k2: int|
                                {
                                    &&& 0 <= k2 < cur0.len()
                                    &&& (#[trigger] cur0[k2]).left == x.left.node.0
                                    &&& cur0[k2].right == x.right.node.0
                                    &&& cur0[k2].links@.contains(xpair)
                                };
                            if k2 < i {
                                assert(cur1[k2].links@.contains(xpair));
                                assert(recs_link_set(cur1).contains(x));
                            } else if k2 > i {
                                assert(cur1[k2 - 1].links@.contains(xpair));
                                assert(recs_link_set(cur1).contains(x));
                            }
                        }
                        if recs_link_set(cur1).contains(x) {
                            let k2 = choose|k2: int|
                                {
                                    &&& 0 <= k2 < cur1.len()
                                    &&& (#[trigger] cur1[k2]).left == x.left.node.0
                                    &&& cur1[k2].right == x.right.node.0
                                    &&& cur1[k2].links@.contains(xpair)
                                };
                            if k2 < i {
                                assert(cur0[k2].links@.contains(xpair));
                            } else {
                                assert(cur0[k2 + 1].links@.contains(xpair));
                            }
                            assert(recs_link_set(cur0).contains(x));
                        }
                        if x.left.node.0 == rec.left && x.right.node.0 == rec.right
                            && rec.links@.contains(xpair) {
                            assert(cur0[i as int].links@.contains(xpair));
                            assert(recs_link_set(cur0).contains(x));
                        }
                    }
                    assert forall|x: NodeLinkId|
                        #![trigger sev1.to_set().contains(x)]
                        sev1.to_set().contains(x) == (sev0.to_set().contains(x) || (x.left.node.0
                            == rec.left && x.right.node.0 == rec.right && rec.links@.contains(
                            SocketLinkId { from: x.left.socket, to: x.right.socket },
                        ))) by {
                        let xpair = SocketLinkId { from: x.left.socket, to: x.right.socket };
                        if sev1.contains(x) {
                            let m = choose|m: int| 0 <= m < sev1.len() && sev1[m] == x;
                            if m < sev0.len() {
                                assert(sev0[m] == x);
                                assert(sev0.contains(x));
                            } else {
                                let mm = m - sev0.len();
                                assert(sev1[sev0.len() + mm] == rec_link(
                                    rec.left,
                                    rec.right,
                                    rec.links@[mm],
                                ));
                                assert(sev0.len() + mm == m);
                                assert(rec.links@.contains(rec.links@[mm]));
                            }
                        }
                        if sev0.contains(x) {
                            let m = choose|m: int| 0 <= m < sev0.len() && sev0[m] == x;
                            assert(sev1[m] == x);
                            assert(sev1.contains(x));
                        }
                        if x.left.node.0 == rec.left && x.right.node.0 == rec.right
                            && rec.links@.contains(xpair) {
                            let m = choose|m: int|
                                0 <= m < rec.links@.len() && rec.links@[m] == xpair;
                            assert(sev1[sev0.len() + m] == rec_link(rec.left, rec.right, xpair));
                            assert(rec_link(rec.left, rec.right, xpair) == x);
                            assert(sev1.contains(x));
                        }
                    }
                    assert forall|a: int, b: int| 0 <= a < b < sev1.len() implies #[trigger] sev1[a]
                        != #[trigger] sev1[b] by {
                        if b < sev0.len() {
                            assert(sev0[a] == sev1[a] && sev0[b] == sev1[b]);
                        } else if a >= sev0.len() {
                            let ma = a - sev0.len();
                            let mb = b - sev0.len();
                            assert(crate::link::link_lt(rec.links@[ma], rec.links@[mb]));
                            assert(sev1[sev0.len() + ma] == rec_link(
                                rec.left,
                                rec.right,
                                rec.links@[ma],
                            ));
                            assert(sev1[sev0.len() + mb] == rec_link(
                                rec.left,
                                rec.right,
                                rec.links@[mb],
                            ));
                            assert(sev0.len() + ma == a && sev0.len() + mb == b);
                        } else {
                            let mb = b - sev0.len();
                            assert(sev1[a] == sev0[a]);
                            assert(sev0.contains(sev0[a]));
                            assert(sev0.to_set().contains(sev1[a]));
                            assert(!recs_link_set(cur0).contains(sev1[a]));
                            assert(sev1[sev0.len() + mb] == rec_link(
                                rec.left,
                                rec.right,
                                rec.links@[mb],
                            ));
                            assert(sev0.len() + mb == b);
                            assert(rec.links@.contains(rec.links@[mb]));
                            assert(cur0[i as int].links@.contains(rec.links@[mb]));
                            assert(recs_link_set(cur0).contains(sev1[b]));
                        }
                    }
                    assert(sev1.no_duplicates());
                }
            } else {
                i = i + 1;
            }
        }
        proof {
            let cur = self.links@;
            let sev = severed_vec@;
            assert forall|k: int| 0 <= k < cur.len() implies self.nodes().dom().contains(
                (#[trigger] cur[k]).left,
            ) && self.nodes().dom().contains(cur[k].right) by {
                assert(cur[k].left != id.0 && cur[k].right != id.0);
                assert(old(self).nodes().dom().contains(cur[k].left));
                assert(old(self).nodes().dom().contains(cur[k].right));
            }
            assert forall|p: (u32, u32)| #[trigger] self.edges().contains(p) implies old(
                self,
            ).edges().contains(p) && p.0 != id.0 && p.1 != id.0 by {
                let k = choose|k: int|
                    0 <= k < cur.len() && (#[trigger] cur[k]).left == p.0 && cur[k].right == p.1;
                let x = rec_link(cur[k].left, cur[k].right, cur[k].links@[0]);
                assert(cur[k].links@.contains(cur[k].links@[0]));
                assert(recs_link_set(cur).contains(x));
                assert(old_ls.contains(x));
                let k0 = choose|k0: int|
                    {
                        &&& 0 <= k0 < orig.len()
                        &&& (#[trigger] orig[k0]).left == x.left.node.0
                        &&& orig[k0].right == x.right.node.0
                        &&& orig[k0].links@.contains(
                            SocketLinkId { from: x.left.socket, to: x.right.socket },
                        )
                    };
                assert(recs_edge_set(orig).contains(p));
            }
            lemma_acyclic_subset(self.edges(), old(self).edges());
            assert(self.link_set() =~= Set::new(
                |x: NodeLinkId| old(self).link_set().contains(x) && !touches(x, id),
            )) by {
                assert forall|x: NodeLinkId|
                    recs_link_set(cur).contains(x) == (old_ls.contains(x) && !touches(x, id)) by {
                    if recs_link_set(cur).contains(x) {
                        let k = choose|k: int|
                            {
                                &&& 0 <= k < cur.len()
                                &&& (#[trigger] cur[k]).left == x.left.node.0
                                &&& cur[k].right == x.right.node.0
                                &&& cur[k].links@.contains(
                                    SocketLinkId { from: x.left.socket, to: x.right.socket },
                                )
                            };
                        assert(cur[k].left != id.0 && cur[k].right != id.0);
                        assert(x.left.node.0 != id.0 && x.right.node.0 != id.0);
                        assert(!touches(x, id));
                        assert(old_ls.contains(x));
                    }
                    if old_ls.contains(x) && !touches(x, id) {
                        if severed_vec@.to_set().contains(x) {
                            assert(touches(x, id));
                            assert(false);
                        }
                        assert(recs_link_set(cur).contains(x));
                    }
                }
            }
            assert(sev.to_set() =~= Set::new(
                |x: NodeLinkId| old(self).link_set().contains(x) && touches(x, id),
            )) by {
                assert forall|x: NodeLinkId|
                    sev.to_set().contains(x) == (old_ls.contains(x) && touches(x, id)) by {
                    if sev.to_set().contains(x) {
                        assert(touches(x, id) && old_ls.contains(x));
                    }
                    if old_ls.contains(x) && touches(x, id) {
                        if recs_link_set(cur).contains(x) {
                            let k = choose|k: int|
                                {
                                    &&& 0 <= k < cur.len()
                                    &&& (#[trigger] cur[k]).left == x.left.node.0
                                    &&& cur[k].right == x.right.node.0
                                    &&& cur[k].links@.contains(
                                        SocketLinkId { from: x.left.socket, to: x.right.socket },
                                    )
                                };
                            assert(cur[k].left != id.0 && cur[k].right != id.0);
                            assert(!touches(x, id));
                            assert(false);
                        }
                        assert(sev.to_set().contains(x));
                    }
                }
            }
        }
        Some((node, SeveredLinks::fresh(severed_vec)))
    }

    /// Finds the record of the ordered slot pair `(left, right)`.
    fn find_rec(&self, left: u32, right: u32) -> (r: Option<usize>)
        ensures
            match r {
                Some(i) => i < self.links@.len() && self.links@[i as int].left == left
                    && self.links@[i as int].right == right,
                None => forall|k: int|
                    0 <= k < self.links@.len() ==> !((#[trigger] self.links@[k]).left == left
                        && self.links@[k].right == right),
            },
    {
        let n = self.links.len();
        let mut i: usize = 0;
        while i < n
            invariant
                n == self.links@.len(),
                0 <= i <= n,
                forall|k: int|
                    0 <= k < i ==> !((#[trigger] self.links@[k]).left == left
                        && self.links@[k].right == right),
            decreases n - i,
        {
            if self.links[i].left == left && self.links[i].right == right {
                return Some(i);
            }
            i = i + 1;
        }
        None
    }

    /// Decides whether `target` is reachable from `start` along the
    /// node-level edge relation, by a depth-first search bounded by the
    /// arena size. This search dominates the cost of link insertion.
    #[verifier::rlimit(100)]
    fn can_reach(&self, start: u32, target: u32) -> (r: bool)
        requires
            self.wf(),
            self.nodes().dom().contains(start),
        ensures
            r == reaches(self.edges(), start, target),
    {
        let ghost e = self.edges();
        let ghost bound = self.slots@.len() as int;
        let mut visited = Visited::new();
        let mut stack: Vec<u32> = Vec::new();
        stack.push(start);
        proof {
            lemma_reaches_refl(e, start);
            assert(stack@[stack@.len() - 1] == start);
            assert(stack@.contains(start));
        }
        while stack.len() > 0
            invariant
                self.wf(),
                e == self.edges(),
                bound == self.slots@.len() as int,
                self.nodes().dom().contains(start),
                visited.wf(),
                forall|n: NodeId| #[trigger]
                    visited@.contains(n) ==> self.nodes().dom().contains(n.0),
                forall|m: int| 0 <= m < visited@.len() ==> (#[trigger] visited@[m]).0 < bound,
                forall|k: int|
                    0 <= k < stack@.len() ==> self.nodes().dom().contains(#[trigger] stack@[k]),
                forall|n: NodeId| #[trigger] visited@.contains(n) ==> reaches(e, start, n.0),
                forall|k: int| 0 <= k < stack@.len() ==> reaches(e, start, #[trigger] stack@[k]),
                stack@.contains(start) || visited@.contains(NodeId(start)),
                !visited@.contains(NodeId(target)),
                forall|x: u32, y: u32|
                    visited@.contains(NodeId(x)) && #[trigger] e.contains((x, y))
                        ==> visited@.contains(NodeId(y)) || stack@.contains(y),
                visited@.len() <= bound,
            decreases bound - visited@.len(), stack@.len(),
        {
            let ghost stack0 = stack@;
            let node = match stack.pop() {
                Some(n) => n,
                None => {
                    proof {
                        assert(false);
                    }
                    0
                },
            };
            proof {
                assert(node == stack0[stack0.len() - 1]);
                assert(reaches(e, start, node));
                assert(self.nodes().dom().contains(stack0[stack0.len() - 1]));
                assert forall|y: u32| stack0.contains(y) implies stack@.contains(y) || y
                    == node by {
                    let k = choose|k: int| 0 <= k < stack0.len() && stack0[k] == y;
                    if k < stack0.len() - 1 {
                        assert(stack@[k] == y);
                    }
                }
            }
            if node == target {
                return true;
            }
            let ghost vis0 = visited@;
            let was_new = visited.visit(NodeId(node));
            proof {
                assert(visited@.contains(NodeId(node))) by {
                    assert(visited@.to_set().contains(NodeId(node)));
                }
                assert forall|n: NodeId| #[trigger]
                    visited@.contains(n) implies self.nodes().dom().contains(n.0) && reaches(
                    e,
                    start,
                    n.0,
                ) by {
                    assert(visited@.to_set().contains(n));
                    if n != NodeId(node) {
                        assert(vis0.to_set().contains(n));
                        assert(vis0.contains(n));
                    }
                }
                assert forall|m: int| 0 <= m < visited@.len() implies (#[trigger] visited@[m]).0
                    < bound by {
                    assert(visited@.contains(visited@[m]));
                    assert(self.nodes().dom().contains(visited@[m].0));
                }
                lemma_sorted_ids_below(visited@, bound);
                assert(!visited@.contains(NodeId(target))) by {
                    if visited@.contains(NodeId(target)) {
                        assert(visited@.to_set().contains(NodeId(target)));
                        assert(vis0.to_set().contains(NodeId(target)) || NodeId(target) == NodeId(
                            node,
                        ));
                        if vis0.to_set().contains(NodeId(target)) {
                            assert(vis0.contains(NodeId(target)));
                        }
                    }
                }
                assert forall|x: u32, y: u32|
                    visited@.contains(NodeId(x)) && x != node && #[trigger] e.contains(
                        (x, y),
                    ) implies visited@.contains(NodeId(y)) || stack@.contains(y) by {
                    assert(visited@.to_set().contains(NodeId(x)));
                    assert(vis0.to_set().contains(NodeId(x)));
                    assert(vis0.contains(NodeId(x)));
                    assert(vis0.contains(NodeId(y)) || stack0.contains(y));
                    if vis0.contains(NodeId(y)) {
                        assert(visited@.to_set().contains(NodeId(y)));
                    } else {
                        assert(stack@.contains(y) || y == node);
                    }
                }
                if !was_new {
                    assert forall|x: u32, y: u32|
                        visited@.contains(NodeId(x)) && #[trigger] e.contains(
                            (x, y),
                        ) implies visited@.contains(NodeId(y)) || stack@.contains(y) by {
                        assert(visited@ == vis0);
                        assert(vis0.contains(NodeId(y)) || stack0.contains(y));
                        if !vis0.contains(NodeId(y)) {
                            assert(stack@.contains(y) || y == node);
                        }
                    }
                }
                assert(stack@.contains(start) || visited@.contains(NodeId(start))) by {
                    if vis0.contains(NodeId(start)) {
                        assert(vis0.to_set().contains(NodeId(start)));
                        assert(visited@.to_set().contains(NodeId(start)));
                        assert(visited@.contains(NodeId(start)));
                    } else {
                        assert(stack0.contains(start));
                        if !stack@.contains(start) {
                            assert(start == node);
                            assert(visited@.contains(NodeId(node)));
                        }
                    }
                }
            }
            if was_new {
                let n_recs = self.links.len();
                let mut j: usize = 0;
                while j < n_recs
                    invariant
                        self.wf(),
                        e == self.edges(),
                        bound == self.slots@.len() as int,
                        self.nodes().dom().contains(start),
                        n_recs == self.links@.len(),
                        0 <= j <= n_recs,
                        visited.wf(),
                        visited@.contains(NodeId(node)),
                        reaches(e, start, node),
                        node != target,
                        forall|n: NodeId| #[trigger]
                            visited@.contains(n) ==> self.nodes().dom().contains(n.0),
                        forall|m: int|
                            0 <= m < visited@.len() ==> (#[trigger] visited@[m]).0 < bound,
                        forall|k: int|
                            0 <= k < stack@.len() ==> self.nodes().dom().contains(
                                #[trigger] stack@[k],
                            ),
                        forall|n: NodeId| #[trigger] visited@.contains(n) ==> reaches(e, start, n.0),
                        forall|k: int|
                            0 <= k < stack@.len() ==> reaches(e, start, #[trigger] stack@[k]),
                        stack@.contains(start) || visited@.contains(NodeId(start)),
                        !visited@.contains(NodeId(target)),
                        forall|x: u32, y: u32|
                            visited@.contains(NodeId(x)) && x != node && #[trigger] e.contains(
                                (x, y),
                            ) ==> visited@.contains(NodeId(y)) || stack@.contains(y),
                        forall|k: int|
                            0 <= k < j && (#[trigger] self.links@[k]).left == node
                                ==> stack@.contains(self.links@[k].right),
                        visited@.len() <= bound,
                    decreases n_recs - j,
                {
                    let ghost stack1 = stack@;
                    let e_left = self.links[j].left;
                    if e_left == node {
                        let e_right = self.links[j].right;
                        proof {
                            assert(e.contains((node, e_right)));
                            lemma_reaches_edge(e, node, e_right);
                            lemma_reaches_trans(e, start, node, e_right);
                            assert(self.nodes().dom().contains(self.links@[j as int].right));
                        }
                        stack.push(e_right);
                        proof {
                            assert forall|y: u32| stack1.contains(y) implies stack@.contains(
                                y,
                            ) by {
                                let k = choose|k: int| 0 <= k < stack1.len() && stack1[k] == y;
                                assert(stack@[k] == y);
                            }
                            assert(stack@[stack@.len() - 1] == e_right);
                            assert(stack@.contains(e_right));
                        }
                    }
                    j = j + 1;
                }
                proof {
                    assert forall|x: u32, y: u32|
                        visited@.contains(NodeId(x)) && #[trigger] e.contains(
                            (x, y),
                        ) implies visited@.contains(NodeId(y)) || stack@.contains(y) by {
                        if x == node {
                            let i = choose|i: int|
                                0 <= i < self.links@.len() && (#[trigger] self.links@[i]).left == x
                                    && self.links@[i].right == y;
                            assert(stack@.contains(self.links@[i].right));
                        }
                    }
                }
            }
        }
        proof {
            let s = Set::new(|x: u32| visited@.contains(NodeId(x)));
            assert(visited@.contains(NodeId(start)));
            assert(s.contains(start));
            assert forall|x: u32, y: u32| s.contains(x) && #[trigger] e.contains(
                (x, y),
            ) implies s.contains(y) by {
                assert(visited@.contains(NodeId(x)));
                assert(visited@.contains(NodeId(y)) || stack@.contains(y));
                assert(visited@.contains(NodeId(y)));
            }
            if reaches(e, start, target) {
                lemma_closed_set_reach(e, s, start, target);
                assert(s.contains(target));
                assert(visited@.contains(NodeId(target)));
                assert(false);
            }
        }
        false
    }

    /// Inserts the socket-level link `link` between two present nodes,
    /// refusing it — before any state changes — exactly when the new edge
    /// would let the consumer reach back to the producer. Inserting a link
    /// that is already present succeeds and changes nothing.
    #[verifier::rlimit(100)]
    pub fn insert_link(&mut self, link: NodeLinkId) -> (r: Result<(), WouldCycle>)
        requires
            old(self).wf(),
            old(self).nodes().dom().contains(link.left.node.0),
            old(self).nodes().dom().contains(link.right.node.0),
        ensures
            final(self).wf(),
            final(self).nodes() == old(self).nodes(),
            final(self).next_index() == old(self).next_index(),
            match r {
                Ok(()) => final(self).link_set() == old(self).link_set().insert(link)
                    && final(self).edges() == old(self).edges().insert(
                    (link.left.node.0, link.right.node.0),
                ),
                Err(e) => *final(self) == *old(self),
            },
            (r is Err) == reaches(old(self).edges(), link.right.node.0, link.left.node.0),
    {
        let l = link.left.node.0;
        let rr = link.right.node.0;
        let pair = SocketLinkId { from: link.left.socket, to: link.right.socket };
        match self.find_rec(l, rr) {
            Some(i) => {
                proof {
                    assert(self.edges().contains((l, rr)));
                    lemma_acyclic_edge_no_return(self.edges(), l, rr);
                }
                let ghost before = self.links@;
                let mut rec = self.links.remove(i);
                rec.links.insert(pair);
                self.links.insert(i, rec);
                proof {
                    let after = self.links@;
                    assert(after =~= before.update(i as int, after[i as int]));
                    let e2 = after[i as int];
                    assert(e2.left == l && e2.right == rr);
                    assert(e2.links@.to_set() == before[i as int].links@.to_set().insert(pair));
                    assert(e2.links@.contains(pair));
                    assert forall|a: int, b: int| 0 <= a < b < after.len() implies !((
                    #[trigger] after[a]).left == (#[trigger] after[b]).left && after[a].right
                        == after[b].right) by {
                        assert(after[a].left == before[a].left && after[a].right
                            == before[a].right);
                        assert(after[b].left == before[b].left && after[b].right
                            == before[b].right);
                    }
                    assert forall|k: int| 0 <= k < after.len() implies (
                    #[trigger] after[k]).links.wf() && after[k].links@.len() > 0
                        && self.nodes().dom().contains(after[k].left) && self.nodes().dom(
                    ).contains(after[k].right) by {
                        if k != i {
                            assert(after[k] == before[k]);
                        }
                    }
                    assert(self.edges() =~= old(self).edges()) by {
                        assert forall|p: (u32, u32)|
                            recs_edge_set(after).contains(p) == recs_edge_set(before).contains(
                                p,
                            ) by {
                            if recs_edge_set(after).contains(p) {
                                let k = choose|k: int|
                                    0 <= k < after.len() && (#[trigger] after[k]).left == p.0
                                        && after[k].right == p.1;
                                assert(before[k].left == p.0 && before[k].right == p.1);
                            }
                            if recs_edge_set(before).contains(p) {
                                let k = choose|k: int|
                                    0 <= k < before.len() && (#[trigger] before[k]).left == p.0
                                        && before[k].right == p.1;
                                assert(after[k].left == p.0 && after[k].right == p.1);
                            }
                        }
                    }
                    assert(old(self).edges().contains((l, rr)));
                    assert(self.edges() =~= old(self).edges().insert((l, rr)));
                    assert(self.link_set() =~= old(self).link_set().insert(link)) by {
                        assert forall|x: NodeLinkId|
                            recs_link_set(after).contains(x) == (recs_link_set(before).contains(x)
                                || x == link) by {
                            let xpair = SocketLinkId { from: x.left.socket, to: x.right.socket };
                            if recs_link_set(after).contains(x) {
                                let k = choose|k: int|
                                    {
                                        &&& 0 <= k < after.len()
                                        &&& (#[trigger] after[k]).left == x.left.node.0
                                        &&& after[k].right == x.right.node.0
                                        &&& after[k].links@.contains(xpair)
                                    };
                                if k != i {
                                    assert(before[k].links@.contains(xpair));
                                    assert(recs_link_set(before).contains(x));
                                } else {
                                    assert(e2.links@.to_set().contains(xpair));
                                    if before[i as int].links@.to_set().contains(xpair) {
                                        assert(before[i as int].links@.contains(xpair));
                                        assert(recs_link_set(before).contains(x));
                                    } else {
                                        assert(xpair == pair);
                                        assert(x == link);
                                    }
                                }
                            }
                            if recs_link_set(before).contains(x) {
                                let k = choose|k: int|
                                    {
                                        &&& 0 <= k < before.len()
                                        &&& (#[trigger] before[k]).left == x.left.node.0
                                        &&& before[k].right == x.right.node.0
                                        &&& before[k].links@.contains(xpair)
                                    };
                                if k != i {
                                    assert(after[k].links@.contains(xpair));
                                    assert(recs_link_set(after).contains(x));
                                } else {
                                    assert(before[i as int].links@.to_set().contains(xpair));
                                    assert(e2.links@.to_set().contains(xpair));
                                    assert(e2.links@.contains(xpair));
                                    assert(recs_link_set(after).contains(x));
                                }
                            }
                            if x == link {
                                assert(e2.links@.contains(pair));
                                assert(recs_link_set(after).contains(x));
                            }
                        }
                    }
                }
                Ok(())
            },
            None => {
                if self.can_reach(rr, l) {
                    Err(WouldCycle)
                } else {
                    let mut lks = Links::new();
                    lks.insert(pair);
                    let ghost before = self.links@;
                    self.links.push(EdgeRec { left: l, right: rr, links: lks });
                    proof {
                        let after = self.links@;
                        let pos = after.len() - 1;
                        let e2 = after[pos];
                        assert(after == before.push(e2));
                        assert(e2.left == l && e2.right == rr);
                        assert(e2.links@.to_set() == Seq::<SocketLinkId>::empty().to_set().insert(
                            pair,
                        ));
                        assert(e2.links@.contains(pair));
                        assert forall|xp: SocketLinkId| #[trigger]
                            e2.links@.contains(xp) implies xp == pair by {
                            assert(e2.links@.to_set().contains(xp));
                            if Seq::<SocketLinkId>::empty().to_set().contains(xp) {
                                let m = choose|m: int|
                                    0 <= m < Seq::<SocketLinkId>::empty().len() && Seq::<
                                        SocketLinkId,
                                    >::empty()[m] == xp;
                                assert(false);
                            }
                        }
                        assert forall|a: int, b: int| 0 <= a < b < after.len() implies !((
                        #[trigger] after[a]).left == (#[trigger] after[b]).left && after[a].right
                            == after[b].right) by {
                            if b < pos {
                                assert(after[a] == before[a] && after[b] == before[b]);
                            } else {
                                assert(after[a] == before[a]);
                            }
                        }
                        assert forall|k: int| 0 <= k < after.len() implies (
                        #[trigger] after[k]).links.wf() && after[k].links@.len() > 0
                            && self.nodes().dom().contains(after[k].left) && self.nodes().dom(
                        ).contains(after[k].right) by {
                            if k < pos {
                                assert(after[k] == before[k]);
                            }
                        }
                        assert(self.edges() =~= old(self).edges().insert((l, rr))) by {
                            assert forall|p: (u32, u32)|
                                recs_edge_set(after).contains(p) == (recs_edge_set(before).contains(
                                    p,
                                ) || p == (l, rr)) by {
                                if recs_edge_set(after).contains(p) {
                                    let k = choose|k: int|
                                        0 <= k < after.len() && (#[trigger] after[k]).left == p.0
                                            && after[k].right == p.1;
                                    if k < pos {
                                        assert(before[k].left == p.0 && before[k].right == p.1);
                                    }
                                }
                                if recs_edge_set(before).contains(p) {
                                    let k = choose|k: int|
                                        0 <= k < before.len() && (#[trigger] before[k]).left == p.0
                                            && before[k].right == p.1;
                                    assert(after[k].left == p.0 && after[k].right == p.1);
                                }
                                if p == (l, rr) {
                                    assert(after[pos].left == p.0 && after[pos].right == p.1);
                                }
                            }
                        }
                        assert(self.link_set() =~= old(self).link_set().insert(link)) by {
                            assert forall|x: NodeLinkId|
                                recs_link_set(after).contains(x) == (recs_link_set(before).contains(
                                    x,
                                ) || x == link) by {
                                let xpair = SocketLinkId {
                                    from: x.left.socket,
                                    to: x.right.socket,
                                };
                                if recs_link_set(after).contains(x) {
                                    let k = choose|k: int|
                                        {
                                            &&& 0 <= k < after.len()
                                            &&& (#[trigger] after[k]).left == x.left.node.0
                                            &&& after[k].right == x.right.node.0
                                            &&& after[k].links@.contains(xpair)
                                        };
                                    if k < pos {
                                        assert(before[k].links@.contains(xpair));
                                        assert(recs_link_set(before).contains(x));
                                    } else {
                                        assert(xpair == pair);
                                        assert(x == link);
                                    }
                                }
                                if recs_link_set(before).contains(x) {
                                    let k = choose|k: int|
                                        {
                                            &&& 0 <= k < before.len()
                                            &&& (#[trigger] before[k]).left == x.left.node.0
                                            &&& before[k].right == x.right.node.0
                                            &&& before[k].links@.contains(xpair)
                                        };
                                    assert(after[k].links@.contains(xpair));
                                    assert(recs_link_set(after).contains(x));
                                }
                                if x == link {
                                    assert(after[pos].links@.contains(pair));
                                    assert(recs_link_set(after).contains(x));
                                }
                            }
                        }
                        lemma_acyclic_insert(old(self).edges(), l, rr);
                        lemma_acyclic_subset(self.edges(), old(self).edges().insert((l, rr)));
                    }
                    Ok(())
                }
            },
        }
    }

    /// Returns `true` if the socket-level link `link` is present.
    pub fn has_link(&self, link: NodeLinkId) -> (r: bool)
        requires
            self.wf(),
        ensures
            r == self.link_set().contains(link),
    {
        let pair = SocketLinkId { from: link.left.socket, to: link.right.socket };
        match self.find_rec(link.left.node.0, link.right.node.0) {
            Some(i) => {
                let c = self.links[i].links.contains(pair);
                proof {
                    if c {
                        assert(self.links@[i as int].links@.contains(pair));
                        assert(self.link_set().contains(link));
                    } else if self.link_set().contains(link) {
                        let j = choose|j: int|
                            {
                                &&& 0 <= j < self.links@.len()
                                &&& (#[trigger] self.links@[j]).left == link.left.node.0
                                &&& self.links@[j].right == link.right.node.0
                                &&& self.links@[j].links@.contains(
                                    SocketLinkId { from: link.left.socket, to: link.right.socket },
                                )
                            };
                        assert(j == i);
                        assert(false);
                    }
                }
                c
            },
            None => {
                proof {
                    if self.link_set().contains(link) {
                        let j = choose|j: int|
                            {
                                &&& 0 <= j < self.links@.len()
                                &&& (#[trigger] self.links@[j]).left == link.left.node.0
                                &&& self.links@[j].right == link.right.node.0
                                &&& self.links@[j].links@.contains(
                                    SocketLinkId { from: link.left.socket, to: link.right.socket },
                                )
                            };
                        assert(false);
                    }
                }
                false
            },
        }
    }

    /// Counts the links of the graph, summing the per-pair edge sets: the
    /// result is exactly the size of the link set.
    pub fn link_count(&self) -> (r: usize)
        requires
            self.wf(),
            self.link_set().len() <= usize::MAX,
        ensures
            r == self.link_set().len(),
    {
        proof {
            lemma_rec_link_set_card(self.links@);
        }
        let n = self.links.len();
        let mut total: usize = 0;
        let mut j: usize = 0;
        proof {
            assert(self.links@.take(0) =~= Seq::<EdgeRec>::empty());
            lemma_rec_count_nonneg(self.links@);
        }
        while j < n
            invariant
                self.wf(),
                count_rec_links(self.links@) <= usize::MAX,
                n == self.links@.len(),
                0 <= j <= n,
                total == count_rec_links(self.links@.take(j as int)),
                total <= count_rec_links(self.links@),
            decreases n - j,
        {
            proof {
                lemma_rec_count_prefix(self.links@, j as int + 1);
                assert(self.links@.take(j as int + 1).drop_last() =~= self.links@.take(j as int));
                assert(self.links@.take(j as int + 1).last() == self.links@[j as int]);
                lemma_rec_count_nonneg(self.links@.take(j as int));
            }
            total = total + self.links[j].links.count();
            j = j + 1;
        }
        proof {
            assert(self.links@.take(n as int) =~= self.links@);
        }
        total
    }

    /// Borrows the edge set between the ordered slot pair `(left, right)`,
    /// if any link runs between them. An absent pair answers `None`: empty
    /// edge sets are never retained.
    pub fn get_edges(&self, left: NodeId, right: NodeId) -> (r: Option<&Links>)
        requires
            self.wf(),
        ensures
            match r {
                Some(lks) => {
                    &&& self.edges().contains((left.0, right.0))
                    &&& lks.wf()
                    &&& lks@.len() > 0
                    &&& forall|p: SocketLinkId| #[trigger]
                        lks@.contains(p) == self.link_set().contains(
                            NodeLinkId {
                                left: NodeSocketId { node: left, socket: p.from },
                                right: NodeSocketId { node: right, socket: p.to },
                            },
                        )
                },
                None => !self.edges().contains((left.0, right.0)),
            },
    {
        match self.find_rec(left.0, right.0) {
            Some(i) => {
                let lks = &self.links[i].links;
                proof {
                    assert(self.edges().contains((left.0, right.0)));
                    assert forall|p: SocketLinkId| #[trigger]
                        lks@.contains(p) == self.link_set().contains(
                            NodeLinkId {
                                left: NodeSocketId { node: left, socket: p.from },
                                right: NodeSocketId { node: right, socket: p.to },
                            },
                        ) by {
                        let x = NodeLinkId {
                            left: NodeSocketId { node: left, socket: p.from },
                            right: NodeSocketId { node: right, socket: p.to },
                        };
                        if lks@.contains(p) {
                            assert(self.links@[i as int].links@.contains(
                                SocketLinkId { from: x.left.socket, to: x.right.socket },
                            ));
                            assert(recs_link_set(self.links@).contains(x));
                        }
                        if self.link_set().contains(x) {
                            let k = choose|k: int|
                                {
                                    &&& 0 <= k < self.links@.len()
                                    &&& (#[trigger] self.links@[k]).left == x.left.node.0
                                    &&& self.links@[k].right == x.right.node.0
                                    &&& self.links@[k].links@.contains(
                                        SocketLinkId { from: x.left.socket, to: x.right.socket },
                                    )
                                };
                            assert(k == i);
                        }
                    }
                }
                Some(lks)
            },
            None => {
                proof {
                    if self.edges().contains((left.0, right.0)) {
                        let k = choose|k: int|
                            0 <= k < self.links@.len() && (#[trigger] self.links@[k]).left
                                == left.0 && self.links@[k].right == right.0;
                        assert(false);
                    }
                }
                None
            },
        }
    }

    /// The nodes that `node` directly depends on: every producer wired
    /// into one of its inputs, each listed once, in record order.
    pub fn iter_direct_dependencies(&self, node: NodeId) -> (r: Vec<NodeId>)
        requires
            self.wf(),
        ensures
            forall|x: NodeId| #[trigger] r@.contains(x) == self.edges().contains((x.0, node.0)),
            r@.no_duplicates(),
    {
        let mut r: Vec<NodeId> = Vec::new();
        let n = self.links.len();
        let mut j: usize = 0;
        while j < n
            invariant
                self.wf(),
                n == self.links@.len(),
                0 <= j <= n,
                forall|x: NodeId| #[trigger]
                    r@.contains(x) == exists|k: int|
                        0 <= k < j && (#[trigger] self.links@[k]).right == node.0
                            && self.links@[k].left == x.0,
                r@.no_duplicates(),
            decreases n - j,
        {
            let ghost r0 = r@;
            if self.links[j].right == node.0 {
                let left = self.links[j].left;
                proof {
                    if r0.contains(NodeId(left)) {
                        let k = choose|k: int|
                            0 <= k < j && (#[trigger] self.links@[k]).right == node.0
                                && self.links@[k].left == left;
                        assert(!(self.links@[k].left == self.links@[j as int].left
                            && self.links@[k].right == self.links@[j as int].right));
                        assert(false);
                    }
                }
                r.push(NodeId(left));
                proof {
                    assert(r@ == r0.push(NodeId(left)));
                    assert forall|x: NodeId| #[trigger] r@.contains(x) == (r0.contains(x) || x
                        == NodeId(left)) by {
                        if r@.contains(x) {
                            let m = choose|m: int| 0 <= m < r@.len() && r@[m] == x;
                            if m < r0.len() {
                                assert(r0[m] == x);
                            }
                        }
                        if r0.contains(x) {
                            let m = choose|m: int| 0 <= m < r0.len() && r0[m] == x;
                            assert(r@[m] == x);
                        }
                        assert(r@[r@.len() - 1] == NodeId(left));
                    }
                    assert forall|a: int, b: int|
                        0 <= a < r@.len() && 0 <= b < r@.len() && a != b implies (
                    #[trigger] r@[a]) != (#[trigger] r@[b]) by {
                        if a < r0.len() && b < r0.len() {
                            assert(r0[a] == r@[a] && r0[b] == r@[b]);
                        } else if a < r0.len() {
                            assert(r0[a] == r@[a]);
                            assert(r0.contains(r0[a]));
                            assert(r@[b] == NodeId(left));
                        } else {
                            assert(r0[b] == r@[b]);
                            assert(r0.contains(r0[b]));
                            assert(r@[a] == NodeId(left));
                        }
                    }
                }
            }
            j = j + 1;
            proof {
                assert forall|x: NodeId| #[trigger]
                    r@.contains(x) == exists|k: int|
                        0 <= k < j && (#[trigger] self.links@[k]).right == node.0
                            && self.links@[k].left == x.0 by {
                    if r@.contains(x) && !r0.contains(x) {
                        assert(self.links@[j - 1].right == node.0 && self.links@[j - 1].left
                            == x.0);
                    }
                    if exists|k: int|
                        0 <= k < j && (#[trigger] self.links@[k]).right == node.0
                            && self.links@[k].left == x.0 {
                        let k = choose|k: int|
                            0 <= k < j && (#[trigger] self.links@[k]).right == node.0
                                && self.links@[k].left == x.0;
                        if k == j - 1 && self.links@[j - 1].right == node.0 {
                            assert(r@.contains(x) || x == NodeId(self.links@[j - 1].left));
                        }
                    }
                }
            }
        }
        proof {
            assert forall|x: NodeId| #[trigger] r@.contains(x) == self.edges().contains(
                (x.0, node.0),
            ) by {
                if self.edges().contains((x.0, node.0)) {
                    let k = choose|k: int|
                        0 <= k < self.links@.len() && (#[trigger] self.links@[k]).left == x.0
                            && self.links@[k].right == node.0;
                    assert(r@.contains(x));
                }
                if r@.contains(x) {
                    let k = choose|k: int|
                        0 <= k < j && (#[trigger] self.links@[k]).right == node.0
                            && self.links@[k].left == x.0;
                    assert(recs_edge_set(self.links@).contains((x.0, node.0)));
                }
            }
        }
        r
    }

    /// The nodes that directly depend on `node`: every consumer wired to
    /// one of its outputs, each listed once, in record order.
    pub fn iter_direct_dependents(&self, node: NodeId) -> (r: Vec<NodeId>)
        requires
            self.wf(),
        ensures
            forall|x: NodeId| #[trigger] r@.contains(x) == self.edges().contains((node.0, x.0)),
            r@.no_duplicates(),
    {
        let mut r: Vec<NodeId> = Vec::new();
        let n = self.links.len();
        let mut j: usize = 0;
        while j < n
            invariant
                self.wf(),
                n == self.links@.len(),
                0 <= j <= n,
                forall|x: NodeId| #[trigger]
                    r@.contains(x) == exists|k: int|
                        0 <= k < j && (#[trigger] self.links@[k]).left == node.0
                            && self.links@[k].right == x.0,
                r@.no_duplicates(),
            decreases n - j,
        {
            let ghost r0 = r@;
            if self.links[j].left == node.0 {
                let right = self.links[j].right;
                proof {
                    if r0.contains(NodeId(right)) {
                        let k = choose|k: int|
                            0 <= k < j && (#[trigger] self.links@[k]).left == node.0
                                && self.links@[k].right == right;
                        assert(!(self.links@[k].left == self.links@[j as int].left
                            && self.links@[k].right == self.links@[j as int].right));
                        assert(false);
                    }
                }
                r.push(NodeId(right));
                proof {
                    assert(r@ == r0.push(NodeId(right)));
                    assert forall|x: NodeId| #[trigger] r@.contains(x) == (r0.contains(x) || x
                        == NodeId(right)) by {
                        if r@.contains(x) {
                            let m = choose|m: int| 0 <= m < r@.len() && r@[m] == x;
                            if m < r0.len() {
                                assert(r0[m] == x);
                            }
                        }
                        if r0.contains(x) {
                            let m = choose|m: int| 0 <= m < r0.len() && r0[m] == x;
                            assert(r@[m] == x);
                        }
                        assert(r@[r@.len() - 1] == NodeId(right));
                    }
                    assert forall|a: int, b: int|
                        0 <= a < r@.len() && 0 <= b < r@.len() && a != b implies (
                    #[trigger] r@[a]) != (#[trigger] r@[b]) by {
                        if a < r0.len() && b < r0.len() {
                            assert(r0[a] == r@[a] && r0[b] == r@[b]);
                        } else if a < r0.len() {
                            assert(r0[a] == r@[a]);
                            assert(r0.contains(r0[a]));
                            assert(r@[b] == NodeId(right));
                        } else {
                            assert(r0[b] == r@[b]);
                            assert(r0.contains(r0[b]));
                            assert(r@[a] == NodeId(right));
                        }
                    }
                }
            }
            j = j + 1;
            proof {
                assert forall|x: NodeId| #[trigger]
                    r@.contains(x) == exists|k: int|
                        0 <= k < j && (#[trigger] self.links@[k]).left == node.0
                            && self.links@[k].right == x.0 by {
                    if r@.contains(x) && !r0.contains(x) {
                        assert(self.links@[j - 1].left == node.0 && self.links@[j - 1].right
                            == x.0);
                    }
                    if exists|k: int|
                        0 <= k < j && (#[trigger] self.links@[k]).left == node.0
                            && self.links@[k].right == x.0 {
                        let k = choose|k: int|
                            0 <= k < j && (#[trigger] self.links@[k]).left == node.0
                                && self.links@[k].right == x.0;
                        if k == j - 1 && self.links@[j - 1].left == node.0 {
                            assert(r@.contains(x) || x == NodeId(self.links@[j - 1].right));
                        }
                    }
                }
            }
        }
        proof {
            assert forall|x: NodeId| #[trigger] r@.contains(x) == self.edges().contains(
                (node.0, x.0),
            ) by {
                if self.edges().contains((node.0, x.0)) {
                    let k = choose|k: int|
                        0 <= k < self.links@.len() && (#[trigger] self.links@[k]).left == node.0
                            && self.links@[k].right == x.0;
                    assert(r@.contains(x));
                }
                if r@.contains(x) {
                    let k = choose|k: int|
                        0 <= k < j && (#[trigger] self.links@[k]).left == node.0
                            && self.links@[k].right == x.0;
                    assert(recs_edge_set(self.links@).contains((node.0, x.0)));
                }
            }
        }
        r
    }

    /// Removes the socket-level link `link`, if it is present; removing an
    /// absent link is a no-op. A record emptied by the removal is pruned at
    /// once, so the slot pair does not linger as an empty key.
    #[verifier::rlimit(100)]
    pub fn remove_link(&mut self, link: NodeLinkId)
        requires
            old(self).wf(),
        ensures
            final(self).wf(),
            final(self).nodes() == old(self).nodes(),
            final(self).next_index() == old(self).next_index(),
            final(self).link_set() == old(self).link_set().remove(link),
            !old(self).link_set().contains(link) ==> *final(self) == *old(self),
    {
        let l = link.left.node.0;
        let rr = link.right.node.0;
        let pair = SocketLinkId { from: link.left.socket, to: link.right.socket };
        match self.find_rec(l, rr) {
            None => {
                proof {
                    if self.link_set().contains(link) {
                        let k = choose|k: int|
                            {
                                &&& 0 <= k < self.links@.len()
                                &&& (#[trigger] self.links@[k]).left == link.left.node.0
                                &&& self.links@[k].right == link.right.node.0
                                &&& self.links@[k].links@.contains(pair)
                            };
                        assert(false);
                    }
                    assert(self.link_set() =~= self.link_set().remove(link));
                }
            },
            Some(i) => {
                if !self.links[i].links.contains(pair) {
                    proof {
                        if self.link_set().contains(link) {
                            let j = choose|j: int|
                                {
                                    &&& 0 <= j < self.links@.len()
                                    &&& (#[trigger] self.links@[j]).left == link.left.node.0
                                    &&& self.links@[j].right == link.right.node.0
                                    &&& self.links@[j].links@.contains(pair)
                                };
                            assert(j == i);
                            assert(false);
                        }
                        assert(self.link_set() =~= self.link_set().remove(link));
                    }
                    return ;
                }
                let ghost before = self.links@;
                let mut rec = self.links.remove(i);
                rec.links.remove(pair);
                if rec.links.count() > 0 {
                    self.links.insert(i, rec);
                    proof {
                        let after = self.links@;
                        assert(after =~= before.update(i as int, after[i as int]));
                        let e2 = after[i as int];
                        assert(e2.left == l && e2.right == rr);
                        assert(e2.links@.to_set() == before[i as int].links@.to_set().remove(pair));
                        assert forall|a: int, b: int| 0 <= a < b < after.len() implies !((
                        #[trigger] after[a]).left == (#[trigger] after[b]).left && after[a].right
                            == after[b].right) by {
                            assert(after[a].left == before[a].left && after[a].right
                                == before[a].right);
                            assert(after[b].left == before[b].left && after[b].right
                                == before[b].right);
                        }
                        assert forall|k: int| 0 <= k < after.len() implies (
                        #[trigger] after[k]).links.wf() && after[k].links@.len() > 0
                            && self.nodes().dom().contains(after[k].left) && self.nodes().dom(
                        ).contains(after[k].right) by {
                            if k != i {
                                assert(after[k] == before[k]);
                            }
                        }
                        assert(self.edges() =~= old(self).edges()) by {
                            assert forall|p: (u32, u32)|
                                recs_edge_set(after).contains(p) == recs_edge_set(before).contains(
                                    p,
                                ) by {
                                if recs_edge_set(after).contains(p) {
                                    let k = choose|k: int|
                                        0 <= k < after.len() && (#[trigger] after[k]).left == p.0
                                            && after[k].right == p.1;
                                    assert(before[k].left == p.0 && before[k].right == p.1);
                                }
                                if recs_edge_set(before).contains(p) {
                                    let k = choose|k: int|
                                        0 <= k < before.len() && (#[trigger] before[k]).left == p.0
                                            && before[k].right == p.1;
                                    assert(after[k].left == p.0 && after[k].right == p.1);
                                }
                            }
                        }
                        assert(self.link_set() =~= old(self).link_set().remove(link)) by {
                            assert forall|x: NodeLinkId|
                                recs_link_set(after).contains(x) == (recs_link_set(before).contains(
                                    x,
                                ) && x != link) by {
                                let xpair = SocketLinkId {
                                    from: x.left.socket,
                                    to: x.right.socket,
                                };
                                if recs_link_set(after).contains(x) {
                                    let k = choose|k: int|
                                        {
                                            &&& 0 <= k < after.len()
                                            &&& (#[trigger] after[k]).left == x.left.node.0
                                            &&& after[k].right == x.right.node.0
                                            &&& after[k].links@.contains(xpair)
                                        };
                                    if k != i {
                                        assert(before[k].links@.contains(xpair));
                                        assert(recs_link_set(before).contains(x));
                                    } else {
                                        assert(e2.links@.to_set().contains(xpair));
                                        assert(before[i as int].links@.contains(xpair));
                                        assert(recs_link_set(before).contains(x));
                                        assert(xpair != pair);
                                    }
                                }
                                if recs_link_set(before).contains(x) && x != link {
                                    let k = choose|k: int|
                                        {
                                            &&& 0 <= k < before.len()
                                            &&& (#[trigger] before[k]).left == x.left.node.0
                                            &&& before[k].right == x.right.node.0
                                            &&& before[k].links@.contains(xpair)
                                        };
                                    if k != i {
                                        assert(after[k].links@.contains(xpair));
                                        assert(recs_link_set(after).contains(x));
                                    } else {
                                        assert(before[i as int].links@.to_set().contains(xpair));
                                        assert(xpair != pair);
                                        assert(e2.links@.to_set().contains(xpair));
                                        assert(e2.links@.contains(xpair));
                                        assert(recs_link_set(after).contains(x));
                                    }
                                }
                            }
                        }
                    }
                } else {
                    proof {
                        let after = self.links@;
                        assert(after == before.remove(i as int));
                        let e0 = before[i as int];
                        assert(rec.links@.to_set() == e0.links@.to_set().remove(pair));
                        assert(rec.links@.len() == 0);
                        assert forall|xp: SocketLinkId| #[trigger]
                            e0.links@.contains(xp) implies xp == pair by {
                            if xp != pair {
                                assert(e0.links@.to_set().contains(xp));
                                assert(rec.links@.to_set().contains(xp));
                                assert(rec.links@.contains(xp));
                                let m = choose|m: int|
                                    0 <= m < rec.links@.len() && rec.links@[m] == xp;
                                assert(false);
                            }
                        }
                        assert forall|a: int, b: int| 0 <= a < b < after.len() implies !((
                        #[trigger] after[a]).left == (#[trigger] after[b]).left && after[a].right
                            == after[b].right) by {
                            assert(after[a] == before.remove(i as int)[a]);
                            assert(after[b] == before.remove(i as int)[b]);
                        }
                        assert forall|k: int| 0 <= k < after.len() implies (
                        #[trigger] after[k]).links.wf() && after[k].links@.len() > 0
                            && self.nodes().dom().contains(after[k].left) && self.nodes().dom(
                        ).contains(after[k].right) by {
                            if k < i {
                                assert(after[k] == before[k]);
                            } else {
                                assert(after[k] == before[k + 1]);
                            }
                        }
                        assert forall|p: (u32, u32)| #[trigger]
                            recs_edge_set(after).contains(p) implies recs_edge_set(before).contains(
                            p,
                        ) by {
                            let k = choose|k: int|
                                0 <= k < after.len() && (#[trigger] after[k]).left == p.0
                                    && after[k].right == p.1;
                            if k < i {
                                assert(before[k].left == p.0 && before[k].right == p.1);
                            } else {
                                assert(before[k + 1].left == p.0 && before[k + 1].right == p.1);
                            }
                        }
                        assert(self.edges().subset_of(old(self).edges()));
                        lemma_acyclic_subset(self.edges(), old(self).edges());
                        assert(self.link_set() =~= old(self).link_set().remove(link)) by {
                            assert forall|x: NodeLinkId|
                                recs_link_set(after).contains(x) == (recs_link_set(before).contains(
                                    x,
                                ) && x != link) by {
                                let xpair = SocketLinkId {
                                    from: x.left.socket,
                                    to: x.right.socket,
                                };
                                if recs_link_set(after).contains(x) {
                                    let k = choose|k: int|
                                        {
                                            &&& 0 <= k < after.len()
                                            &&& (#[trigger] after[k]).left == x.left.node.0
                                            &&& after[k].right == x.right.node.0
                                            &&& after[k].links@.contains(xpair)
                                        };
                                    if k < i {
                                        assert(before[k].links@.contains(xpair));
                                        assert(recs_link_set(before).contains(x));
                                        if x == link {
                                            assert(false);
                                        }
                                    } else {
                                        assert(before[k + 1].links@.contains(xpair));
                                        assert(recs_link_set(before).contains(x));
                                        if x == link {
                                            assert(false);
                                        }
                                    }
                                }
                                if recs_link_set(before).contains(x) && x != link {
                                    let k = choose|k: int|
                                        {
                                            &&& 0 <= k < before.len()
                                            &&& (#[trigger] before[k]).left == x.left.node.0
                                            &&& before[k].right == x.right.node.0
                                            &&& before[k].links@.contains(xpair)
                                        };
                                    if k == i {
                                        assert(xpair == pair);
                                        assert(x == link);
                                        assert(false);
                                    } else if k < i {
                                        assert(after[k].links@.contains(xpair));
                                        assert(recs_link_set(after).contains(x));
                                    } else {
                                        assert(after[k - 1].links@.contains(xpair));
                                        assert(recs_link_set(after).contains(x));
                                    }
                                }
                            }
                        }
                    }
                }
            },
        }
    }
}


impl<N> Graph<N> for VectorGraph<N> {
    closed spec fn nodes(&self) -> Map<u32, N> {
        Map::new(
            |k: u32| k < self.slots@.len() && self.slots@[k as int] is Some,
            |k: u32| self.slots@[k as int].unwrap(),
        )
    }

    closed spec fn edges(&self) -> Set<(u32, u32)> {
        recs_edge_set(self.links@)
    }

    closed spec fn link_set(&self) -> Set<NodeLinkId> {
        recs_link_set(self.links@)
    }

    closed spec fn next_index(&self) -> u32 {
        self.slots@.len() as u32
    }

    closed spec fn wf(&self) -> bool {
        &&& self.slots@.len() <= u32::MAX
        &&& recs_unique(self.links@)
        &&& forall|i: int| 0 <= i < self.links@.len() ==> (#[trigger] self.links@[i]).links.wf()
        &&& forall|i: int| 0 <= i < self.links@.len() ==> (#[trigger] self.links@[i]).links@.len() > 0
        &&& forall|i: int|
            0 <= i < self.links@.len() ==> self.nodes().dom().contains(
                (#[trigger] self.links@[i]).left,
            ) && self.nodes().dom().contains(self.links@[i].right)
        &&& acyclic(self.edges())
    }

    proof fn lemma_wf_acyclic(&self) {
        VectorGraph::lemma_wf_acyclic(self);
    }

    proof fn lemma_wf_edges_between_nodes(&self) {
        VectorGraph::lemma_wf_edges_between_nodes(self);
    }

    proof fn lemma_nodes_finite(&self) {
        assert(self.nodes().dom() =~= filled_ids(self.slots@, self.slots@.len() as int));
        lemma_filled_ids_finite(self.slots@, self.slots@.len() as int);
    }

    proof fn lemma_edges_projection(&self) {
        VectorGraph::lemma_edges_projection(self);
    }

    fn insert_node(&mut self, node: N) -> NodeId {
        VectorGraph::insert_node(self, node)
    }

    fn remove_node(&mut self, id: NodeId) -> Option<(N, SeveredLinks)> {
        VectorGraph::remove_node(self, id)
    }

    fn has_node(&self, id: NodeId) -> bool {
        VectorGraph::has_node(self, id)
    }

    fn get_node(&self, id: NodeId) -> Option<NodeRef<'_, N>> {
        VectorGraph::get_node(self, id)
    }

    fn node_count(&self) -> usize {
        VectorGraph::node_count(self)
    }

    fn insert_link(&mut self, link: NodeLinkId) -> Result<(), WouldCycle> {
        VectorGraph::insert_link(self, link)
    }

    fn remove_link(&mut self, link: NodeLinkId) {
        VectorGraph::remove_link(self, link)
    }

    fn has_link(&self, link: NodeLinkId) -> bool {
        VectorGraph::has_link(self, link)
    }

    fn link_count(&self) -> usize {
        VectorGraph::link_count(self)
    }

    fn get_edges(&self, left: NodeId, right: NodeId) -> Option<&Links> {
        VectorGraph::get_edges(self, left, right)
    }

    fn iter_direct_dependencies(&self, node: NodeId) -> Vec<NodeId> {
        VectorGraph::iter_direct_dependencies(self, node)
    }

    fn iter_direct_dependents(&self, node: NodeId) -> Vec<NodeId> {
        VectorGraph::iter_direct_dependents(self, node)
    }
}


impl<N> Walkable for VectorGraph<N> {
    open spec fn walkable(&self) -> bool {
        self.wf()
    }

    open spec fn walk_node_present(&self, node: NodeId) -> bool {
        self.nodes().dom().contains(node.0)
    }
}

impl<N> WalkDependencies for VectorGraph<N> {
    type Walker = GraphDfs<N>;

    fn walk_dependencies(&self, node: NodeId) -> (r: Option<GraphDfs<N>>) {
        if VectorGraph::has_node(self, node) {
            Some(GraphDfs::dependencies_of(self, node))
        } else {
            None
        }
    }
}

impl<N> WalkDependents for VectorGraph<N> {
    type Walker = GraphDfs<N>;

    fn walk_dependents(&self, node: NodeId) -> (r: Option<GraphDfs<N>>) {
        if VectorGraph::has_node(self, node) {
            Some(GraphDfs::dependents_of(self, node))
        } else {
            None
        }
    }
}

impl<N> WalkDirectDependencies for VectorGraph<N> {
    type Walker = GraphDirectWalk;

    fn walk_direct_dependencies(&self, node: NodeId) -> (r: Option<GraphDirectWalk>) {
        if VectorGraph::has_node(self, node) {
            Some(GraphDirectWalk::over(VectorGraph::iter_direct_dependencies(self, node)))
        } else {
            None
        }
    }
}

impl<N> WalkDirectDependents for VectorGraph<N> {
    type Walker = GraphDirectWalk;

    fn walk_direct_dependents(&self, node: NodeId) -> (r: Option<GraphDirectWalk>) {
        if VectorGraph::has_node(self, node) {
            Some(GraphDirectWalk::over(VectorGraph::iter_direct_dependents(self, node)))
        } else {
            None
        }
    }
}

} // verus!
