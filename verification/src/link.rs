//! The link model: the collection of socket-to-socket connections between
//! one ordered pair of nodes.
//!
//! Parallel links between the same two nodes live together in one [`Links`]
//! collection, kept strictly ascending by socket pair so that membership is
//! a binary search and insertion is idempotent. Small collections are the
//! common case, so the pairs are stored in a `smallvec::SmallVec`, which
//! keeps the first few elements inline; the store is reached only through
//! the trusted wrappers below, and every rule about ordering and
//! deduplication is proved in this module's own code.

use vstd::prelude::*;

use crate::node::NodeId;
use crate::socket::SocketId;
use crate::socket::SocketLinkId;

verus! {

/// A socket on a particular node, used to name one end of a link.
#[derive(Clone, Copy, PartialEq, Eq, Structural, Hash, Debug)]
pub struct LinkId {
    /// The node the socket belongs to.
    pub node: NodeId,

    /// The socket belonging to the node.
    pub socket: SocketId,
}

/// The inline-capable store of socket pairs, backed by a
/// `smallvec::SmallVec` that keeps the first few pairs without a heap
/// allocation. The verifier cannot be given the `SmallVec` type itself (its
/// array parameter is bound by a trait of the outside crate), so the store
/// is held opaquely and reached only through the wrappers below.
#[verifier::external_body]
pub struct PairStore {
    inner: smallvec::SmallVec<[(u16, u16); 4]>,
}

/// The socket pairs a pair store holds, in storage order. Each pair is
/// `(from, to)`: the producing output socket and the consuming input socket.
pub uninterp spec fn stored_pairs(v: PairStore) -> Seq<(u16, u16)>;

/// Relies on `SmallVec::new`: the new vector is empty.
#[verifier::external_body]
fn pairs_new() -> (r: PairStore)
    ensures
        stored_pairs(r) == Seq::<(u16, u16)>::empty(),
{
    PairStore { inner: smallvec::SmallVec::new() }
}

/// Relies on `SmallVec::len`: the number of elements held.
#[verifier::external_body]
fn pairs_len(v: &PairStore) -> (r: usize)
    ensures
        r == stored_pairs(*v).len(),
{
    v.inner.len()
}

/// Relies on the slice view of `SmallVec`: the element at index `i`.
#[verifier::external_body]
fn pairs_get(v: &PairStore, i: usize) -> (r: (u16, u16))
    requires
        i < stored_pairs(*v).len(),
    ensures
        r == stored_pairs(*v)[i as int],
{
    v.inner[i]
}

/// Relies on `SmallVec::insert`: puts `x` at index `i` and shifts the later
/// elements one place towards the back.
#[verifier::external_body]
fn pairs_insert(v: &mut PairStore, i: usize, x: (u16, u16))
    requires
        i <= stored_pairs(*old(v)).len(),
    ensures
        stored_pairs(*final(v)) == stored_pairs(*old(v)).insert(i as int, x),
{
    v.inner.insert(i, x)
}

/// Relies on `SmallVec::remove`: takes out the element at index `i` and
/// shifts the later elements one place towards the front.
#[verifier::external_body]
fn pairs_remove(v: &mut PairStore, i: usize) -> (r: (u16, u16))
    requires
        i < stored_pairs(*old(v)).len(),
    ensures
        r == stored_pairs(*old(v))[i as int],
        stored_pairs(*final(v)) == stored_pairs(*old(v)).remove(i as int),
{
    v.inner.remove(i)
}

/// The strict order on socket pairs: first by producing socket, then by
/// consuming socket.
pub open spec fn link_lt(a: SocketLinkId, b: SocketLinkId) -> bool {
    a.from.0 < b.from.0 || (a.from.0 == b.from.0 && a.to.0 < b.to.0)
}

/// Holds when the links of `s` are strictly ascending, which also makes
/// them pairwise distinct.
pub open spec fn links_sorted(s: Seq<SocketLinkId>) -> bool {
    forall|i: int, j: int| 0 <= i < j < s.len() ==> link_lt(#[trigger] s[i], #[trigger] s[j])
}

/// In a strictly ascending link sequence, an element of the tail is an
/// element of the whole other than the head.
proof fn lemma_sorted_tail_contains(s: Seq<SocketLinkId>, x: SocketLinkId)
    requires
        links_sorted(s),
        s.len() > 0,
    ensures
        s.drop_first().contains(x) <==> (s.contains(x) && x != s[0]),
{
    let t = s.drop_first();
    if t.contains(x) {
        let i = choose|i: int| 0 <= i < t.len() && t[i] == x;
        assert(s[i + 1] == x);
        assert(link_lt(s[0], s[i + 1]));
    }
    if s.contains(x) && x != s[0] {
        let i = choose|i: int| 0 <= i < s.len() && s[i] == x;
        assert(t[i - 1] == x);
    }
}

/// A strictly ascending link sequence is determined by the set of links it
/// holds: two sorted, duplicate-free edge sets holding the same links are
/// identical. Together with the set semantics of [`Links::insert`] and
/// [`Links::remove`], this makes inserting a link twice yield the very same
/// edge set as inserting it once, and removing an absent link a no-op.
pub proof fn lemma_links_canonical(s1: Seq<SocketLinkId>, s2: Seq<SocketLinkId>)
    requires
        links_sorted(s1),
        links_sorted(s2),
        s1.to_set() == s2.to_set(),
    ensures
        s1 == s2,
    decreases s1.len(),
{
    if s1.len() == 0 {
        if s2.len() > 0 {
            assert(s2.to_set().contains(s2[0]));
            assert(s1.contains(s2[0]));
        }
        assert(s1 =~= s2);
    } else {
        assert(s1.to_set().contains(s1[0]));
        assert(s2.to_set().contains(s2[0]));
        assert(s2.contains(s1[0]));
        assert(s1.contains(s2[0]));
        let i = choose|i: int| 0 <= i < s2.len() && s2[i] == s1[0];
        let j = choose|j: int| 0 <= j < s1.len() && s1[j] == s2[0];
        if i > 0 && j > 0 {
            assert(link_lt(s2[0], s2[i]));
            assert(link_lt(s1[0], s1[j]));
            assert(false);
        }
        assert(s1[0] == s2[0]);
        let t1 = s1.drop_first();
        let t2 = s2.drop_first();
        assert forall|x: SocketLinkId| t1.to_set().contains(x) == t2.to_set().contains(x) by {
            lemma_sorted_tail_contains(s1, x);
            lemma_sorted_tail_contains(s2, x);
            assert(s1.to_set().contains(x) == s1.contains(x));
            assert(s2.to_set().contains(x) == s2.contains(x));
            assert(t1.to_set().contains(x) == t1.contains(x));
            assert(t2.to_set().contains(x) == t2.contains(x));
            assert(s1.to_set().contains(x) == s2.to_set().contains(x));
        }
        assert(t1.to_set() =~= t2.to_set());
        assert forall|i2: int, j2: int| 0 <= i2 < j2 < t1.len() implies link_lt(
            #[trigger] t1[i2],
            #[trigger] t1[j2],
        ) by {
            assert(t1[i2] == s1[i2 + 1] && t1[j2] == s1[j2 + 1]);
        }
        assert forall|i2: int, j2: int| 0 <= i2 < j2 < t2.len() implies link_lt(
            #[trigger] t2[i2],
            #[trigger] t2[j2],
        ) by {
            assert(t2[i2] == s2[i2 + 1] && t2[j2] == s2[j2 + 1]);
        }
        lemma_links_canonical(t1, t2);
        assert forall|k: int| 0 <= k < s1.len() implies s1[k] == s2[k] by {
            if k > 0 {
                assert(t1[k - 1] == t2[k - 1]);
            }
        }
        assert(s1 =~= s2);
    }
}

/// Inserting the same socket link twice yields the very same edge set as
/// inserting it once. [`Links::insert`] promises that one insertion leaves
/// the link set `s.insert(x)` and a second one `s.insert(x).insert(x)`;
/// those sets are equal, and a sorted, duplicate-free edge set is fully
/// determined by its link set.
pub proof fn lemma_insert_twice_is_once(
    once: Seq<SocketLinkId>,
    twice: Seq<SocketLinkId>,
    s: Set<SocketLinkId>,
    x: SocketLinkId,
)
    requires
        links_sorted(once),
        links_sorted(twice),
        once.to_set() == s.insert(x),
        twice.to_set() == s.insert(x).insert(x),
    ensures
        once == twice,
{
    assert(s.insert(x).insert(x) =~= s.insert(x));
    lemma_links_canonical(once, twice);
}

/// Removing an absent link is a no-op on the link set, and therefore — by
/// canonicity — on the edge set itself.
pub proof fn lemma_remove_absent_is_noop(s: Set<SocketLinkId>, x: SocketLinkId)
    requires
        !s.contains(x),
    ensures
        s.remove(x) == s,
{
    assert(s.remove(x) =~= s);
}

/// The collection of socket-to-socket connections between one ordered pair
/// of nodes, strictly ascending by socket pair.
pub struct Links {
    edges: PairStore,
}

impl View for Links {
    type V = Seq<SocketLinkId>;

    closed spec fn view(&self) -> Seq<SocketLinkId> {
        Seq::new(
            stored_pairs(self.edges).len(),
            |i: int|
                SocketLinkId {
                    from: SocketId(stored_pairs(self.edges)[i].0),
                    to: SocketId(stored_pairs(self.edges)[i].1),
                },
        )
    }
}

impl Links {
    /// Holds when the collection is strictly ascending by socket pair.
    pub open spec fn wf(self) -> bool {
        links_sorted(self@)
    }

    /// Creates an empty collection.
    pub fn new() -> (r: Links)
        ensures
            r@ == Seq::<SocketLinkId>::empty(),
            r.wf(),
    {
        let r = Links { edges: pairs_new() };
        proof {
            assert(r@ =~= Seq::<SocketLinkId>::empty());
        }
        r
    }

    /// The number of links between the two nodes.
    pub fn count(&self) -> (r: usize)
        ensures
            r == self@.len(),
    {
        pairs_len(&self.edges)
    }

    /// The link at position `i` in ascending order.
    pub fn link_at(&self, i: usize) -> (r: SocketLinkId)
        requires
            i < self@.len(),
        ensures
            r == self@[i as int],
    {
        let p = pairs_get(&self.edges, i);
        SocketLinkId { from: SocketId(p.0), to: SocketId(p.1) }
    }

    /// Returns `true` if the link `id` is present.
    pub fn contains(&self, id: SocketLinkId) -> (r: bool)
        requires
            self.wf(),
        ensures
            r == self@.contains(id),
    {
        match self.position(id) {
            Ok(_) => true,
            Err(_) => false,
        }
    }

    /// Binary search for `id`: `Ok(i)` when `self@[i] == id`, `Err(i)` when
    /// `id` is absent and `i` is the position it would be inserted at.
    fn position(&self, id: SocketLinkId) -> (r: Result<usize, usize>)
        requires
            self.wf(),
        ensures
            match r {
                Ok(i) => i < self@.len() && self@[i as int] == id && self@.contains(id),
                Err(i) => {
                    &&& i <= self@.len()
                    &&& !self@.contains(id)
                    &&& forall|k: int| 0 <= k < i ==> link_lt(#[trigger] self@[k], id)
                    &&& forall|k: int| i <= k < self@.len() ==> link_lt(id, #[trigger] self@[k])
                },
            },
    {
        let mut lo: usize = 0;
        let mut hi: usize = pairs_len(&self.edges);
        while lo < hi
            invariant
                self.wf(),
                0 <= lo <= hi <= self@.len(),
                forall|k: int| 0 <= k < lo ==> link_lt(#[trigger] self@[k], id),
                forall|k: int| hi <= k < self@.len() ==> link_lt(id, #[trigger] self@[k]),
            decreases hi - lo,
        {
            let mid = lo + (hi - lo) / 2;
            let p = pairs_get(&self.edges, mid);
            if p.0 < id.from.0 || (p.0 == id.from.0 && p.1 < id.to.0) {
                proof {
                    assert(link_lt(self@[mid as int], id));
                    assert forall|k: int| 0 <= k < mid + 1 implies link_lt(
                        #[trigger] self@[k],
                        id,
                    ) by {
                        if k < mid {
                            assert(link_lt(self@[k], self@[mid as int]));
                        }
                    }
                }
                lo = mid + 1;
            } else if p.0 == id.from.0 && p.1 == id.to.0 {
                proof {
                    assert(self@[mid as int] == id);
                }
                return Ok(mid);
            } else {
                proof {
                    assert(link_lt(id, self@[mid as int]));
                    assert forall|k: int| mid <= k < self@.len() implies link_lt(
                        id,
                        #[trigger] self@[k],
                    ) by {
                        if k > mid {
                            assert(link_lt(self@[mid as int], self@[k]));
                        }
                    }
                }
                hi = mid;
            }
        }
        proof {
            if self@.contains(id) {
                let k = choose|k: int| 0 <= k < self@.len() && self@[k] == id;
                assert(k < lo || lo <= k);
            }
        }
        Err(lo)
    }

    /// Inserts the link `id`, keeping ascending order, and reports whether
    /// it was already present — in which case the collection is unchanged.
    #[verifier::rlimit(60)]
    pub fn insert(&mut self, id: SocketLinkId) -> (existed: bool)
        requires
            old(self).wf(),
        ensures
            existed == old(self)@.contains(id),
            final(self).wf(),
            final(self)@.to_set() == old(self)@.to_set().insert(id),
            final(self)@.contains(id),
            old(self)@.contains(id) ==> *final(self) == *old(self),
    {
        match self.position(id) {
            Ok(_) => {
                proof {
                    assert(self@.contains(id));
                    assert(self@.to_set().contains(id));
                    assert(self@.to_set() =~= self@.to_set().insert(id));
                }
                true
            },
            Err(i) => {
                let ghost before = self@;
                pairs_insert(&mut self.edges, i, (id.from.0, id.to.0));
                proof {
                    assert(self@ =~= before.insert(i as int, id));
                    assert forall|a: int, b: int| 0 <= a < b < self@.len() implies link_lt(
                        #[trigger] self@[a],
                        #[trigger] self@[b],
                    ) by {
                        assert(self@[a] == before.insert(i as int, id)[a]);
                        assert(self@[b] == before.insert(i as int, id)[b]);
                    }
                    assert forall|x: SocketLinkId| self@.to_set().contains(x) == before.to_set(
                    ).insert(id).contains(x) by {
                        if self@.contains(x) {
                            let k = choose|k: int| 0 <= k < self@.len() && self@[k] == x;
                            if k < i {
                                assert(before[k] == x);
                            } else if k > i {
                                assert(before[k - 1] == x);
                            }
                        }
                        if before.contains(x) {
                            let k = choose|k: int| 0 <= k < before.len() && before[k] == x;
                            if k < i {
                                assert(self@[k] == x);
                            } else {
                                assert(self@[k + 1] == x);
                            }
                        }
                        assert(self@[i as int] == id);
                        assert(self@.contains(id));
                    }
                    assert(self@.to_set() =~= before.to_set().insert(id));
                    assert(self@[i as int] == id);
                    assert(self@.contains(id));
                }
                false
            },
        }
    }

    /// Removes the link `id`, keeping ascending order, and reports whether
    /// it was present. Removing an absent link is a no-op.
    pub fn remove(&mut self, id: SocketLinkId) -> (existed: bool)
        requires
            old(self).wf(),
        ensures
            existed == old(self)@.contains(id),
            final(self).wf(),
            final(self)@.to_set() == old(self)@.to_set().remove(id),
            !final(self)@.contains(id),
            !old(self)@.contains(id) ==> *final(self) == *old(self),
    {
        match self.position(id) {
            Ok(i) => {
                let ghost before = self@;
                pairs_remove(&mut self.edges, i);
                proof {
                    assert(self@ =~= before.remove(i as int));
                    assert forall|a: int, b: int| 0 <= a < b < self@.len() implies link_lt(
                        #[trigger] self@[a],
                        #[trigger] self@[b],
                    ) by {
                        assert(self@[a] == before.remove(i as int)[a]);
                        assert(self@[b] == before.remove(i as int)[b]);
                    }
                    assert forall|x: SocketLinkId| self@.to_set().contains(x) == before.to_set(
                    ).remove(id).contains(x) by {
                        if self@.contains(x) {
                            let k = choose|k: int| 0 <= k < self@.len() && self@[k] == x;
                            if k < i {
                                assert(before[k] == x);
                                assert(x != id ==> before.contains(x));
                                if x == id {
                                    assert(link_lt(before[k], before[i as int]));
                                }
                            } else {
                                assert(before[k + 1] == x);
                                if x == id {
                                    assert(link_lt(before[i as int], before[k + 1]));
                                }
                            }
                        }
                        if before.contains(x) && x != id {
                            let k = choose|k: int| 0 <= k < before.len() && before[k] == x;
                            if k < i {
                                assert(self@[k] == x);
                            } else if k > i {
                                assert(self@[k - 1] == x);
                            }
                        }
                    }
                    assert(self@.to_set() =~= before.to_set().remove(id));
                    if self@.contains(id) {
                        assert(self@.to_set().contains(id));
                    }
                }
                true
            },
            Err(_) => {
                proof {
                    assert(!self@.to_set().contains(id));
                    assert(self@.to_set() =~= self@.to_set().remove(id));
                }
                false
            },
        }
    }
}

} // verus!
