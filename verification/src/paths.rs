//! The mathematical theory of paths over the node-level edge relation.
//!
//! A graph's links project to a set of ordered node pairs; everything the
//! engine promises about cycles is stated over that set. A path is a
//! non-empty sequence of node ids whose consecutive pairs are edges;
//! reachability is the existence of a path; acyclicity says no path of two
//! or more steps returns to its start. The lemmas below carry these notions
//! across the mutations a graph performs: shrinking the edge set keeps it
//! acyclic, and adding an edge `(l, r)` keeps it acyclic exactly when `l`
//! was not already reachable from `r`.

use vstd::prelude::*;

verus! {

/// Holds when `p` is a path through `e`: it is non-empty and each
/// consecutive pair of its elements is an edge.
pub open spec fn is_path(e: Set<(u32, u32)>, p: Seq<u32>) -> bool {
    &&& p.len() >= 1
    &&& forall|i: int| 0 <= i < p.len() - 1 ==> e.contains((#[trigger] p[i], p[i + 1]))
}

/// Holds when `b` can be reached from `a` through `e` in zero or more
/// steps.
pub open spec fn reaches(e: Set<(u32, u32)>, a: u32, b: u32) -> bool {
    exists|p: Seq<u32>| is_path(e, p) && p.first() == a && p.last() == b
}

/// Holds when no path of two or more elements through `e` returns to its
/// start.
pub open spec fn acyclic(e: Set<(u32, u32)>) -> bool {
    forall|p: Seq<u32>| (#[trigger] is_path(e, p)) && p.len() >= 2 ==> p.first() != p.last()
}

/// Every node reaches itself, through the one-element path.
pub proof fn lemma_reaches_refl(e: Set<(u32, u32)>, a: u32)
    ensures
        reaches(e, a, a),
{
    let p = seq![a];
    assert(is_path(e, p) && p.first() == a && p.last() == a);
}

/// An edge is a one-step path.
pub proof fn lemma_reaches_edge(e: Set<(u32, u32)>, a: u32, b: u32)
    requires
        e.contains((a, b)),
    ensures
        reaches(e, a, b),
{
    let p = seq![a, b];
    assert(e.contains((p[0], p[1])));
    assert(is_path(e, p) && p.first() == a && p.last() == b);
}

/// Two paths sharing an endpoint splice into one path.
#[verifier::rlimit(60)]
proof fn lemma_path_concat(e: Set<(u32, u32)>, p1: Seq<u32>, p2: Seq<u32>)
    requires
        is_path(e, p1),
        is_path(e, p2),
        p1.last() == p2.first(),
    ensures
        is_path(e, p1 + p2.drop_first()),
        (p1 + p2.drop_first()).first() == p1.first(),
        (p1 + p2.drop_first()).last() == p2.last(),
{
    let q = p1 + p2.drop_first();
    assert forall|i: int| 0 <= i < q.len() - 1 implies e.contains((#[trigger] q[i], q[i + 1])) by {
        if i < p1.len() - 1 {
            assert(q[i] == p1[i] && q[i + 1] == p1[i + 1]);
        } else if i == p1.len() - 1 {
            assert(q[i] == p1[i]);
            assert(q[i + 1] == p2[1]);
            assert(p1[i] == p2[0]);
            assert(e.contains((p2[0], p2[1])));
        } else {
            let j = i - p1.len() + 1;
            assert(q[i] == p2[j] && q[i + 1] == p2[j + 1]);
            assert(e.contains((p2[j], p2[j + 1])));
        }
    }
    if p2.len() == 1 {
        assert(q.last() == p1.last());
    } else {
        assert(q.last() == p2.drop_first().last());
        assert(p2.drop_first().last() == p2.last());
    }
}

/// Reachability is transitive.
pub proof fn lemma_reaches_trans(e: Set<(u32, u32)>, a: u32, b: u32, c: u32)
    requires
        reaches(e, a, b),
        reaches(e, b, c),
    ensures
        reaches(e, a, c),
{
    let p1 = choose|p: Seq<u32>| is_path(e, p) && p.first() == a && p.last() == b;
    let p2 = choose|p: Seq<u32>| is_path(e, p) && p.first() == b && p.last() == c;
    lemma_path_concat(e, p1, p2);
    let q = p1 + p2.drop_first();
    assert(is_path(e, q) && q.first() == a && q.last() == c);
}

/// Removing edges cannot create a cycle.
pub proof fn lemma_acyclic_subset(e1: Set<(u32, u32)>, e2: Set<(u32, u32)>)
    requires
        e1.subset_of(e2),
        acyclic(e2),
    ensures
        acyclic(e1),
{
    assert forall|p: Seq<u32>| (#[trigger] is_path(e1, p)) && p.len() >= 2 implies p.first()
        != p.last() by {
        assert forall|i: int| 0 <= i < p.len() - 1 implies e2.contains(
            (#[trigger] p[i], p[i + 1]),
        ) by {
            assert(e1.contains((p[i], p[i + 1])));
        }
        assert(is_path(e2, p));
    }
}

/// A path through `e` with the edge `(l, r)` added either was already a
/// path through `e`, or it witnesses that its start reaches `l` and that
/// `r` reaches its end, all through `e` alone.
#[verifier::rlimit(60)]
proof fn lemma_path_decompose(e: Set<(u32, u32)>, l: u32, r: u32, p: Seq<u32>)
    requires
        is_path(e.insert((l, r)), p),
    ensures
        is_path(e, p) || (reaches(e, p.first(), l) && reaches(e, r, p.last())),
    decreases p.len(),
{
    if p.len() == 1 {
        assert(is_path(e, p));
    } else {
        let q = p.drop_last();
        let n = p.len() - 1;
        assert forall|i: int| 0 <= i < q.len() - 1 implies e.insert((l, r)).contains(
            (#[trigger] q[i], q[i + 1]),
        ) by {
            assert(q[i] == p[i] && q[i + 1] == p[i + 1]);
            assert(e.insert((l, r)).contains((p[i], p[i + 1])));
        }
        assert(is_path(e.insert((l, r)), q));
        lemma_path_decompose(e, l, r, q);
        assert(e.insert((l, r)).contains((p[n - 1], p[n])));
        if p[n - 1] == l && p[n] == r {
            if is_path(e, q) {
                assert(q.first() == p.first() && q.last() == l);
                assert(reaches(e, p.first(), l));
            } else {
                assert(reaches(e, q.first(), l));
            }
            lemma_reaches_refl(e, r);
        } else {
            assert(e.contains((p[n - 1], p[n])));
            if is_path(e, q) {
                assert forall|i: int| 0 <= i < p.len() - 1 implies e.contains(
                    (#[trigger] p[i], p[i + 1]),
                ) by {
                    if i < n - 1 {
                        assert(q[i] == p[i] && q[i + 1] == p[i + 1]);
                        assert(e.contains((q[i], q[i + 1])));
                    }
                }
                assert(is_path(e, p));
            } else {
                assert(reaches(e, q.first(), l));
                assert(reaches(e, r, q.last()));
                lemma_reaches_edge(e, p[n - 1], p[n]);
                assert(q.last() == p[n - 1]);
                lemma_reaches_trans(e, r, q.last(), p.last());
            }
        }
    }
}

/// Adding the edge `(l, r)` to an acyclic edge set keeps it acyclic
/// exactly when `l` is not already reachable from `r`. This is the heart
/// of cycle-checked link insertion.
pub proof fn lemma_acyclic_insert(e: Set<(u32, u32)>, l: u32, r: u32)
    requires
        acyclic(e),
        !reaches(e, r, l),
    ensures
        acyclic(e.insert((l, r))),
{
    assert forall|p: Seq<u32>| (#[trigger] is_path(e.insert((l, r)), p)) && p.len() >= 2 implies p.first()
        != p.last() by {
        lemma_path_decompose(e, l, r, p);
        if is_path(e, p) {
            assert(p.first() != p.last());
        } else {
            if p.first() == p.last() {
                assert(reaches(e, p.first(), l));
                assert(reaches(e, r, p.last()));
                lemma_reaches_trans(e, r, p.last(), l);
                assert(false);
            }
        }
    }
}

/// In an acyclic edge set holding the edge `(l, r)`, `l` is not reachable
/// from `r`: a return path would close a cycle through the edge.
pub proof fn lemma_acyclic_edge_no_return(e: Set<(u32, u32)>, l: u32, r: u32)
    requires
        acyclic(e),
        e.contains((l, r)),
    ensures
        !reaches(e, r, l),
{
    if reaches(e, r, l) {
        let p = choose|p: Seq<u32>| is_path(e, p) && p.first() == r && p.last() == l;
        let q = seq![l, r];
        assert(e.contains((q[0], q[1])));
        assert(is_path(e, q));
        lemma_path_concat(e, p, q);
        let c = p + q.drop_first();
        assert(is_path(e, c) && c.len() >= 2 && c.first() == c.last());
    }
}

/// If a set of nodes contains `s` and is closed under following edges out
/// of it, everything reachable from `s` lies in the set. This is what a
/// finished depth-first search certifies about its visited set.
pub proof fn lemma_closed_set_reach(e: Set<(u32, u32)>, s: Set<u32>, a: u32, b: u32)
    requires
        s.contains(a),
        forall|x: u32, y: u32| s.contains(x) && e.contains((x, y)) ==> s.contains(y),
        reaches(e, a, b),
    ensures
        s.contains(b),
{
    let p = choose|p: Seq<u32>| is_path(e, p) && p.first() == a && p.last() == b;
    lemma_closed_set_path(e, s, p);
}

/// Every element of a path starting inside a successor-closed set stays
/// inside the set.
#[verifier::rlimit(60)]
proof fn lemma_closed_set_path(e: Set<(u32, u32)>, s: Set<u32>, p: Seq<u32>)
    requires
        is_path(e, p),
        s.contains(p.first()),
        forall|x: u32, y: u32| s.contains(x) && e.contains((x, y)) ==> s.contains(y),
    ensures
        forall|i: int| 0 <= i < p.len() ==> s.contains(#[trigger] p[i]),
    decreases p.len(),
{
    if p.len() > 1 {
        assert(e.contains((p[0], p[1])));
        assert(s.contains(p[1]));
        let q = p.drop_first();
        assert forall|i: int| 0 <= i < q.len() - 1 implies e.contains(
            (#[trigger] q[i], q[i + 1]),
        ) by {
            assert(q[i] == p[i + 1] && q[i + 1] == p[i + 2]);
            assert(e.contains((p[i + 1], p[i + 2])));
        }
        assert(is_path(e, q));
        lemma_closed_set_path(e, s, q);
        assert forall|i: int| 0 <= i < p.len() implies s.contains(#[trigger] p[i]) by {
            if i > 0 {
                assert(s.contains(q[i - 1]));
            }
        }
    }
}


/// The edge relation read backwards: `(a, b)` is a reversed edge exactly
/// when `(b, a)` is an edge. Walking a node's dependencies is walking the
/// reversed relation.
pub open spec fn reversed(e: Set<(u32, u32)>) -> Set<(u32, u32)> {
    Set::new(|p: (u32, u32)| e.contains((p.1, p.0)))
}

/// The nodes that reach `c` through `e`.
pub open spec fn co_reach(e: Set<(u32, u32)>, c: u32) -> Set<u32> {
    Set::new(|x: u32| reaches(e, x, c))
}

/// A finite set of nodes over an acyclic edge relation holds, around any
/// member, a member with no predecessor inside the set. Peeling such
/// members off one by one is what yields a dependencies-first order.
pub proof fn lemma_acyclic_pick(e: Set<(u32, u32)>, s: Set<u32>, c: u32)
    requires
        acyclic(e),
        s.finite(),
        s.contains(c),
    ensures
        exists|m: u32|
            #[trigger] s.contains(m) && (forall|d: u32| #[trigger]
                e.contains((d, m)) ==> !s.contains(d)),
    decreases s.intersect(co_reach(e, c)).len(),
{
    vstd::set_lib::lemma_len_intersect(s, co_reach(e, c));
    if forall|d: u32| #[trigger] e.contains((d, c)) ==> !s.contains(d) {
        assert(s.contains(c) && (forall|d: u32| #[trigger]
            e.contains((d, c)) ==> !s.contains(d)));
    } else {
        let d = choose|d: u32| #[trigger] e.contains((d, c)) && s.contains(d);
        let ic = s.intersect(co_reach(e, c));
        let id = s.intersect(co_reach(e, d));
        lemma_reaches_edge(e, d, c);
        assert forall|x: u32| #[trigger] id.contains(x) implies ic.contains(x) by {
            assert(reaches(e, x, d));
            lemma_reaches_trans(e, x, d, c);
        }
        lemma_acyclic_edge_no_return(e, d, c);
        lemma_reaches_refl(e, c);
        assert(ic.contains(c));
        assert(!id.contains(c));
        assert(id.subset_of(ic.remove(c)));
        vstd::set_lib::lemma_len_intersect(s, co_reach(e, d));
        vstd::set_lib::lemma_len_subset(id, ic.remove(c));
        assert(ic.remove(c).len() == ic.len() - 1);
        lemma_acyclic_pick(e, s, d);
    }
}

} // verus!
