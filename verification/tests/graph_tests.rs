use noodle::errors::WouldCycle;
use noodle::hash_graph::HashGraph;
use noodle::link::Links;
use noodle::node::NodeId;
use noodle::socket::NodeLinkId;
use noodle::socket::NodeSocketId;
use noodle::socket::SocketId;
use noodle::socket::SocketLinkId;
use noodle::traversal::WalkDependencies;
use noodle::traversal::Walker;

fn link(from_node: NodeId, from_socket: u16, to_node: NodeId, to_socket: u16) -> NodeLinkId {
    NodeLinkId {
        left: NodeSocketId { node: from_node, socket: SocketId(from_socket) },
        right: NodeSocketId { node: to_node, socket: SocketId(to_socket) },
    }
}

#[test]
fn node_ids_are_fresh_and_never_reused() {
    let mut g: HashGraph<&'static str> = HashGraph::new();
    let a = g.insert_node("a");
    let b = g.insert_node("b");
    assert_ne!(a, b);
    let removed = g.remove_node(a).unwrap().0;
    assert_eq!(removed, "a");
    let c = g.insert_node("c");
    assert_ne!(c, a);
    assert_ne!(c, b);
    assert!(!g.has_node(a));
    assert!(g.has_node(b));
    assert!(g.has_node(c));
    assert_eq!(g.node_count(), 2);
    assert_eq!(g.get_node(c).unwrap().get(), &"c");
    assert!(g.get_node(a).is_none());
}

#[test]
fn insert_link_and_query() {
    let mut g: HashGraph<u8> = HashGraph::new();
    let a = g.insert_node(0);
    let b = g.insert_node(1);
    let l = link(a, 0, b, 0);
    assert!(!g.has_link(l));
    g.insert_link(l).unwrap();
    assert!(g.has_link(l));
    assert_eq!(g.link_count(), 1);
    // A parallel socket link between the same nodes joins the same edge set.
    let l2 = link(a, 1, b, 0);
    g.insert_link(l2).unwrap();
    assert_eq!(g.link_count(), 2);
    let edges = g.get_edges(a, b).unwrap();
    assert_eq!(edges.count(), 2);
    assert_eq!(edges.link_at(0), SocketLinkId { from: SocketId(0), to: SocketId(0) });
    assert_eq!(edges.link_at(1), SocketLinkId { from: SocketId(1), to: SocketId(0) });
}

#[test]
fn insert_link_is_idempotent() {
    let mut g: HashGraph<u8> = HashGraph::new();
    let a = g.insert_node(0);
    let b = g.insert_node(1);
    let l = link(a, 3, b, 4);
    g.insert_link(l).unwrap();
    g.insert_link(l).unwrap();
    assert_eq!(g.link_count(), 1);
    let edges = g.get_edges(a, b).unwrap();
    assert_eq!(edges.count(), 1);
    assert_eq!(edges.link_at(0), SocketLinkId { from: SocketId(3), to: SocketId(4) });
}

#[test]
fn remove_absent_link_is_a_noop() {
    let mut g: HashGraph<u8> = HashGraph::new();
    let a = g.insert_node(0);
    let b = g.insert_node(1);
    g.insert_link(link(a, 0, b, 0)).unwrap();
    g.remove_link(link(a, 9, b, 9));
    g.remove_link(link(b, 0, a, 0));
    assert_eq!(g.link_count(), 1);
    assert!(g.has_link(link(a, 0, b, 0)));
}

#[test]
fn empty_edge_sets_are_pruned() {
    let mut g: HashGraph<u8> = HashGraph::new();
    let a = g.insert_node(0);
    let b = g.insert_node(1);
    g.insert_link(link(a, 0, b, 0)).unwrap();
    assert!(g.get_edges(a, b).is_some());
    g.remove_link(link(a, 0, b, 0));
    // The pair answers "absent", not "present but empty".
    assert!(g.get_edges(a, b).is_none());
    assert_eq!(g.link_count(), 0);
    // And the severed pair no longer blocks anything: the reverse link is
    // now legal.
    g.insert_link(link(b, 0, a, 0)).unwrap();
    assert!(g.has_link(link(b, 0, a, 0)));
}

#[test]
fn cycle_is_refused_and_graph_unchanged() {
    let mut g: HashGraph<&'static str> = HashGraph::new();
    let a = g.insert_node("a");
    let b = g.insert_node("b");
    let c = g.insert_node("c");
    g.insert_link(link(a, 0, b, 0)).unwrap();
    g.insert_link(link(b, 0, c, 0)).unwrap();
    // Closing the loop c -> a must be refused.
    assert_eq!(g.insert_link(link(c, 0, a, 0)), Err(WouldCycle));
    // The graph is exactly {a, b, c} with the two original links.
    assert_eq!(g.node_count(), 3);
    assert_eq!(g.link_count(), 2);
    assert!(g.has_link(link(a, 0, b, 0)));
    assert!(g.has_link(link(b, 0, c, 0)));
    assert!(!g.has_link(link(c, 0, a, 0)));
    // A self link is a cycle of length one.
    assert_eq!(g.insert_link(link(a, 1, a, 2)), Err(WouldCycle));
    // A two-node cycle through different sockets is still a cycle.
    assert_eq!(g.insert_link(link(b, 7, a, 7)), Err(WouldCycle));
    // An edge that merely joins two branches is fine.
    g.insert_link(link(a, 1, c, 1)).unwrap();
    assert_eq!(g.link_count(), 3);
}

#[test]
fn removing_a_node_reports_exactly_the_severed_links() {
    let mut g: HashGraph<&'static str> = HashGraph::new();
    let a = g.insert_node("a");
    let b = g.insert_node("b");
    let c = g.insert_node("c");
    let ab = link(a, 0, b, 0);
    let ab2 = link(a, 1, b, 1);
    let bc = link(b, 0, c, 0);
    let ac = link(a, 2, c, 2);
    g.insert_link(ab).unwrap();
    g.insert_link(ab2).unwrap();
    g.insert_link(bc).unwrap();
    g.insert_link(ac).unwrap();
    let (node, mut severed) = g.remove_node(b).unwrap();
    assert_eq!(node, "b");
    assert_eq!(severed.remaining(), 3);
    let mut seen = Vec::new();
    while let Some(l) = severed.next() {
        seen.push(l);
    }
    assert_eq!(severed.remaining(), 0);
    assert!(severed.next().is_none());
    assert_eq!(seen.len(), 3);
    assert!(seen.contains(&ab));
    assert!(seen.contains(&ab2));
    assert!(seen.contains(&bc));
    assert!(!seen.contains(&ac));
    // No edge set references b any more.
    assert!(g.get_edges(a, b).is_none());
    assert!(g.get_edges(b, c).is_none());
    assert!(!g.has_link(ab));
    assert!(!g.has_link(bc));
    // The untouched link survives.
    assert!(g.has_link(ac));
    assert_eq!(g.link_count(), 1);
}

#[test]
fn removing_an_absent_node_changes_nothing() {
    let mut g: HashGraph<u8> = HashGraph::new();
    let a = g.insert_node(0);
    assert!(g.remove_node(NodeId(77)).is_none());
    assert!(g.has_node(a));
    assert_eq!(g.node_count(), 1);
}

#[test]
fn direct_dependency_enumeration() {
    let mut g: HashGraph<u8> = HashGraph::new();
    let a = g.insert_node(0);
    let b = g.insert_node(1);
    let c = g.insert_node(2);
    g.insert_link(link(a, 0, c, 0)).unwrap();
    g.insert_link(link(b, 0, c, 1)).unwrap();
    g.insert_link(link(a, 1, b, 0)).unwrap();
    let deps_c = g.iter_direct_dependencies(c);
    assert_eq!(deps_c, vec![a, b]);
    let deps_b = g.iter_direct_dependencies(b);
    assert_eq!(deps_b, vec![a]);
    let dpts_a = g.iter_direct_dependents(a);
    assert_eq!(dpts_a, vec![b, c]);
    assert_eq!(g.iter_direct_dependents(c), vec![]);
}

#[test]
fn dependency_walker_covers_the_closure() {
    let mut g: HashGraph<u8> = HashGraph::new();
    let a = g.insert_node(0);
    let b = g.insert_node(1);
    let c = g.insert_node(2);
    let d = g.insert_node(3);
    g.insert_link(link(a, 0, b, 0)).unwrap();
    g.insert_link(link(b, 0, c, 0)).unwrap();
    g.insert_link(link(a, 1, c, 1)).unwrap();
    // d stays disconnected.
    let mut walker = g.walk_dependencies(c).unwrap();
    let mut seen = Vec::new();
    while let Some(n) = walker.next(&g) {
        seen.push(n);
    }
    assert_eq!(seen.len(), 3);
    assert_eq!(seen[0], c);
    assert!(seen.contains(&a));
    assert!(seen.contains(&b));
    assert!(!seen.contains(&d));
    assert!(g.walk_dependencies(NodeId(99)).is_none());
}

#[test]
fn links_collection_stays_sorted_and_unique() {
    let mut links = Links::new();
    let mk = |f: u16, t: u16| SocketLinkId { from: SocketId(f), to: SocketId(t) };
    links.insert(mk(5, 5));
    links.insert(mk(1, 1));
    links.insert(mk(3, 3));
    links.insert(mk(3, 0));
    links.insert(mk(3, 3));
    assert_eq!(links.count(), 4);
    assert_eq!(links.link_at(0), mk(1, 1));
    assert_eq!(links.link_at(1), mk(3, 0));
    assert_eq!(links.link_at(2), mk(3, 3));
    assert_eq!(links.link_at(3), mk(5, 5));
    assert!(links.contains(mk(3, 0)));
    assert!(!links.contains(mk(0, 3)));
    links.remove(mk(3, 0));
    assert_eq!(links.count(), 3);
    assert!(!links.contains(mk(3, 0)));
    links.remove(mk(9, 9));
    assert_eq!(links.count(), 3);
    assert_eq!(links.link_at(1), mk(3, 3));
}

#[test]
fn batch_link_insertion_and_removal() {
    let mut g: HashGraph<u8> = HashGraph::new();
    let a = g.insert_node(0);
    let b = g.insert_node(1);
    let mk = |f: u16, t: u16| SocketLinkId { from: SocketId(f), to: SocketId(t) };
    g.insert_multiple_links(a, b, &[mk(0, 0), mk(1, 1), mk(0, 0)]).unwrap();
    assert_eq!(g.link_count(), 2);
    assert!(g.has_link(link(a, 0, b, 0)));
    assert!(g.has_link(link(a, 1, b, 1)));
    // A batch that would close a loop is refused on its first pair.
    assert!(g.insert_multiple_links(b, a, &[mk(0, 0)]).is_err());
    assert_eq!(g.link_count(), 2);
    g.remove_multiple_links(a, b, &[mk(1, 1), mk(9, 9)]);
    assert_eq!(g.link_count(), 1);
    assert!(g.has_link(link(a, 0, b, 0)));
    assert!(!g.has_link(link(a, 1, b, 1)));
}

#[test]
fn edge_set_reports_prior_presence() {
    let mut links = Links::new();
    let mk = |f: u16, t: u16| SocketLinkId { from: SocketId(f), to: SocketId(t) };
    assert!(!links.insert(mk(1, 1)));
    assert!(links.insert(mk(1, 1)));
    assert!(links.remove(mk(1, 1)));
    assert!(!links.remove(mk(1, 1)));
    assert_eq!(links.count(), 0);
}

#[test]
fn linked_pairs_lists_each_edge_once() {
    let mut g: HashGraph<u8> = HashGraph::new();
    let a = g.insert_node(0);
    let b = g.insert_node(1);
    let c = g.insert_node(2);
    g.insert_link(link(a, 0, b, 0)).unwrap();
    g.insert_link(link(a, 1, b, 1)).unwrap();
    g.insert_link(link(b, 0, c, 0)).unwrap();
    let pairs = g.linked_pairs();
    assert_eq!(pairs, vec![(a, b), (b, c)]);
    g.remove_link(link(b, 0, c, 0));
    assert_eq!(g.linked_pairs(), vec![(a, b)]);
}
