use std::cell::Cell;
use std::cell::RefCell;
use std::rc::Rc;

use noodle::errors::NodeExecutionError;
use noodle::node::Node;
use noodle::socket::OutputMask;
use noodle::socket::SocketRef;
use noodle::socket::SocketSet;
use noodle::socket::SocketShape;
use noodle::socket::SocketValue;
use noodle::socket::SocketValues;
use noodle::socket::ValueTypeId;
use noodle::solve;
use noodle::value::Value;

use noodle::errors::WouldCycle;
use noodle::node::NodeId;
use noodle::socket::NodeLinkId;
use noodle::socket::NodeSocketId;
use noodle::socket::SocketId;
use noodle::traversal::WalkDependents;
use noodle::traversal::Walker;
use noodle::vector_graph::VectorGraph;

fn link(from_node: NodeId, from_socket: u16, to_node: NodeId, to_socket: u16) -> NodeLinkId {
    NodeLinkId {
        left: NodeSocketId { node: from_node, socket: SocketId(from_socket) },
        right: NodeSocketId { node: to_node, socket: SocketId(to_socket) },
    }
}

#[test]
fn arena_ids_are_slot_indices_and_never_reused() {
    let mut g: VectorGraph<&'static str> = VectorGraph::new();
    let a = g.insert_node("a");
    let b = g.insert_node("b");
    assert_eq!(a, NodeId(0));
    assert_eq!(b, NodeId(1));
    let removed = g.remove_node(a).unwrap().0;
    assert_eq!(removed, "a");
    // The freed slot is not refilled: the next node gets a fresh index.
    let c = g.insert_node("c");
    assert_eq!(c, NodeId(2));
    assert!(!g.has_node(a));
    assert_eq!(g.node_count(), 2);
    assert_eq!(g.get_node(b).unwrap().get(), &"b");
    assert!(g.get_node(a).is_none());
}

#[test]
fn arena_hands_out_mutable_node_access() {
    let mut g: VectorGraph<u64> = VectorGraph::new();
    let a = g.insert_node(5);
    *g.get_node_mut(a) += 10;
    assert_eq!(g.get_node(a).unwrap().get(), &15);
}

#[test]
fn arena_insert_link_is_idempotent() {
    let mut g: VectorGraph<u8> = VectorGraph::new();
    let a = g.insert_node(0);
    let b = g.insert_node(1);
    let l = link(a, 3, b, 4);
    g.insert_link(l).unwrap();
    g.insert_link(l).unwrap();
    assert!(g.has_link(l));
    g.remove_link(l);
    // One removal undoes any number of identical insertions.
    assert!(!g.has_link(l));
}

#[test]
fn arena_refuses_cycles_and_leaves_the_graph_unchanged() {
    let mut g: VectorGraph<&'static str> = VectorGraph::new();
    let a = g.insert_node("a");
    let b = g.insert_node("b");
    let c = g.insert_node("c");
    g.insert_link(link(a, 0, b, 0)).unwrap();
    g.insert_link(link(b, 0, c, 0)).unwrap();
    assert_eq!(g.insert_link(link(c, 0, a, 0)), Err(WouldCycle));
    assert_eq!(g.insert_link(link(a, 1, a, 2)), Err(WouldCycle));
    assert_eq!(g.node_count(), 3);
    assert!(g.has_link(link(a, 0, b, 0)));
    assert!(g.has_link(link(b, 0, c, 0)));
    assert!(!g.has_link(link(c, 0, a, 0)));
    // Joining branches without closing a loop is still allowed.
    g.insert_link(link(a, 1, c, 1)).unwrap();
    assert!(g.has_link(link(a, 1, c, 1)));
}

#[test]
fn arena_remove_node_reports_exactly_the_severed_links() {
    let mut g: VectorGraph<&'static str> = VectorGraph::new();
    let a = g.insert_node("a");
    let b = g.insert_node("b");
    let c = g.insert_node("c");
    let ab = link(a, 0, b, 0);
    let bc = link(b, 0, c, 0);
    let ac = link(a, 2, c, 2);
    g.insert_link(ab).unwrap();
    g.insert_link(bc).unwrap();
    g.insert_link(ac).unwrap();
    let (node, mut severed) = g.remove_node(b).unwrap();
    assert_eq!(node, "b");
    let mut seen = Vec::new();
    while let Some(l) = severed.next() {
        seen.push(l);
    }
    assert_eq!(seen.len(), 2);
    assert!(seen.contains(&ab));
    assert!(seen.contains(&bc));
    assert!(!g.has_link(ab));
    assert!(!g.has_link(bc));
    assert!(g.has_link(ac));
    assert!(g.remove_node(b).is_none());
}

struct ArenaNode {
    name: &'static str,
    base: i64,
    runs: Cell<u32>,
    log: Rc<RefCell<Vec<&'static str>>>,
    inputs: Vec<SocketRef>,
    outputs: Vec<SocketRef>,
}

fn arena_socket(id: u16) -> SocketRef {
    SocketRef { id: SocketId(id), shape: SocketShape::Optional, vtype: ValueTypeId(1) }
}

impl ArenaNode {
    fn new(name: &'static str, base: i64, log: Rc<RefCell<Vec<&'static str>>>) -> ArenaNode {
        ArenaNode {
            name,
            base,
            runs: Cell::new(0),
            log,
            inputs: vec![arena_socket(0)],
            outputs: vec![arena_socket(0)],
        }
    }
}

impl Node for ArenaNode {
    fn discriminator(&self) -> &str {
        self.name
    }

    fn input_sockets(&self) -> SocketSet<'_> {
        SocketSet::new(&self.inputs).unwrap()
    }

    fn output_sockets(&self) -> SocketSet<'_> {
        SocketSet::new(&self.outputs).unwrap()
    }

    fn execute(
        &self,
        inputs: SocketValues,
        _mask: OutputMask<'_>,
    ) -> Result<SocketValues, NodeExecutionError> {
        self.runs.set(self.runs.get() + 1);
        self.log.borrow_mut().push(self.name);
        // Add the upstream value, if one is wired in, to this node's own.
        let upstream = match inputs.get(SocketId(0)) {
            Some(value) => *value.downcast::<i64>().map_err(
                |_| NodeExecutionError::NotEnoughInputs,
            )?,
            None => 0,
        };
        let values = vec![SocketValue { id: SocketId(0), value: Value::new(self.base + upstream) }];
        SocketValues::new(values).map_err(|_| NodeExecutionError::NotEnoughInputs)
    }
}

#[test]
fn solve_runs_on_the_arena_backend_too() {
    let log: Rc<RefCell<Vec<&'static str>>> = Rc::new(RefCell::new(Vec::new()));
    let mut g: VectorGraph<ArenaNode> = VectorGraph::new();
    let a = g.insert_node(ArenaNode::new("a", 1, log.clone()));
    let b = g.insert_node(ArenaNode::new("b", 10, log.clone()));
    let c = g.insert_node(ArenaNode::new("c", 100, log.clone()));
    g.insert_link(link(a, 0, b, 0)).unwrap();
    g.insert_link(link(b, 0, c, 0)).unwrap();
    let mask_ids = [SocketId(0)];
    let mask = OutputMask::new(&mask_ids).unwrap();
    let vals = solve::solve_node(&g, c, mask).unwrap();
    let out = *vals.get(SocketId(0)).unwrap().downcast::<i64>().unwrap();
    assert_eq!(out, 111);
    assert_eq!(*log.borrow(), vec!["a", "b", "c"]);
}

#[test]
fn arena_dependents_walker_covers_the_downstream_closure() {
    let mut g: VectorGraph<u8> = VectorGraph::new();
    let a = g.insert_node(0);
    let b = g.insert_node(1);
    let c = g.insert_node(2);
    let d = g.insert_node(3);
    g.insert_link(link(a, 0, b, 0)).unwrap();
    g.insert_link(link(b, 0, c, 0)).unwrap();
    // d stays disconnected.
    let mut walker = g.walk_dependents(a).unwrap();
    let mut seen = Vec::new();
    while let Some(n) = walker.next(&g) {
        seen.push(n);
    }
    assert_eq!(seen.len(), 3);
    assert_eq!(seen[0], a);
    assert!(seen.contains(&b));
    assert!(seen.contains(&c));
    assert!(!seen.contains(&d));
}
