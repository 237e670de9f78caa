use std::cell::Cell;
use std::cell::RefCell;
use std::rc::Rc;

use noodle::cached::CachedGraph;
use noodle::cached::CachingGraph;
use noodle::errors::GraphSolveError;
use noodle::errors::NodeExecutionError;
use noodle::hash_graph::HashGraph;
use noodle::node::Node;
use noodle::node::NodeId;
use noodle::socket::NodeLinkId;
use noodle::socket::NodeSocketId;
use noodle::socket::OutputMask;
use noodle::socket::SocketId;
use noodle::socket::SocketRef;
use noodle::socket::SocketSet;
use noodle::socket::SocketShape;
use noodle::socket::SocketValue;
use noodle::socket::SocketValues;
use noodle::socket::ValueTypeId;
use noodle::solve;
use noodle::value::Value;

enum Kind {
    /// Produces a constant on output 0.
    Constant(i64),
    /// Adds one to input 0, producing output 0.
    Increment,
    /// Sums inputs 0 and 1, producing output 0.
    Sum,
    /// Refuses to skip output 0.
    Insistent,
}

struct TestNode {
    name: &'static str,
    kind: Kind,
    runs: Cell<u32>,
    log: Rc<RefCell<Vec<&'static str>>>,
    inputs: Vec<SocketRef>,
    outputs: Vec<SocketRef>,
}

fn socket(id: u16, shape: SocketShape) -> SocketRef {
    SocketRef { id: SocketId(id), shape, vtype: ValueTypeId(1) }
}

impl TestNode {
    fn new(name: &'static str, kind: Kind, log: Rc<RefCell<Vec<&'static str>>>) -> TestNode {
        let inputs = match kind {
            Kind::Constant(_) | Kind::Insistent => vec![],
            Kind::Increment => vec![socket(0, SocketShape::ExactlyOne)],
            Kind::Sum => vec![
                socket(0, SocketShape::ExactlyOne),
                socket(1, SocketShape::ExactlyOne),
            ],
        };
        let outputs = vec![socket(0, SocketShape::Unlimited)];
        TestNode { name, kind, runs: Cell::new(0), log, inputs, outputs }
    }
}

fn int_input(inputs: &SocketValues, id: u16) -> Result<i64, NodeExecutionError> {
    let value = inputs.get(SocketId(id)).ok_or(NodeExecutionError::NotEnoughInputs)?;
    let v = value.downcast::<i64>().map_err(|_| NodeExecutionError::NotEnoughInputs)?;
    Ok(*v)
}

fn single_output(v: i64) -> SocketValues {
    SocketValues::new(vec![SocketValue { id: SocketId(0), value: Value::new(v) }]).unwrap()
}

impl Node for TestNode {
    fn discriminator(&self) -> &str {
        self.name
    }

    fn input_sockets(&self) -> SocketSet<'_> {
        SocketSet::new(&self.inputs).unwrap()
    }

    fn output_sockets(&self) -> SocketSet<'_> {
        SocketSet::new(&self.outputs).unwrap()
    }

    fn execute(
        &self,
        inputs: SocketValues,
        mask: OutputMask<'_>,
    ) -> Result<SocketValues, NodeExecutionError> {
        self.runs.set(self.runs.get() + 1);
        self.log.borrow_mut().push(self.name);
        match self.kind {
            Kind::Constant(v) => Ok(single_output(v)),
            Kind::Increment => Ok(single_output(int_input(&inputs, 0)? + 1)),
            Kind::Sum => Ok(single_output(int_input(&inputs, 0)? + int_input(&inputs, 1)?)),
            Kind::Insistent => {
                if !mask.includes(SocketId(0)) {
                    return Err(NodeExecutionError::MustUseOutput { socket: SocketId(0) });
                }
                Ok(single_output(0))
            },
        }
    }
}

fn link(from_node: NodeId, from_socket: u16, to_node: NodeId, to_socket: u16) -> NodeLinkId {
    NodeLinkId {
        left: NodeSocketId { node: from_node, socket: SocketId(from_socket) },
        right: NodeSocketId { node: to_node, socket: SocketId(to_socket) },
    }
}

fn output_of(vals: &SocketValues) -> i64 {
    *vals.get(SocketId(0)).unwrap().downcast::<i64>().unwrap()
}

#[test]
fn solve_resolves_dependencies_first() {
    let log: Rc<RefCell<Vec<&'static str>>> = Rc::new(RefCell::new(Vec::new()));
    let mut g: HashGraph<TestNode> = HashGraph::new();
    let a = g.insert_node(TestNode::new("a", Kind::Constant(1), log.clone()));
    let b = g.insert_node(TestNode::new("b", Kind::Increment, log.clone()));
    let c = g.insert_node(TestNode::new("c", Kind::Increment, log.clone()));
    g.insert_link(link(a, 0, b, 0)).unwrap();
    g.insert_link(link(b, 0, c, 0)).unwrap();
    let mask_ids = [SocketId(0)];
    let mask = OutputMask::new(&mask_ids).unwrap();
    let vals = solve::solve_node(&g, c, mask).unwrap();
    assert_eq!(output_of(&vals), 3);
    assert_eq!(*log.borrow(), vec!["a", "b", "c"]);
}

#[test]
fn solve_joins_two_branches() {
    let log: Rc<RefCell<Vec<&'static str>>> = Rc::new(RefCell::new(Vec::new()));
    let mut g: HashGraph<TestNode> = HashGraph::new();
    let a = g.insert_node(TestNode::new("a", Kind::Constant(10), log.clone()));
    let b = g.insert_node(TestNode::new("b", Kind::Constant(5), log.clone()));
    let s = g.insert_node(TestNode::new("s", Kind::Sum, log.clone()));
    g.insert_link(link(a, 0, s, 0)).unwrap();
    g.insert_link(link(b, 0, s, 1)).unwrap();
    let mask_ids = [SocketId(0)];
    let mask = OutputMask::new(&mask_ids).unwrap();
    let vals = solve::solve_node(&g, s, mask).unwrap();
    assert_eq!(output_of(&vals), 15);
    // Both producers ran exactly once, before the consumer.
    let entries = log.borrow();
    assert_eq!(entries.len(), 3);
    assert_eq!(entries[2], "s");
}

#[test]
fn solve_reports_missing_inputs_with_the_failing_node() {
    let log: Rc<RefCell<Vec<&'static str>>> = Rc::new(RefCell::new(Vec::new()));
    let mut g: HashGraph<TestNode> = HashGraph::new();
    let lonely = g.insert_node(TestNode::new("lonely", Kind::Increment, log.clone()));
    let mask_ids = [SocketId(0)];
    let mask = OutputMask::new(&mask_ids).unwrap();
    let r = solve::solve_node(&g, lonely, mask);
    assert_eq!(
        r.err(),
        Some(GraphSolveError::NodeExecutionFailed {
            node: lonely,
            error: NodeExecutionError::NotEnoughInputs,
        })
    );
}

#[test]
fn solve_reports_a_masked_out_mandatory_output() {
    let log: Rc<RefCell<Vec<&'static str>>> = Rc::new(RefCell::new(Vec::new()));
    let mut g: HashGraph<TestNode> = HashGraph::new();
    let n = g.insert_node(TestNode::new("insistent", Kind::Insistent, log.clone()));
    let empty: [SocketId; 0] = [];
    let mask = OutputMask::new(&empty).unwrap();
    let r = solve::solve_node(&g, n, mask);
    assert_eq!(
        r.err(),
        Some(GraphSolveError::NodeExecutionFailed {
            node: n,
            error: NodeExecutionError::MustUseOutput { socket: SocketId(0) },
        })
    );
}

#[test]
fn cached_solve_executes_each_node_once_then_reuses() {
    let log: Rc<RefCell<Vec<&'static str>>> = Rc::new(RefCell::new(Vec::new()));
    let mut g: CachedGraph<TestNode> = CachedGraph::new();
    let a = g.insert_node(TestNode::new("a", Kind::Constant(1), log.clone()));
    let b = g.insert_node(TestNode::new("b", Kind::Increment, log.clone()));
    let c = g.insert_node(TestNode::new("c", Kind::Increment, log.clone()));
    g.insert_link(link(a, 0, b, 0)).unwrap();
    g.insert_link(link(b, 0, c, 0)).unwrap();
    let mask_ids = [SocketId(0)];
    let mask = OutputMask::new(&mask_ids).unwrap();
    // First solve, on an empty cache: a, then b, then c, once each.
    let vals = g.solve_node(c, mask).unwrap();
    assert_eq!(output_of(&vals), 3);
    assert_eq!(*log.borrow(), vec!["a", "b", "c"]);
    // Re-solving with nothing dirtied must not re-invoke any execute.
    let again = g.solve_node(c, mask).unwrap();
    assert_eq!(output_of(&again), 3);
    assert_eq!(*log.borrow(), vec!["a", "b", "c"]);
    assert_eq!(g.get_node(a).unwrap().get().runs.get(), 1);
    assert_eq!(g.get_node(b).unwrap().get().runs.get(), 1);
    assert_eq!(g.get_node(c).unwrap().get().runs.get(), 1);
}

#[test]
fn cached_solve_recomputes_after_invalidation() {
    let log: Rc<RefCell<Vec<&'static str>>> = Rc::new(RefCell::new(Vec::new()));
    let mut g: CachedGraph<TestNode> = CachedGraph::new();
    let a = g.insert_node(TestNode::new("a", Kind::Constant(1), log.clone()));
    let b = g.insert_node(TestNode::new("b", Kind::Increment, log.clone()));
    let c = g.insert_node(TestNode::new("c", Kind::Increment, log.clone()));
    g.insert_link(link(a, 0, b, 0)).unwrap();
    g.insert_link(link(b, 0, c, 0)).unwrap();
    let mask_ids = [SocketId(0)];
    let mask = OutputMask::new(&mask_ids).unwrap();
    assert_eq!(output_of(&g.solve_node(c, mask).unwrap()), 3);
    // Clearing b's cache also invalidates its dependent c, but not a.
    g.clear_cached_output(b);
    log.borrow_mut().clear();
    assert_eq!(output_of(&g.solve_node(c, mask).unwrap()), 3);
    assert_eq!(*log.borrow(), vec!["b", "c"]);
    // Replacing the upstream constant invalidates the whole chain.
    g.replace_node(a, TestNode::new("a2", Kind::Constant(10), log.clone())).unwrap();
    log.borrow_mut().clear();
    assert_eq!(output_of(&g.solve_node(c, mask).unwrap()), 12);
    assert_eq!(*log.borrow(), vec!["a2", "b", "c"]);
}

#[test]
fn cached_graph_still_refuses_cycles() {
    let log: Rc<RefCell<Vec<&'static str>>> = Rc::new(RefCell::new(Vec::new()));
    let mut g: CachedGraph<TestNode> = CachedGraph::new();
    let a = g.insert_node(TestNode::new("a", Kind::Constant(1), log.clone()));
    let b = g.insert_node(TestNode::new("b", Kind::Increment, log.clone()));
    g.insert_link(link(a, 0, b, 0)).unwrap();
    assert!(g.insert_link(link(b, 0, a, 0)).is_err());
    assert!(g.has_link(link(a, 0, b, 0)));
    assert!(!g.has_link(link(b, 0, a, 0)));
}

#[test]
fn cached_remove_node_severs_links() {
    let log: Rc<RefCell<Vec<&'static str>>> = Rc::new(RefCell::new(Vec::new()));
    let mut g: CachedGraph<TestNode> = CachedGraph::new();
    let a = g.insert_node(TestNode::new("a", Kind::Constant(1), log.clone()));
    let b = g.insert_node(TestNode::new("b", Kind::Increment, log.clone()));
    g.insert_link(link(a, 0, b, 0)).unwrap();
    let (node, mut severed) = g.remove_node(a).unwrap();
    assert_eq!(node.name, "a");
    assert_eq!(severed.next(), Some(link(a, 0, b, 0)));
    assert_eq!(severed.next(), None);
    assert!(!g.has_node(a));
    assert!(g.has_node(b));
}
