use std::cell::Cell;
use std::rc::Rc;

use mudhuts::graph::{Graph, GraphError, InputPort, Node, NodeId, OutputPort, PortKind};

enum TestNode {
    Const { value: f64, resolve_count: Rc<Cell<u32>> },
    Double,
    TabLike { active: usize },
    MainLike,
    ReadsEnv,
}

impl Node for TestNode {
    fn inputs(&self) -> Vec<InputPort> {
        match self {
            TestNode::Double => vec![InputPort { name: "input", kind: PortKind::Control }],
            TestNode::TabLike { .. } => vec![InputPort { name: "children", kind: PortKind::HutList }],
            TestNode::MainLike => vec![InputPort { name: "main", kind: PortKind::Hut }],
            _ => Vec::new(),
        }
    }

    fn outputs(&self) -> Vec<OutputPort> {
        match self {
            TestNode::Double => vec![OutputPort { name: "output", kind: PortKind::Control }],
            TestNode::MainLike => Vec::new(),
            _ => vec![OutputPort { name: "value", kind: PortKind::Control }],
        }
    }

    fn focused_child<V, Env>(&self, graph: &Graph<Self, V, Env>, self_id: NodeId) -> Option<NodeId> {
        match self {
            TestNode::TabLike { active } => {
                graph.hut_list_input(self_id, "children").get(*active).copied()
            }
            _ => None,
        }
    }

    fn touched(&self) -> bool {
        true
    }

    fn mark_touched(&mut self) {}
}

type TestGraph<Env> = Graph<TestNode, f64, Env>;

trait AsNumber {
    fn number(&self) -> f64;
}

impl AsNumber for () {
    fn number(&self) -> f64 {
        0.0
    }
}

impl AsNumber for i32 {
    fn number(&self) -> f64 {
        *self as f64
    }
}

fn run<Env: AsNumber>(
    node: &mut TestNode,
    graph: &mut TestGraph<Env>,
    id: NodeId,
    _port: &'static str,
) -> f64 {
    match node {
        TestNode::Const { value, resolve_count } => {
            resolve_count.set(resolve_count.get() + 1);
            *value
        }
        TestNode::Double => graph.resolve_input(id, "input", run).map_or(0.0, |n| n * 2.0),
        TestNode::TabLike { active } => {
            match graph.hut_list_input(id, "children").get(*active) {
                Some(&child) => graph.resolve_output(child, "value", run).unwrap_or(0.0),
                None => 0.0,
            }
        }
        TestNode::MainLike => unreachable!("MainLike has no outputs"),
        TestNode::ReadsEnv => graph.env.number(),
    }
}

fn constant(value: f64) -> TestNode {
    TestNode::Const { value, resolve_count: Default::default() }
}

#[test]
fn link_feeds_a_single_valued_input_and_unlink_clears_it() {
    let mut graph: TestGraph<()> = Graph::new();
    let a = graph.add_node(constant(3.0));
    let d = graph.add_node(TestNode::Double);
    graph.link(a, "value", d, "input").unwrap();

    graph.begin_frame();
    assert_eq!(graph.resolve_output(d, "output", run), Some(6.0));

    graph.unlink(d, "input");
    graph.begin_frame();
    assert_eq!(graph.resolve_output(d, "output", run), Some(0.0));
}

#[test]
fn relinking_a_single_valued_input_replaces_the_previous_source() {
    let mut graph: TestGraph<()> = Graph::new();
    let a = graph.add_node(constant(3.0));
    let b = graph.add_node(constant(10.0));
    let d = graph.add_node(TestNode::Double);
    graph.link(a, "value", d, "input").unwrap();
    graph.link(b, "value", d, "input").unwrap();

    graph.begin_frame();
    assert_eq!(graph.resolve_output(d, "output", run), Some(20.0));
}

#[test]
fn link_rejects_a_reference_kind_port() {
    let mut graph: TestGraph<()> = Graph::new();
    let a = graph.add_node(constant(1.0));
    let tab = graph.add_node(TestNode::TabLike { active: 0 });
    assert!(matches!(graph.link(a, "value", tab, "children"), Err(GraphError::NotAValuePort { .. })));
}

#[test]
fn unknown_port_names_are_rejected() {
    let mut graph: TestGraph<()> = Graph::new();
    let a = graph.add_node(constant(1.0));
    let d = graph.add_node(TestNode::Double);
    assert!(matches!(
        graph.link(a, "nonexistent", d, "input"),
        Err(GraphError::UnknownOutputPort { .. })
    ));
}

#[test]
fn unknown_inputs_and_nodes_are_rejected() {
    let mut graph: TestGraph<()> = Graph::new();
    let a = graph.add_node(constant(1.0));
    let d = graph.add_node(TestNode::Double);
    assert!(matches!(
        graph.link(a, "value", d, "nonexistent"),
        Err(GraphError::UnknownInputPort { .. })
    ));
    assert!(matches!(graph.link(NodeId(99), "value", d, "input"), Err(GraphError::UnknownNode(_))));
}

#[test]
fn a_list_reference_does_not_fit_a_single_reference_port() {
    let mut graph: TestGraph<()> = Graph::new();
    let a = graph.add_node(constant(1.0));
    let main_hut = graph.add_node(TestNode::MainLike);
    assert!(graph.set_hut_list(main_hut, "main", vec![a]).is_err());
    let tab = graph.add_node(TestNode::TabLike { active: 0 });
    assert!(graph.link_hut(tab, "children", a).is_err());
}

#[test]
fn tab_like_node_shows_whichever_child_is_active() {
    let mut graph: TestGraph<()> = Graph::new();
    let a = graph.add_node(constant(1.0));
    let b = graph.add_node(constant(2.0));
    let tab = graph.add_node(TestNode::TabLike { active: 1 });
    graph.set_hut_list(tab, "children", vec![a, b]).unwrap();

    graph.begin_frame();
    assert_eq!(graph.resolve_output(tab, "value", run), Some(2.0));
}

#[test]
fn downcast_reaches_the_concrete_node_type() {
    let mut graph: TestGraph<()> = Graph::new();
    let a = graph.add_node(constant(7.0));
    assert!(matches!(graph.node(a), Some(TestNode::Const { value, .. }) if *value == 7.0));
    assert!(!matches!(graph.node(a), Some(TestNode::Double)), "wrong type should not match");

    if let Some(TestNode::Const { value, .. }) = graph.node_mut(a) {
        *value = 9.0;
    }
    assert!(matches!(graph.node(a), Some(TestNode::Const { value, .. }) if *value == 9.0));
}

#[test]
fn focused_leaf_walks_down_through_nested_focused_children() {
    let mut graph: TestGraph<()> = Graph::new();
    let a = graph.add_node(constant(1.0));
    let b = graph.add_node(constant(2.0));
    let inner_tab = graph.add_node(TestNode::TabLike { active: 1 });
    graph.set_hut_list(inner_tab, "children", vec![a, b]).unwrap();
    let outer_tab = graph.add_node(TestNode::TabLike { active: 0 });
    graph.set_hut_list(outer_tab, "children", vec![inner_tab]).unwrap();

    assert_eq!(graph.focused_leaf(outer_tab), b, "should walk through both levels to the real leaf");
    assert_eq!(graph.focused_leaf(a), a, "a leaf with no focused child is its own focused leaf");
    assert_eq!(graph.focused_path(outer_tab), vec![outer_tab, inner_tab, b]);
}

#[test]
fn with_node_mut_gives_simultaneous_access_to_the_node_and_the_rest_of_the_graph() {
    let mut graph: TestGraph<()> = Graph::new();
    let a = graph.add_node(constant(5.0));
    let tab = graph.add_node(TestNode::TabLike { active: 0 });
    graph.set_hut_list(tab, "children", vec![a]).unwrap();

    let children_seen_from_inside =
        graph.with_node_mut(tab, |_node, graph| graph.hut_list_input(tab, "children"));
    assert_eq!(children_seen_from_inside, Some(vec![a]));
}

#[test]
fn link_hut_feeds_a_single_reference_input_and_unlink_hut_clears_it() {
    let mut graph: TestGraph<()> = Graph::new();
    let a = graph.add_node(constant(1.0));
    let b = graph.add_node(constant(2.0));
    let tab = graph.add_node(TestNode::TabLike { active: 0 });
    graph.set_hut_list(tab, "children", vec![a]).unwrap();
    assert_eq!(graph.hut_list_input(tab, "children"), vec![a]);

    let main_hut = graph.add_node(TestNode::MainLike);
    graph.link_hut(main_hut, "main", a).unwrap();
    assert_eq!(graph.hut_input(main_hut, "main"), Some(a));
    graph.link_hut(main_hut, "main", b).unwrap();
    assert_eq!(graph.hut_input(main_hut, "main"), Some(b), "relinking replaces the previous reference");
    graph.unlink_hut(main_hut, "main");
    assert_eq!(graph.hut_input(main_hut, "main"), None);
}

#[test]
fn link_hut_rejects_a_non_reference_port() {
    let mut graph: TestGraph<()> = Graph::new();
    let a = graph.add_node(constant(1.0));
    let d = graph.add_node(TestNode::Double);
    assert!(matches!(graph.link_hut(d, "input", a), Err(GraphError::NotAReferencePort { .. })));
}

#[test]
fn set_hut_list_replaces_the_whole_list_atomically() {
    let mut graph: TestGraph<()> = Graph::new();
    let a = graph.add_node(constant(1.0));
    let tab = graph.add_node(TestNode::TabLike { active: 0 });
    graph.set_hut_list(tab, "children", vec![a]).unwrap();
    graph.set_hut_list(tab, "children", vec![]).unwrap();

    assert!(graph.hut_list_input(tab, "children").is_empty());
}

#[test]
fn resolve_output_memoizes_within_one_frame() {
    let mut graph: TestGraph<()> = Graph::new();
    let counter: Rc<Cell<u32>> = Default::default();
    let a = graph.add_node(TestNode::Const { value: 5.0, resolve_count: counter.clone() });

    graph.begin_frame();
    graph.resolve_output(a, "value", run);
    graph.resolve_output(a, "value", run);
    assert_eq!(counter.get(), 1, "second resolve within the same frame should hit the cache");

    graph.begin_frame();
    graph.resolve_output(a, "value", run);
    assert_eq!(counter.get(), 2, "a new frame should resolve again, not reuse the stale cache");
}

#[test]
fn removing_a_node_prunes_links_and_references_pointing_at_or_from_it() {
    let mut graph: TestGraph<()> = Graph::new();
    let a = graph.add_node(constant(1.0));
    let d = graph.add_node(TestNode::Double);
    let tab = graph.add_node(TestNode::TabLike { active: 0 });
    graph.link(a, "value", d, "input").unwrap();
    graph.set_hut_list(tab, "children", vec![a]).unwrap();

    graph.remove_node(a);

    graph.begin_frame();
    assert_eq!(
        graph.resolve_output(d, "output", run),
        Some(0.0),
        "a value link sourced from a removed node should be pruned, not dangle"
    );
    assert!(
        graph.hut_list_input(tab, "children").is_empty(),
        "a Hut reference to a removed node should be pruned, not dangle"
    );
}

#[test]
fn a_real_env_is_reachable_from_inside_resolve() {
    let mut graph: TestGraph<i32> = Graph::with_env(42);
    let a = graph.add_node(TestNode::ReadsEnv);
    graph.begin_frame();
    assert_eq!(graph.resolve_output(a, "value", run), Some(42.0));
}

#[test]
fn ids_are_never_handed_out_twice() {
    let mut graph: TestGraph<()> = Graph::new();
    let a = graph.add_node(constant(1.0));
    graph.remove_node(a);
    let b = graph.add_node(constant(2.0));
    assert_ne!(a, b);
    assert_eq!(graph.node_ids(), vec![b]);
}
