use std::cell::Cell;
use std::rc::Rc;

use mudhuts::graph::{Graph, InputPort, Node, NodeId, OutputPort, PortKind};
use mudhuts::graph_nodes::{TabNode, TileNode};
use mudhuts::hut::{wrapping_step, Axis, Direction};

enum TestNode {
    Leaf(Rc<Cell<bool>>),
    Tab(TabNode),
    Tile(TileNode),
}

impl Node for TestNode {
    fn inputs(&self) -> Vec<InputPort> {
        match self {
            TestNode::Leaf(_) => Vec::new(),
            _ => vec![InputPort { name: "children", kind: PortKind::HutList }],
        }
    }

    fn outputs(&self) -> Vec<OutputPort> {
        vec![OutputPort { name: "content", kind: PortKind::Content }]
    }

    fn focused_child<V, Env>(&self, _graph: &Graph<Self, V, Env>, _self_id: NodeId) -> Option<NodeId> {
        None
    }

    fn touched(&self) -> bool {
        true
    }

    fn mark_touched(&mut self) {}
}

type TestGraph = Graph<TestNode, u64, ()>;

fn run(node: &mut TestNode, graph: &mut TestGraph, id: NodeId, _port: &'static str) -> u64 {
    let children = match node {
        TestNode::Leaf(flag) => {
            flag.set(true);
            Vec::new()
        }
        TestNode::Tab(tab) => tab.shown(graph, id),
        TestNode::Tile(tile) => tile.shown(graph, id),
    };
    for child in children {
        graph.resolve_output(child, "content", run);
    }
    0
}

fn leaf(graph: &mut TestGraph) -> (NodeId, Rc<Cell<bool>>) {
    let flag: Rc<Cell<bool>> = Default::default();
    let id = graph.add_node(TestNode::Leaf(flag.clone()));
    (id, flag)
}

#[test]
fn tab_node_shows_only_the_active_child() {
    let mut graph: TestGraph = Graph::new();
    let (a, a_resolved) = leaf(&mut graph);
    let (b, b_resolved) = leaf(&mut graph);
    let mut tab = TabNode::new();
    tab.active = 1;
    let tab_id = graph.add_node(TestNode::Tab(tab));
    graph.set_hut_list(tab_id, "children", vec![a, b]).unwrap();

    graph.begin_frame();
    graph.resolve_output(tab_id, "content", run);
    assert!(!a_resolved.get(), "inactive child shouldn't be resolved");
    assert!(b_resolved.get(), "active child should be resolved");
}

#[test]
fn tile_node_shows_every_child() {
    let mut graph: TestGraph = Graph::new();
    let (a, a_resolved) = leaf(&mut graph);
    let (b, b_resolved) = leaf(&mut graph);
    let tile_id = graph.add_node(TestNode::Tile(TileNode::new(Axis::Horizontal)));
    graph.set_hut_list(tile_id, "children", vec![a, b]).unwrap();

    graph.begin_frame();
    graph.resolve_output(tile_id, "content", run);
    assert!(a_resolved.get(), "every pane should be resolved, not just one");
    assert!(b_resolved.get(), "every pane should be resolved, not just one");
}

#[test]
fn tab_node_cycling_matches_hut_tab_cycling_step_for_step() {
    let mut graph: TestGraph = Graph::new();
    let (a, _) = leaf(&mut graph);
    let (b, _) = leaf(&mut graph);
    let (c, _) = leaf(&mut graph);
    let tab_id = graph.add_node(TestNode::Tab(TabNode::new()));
    graph.set_hut_list(tab_id, "children", vec![a, b, c]).unwrap();
    let mut graph_tab = TabNode::new();
    let mut active = 0;

    for dir in [Direction::Next, Direction::Next, Direction::Prev, Direction::Prev, Direction::Prev] {
        active = wrapping_step(3, active, dir);
        graph_tab.cycle(&graph, tab_id, dir);
        assert_eq!(graph_tab.active, active, "both should land on the same index for {dir:?}");
    }
}

#[test]
fn tile_node_cycling_wraps() {
    let mut graph: TestGraph = Graph::new();
    let (a, _) = leaf(&mut graph);
    let (b, _) = leaf(&mut graph);
    let tile_id = graph.add_node(TestNode::Tile(TileNode::new(Axis::Vertical)));
    graph.set_hut_list(tile_id, "children", vec![a, b]).unwrap();
    let mut tile = TileNode::new(Axis::Vertical);
    assert!(tile.cycle(&graph, tile_id, Direction::Prev));
    assert_eq!(tile.active, 1);
    assert!(tile.cycle(&graph, tile_id, Direction::Next));
    assert_eq!(tile.active, 0);
}
