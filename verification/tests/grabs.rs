use mudhuts::console_hut::ConsoleHut;
use mudhuts::grabs::{nearest_edge_within_threshold, MoveSurfaceGrab};
use mudhuts::graph_stack::GraphStack;
use mudhuts::main_window::{Alert, Dock, Edge, FloatingWindow};

#[test]
fn picks_the_only_edge_within_threshold() {
    assert_eq!(nearest_edge_within_threshold((1000, 800), (10, 300), (200, 200)), Some(Edge::Left));
}

#[test]
fn picks_the_closest_of_several_edges_within_threshold() {
    assert_eq!(nearest_edge_within_threshold((1000, 800), (5, 15), (200, 200)), Some(Edge::Left));
}

#[test]
fn none_when_nothing_is_within_threshold() {
    assert_eq!(nearest_edge_within_threshold((1000, 800), (400, 300), (200, 200)), None);
}

#[test]
fn oversized_window_flush_against_one_edge_still_picks_that_edge() {
    assert_eq!(nearest_edge_within_threshold((1000, 800), (0, 300), (1400, 200)), Some(Edge::Left));
}

#[test]
fn each_edge_can_be_the_nearest() {
    assert_eq!(nearest_edge_within_threshold((1000, 800), (790, 300), (200, 200)), Some(Edge::Right));
    assert_eq!(nearest_edge_within_threshold((1000, 800), (400, 3), (200, 200)), Some(Edge::Top));
    assert_eq!(nearest_edge_within_threshold((1000, 800), (400, 640), (200, 200)), Some(Edge::Bottom));
    assert_eq!(nearest_edge_within_threshold((1000, 800), (400, 641), (200, 100)), None);
}

#[test]
fn a_grab_moves_its_window_and_redocks_it_near_an_edge() {
    let mut hut = ConsoleHut::spawned(1, (8, 16));
    hut.push_main_window(10, true, 110);
    hut.set_showing_terminal(false);
    let entry = hut.find_main_window_mut(10).unwrap();
    let mut float = FloatingWindow::new(20);
    float.dock = Dock::Floating((300, 300));
    entry.floating_windows.push(float);
    entry.alerts.push(Alert::new(30));
    hut.sync_main_window_space((0, 0));
    let mut stack = GraphStack::new(hut, 500, 600);

    let grab = MoveSurfaceGrab { surface: 20, floating_window: true, hut_id: 1, output_index: 0 };
    grab.motion(&mut stack, (400, 20));
    assert_eq!(stack.focused().placed_at(20), Some((400, 20)));
    assert_eq!(stack.focused_mut().floating_window_mut(20).unwrap().dock, Dock::Floating((300, 300)));
    assert!(grab.ends_with(&vec![]));
    assert!(!grab.ends_with(&vec![0x110]));
    assert!(grab.unset(&mut stack, (200, 200), &vec![(1000, 800)], &vec![(0, 0)]));
    assert_eq!(stack.focused_mut().floating_window_mut(20).unwrap().dock, Dock::Docked(Edge::Top));

    let alert = MoveSurfaceGrab { surface: 30, floating_window: false, hut_id: 1, output_index: 0 };
    alert.motion(&mut stack, (7, 9));
    assert!(alert.unset(&mut stack, (50, 50), &vec![(1000, 800)], &vec![(0, 0)]));
    assert_eq!(stack.focused_mut().alert_mut(30).unwrap().position, (7, 9));
}
