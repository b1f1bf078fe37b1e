use mudhuts::console_hut::ConsoleHut;
use mudhuts::graph::NodeId;
use mudhuts::graph_nodes::{fracs_for, HutNode, TabNode, TileNode, HALF_FRAC};
use mudhuts::graph_stack::GraphStack;
use mudhuts::hut::{Axis, Direction};
use mudhuts::stack_geometry::LeafRect;

const FIRST: u64 = 500;
const SECOND: u64 = 501;
const THIRD: u64 = 502;

/// A stack together with the ids its next consoles get.
struct Fixture {
    stack: GraphStack,
    next_id: u64,
}

fn console(id: u64) -> ConsoleHut {
    ConsoleHut::spawned(id, (8, 16))
}

fn new_stack() -> Fixture {
    Fixture { stack: GraphStack::new(console(1), FIRST, 900), next_id: 2 }
}

impl Fixture {
    fn fresh(&mut self) -> Result<ConsoleHut, String> {
        let id = self.next_id;
        self.next_id += 1;
        Ok(console(id))
    }

    fn next(&mut self) {
        let fresh = if self.stack.next_spawns() { Some(self.fresh()) } else { None };
        self.stack.next(fresh).unwrap();
    }

    fn preview_next(&mut self) {
        let fresh = if self.stack.preview_next_spawns() { Some(self.fresh()) } else { None };
        self.stack.preview_next(fresh).unwrap();
    }

    fn wrap_tab(&mut self) {
        let fresh = self.fresh();
        self.stack.wrap_tab(fresh).unwrap();
    }

    fn wrap_tile(&mut self) {
        let fresh = self.fresh();
        self.stack.wrap_tile(fresh).unwrap();
    }

    fn spawn_and_insert(&mut self) -> u64 {
        let fresh = self.fresh();
        self.stack.spawn_and_insert(fresh).unwrap()
    }

    fn remove_exited(&mut self, id: u64) {
        let fresh = if self.stack.remove_exited_spawns(id) { Some(self.fresh()) } else { None };
        self.stack.remove_exited(id, fresh).unwrap();
    }

    fn add_output(&mut self, output: u64, position: (i32, i32)) -> usize {
        let fresh = self.fresh();
        self.stack.add_output(output, position, output + 400, fresh).unwrap()
    }

    fn tab(&self, id: NodeId) -> Option<&TabNode> {
        match self.stack.graph().node(id) {
            Some(HutNode::Tab(tab)) => Some(tab),
            _ => None,
        }
    }

    fn tile(&self, id: NodeId) -> Option<&TileNode> {
        match self.stack.graph().node(id) {
            Some(HutNode::Tile(tile)) => Some(tile),
            _ => None,
        }
    }
}

fn shares_of(children: &Vec<NodeId>, tile: &TileNode) -> Vec<f64> {
    fracs_for(children, &tile.fracs).into_iter().map(f64::from_bits).collect()
}

#[test]
fn starts_with_a_single_focused_untouched_hut() {
    let t = new_stack();
    assert_eq!(t.stack.len(), 1);
    assert!(!t.stack.focused().touched());
}

#[test]
fn keyboard_focus_sync_is_needed_once_then_not_again_until_the_next_frame() {
    let mut t = new_stack();
    assert!(t.stack.take_needs_keyboard_focus_sync(), "first call this frame should need a sync");
    assert!(!t.stack.take_needs_keyboard_focus_sync(), "a second call in the same frame is redundant");
    assert!(!t.stack.take_needs_keyboard_focus_sync(), "still redundant on a third call");
    t.stack.begin_frame();
    assert!(t.stack.take_needs_keyboard_focus_sync(), "a new frame needs its own sync again");
}

#[test]
fn next_past_an_untouched_tail_replaces_it_rather_than_growing() {
    let mut t = new_stack();
    let original_id = t.stack.focused().id;
    t.next();
    assert_eq!(t.stack.len(), 1, "an untouched hut should be replaced, not kept alongside a new one");
    assert_ne!(t.stack.focused().id, original_id, "should be a fresh hut");
}

#[test]
fn next_past_a_touched_tail_grows_the_stack() {
    let mut t = new_stack();
    let first_id = t.stack.focused().id;
    t.stack.focused_mut().mark_touched();
    t.next();
    assert_eq!(t.stack.len(), 2);
    assert_ne!(t.stack.focused().id, first_id, "should have moved on to a new hut");
    assert!(!t.stack.focused().touched());
}

#[test]
fn prev_discards_an_untouched_hut_left_behind() {
    let mut t = new_stack();
    let first_id = t.stack.focused().id;
    t.stack.focused_mut().mark_touched();
    t.next();
    t.stack.prev();
    assert_eq!(t.stack.len(), 1, "the never-touched 2nd hut should be discarded, not kept");
    assert_eq!(t.stack.focused().id, first_id);
}

#[test]
fn preview_session_never_discards_the_untouched_but_currently_focused_hut() {
    let mut t = new_stack();
    assert!(!t.stack.focused().touched());
    let first_id = t.stack.focused().id;
    t.preview_next();
    assert_eq!(t.stack.focused().id, first_id, "current survives untouched");
    t.stack.preview_prev();
    assert_eq!(t.stack.preview_index(), 0);
    assert_eq!(t.stack.len(), 1, "current wasn't discarded by landing back on it");
    assert_eq!(t.stack.focused().id, first_id);
}

#[test]
fn commit_preview_moves_the_selection_to_the_front_and_marks_it_touched() {
    let mut t = new_stack();
    let first_id = t.stack.focused().id;
    t.preview_next();

    t.stack.commit_preview();

    assert!(!t.stack.is_previewing());
    assert_ne!(t.stack.focused().id, first_id, "committed selection becomes focused");
    assert!(t.stack.focused().touched(), "committing counts as using it");
    assert_eq!(t.stack.len(), 2, "the hut left behind (first_id) is kept, not discarded");
}

#[test]
fn wrap_tab_spawns_a_new_hut_and_wraps_the_focused_one_in_place() {
    let mut t = new_stack();
    let focused_id = t.stack.focused().id;
    assert_eq!(t.stack.len(), 1);

    t.wrap_tab();

    assert_eq!(t.stack.len(), 1, "wrapping the only entry doesn't add a 2nd top-level entry");
    assert_eq!(t.stack.focused().id, focused_id, "wrapping shouldn't change what's on screen");
    assert!(t.tab(t.stack.focused_top_level()).is_some(), "the wrapped entry is a Tab node");

    t.stack.cycle_innermost(Direction::Prev);
    assert_ne!(t.stack.focused().id, focused_id, "cycling should reach the freshly spawned hut");
}

#[test]
fn wrap_tile_spawns_a_new_hut_and_wraps_the_focused_one_in_place() {
    let mut t = new_stack();
    let focused_id = t.stack.focused().id;

    t.wrap_tile();

    assert_eq!(t.stack.len(), 1);
    assert_eq!(t.stack.focused().id, focused_id);
    assert!(t.tile(t.stack.focused_top_level()).is_some());
}

#[test]
fn wrap_focused_only_touches_the_specific_pane_its_called_on() {
    let mut t = new_stack();
    t.wrap_tile();
    let tile_id = t.stack.focused_top_level();
    let other_pane_id = t.stack.graph().hut_list_input(tile_id, "children")[0];
    let active_pane_id = t.stack.focused().id;

    t.wrap_tab();

    assert_eq!(t.stack.len(), 1, "still just the one Tile node overall");
    let tile_id = t.stack.focused_top_level();
    assert!(t.tile(tile_id).is_some(), "still a Tile node");
    let children = t.stack.graph().hut_list_input(tile_id, "children");
    assert_eq!(children.len(), 2, "the other pane wasn't touched");
    assert_eq!(children[0], other_pane_id, "the untouched pane is still exactly the same node");
    assert!(t.tab(children[1]).is_some(), "only the active pane became a Tab node");
    assert_eq!(
        t.stack.focused().id,
        active_pane_id,
        "wrapping the active pane in place doesn't change what's on screen"
    );
}

#[test]
fn wrap_focused_migrates_the_tile_pane_fraction_to_the_new_wrapper() {
    let mut t = new_stack();
    t.wrap_tile();
    let tile_id = t.stack.focused_top_level();
    let before = t.stack.graph().hut_list_input(tile_id, "children");
    assert_eq!(before.len(), 2);
    let orig_pane_id = before[1];

    t.wrap_tab();

    let after = t.stack.graph().hut_list_input(tile_id, "children");
    assert_eq!(after.len(), 2, "still just the 2 original panes");
    assert_ne!(after[1], orig_pane_id, "the wrapped pane's own id changed (it's now the new Tab node)");
    let tile = t.tile(tile_id).unwrap();
    assert_eq!(
        shares_of(&after, tile),
        vec![0.5, 0.5],
        "the wrapped pane's custom 50/50 split survived the in-place identity swap"
    );
    assert_eq!(f64::from_bits(HALF_FRAC), 0.5);
}

#[test]
fn collapsing_a_tab_inside_a_tile_migrates_the_tile_pane_fraction() {
    let mut t = new_stack();
    let b_id = t.spawn_and_insert();
    t.spawn_and_insert();
    let node_ids: Vec<NodeId> = t.stack.outputs[0].huts.drain(..).collect();
    assert_eq!(node_ids.len(), 3);
    let (a_node, b_node, c_node) = (node_ids[0], node_ids[1], node_ids[2]);

    let tab_id = t.stack.graph_mut().add_node(HutNode::Tab(TabNode::new()));
    t.stack.graph_mut().set_hut_list(tab_id, "children", vec![b_node, c_node]).unwrap();

    let mut tile = TileNode::new(Axis::Horizontal);
    tile.fracs.insert(a_node, 0.3f64.to_bits());
    tile.fracs.insert(tab_id, 0.7f64.to_bits());
    let tile_id = t.stack.graph_mut().add_node(HutNode::Tile(tile));
    t.stack.graph_mut().set_hut_list(tile_id, "children", vec![a_node, tab_id]).unwrap();
    t.stack.outputs[0].huts.push(tile_id);
    t.stack.outputs[0].current = 0;

    t.remove_exited(b_id);

    let children = t.stack.graph().hut_list_input(tile_id, "children");
    assert_eq!(children, vec![a_node, c_node], "the collapsed Tab node was replaced by its survivor c");
    let tile = t.tile(tile_id).unwrap();
    assert_eq!(
        shares_of(&children, tile),
        vec![0.3, 0.7],
        "the collapsing Tab's own 0.7 share migrated to its survivor c"
    );
}

#[test]
fn cycle_innermost_bubbles_up_and_wraps() {
    let mut t = new_stack();
    let original_id = t.stack.focused().id;
    t.wrap_tab();
    assert_eq!(t.stack.focused().id, original_id, "wrap doesn't change what's focused");

    assert!(t.stack.cycle_innermost(Direction::Next), "moves to the freshly spawned hut");
    let new_id = t.stack.focused().id;
    assert_ne!(new_id, original_id);

    assert!(t.stack.cycle_innermost(Direction::Next), "wraps back to the original");
    assert_eq!(t.stack.focused().id, original_id);
}

#[test]
fn cycle_innermost_is_a_no_op_for_a_lone_hut() {
    let mut t = new_stack();
    assert!(!t.stack.cycle_innermost(Direction::Next));
    assert!(!t.stack.cycle_innermost(Direction::Prev));
}

#[test]
fn remove_exited_respawns_when_it_was_the_only_hut() {
    let mut t = new_stack();
    let original_id = t.stack.focused().id;
    t.remove_exited(original_id);
    assert_eq!(t.stack.len(), 1, "should never end up with zero entries");
    assert_ne!(t.stack.focused().id, original_id);
}

#[test]
fn remove_exited_collapses_a_tab_node_left_with_one_child() {
    let mut t = new_stack();
    t.wrap_tab();
    let new_id = t.stack.focused().id;

    t.remove_exited(new_id);

    assert_eq!(t.stack.len(), 1, "still one top-level entry");
    let top = t.stack.focused_top_level();
    assert!(
        matches!(t.stack.graph().node(top), Some(HutNode::Console(_))),
        "collapsed back down to a bare console instead of a 1-child Tab node"
    );
}

#[test]
fn remove_exited_finds_a_bare_top_level_entry_on_a_non_focused_output() {
    let mut t = new_stack();
    t.add_output(SECOND, (1920, 0));
    assert_eq!(t.stack.focused_output_index(), 0, "focus stays on output 0");
    let background_id = t.stack.focused_for(1).id;

    t.remove_exited(background_id);

    assert_eq!(t.stack.len_for(1), 1, "output 1 should have been refilled");
    assert_ne!(t.stack.focused_for(1).id, background_id, "the exited hut is really gone");
    assert_eq!(t.stack.len_for(0), 1, "output 0 (unrelated) is untouched");
}

#[test]
fn remove_child_clamps_active_and_prunes_tab_node_cache() {
    let mut t = new_stack();
    let b_id = t.spawn_and_insert();
    t.spawn_and_insert();
    let node_ids: Vec<NodeId> = t.stack.outputs[0].huts.drain(..).collect();
    assert_eq!(node_ids.len(), 3);

    let mut tab = TabNode::new();
    tab.active = 2;
    let tab_id = t.stack.graph_mut().add_node(HutNode::Tab(tab));
    t.stack.graph_mut().set_hut_list(tab_id, "children", node_ids.clone()).unwrap();
    t.stack.outputs[0].huts.push(tab_id);
    t.stack.outputs[0].current = 0;

    t.stack.graph_mut().with_node_mut(tab_id, |node, _graph| {
        if let HutNode::Tab(tab) = node {
            for &id in &node_ids {
                tab.child_chrome.insert(id, id.0);
            }
        }
    });

    t.remove_exited(b_id);

    let children = t.stack.graph().hut_list_input(tab_id, "children");
    assert_eq!(
        children,
        vec![node_ids[0], node_ids[2]],
        "the middle child (b) is gone, the rest kept its order"
    );
    let tab = t.tab(tab_id).unwrap();
    assert_eq!(tab.active, 1, "clamped from 2 down to the new last valid index");
    assert_eq!(tab.child_chrome.keys().len(), 2, "the removed child's own cache entry was pruned");
    assert!(tab.child_chrome.contains_key(&node_ids[0]));
    assert!(tab.child_chrome.contains_key(&node_ids[2]));
    assert!(!tab.child_chrome.contains_key(&node_ids[1]), "the removed middle child's entry is gone");
}

#[test]
fn remove_child_shifts_active_left_when_the_removed_child_sat_before_it() {
    let mut t = new_stack();
    let a_id = t.stack.focused().id;
    t.spawn_and_insert();
    t.spawn_and_insert();
    t.spawn_and_insert();
    let node_ids: Vec<NodeId> = t.stack.outputs[0].huts.drain(..).collect();
    assert_eq!(node_ids.len(), 4);

    let mut tab = TabNode::new();
    tab.active = 2;
    let tab_id = t.stack.graph_mut().add_node(HutNode::Tab(tab));
    t.stack.graph_mut().set_hut_list(tab_id, "children", node_ids.clone()).unwrap();
    t.stack.outputs[0].huts.push(tab_id);
    t.stack.outputs[0].current = 0;

    let expected_survivor = node_ids[2];
    t.remove_exited(a_id);

    let children = t.stack.graph().hut_list_input(tab_id, "children");
    assert_eq!(children.len(), 3);
    let tab = t.tab(tab_id).unwrap();
    assert_eq!(tab.active, 1, "shifted left to keep pointing at the same surviving child");
    assert_eq!(
        children[tab.active],
        expected_survivor,
        "active still resolves to the child that was focused before the removal"
    );
}

#[test]
fn remove_exited_is_a_no_op_for_an_unknown_id() {
    let mut t = new_stack();
    let id = t.stack.focused().id;
    t.remove_exited(999_999);
    assert_eq!(t.stack.len(), 1);
    assert_eq!(t.stack.focused().id, id);
}

#[test]
fn spawn_and_insert_appends_a_background_hut_without_changing_focus() {
    let mut t = new_stack();
    let first_id = t.stack.focused().id;
    let new_id = t.spawn_and_insert();
    assert_eq!(t.stack.len(), 2);
    assert_eq!(t.stack.focused().id, first_id, "focus shouldn't move to the new background entry");
    assert!(t.stack.all_huts().iter().any(|h| h.id == new_id));
}

#[test]
fn find_mut_reaches_a_hut_nested_inside_a_tab_node() {
    let mut t = new_stack();
    t.wrap_tab();
    let nested_id = t.stack.top_level_huts().first().map(|h| h.id);
    let some_id = t.stack.all_huts().iter().map(|h| h.id).find(|&id| Some(id) != nested_id).unwrap();
    assert!(t.stack.find_mut(some_id).is_some());
    assert!(t.stack.find_mut(999_999).is_none());
}

#[test]
fn find_mut_for_and_find_mut_for_hint_never_panic_on_a_stale_output_index() {
    let mut t = new_stack();
    let id = t.stack.focused().id;
    let out_of_bounds = 5;
    assert!(t.stack.find_mut_for(out_of_bounds, id).is_none());
    assert_eq!(t.stack.find_mut_for_hint(out_of_bounds, id).map(|h| h.id), Some(id));
    assert!(t.stack.find_mut_for_hint(out_of_bounds, 999_999).is_none());
}

#[test]
fn add_output_creates_an_independent_stack_that_does_not_disturb_the_first() {
    let mut t = new_stack();
    let first_id = t.stack.focused().id;
    let index = t.add_output(SECOND, (1920, 0));
    assert_eq!(index, 1);
    assert_eq!(t.stack.outputs().len(), 2);
    assert_eq!(t.stack.focused_output_index(), 0);
    assert_eq!(t.stack.focused().id, first_id);
    assert_ne!(t.stack.focused_for(1).id, first_id, "the new output's own hut should be a fresh one");
    assert_eq!(t.stack.len_for(0), 1);
    assert_eq!(t.stack.len_for(1), 1);
}

/// Which of these outputs, of these sizes and at the stack's positions, hold
/// the point.
fn hits(stack: &GraphStack, sizes: &[(f64, f64)], point: (f64, f64)) -> Vec<bool> {
    sizes
        .iter()
        .enumerate()
        .map(|(i, size)| {
            let (x, y) = stack.output_position(i);
            let (x, y) = (x as f64, y as f64);
            point.0 >= x && point.0 < x + size.0 && point.1 >= y && point.1 < y + size.1
        })
        .collect()
}

#[test]
fn output_index_at_finds_the_output_whose_positioned_rect_contains_the_point() {
    let mut t = new_stack();
    t.stack.set_output(0, THIRD);
    t.add_output(SECOND, (1920, 0));
    let sizes = [(1920.0, 1080.0), (800.0, 600.0)];

    assert_eq!(t.stack.output_index_at(&hits(&t.stack, &sizes, (100.0, 100.0))), 0);
    assert_eq!(t.stack.output_index_at(&hits(&t.stack, &sizes, (2000.0, 100.0))), 1);
    assert_eq!(
        t.stack.output_index_at(&hits(&t.stack, &sizes, (-50.0, -50.0))),
        t.stack.focused_output_index()
    );

    let dead_zone = hits(&t.stack, &sizes, (2000.0, 800.0));
    assert!(!dead_zone[0]);
    assert!(!dead_zone[1]);
    assert_eq!(t.stack.output_index_at(&dead_zone), t.stack.focused_output_index());
}

#[test]
fn output_position_falls_back_to_the_origin_for_an_out_of_range_index() {
    let mut t = new_stack();
    t.add_output(SECOND, (1920, 0));
    assert_eq!(t.stack.output_position(0), (0, 0));
    assert_eq!(t.stack.output_position(1), (1920, 0));
    assert_eq!(t.stack.output_position(5), (0, 0), "out-of-range falls back to the origin, not a panic");
}

#[test]
fn remove_output_drops_its_own_huts_and_shifts_later_indices_down() {
    let mut t = new_stack();
    let first_id = t.stack.focused().id;
    t.add_output(SECOND, (1920, 0));
    t.add_output(THIRD, (2720, 0));
    assert_eq!(t.stack.outputs().len(), 3);

    t.stack.remove_output(1);
    assert_eq!(t.stack.outputs().len(), 2, "should have dropped exactly one slot");
    assert_eq!(t.stack.focused().id, first_id, "removing a non-focused output shouldn't disturb focus");
    assert_eq!(t.stack.outputs()[1].output, THIRD);
}

#[test]
fn remove_output_refuses_to_drop_the_last_remaining_slot() {
    let mut t = new_stack();
    t.stack.remove_output(0);
    assert_eq!(t.stack.outputs().len(), 1, "the last slot must never be removed");
}

#[test]
fn a_failed_spawn_is_handed_back() {
    let mut t = new_stack();
    t.stack.focused_mut().mark_touched();
    assert_eq!(t.stack.next(Some(Err("no pty".to_string()))), Err("no pty".to_string()));
    assert_eq!(t.stack.len(), 1);
    assert_eq!(t.stack.spawn_and_insert(Err("no pty".to_string())), Err("no pty".to_string()));
    assert_eq!(t.stack.add_output(SECOND, (0, 0), 901, Err("no pty".to_string())), Err("no pty".to_string()));
    assert_eq!(t.stack.outputs().len(), 1);
    assert_eq!(t.stack.wrap_tab(Err("no pty".to_string())), Err("no pty".to_string()));
    assert!(t.tab(t.stack.focused_top_level()).is_none());
}

#[test]
fn a_tab_wrapped_and_exited_leaves_the_stack_as_it_was() {
    let mut t = new_stack();
    let before = t.stack.focused_top_level();
    t.wrap_tab();
    t.stack.cycle_innermost(Direction::Next);
    let spawned = t.stack.focused().id;
    t.remove_exited(spawned);
    assert_eq!(t.stack.focused_top_level(), before);
    assert_eq!(t.stack.all_node_ids(), vec![before]);
}

#[test]
fn a_tiled_entry_splits_its_area_among_its_panes() {
    let mut t = new_stack();
    t.wrap_tile();
    let top = t.stack.focused_top_level();
    let shares = vec![400, 400];
    let sizes: Vec<(i32, i32)> =
        t.stack.child_sizes(top, (800, 600), &shares).into_iter().map(|(_, size)| size).collect();
    assert_eq!(sizes, vec![(400, 600), (400, 600)]);
    assert_eq!(t.stack.active_pane_offset(top, (10, 20, 800, 600), &shares), (410, 20));
}

#[test]
fn a_console_is_resized_to_the_cells_that_fit() {
    let mut t = new_stack();
    let top = t.stack.focused_top_level();
    let (id, fit) = t.stack.resize_console(top, (800, 600), (8, 16)).unwrap();
    assert_eq!(id, 1);
    assert_eq!((fit.cols, fit.lines), (100, 37));
    let all = t.stack.rescale_all((16, 32));
    assert_eq!((all[0].0, all[0].1.cols, all[0].1.lines), (1, 50, 18));
}

#[test]
fn focus_moves_only_to_an_output_that_is_there() {
    let mut t = new_stack();
    t.add_output(SECOND, (1920, 0));
    t.stack.set_focused_output(1);
    assert_eq!(t.stack.focused_output(), SECOND);
    t.stack.set_focused_output(9);
    assert_eq!(t.stack.focused_output(), SECOND);
    assert_eq!(t.stack.output_index_for(FIRST), Some(0));
    assert_eq!(t.stack.output_index_for(THIRD), None);
    assert!(!t.stack.is_previewing_for(1));
    assert_eq!(t.stack.preview_index_for(1), 0);
    assert_eq!(t.stack.panel_id_for(1), SECOND + 400);
}

#[test]
fn a_console_with_a_command_counts_as_used() {
    let mut t = new_stack();
    let fresh = t.fresh();
    let id = t.stack.spawn_and_insert_with_command(fresh).unwrap();
    assert!(t.stack.find(id).unwrap().touched());
    assert_eq!(t.stack.output_index_for_hut(id), Some(0));
    assert!(!t.stack.focused().touched());
}

#[test]
fn a_terminal_shows_until_a_window_takes_its_place() {
    let mut t = new_stack();
    let top = t.stack.focused_top_level();
    t.stack.focused_mut().set_showing_terminal(false);
    assert!(t.stack.shows_terminal_effective(top), "there is no window to show");
    t.stack.focused_mut().push_main_window(10, true, 110);
    assert!(!t.stack.shows_terminal_effective(top));
    t.wrap_tile();
    assert!(t.stack.shows_terminal_effective(t.stack.focused_top_level()));
}

#[test]
fn a_window_is_found_in_its_pane() {
    let mut t = new_stack();
    t.stack.focused_mut().push_main_window(10, true, 110);
    t.stack.focused_mut().set_showing_terminal(false);
    let area = (10, 20, 800, 600);
    let top = t.stack.focused_top_level();
    assert_eq!(t.stack.leaf_absolute_rect(top, 10, area, &vec![]), Some(LeafRect::Area(area)));
    assert_eq!(t.stack.leaf_absolute_rect(top, 99, area, &vec![]), None);
    t.wrap_tile();
    let top = t.stack.focused_top_level();
    assert_eq!(
        t.stack.leaf_absolute_rect(top, 10, area, &vec![400, 400]),
        Some(LeafRect::Area((410, 20, 400, 600)))
    );
}

#[test]
fn cycling_forwards_and_back_changes_nothing() {
    let mut t = new_stack();
    t.wrap_tab();
    let before = t.stack.focused().id;
    t.stack.cycle_innermost(Direction::Next);
    t.stack.cycle_innermost(Direction::Prev);
    assert_eq!(t.stack.focused().id, before);
}

/// What the focused entry shows, in a frame of its own.
fn drawn(stack: &mut GraphStack) -> Vec<u64> {
    stack.begin_frame();
    let top = stack.focused_top_level();
    stack.resolve_content(top)
}

#[test]
fn a_tab_draws_its_active_child_and_a_tile_draws_every_pane() {
    let mut t = new_stack();
    assert_eq!(drawn(&mut t.stack), vec![1]);
    t.wrap_tab();
    assert_eq!(drawn(&mut t.stack), vec![1], "the other tab stays hidden");
    assert!(t.stack.cycle_innermost(Direction::Next));
    assert_eq!(drawn(&mut t.stack), vec![2]);
    t.wrap_tile();
    assert_eq!(drawn(&mut t.stack), vec![3, 2], "both panes under the active tab");
    let focused = t.stack.focused().id;
    assert!(drawn(&mut t.stack).contains(&focused));
}

#[test]
fn stepping_leaves_the_other_outputs_alone() {
    let mut t = new_stack();
    t.add_output(SECOND, (1920, 0));
    let other = t.stack.focused_for(1).id;
    t.stack.focused_mut().mark_touched();
    t.next();
    t.stack.prev();
    t.preview_next();
    t.stack.commit_preview();
    assert_eq!(t.stack.len_for(1), 1);
    assert_eq!(t.stack.focused_for(1).id, other);
    assert!(!t.stack.is_previewing_for(1));
}

#[test]
fn a_used_entry_is_never_discarded() {
    let mut t = new_stack();
    t.stack.focused_mut().mark_touched();
    let first = t.stack.focused().id;
    t.next();
    t.stack.focused_mut().mark_touched();
    let second = t.stack.focused().id;
    t.next();
    t.stack.prev();
    t.stack.prev();
    assert_eq!(t.stack.focused().id, first);
    assert!(t.stack.find(second).is_some());
    assert_eq!(t.stack.len(), 2, "the third, never used, is gone");
}

#[test]
fn wrapping_a_pane_leaves_the_other_panes_alone() {
    let mut t = new_stack();
    t.wrap_tile();
    let top = t.stack.focused_top_level();
    let before = t.stack.graph().hut_list_input(top, "children");
    let focused = t.stack.focused().id;
    t.wrap_tab();
    let after = t.stack.graph().hut_list_input(top, "children");
    assert_eq!(after.len(), before.len());
    let changed: Vec<usize> = (0..after.len()).filter(|&i| after[i] != before[i]).collect();
    assert_eq!(changed.len(), 1, "one pane gives way to the new tab group");
    assert!(t.tab(after[changed[0]]).is_some());
    assert_eq!(t.stack.focused().id, focused);
}

#[test]
fn content_is_resolved_once_per_frame() {
    let mut t = new_stack();
    t.wrap_tab();
    let top = t.stack.focused_top_level();
    t.stack.begin_frame();
    assert_eq!(t.stack.resolve_content(top), vec![1]);
    assert!(t.stack.cycle_innermost(Direction::Next));
    assert_eq!(t.stack.resolve_content(top), vec![1], "the frame keeps what it resolved");
    t.stack.begin_frame();
    assert_eq!(t.stack.resolve_content(top), vec![2], "a new frame resolves anew");
}

#[test]
fn what_a_child_resolved_to_is_used_by_its_parent() {
    let mut t = new_stack();
    t.wrap_tile();
    let top = t.stack.focused_top_level();
    let panes = t.stack.graph().hut_list_input(top, "children");
    t.stack.begin_frame();
    assert_eq!(t.stack.resolve_content(panes[0]), vec![2]);
    assert_eq!(t.stack.resolve_content(top), vec![2, 1]);
    assert_eq!(t.stack.resolve_content(NodeId(99)), Vec::<u64>::new(), "there is no such node");
}

#[test]
fn only_a_new_frame_opens_the_focus_gate_again() {
    let mut t = new_stack();
    assert!(t.stack.take_needs_keyboard_focus_sync());
    t.stack.focused_mut().mark_touched();
    t.next();
    t.stack.prev();
    t.wrap_tab();
    t.add_output(SECOND, (1920, 0));
    t.stack.set_focused_output(1);
    assert!(!t.stack.take_needs_keyboard_focus_sync());
    t.stack.begin_frame();
    assert!(t.stack.take_needs_keyboard_focus_sync());
}

#[test]
fn a_preview_leaves_the_current_entry_the_current_one() {
    let mut t = new_stack();
    t.spawn_and_insert();
    t.spawn_and_insert();
    t.stack.outputs[0].current = 2;
    let current = t.stack.focused().id;
    t.stack.preview_prev();
    t.stack.preview_prev();
    assert_eq!((t.stack.len(), t.stack.preview_index()), (3, 1));
    t.stack.preview_prev();
    assert_eq!((t.stack.len(), t.stack.preview_index()), (2, 0), "the unused one between is gone");
    assert_eq!(t.stack.focused().id, current);
    t.preview_next();
    assert_eq!((t.stack.len(), t.stack.preview_index()), (1, 0));
    assert_eq!(t.stack.focused().id, current);
}
