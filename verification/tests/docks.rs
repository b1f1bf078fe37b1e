use mudhuts::console_hut::ConsoleHut;
use mudhuts::docks::{
    advance_drag, build, drag_output, finish_drag, handle_layout, handle_position, hit_test,
    start_drag, truncate, Drags, HandleMetrics, MAX_TITLE_CHARS,
};
use mudhuts::graph_stack::GraphStack;
use mudhuts::main_window::{Dock, Edge, FloatingWindow};

const METRICS: HandleMetrics = HandleMetrics { handle: (140, 28), gap: 4, margin: 40 };

fn docked_hut(id: u64) -> ConsoleHut {
    let mut hut = ConsoleHut::spawned(id, (8, 16));
    hut.push_main_window(10, true, 110);
    hut.set_showing_terminal(false);
    hut.find_main_window_mut(10).unwrap().floating_windows.push(FloatingWindow::new(20));
    hut
}

#[test]
fn left_and_top_sit_flush_against_the_zero_origin() {
    assert_eq!(handle_position(Edge::Left, 0, (1000, 800), (140, 28), 4, 40), (0, 40));
    assert_eq!(handle_position(Edge::Top, 0, (1000, 800), (140, 28), 4, 40), (40, 0));
}

#[test]
fn right_and_bottom_sit_flush_against_the_far_edge() {
    assert_eq!(handle_position(Edge::Right, 0, (1000, 800), (140, 28), 4, 40), (1000 - 140, 40));
    assert_eq!(handle_position(Edge::Bottom, 0, (1000, 800), (140, 28), 4, 40), (40, 800 - 28));
}

#[test]
fn stacking_offset_accumulates_by_size_plus_gap() {
    assert_eq!(handle_position(Edge::Left, 2, (1000, 800), (140, 28), 4, 40), (0, 40 + 2 * (28 + 4)));
    assert_eq!(handle_position(Edge::Top, 2, (1000, 800), (140, 28), 4, 40), (40 + 2 * (140 + 4), 0));
}

#[test]
fn left_and_top_ignore_the_far_output_dimension() {
    assert_eq!(handle_position(Edge::Left, 0, (1000, 800), (140, 28), 4, 40).0, 0);
    assert_eq!(handle_position(Edge::Left, 0, (5000, 8000), (140, 28), 4, 40).0, 0);
    assert_eq!(handle_position(Edge::Top, 0, (1000, 800), (140, 28), 4, 40).1, 0);
    assert_eq!(handle_position(Edge::Top, 0, (5000, 8000), (140, 28), 4, 40).1, 0);
}

#[test]
fn truncate_leaves_a_title_exactly_at_the_limit_unchanged() {
    let title = "x".repeat(MAX_TITLE_CHARS);
    assert_eq!(truncate(&title), title);
}

#[test]
fn truncate_shortens_a_title_one_over_the_limit() {
    let title = "x".repeat(MAX_TITLE_CHARS + 1);
    let result = truncate(&title);
    assert_eq!(result.chars().count(), MAX_TITLE_CHARS);
    assert!(result.ends_with('\u{2026}'));
    assert_eq!(result.chars().filter(|&c| c == 'x').count(), MAX_TITLE_CHARS - 1);
}

#[test]
fn truncate_leaves_an_empty_title_unchanged() {
    assert_eq!(truncate(""), "");
}

#[test]
fn truncate_counts_multi_byte_characters_not_bytes() {
    let title = "\u{1f980}".repeat(MAX_TITLE_CHARS + 1);
    let result = truncate(&title);
    assert_eq!(result.chars().count(), MAX_TITLE_CHARS);
    assert!(result.ends_with('\u{2026}'));
}

#[test]
fn a_docked_window_has_a_handle_that_can_be_hit() {
    let hut = docked_hut(1);
    let handles = handle_layout(&hut, (1000, 800), METRICS);
    assert_eq!(handles.len(), 1);
    assert_eq!(handles[0].surface, 20);
    assert_eq!(handles[0].rect, (860, 40, 140, 28));
    assert_eq!(hit_test(&handles, (870, 50)), Some(20));
    assert_eq!(hit_test(&handles, (859, 50)), None);
}

#[test]
fn a_handle_is_drawn_with_its_shortened_title() {
    let hut = docked_hut(1);
    let titles = vec!["files".to_string()];
    let draws = build(&hut, (1000, 800), &titles, &vec![None], METRICS, 6);
    assert_eq!(draws.len(), 1);
    assert_eq!(draws[0].surface, 20);
    assert_eq!(draws[0].rect, (860, 40, 140, 28));
    assert_eq!(draws[0].text_at, (866, 46));
    assert_eq!(draws[0].title, "files");
    assert!(draws[0].stale);
    let again = build(&hut, (1000, 800), &titles, &vec![Some("files".to_string())], METRICS, 6);
    assert!(!again[0].stale);
}

#[test]
fn dragging_a_handle_out_floats_it_and_letting_go_at_an_edge_docks_it_there() {
    let mut stack = GraphStack::new(docked_hut(1), 500, 600);
    let mut drags = Drags { dock_drag: None, dragging_hut_id: None };
    assert!(!start_drag(&mut drags, &stack, (10, 10), (0, 0), (1000, 800), METRICS));
    assert!(start_drag(&mut drags, &stack, (870, 50), (870, 50), (1000, 800), METRICS));
    assert_eq!(drag_output(&mut drags, &stack), Some(0));

    advance_drag(&mut drags, &mut stack, 0, (500, 300), false, (0, 0));
    assert_eq!(stack.focused_mut().floating_window_mut(20).unwrap().dock, Dock::Docked(Edge::Right));

    advance_drag(&mut drags, &mut stack, 0, (10, 300), true, (0, 0));
    assert_eq!(stack.focused_mut().floating_window_mut(20).unwrap().dock, Dock::Floating((10, 300)));
    assert!(drags.dock_drag.as_ref().unwrap().detached);

    let ended =
        finish_drag(&mut drags, &mut stack, Some((200, 200)), &vec![(1000, 800)], &vec![(0, 0)]);
    assert!(ended);
    assert!(drags.dock_drag.is_none());
    assert_eq!(stack.focused_mut().floating_window_mut(20).unwrap().dock, Dock::Docked(Edge::Left));
}

#[test]
fn handles_are_hidden_while_the_terminal_is_showing() {
    let mut hut = docked_hut(1);
    hut.set_showing_terminal(true);
    assert!(handle_layout(&hut, (1000, 800), METRICS).is_empty());
    hut.set_showing_terminal(false);
    assert_eq!(handle_layout(&hut, (1000, 800), METRICS).len(), 1);
}
