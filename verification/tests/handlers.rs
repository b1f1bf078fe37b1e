use mudhuts::chrome::Rect;
use mudhuts::console_hut::ConsoleHut;
use mudhuts::graph_stack::GraphStack;
use mudhuts::handlers::capture::{
    buffer_constraints_for_mode, prepare_capture, shm_copy_plan, CaptureJob, CaptureSession,
    CaptureSessions, FailureReason, ShmBuffer, ShmFormat,
};
use mudhuts::handlers::compositor::{
    commit_target, fractional_scale_output, surface_root, CommitTarget,
};
use mudhuts::handlers::layer_shell::{after_arranging, layer_home, layer_output, reconfigure_main_windows};
use mudhuts::handlers::power_button::PowerButtons;
use mudhuts::handlers::session_lock::{LockSurfaceAction, SessionLock};
use mudhuts::handlers::shell::{
    focus_after_retag, resolve_by_identifier, retag, window_role, Authority, AuthorityReply,
    AuthorityRequest, ListedToplevel, Nesting, Role, RoleRequest,
};
use mudhuts::handlers::xdg_shell::{
    check_grab, handle_commit, move_request, new_toplevel, popup_target, resize_all_main_windows,
    toplevel_destroyed, CommitAction,
};

#[test]
fn a_tightly_packed_destination_copies_every_row_contiguously() {
    let row_bytes = 4 * 4;
    let plan = shm_copy_plan((4, 3), 0, row_bytes as i32, row_bytes * 3, row_bytes * 3);
    assert_eq!(plan.len(), 3);
    assert_eq!(plan[0], (0..row_bytes, 0..row_bytes));
    assert_eq!(plan[1], (row_bytes..2 * row_bytes, row_bytes..2 * row_bytes));
    assert_eq!(plan[2], (2 * row_bytes..3 * row_bytes, 2 * row_bytes..3 * row_bytes));
}

#[test]
fn a_wider_destination_stride_leaves_a_gap_between_destination_rows() {
    let row_bytes = 16;
    let stride = 32;
    let plan = shm_copy_plan((4, 2), 0, stride, row_bytes * 2, stride as usize * 2);
    assert_eq!(plan[0].1, 0..row_bytes);
    assert_eq!(plan[1].1, stride as usize..stride as usize + row_bytes);
    assert_eq!(plan[1].0, row_bytes..2 * row_bytes);
}

#[test]
fn a_nonzero_offset_shifts_every_destination_row() {
    let row_bytes = 16;
    let offset = 100;
    let plan =
        shm_copy_plan((4, 2), offset, row_bytes as i32, row_bytes * 2, offset as usize + row_bytes * 2);
    assert_eq!(plan[0].1, offset as usize..offset as usize + row_bytes);
    assert_eq!(plan[1].1, offset as usize + row_bytes..offset as usize + 2 * row_bytes);
}

#[test]
fn stops_before_a_row_that_would_overrun_the_source() {
    let row_bytes = 16;
    let plan = shm_copy_plan((4, 5), 0, row_bytes as i32, row_bytes * 2, row_bytes * 10);
    assert_eq!(plan.len(), 2);
}

#[test]
fn stops_before_a_row_that_would_overrun_the_destination() {
    let row_bytes = 16;
    let plan = shm_copy_plan((4, 5), 0, row_bytes as i32, row_bytes * 10, row_bytes * 2);
    assert_eq!(plan.len(), 2);
}

#[test]
fn zero_height_produces_an_empty_plan() {
    assert!(shm_copy_plan((4, 0), 0, 16, 0, 0).is_empty());
}

#[test]
fn a_capture_needs_an_output_a_known_format_and_a_renderer() {
    let buffer = ShmBuffer { fourcc: Some(0x34325241), offset: 4, stride: 64 };
    let odd = ShmBuffer { fourcc: None, offset: 4, stride: 64 };
    let job = CaptureJob { output_index: 0, size: (16, 9), fourcc: 0x34325241, offset: 4, stride: 64 };
    assert_eq!(prepare_capture(Some(0), Some((16, 9)), Some(buffer), true), Ok(job));
    assert_eq!(
        prepare_capture(Some(0), Some((16, 9)), Some(odd), true),
        Err(FailureReason::BufferConstraints)
    );
    assert_eq!(prepare_capture(Some(0), Some((16, 9)), Some(buffer), false), Err(FailureReason::Unknown));
    assert_eq!(prepare_capture(None, Some((16, 9)), Some(buffer), true), Err(FailureReason::Unknown));
    assert_eq!(prepare_capture(Some(0), None, Some(buffer), true), Err(FailureReason::Unknown));
    assert_eq!(prepare_capture(Some(0), Some((16, 9)), None, true), Err(FailureReason::Unknown));
    let constraints = buffer_constraints_for_mode((16, 9));
    assert_eq!(constraints.size, (16, 9));
    assert_eq!(constraints.shm, vec![ShmFormat::Argb8888, ShmFormat::Xrgb8888]);
}

#[test]
fn sessions_are_told_of_their_own_outputs_size() {
    let mut sessions = CaptureSessions::new();
    sessions.new_session(CaptureSession { id: 1, output: Some(500) });
    sessions.new_session(CaptureSession { id: 2, output: None });
    sessions.new_session(CaptureSession { id: 3, output: Some(501) });
    let modes = vec![(500, (16, 9)), (501, (4, 3))];
    assert_eq!(sessions.refresh_capture_constraints(&modes), vec![(1, (16, 9)), (3, (4, 3))]);
    sessions.session_destroyed(1);
    assert_eq!(sessions.refresh_capture_constraints(&modes), vec![(3, (4, 3))]);
}

fn stack_with_windows(windows: &[u64]) -> GraphStack {
    let mut hut = ConsoleHut::spawned(1, (8, 16));
    for &window in windows {
        hut.push_main_window(window, false, window + 100);
    }
    GraphStack::new(hut, 500, 600)
}

#[test]
fn a_commit_notifies_its_root() {
    assert_eq!(surface_root(1, &vec![]), 1);
    assert_eq!(surface_root(1, &vec![2, 3]), 3);
    assert_eq!(commit_target(1, true, &vec![2]), CommitTarget { notify_root: None, root_is_surface: false });
    assert_eq!(
        commit_target(1, false, &vec![]),
        CommitTarget { notify_root: Some(1), root_is_surface: true }
    );
    assert_eq!(
        commit_target(1, false, &vec![2]),
        CommitTarget { notify_root: Some(2), root_is_surface: false }
    );
}

#[test]
fn a_surface_is_told_its_consoles_scale() {
    let mut stack = stack_with_windows(&[]);
    stack.add_output(501, (1920, 0), 601, Ok(ConsoleHut::spawned(2, (8, 16)))).unwrap();
    assert_eq!(fractional_scale_output(&stack, false, Some(2)), None);
    assert_eq!(fractional_scale_output(&stack, true, Some(2)), Some(1));
    assert_eq!(fractional_scale_output(&stack, true, Some(99)), Some(0));
    assert_eq!(fractional_scale_output(&stack, true, None), Some(0));
}

#[test]
fn a_layer_goes_to_the_output_it_names() {
    let stack = stack_with_windows(&[10, 20]);
    assert_eq!(layer_output(Some(7), Some(8)), Some(7));
    assert_eq!(layer_output(None, Some(8)), Some(8));
    assert_eq!(layer_home(&stack, Some(9), &vec![true]), Some(9));
    assert_eq!(layer_home(&stack, None, &vec![true]), Some(500));
    assert_eq!(layer_home(&stack, None, &vec![false]), None);
    let area = |w: i32| Rect { x: 0, y: 0, w, h: 600 };
    assert_eq!(after_arranging(&stack, 500, area(800), area(800)), Vec::<u64>::new());
    assert_eq!(after_arranging(&stack, 500, area(800), area(700)), vec![10, 20]);
    assert_eq!(after_arranging(&stack, 501, area(800), area(700)), Vec::<u64>::new());
    assert_eq!(reconfigure_main_windows(&stack, 0), vec![10, 20]);
    assert_eq!(resize_all_main_windows(&stack), vec![10, 20]);
}

#[test]
fn a_press_is_forgotten_with_the_last_listener() {
    let mut buttons = PowerButtons::new();
    buttons.get_power_button(1);
    buttons.get_power_button(2);
    buttons.pressed_reported = true;
    buttons.destroyed(1);
    assert!(buttons.pressed_reported);
    buttons.destroyed(2);
    assert!(!buttons.pressed_reported);
    assert!(buttons.objects.is_empty());
}

#[test]
fn only_one_client_locks_at_a_time() {
    let mut lock = SessionLock::new();
    assert!(lock.lock(1));
    assert!(!lock.lock(2));
    assert_eq!(lock.new_surface(30, 2, Some(Some((800, 600)))), LockSurfaceAction::Ignore);
    assert_eq!(lock.new_surface(30, 1, None), LockSurfaceAction::Ignore);
    assert_eq!(
        lock.new_surface(30, 1, Some(Some((800, -1)))),
        LockSurfaceAction::Configure(Some((800, 0)))
    );
    assert_eq!(lock.lock_surface, Some(30));
    assert_eq!(lock.take_pending(), Some(1));
    assert_eq!(lock.take_pending(), None);
    lock.unlock();
    assert!(!lock.locked);
    assert!(lock.lock(2));
}

#[test]
fn a_window_moves_between_roles() {
    let mut stack = stack_with_windows(&[10, 20]);
    let to_float = Some(Nesting { role: Role::Floating, main: 10 });
    let tagged = retag(&mut stack, 20, to_float, 0).unwrap();
    assert_eq!(tagged.hut_id, 1);
    assert!(tagged.nested);
    assert!(stack.focused().has_floating_window(20));
    assert_eq!(stack.focused().main_window_count(), 1);

    let to_alert = Some(Nesting { role: Role::Alert, main: 10 });
    assert!(retag(&mut stack, 20, to_alert, 0).unwrap().nested);
    assert!(stack.focused().has_alert(20));
    assert!(!focus_after_retag(&stack, tagged, 20));
    stack.focused_mut().sync_main_window_space((0, 0));
    assert!(stack.focused().placed_at(20).is_some() == focus_after_retag(&stack, tagged, 20));

    assert!(!retag(&mut stack, 20, None, 120).unwrap().nested);
    assert_eq!(stack.focused().main_window_count(), 2);
    assert!(retag(&mut stack, 99, None, 199).is_none());
}

#[test]
fn a_window_asks_for_its_own_role() {
    let mut stack = stack_with_windows(&[10, 20]);
    assert!(window_role(&mut stack, None, RoleRequest::SetMain, 1).is_none());
    assert!(window_role(&mut stack, Some(20), RoleRequest::SetFloating(None), 1).is_none());
    assert!(window_role(&mut stack, Some(20), RoleRequest::SetFloating(Some(10)), 1).unwrap().nested);
    assert!(window_role(&mut stack, Some(20), RoleRequest::Destroy, 1).is_none());
    assert!(stack.focused().has_floating_window(20));
}

fn listed() -> Vec<ListedToplevel> {
    vec![
        ListedToplevel { handle: 110, identifier: "a".to_string() },
        ListedToplevel { handle: 120, identifier: "b".to_string() },
    ]
}

#[test]
fn a_window_is_found_by_the_name_it_is_listed_under() {
    let stack = stack_with_windows(&[10, 20]);
    assert_eq!(resolve_by_identifier(&stack, &listed(), "b"), Some(20));
    assert_eq!(resolve_by_identifier(&stack, &listed(), "c"), None);
}

#[test]
fn only_an_authenticated_client_tags_windows() {
    let mut stack = stack_with_windows(&[10, 20]);
    let mut authority = Authority::default();
    let float = || AuthorityRequest::SetFloating("b".to_string(), "a".to_string());
    assert!(matches!(
        authority.request(&mut stack, float(), "secret", &listed(), 1),
        AuthorityReply::NotAuthenticated
    ));
    let wrong = AuthorityRequest::Authenticate("guess".to_string());
    assert!(matches!(
        authority.request(&mut stack, wrong, "secret", &listed(), 1),
        AuthorityReply::BadToken
    ));
    let right = AuthorityRequest::Authenticate("secret".to_string());
    assert!(matches!(
        authority.request(&mut stack, right, "secret", &listed(), 1),
        AuthorityReply::Silent
    ));
    assert!(matches!(
        authority.request(&mut stack, AuthorityRequest::SetMain("c".to_string()), "secret", &listed(), 1),
        AuthorityReply::UnknownToplevel
    ));
    assert!(matches!(
        authority.request(&mut stack, float(), "secret", &listed(), 1),
        AuthorityReply::Tagged(Some(_))
    ));
    assert!(stack.focused().has_floating_window(20));
}

#[test]
fn a_first_window_takes_over_from_the_terminal() {
    let mut stack = stack_with_windows(&[]);
    let opened = new_toplevel(&mut stack, None, 10, 110);
    assert_eq!(opened.hut_id, 1);
    assert_eq!(opened.output_index, Some(0));
    assert_eq!(stack.focused().active_window(), Some(10));
    let closed = toplevel_destroyed(&mut stack, 10);
    assert!(closed);
    assert_eq!(stack.focused().main_window_count(), 0);
    assert!(stack.focused().showing_terminal());
}

#[test]
fn only_a_nested_window_on_screen_is_dragged() {
    let mut stack = stack_with_windows(&[10, 20]);
    retag(&mut stack, 20, Some(Nesting { role: Role::Alert, main: 10 }), 0);
    assert!(move_request(&stack, 20).is_none());
    stack.focused_mut().set_active_main_window(0);
    stack.focused_mut().set_showing_terminal(false);
    stack.focused_mut().sync_main_window_space((0, 0));
    let start = move_request(&stack, 20).unwrap();
    assert!(!start.floating_window);
    assert_eq!(start.location, (100, 100));
    assert!(move_request(&stack, 10).is_none());
    assert!(check_grab(true, true, true));
    assert!(!check_grab(true, true, false));
}

#[test]
fn the_first_commit_of_a_toplevel_is_answered() {
    assert_eq!(handle_commit(true, false, false, false), CommitAction::Configure { fullscreen: true });
    assert_eq!(handle_commit(true, false, true, false), CommitAction::Configure { fullscreen: false });
    assert_eq!(handle_commit(true, false, false, true), CommitAction::Configure { fullscreen: false });
    assert_eq!(handle_commit(true, true, false, false), CommitAction::Nothing);
    assert_eq!(handle_commit(false, false, false, false), CommitAction::Nothing);
}

#[test]
fn a_popup_stays_in_its_window_or_output() {
    let output = Rect { x: 100, y: 0, w: 800, h: 600 };
    let inside = popup_target(Some((300, 200)), output, (10, 20));
    assert_eq!((inside.x, inside.y, inside.w, inside.h), (-10, -20, 300, 200));
    let outside = popup_target(None, output, (10, 20));
    assert_eq!((outside.x, outside.y, outside.w, outside.h), (90, -20, 800, 600));
}

#[test]
fn a_main_window_tagged_again_keeps_the_view() {
    let mut stack = stack_with_windows(&[10, 20, 30]);
    stack.focused_mut().set_active_main_window(1);
    retag(&mut stack, 10, None, 110).unwrap();
    assert_eq!(stack.focused().active_window(), Some(20), "a background window stays in the background");
    retag(&mut stack, 20, None, 120).unwrap();
    assert_eq!(stack.focused().active_window(), Some(20), "the active one stays active");
    assert_eq!(stack.focused().main_window_count(), 3);
}

#[test]
fn a_promoted_window_comes_to_the_front() {
    let mut stack = stack_with_windows(&[10, 20, 30]);
    stack.focused_mut().set_active_main_window(2);
    retag(&mut stack, 20, Some(Nesting { role: Role::Alert, main: 10 }), 0).unwrap();
    assert_eq!(stack.focused().active_window(), Some(30), "nesting one leaves the active one active");
    retag(&mut stack, 20, None, 120).unwrap();
    assert_eq!(stack.focused().active_window(), Some(20));
}

#[test]
fn a_later_window_does_not_steal_the_view() {
    let mut stack = stack_with_windows(&[10]);
    stack.focused_mut().set_showing_terminal(true);
    new_toplevel(&mut stack, Some(1), 20, 120);
    assert_eq!(stack.focused().active_main_window_index(), 0);
    assert!(stack.focused().showing_terminal());
    assert_eq!(stack.focused().main_window_count(), 2);
}

/// How often the console that has focus holds a window.
fn times_held(stack: &GraphStack, window: u64) -> usize {
    let mut times = 0;
    for entry in stack.focused().main_windows() {
        times += usize::from(entry.window == window);
        times += entry.floating_windows.iter().filter(|f| f.window == window).count();
        times += entry.alerts.iter().filter(|a| a.window == window).count();
    }
    times
}

#[test]
fn a_window_is_held_once_whatever_it_is_tagged_as() {
    let mut stack = stack_with_windows(&[10]);
    new_toplevel(&mut stack, Some(1), 20, 120);
    new_toplevel(&mut stack, Some(1), 30, 130);
    let under = |role: Role, main: u64| Some(Nesting { role, main });
    for target in [under(Role::Floating, 10), under(Role::Alert, 30), under(Role::Floating, 30), None] {
        retag(&mut stack, 20, target, 120).unwrap();
        assert_eq!(times_held(&stack, 20), 1);
        assert_eq!((times_held(&stack, 10), times_held(&stack, 30)), (1, 1));
    }
    assert!(stack.focused().has_bare_main_window(20));
    assert!(!stack.focused().has_floating_window(20) && !stack.focused().has_alert(20));
    toplevel_destroyed(&mut stack, 20);
    assert_eq!(times_held(&stack, 20), 0);
    assert!(!stack.focused().holds_window(20));
}
