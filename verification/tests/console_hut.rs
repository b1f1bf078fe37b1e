use mudhuts::console_hut::{fit_grid, next_hut_id, pixel_to_cell, ConsoleHut, GridFit};
use mudhuts::main_window::{Alert, Dock, Edge, FloatingWindow};

fn new_hut() -> ConsoleHut {
    ConsoleHut::spawned(1, (8, 16))
}

#[test]
fn a_second_main_window_arriving_in_the_background_does_not_steal_the_active_tab() {
    let mut hut = new_hut();
    hut.push_main_window(10, true, 110);
    hut.push_main_window(20, false, 120);
    assert_eq!(hut.active_main_window_index(), 0, "the 2nd window joined the tab strip without activating");
    assert_eq!(hut.main_window_count(), 2);
}

#[test]
fn take_bare_main_window_shifts_active_index_to_keep_pointing_at_the_same_survivor() {
    let mut hut = new_hut();
    let (a, b, c) = (10, 20, 30);
    hut.push_main_window(a, true, 110);
    hut.push_main_window(b, false, 120);
    hut.push_main_window(c, false, 130);
    hut.set_active_main_window(2);

    let taken = hut.take_bare_main_window(a);
    assert!(taken.is_some(), "A should have been found and removed");
    assert_eq!(hut.main_window_count(), 2);
    assert_eq!(hut.active_main_window_index(), 1, "C shifted left into A's old slot");
    assert_eq!(hut.active_window(), Some(c), "active tab is still C, not B");
}

#[test]
fn remove_window_falls_back_to_the_terminal_once_the_last_main_window_is_gone() {
    let mut hut = new_hut();
    hut.push_main_window(10, true, 110);
    hut.set_showing_terminal(false);

    assert!(hut.remove_window(10));
    assert_eq!(hut.main_window_count(), 0);
    assert!(hut.showing_terminal(), "no Main Windows left, so the terminal should show again");
}

#[test]
fn remove_window_also_finds_a_floating_window_or_alert_nested_under_a_main_window() {
    let mut hut = new_hut();
    hut.push_main_window(10, true, 110);
    hut.find_main_window_mut(10).unwrap().floating_windows.push(FloatingWindow::new(20));

    assert!(hut.remove_window(20), "should be found nested under A, not just at the top level");
    assert_eq!(
        hut.main_window_count(),
        1,
        "removing a nested Floating Window must not remove its owning Main Window"
    );
    assert!(hut.find_main_window_mut(10).unwrap().floating_windows.is_empty());
    assert!(!hut.remove_window(20));
}

#[test]
fn cycle_tab_wraps_in_both_directions() {
    let mut hut = new_hut();
    hut.push_main_window(10, true, 110);
    hut.push_main_window(20, false, 120);
    hut.push_main_window(30, false, 130);

    assert_eq!(hut.active_main_window_index(), 0);
    hut.cycle_tab(true);
    assert_eq!(hut.active_main_window_index(), 1);
    hut.cycle_tab(true);
    assert_eq!(hut.active_main_window_index(), 2);
    hut.cycle_tab(true);
    assert_eq!(hut.active_main_window_index(), 0, "forward from the last tab wraps to the first");
    hut.cycle_tab(false);
    assert_eq!(hut.active_main_window_index(), 2, "backward from the first tab wraps to the last");
}

#[test]
fn sync_main_window_space_maps_everything_at_its_real_documented_position() {
    let mut hut = new_hut();
    let (main, floating, alert) = (10, 20, 30);
    hut.push_main_window(main, true, 110);
    hut.set_showing_terminal(false);
    let entry = hut.find_main_window_mut(main).unwrap();
    let mut fw = FloatingWindow::new(floating);
    fw.dock = Dock::Floating((40, 50));
    entry.floating_windows.push(fw);
    entry.alerts.push(Alert::new(alert));

    hut.sync_main_window_space((10, 20));

    assert_eq!(hut.placed_at(main), Some((10, 20)), "the Main Window maps at the usable area's own origin");
    assert_eq!(
        hut.placed_at(floating),
        Some((40, 50)),
        "a Floating Window's tracked position is already absolute, like an Alert's"
    );
    assert_eq!(
        hut.placed_at(alert),
        Some((100, 100)),
        "an Alert's tracked position is already absolute, not origin-relative"
    );
}

#[test]
fn sync_main_window_space_leaves_a_docked_floating_window_unmapped() {
    let mut hut = new_hut();
    let (main, docked) = (10, 20);
    hut.push_main_window(main, true, 110);
    hut.set_showing_terminal(false);
    hut.find_main_window_mut(main).unwrap().floating_windows.push(FloatingWindow::new(docked));

    hut.sync_main_window_space((0, 0));

    assert!(
        hut.placed_at(docked).is_none(),
        "a docked window has a handle drawn for it instead of being mapped"
    );
    assert_eq!(FloatingWindow::new(docked).dock, Dock::Docked(Edge::Right));
}

#[test]
fn ids_go_up_by_one() {
    let mut next = 7;
    assert_eq!(next_hut_id(&mut next), 7);
    assert_eq!(next_hut_id(&mut next), 8);
    assert_eq!(next, 9);
}

#[test]
fn a_grid_has_at_least_one_cell_each_way() {
    let fit = fit_grid((800, 600), (8, 16));
    assert_eq!((fit.cols, fit.lines, fit.cell), (100, 37, (8, 16)));
    let tiny = fit_grid((3, -5), (8, 16));
    assert_eq!((tiny.cols, tiny.lines), (1, 1));
}

#[test]
fn a_pixel_falls_in_its_cell_and_half() {
    assert_eq!(pixel_to_cell(17, 33, (8, 16), 80, 24), (2, 2, true));
    assert_eq!(pixel_to_cell(22, 33, (8, 16), 80, 24), (2, 2, false));
    assert_eq!(pixel_to_cell(100_000, 100_000, (8, 16), 80, 24).0, 79);
    assert_eq!(pixel_to_cell(100_000, 100_000, (8, 16), 80, 24).1, 23);
}

#[test]
fn resizing_to_the_same_pixels_changes_nothing() {
    let mut hut = new_hut();
    let first: Option<GridFit> = hut.resize_to_pixels(800, 600, (8, 16));
    assert!(first.is_some());
    assert!(hut.resize_to_pixels(800, 600, (8, 16)).is_none());
    let again = hut.rescale((16, 32));
    assert_eq!((again.cols, again.lines), (50, 18));
}

#[test]
fn a_new_hut_is_untouched_and_shows_its_terminal() {
    let mut hut = new_hut();
    assert!(!hut.touched());
    assert!(hut.showing_terminal());
    assert_eq!(hut.active_window(), None);
    hut.cycle_tab(true);
    assert_eq!(hut.active_main_window_index(), 0);
    hut.mark_touched();
    assert!(hut.touched());
}

#[test]
fn a_nested_window_is_taken_without_its_owner() {
    let mut hut = new_hut();
    hut.push_main_window(10, true, 110);
    let entry = hut.find_main_window_mut(10).unwrap();
    entry.floating_windows.push(FloatingWindow::new(20));
    entry.alerts.push(Alert::new(30));
    assert!(hut.holds_window(10) && hut.holds_window(20) && hut.holds_window(30));
    assert!(!hut.has_bare_main_window(20));
    assert!(hut.has_floating_window(20));
    assert!(hut.has_alert(30));
    assert_eq!(hut.take_nested_window(30), Some(30));
    assert_eq!(hut.take_nested_window(20), Some(20));
    assert_eq!(hut.take_nested_window(10), None);
    assert!(!hut.holds_window(20) && !hut.holds_window(30));
}

/// A console showing its second Main Window, which floats one window, docks
/// another and has an Alert.
fn hut_with_everything() -> ConsoleHut {
    let mut hut = new_hut();
    hut.push_main_window(10, true, 110);
    hut.push_main_window(20, true, 120);
    hut.set_showing_terminal(false);
    let entry = hut.find_main_window_mut(20).unwrap();
    let mut floating = FloatingWindow::new(21);
    floating.dock = Dock::Floating((40, 50));
    entry.floating_windows.push(floating);
    entry.floating_windows.push(FloatingWindow::new(22));
    entry.alerts.push(Alert::new(23));
    hut
}

fn windows_on_screen(hut: &ConsoleHut) -> Vec<u64> {
    hut.space().iter().map(|placed| placed.window).collect()
}

#[test]
fn just_the_active_main_window_and_its_own_are_on_screen() {
    let mut hut = hut_with_everything();
    hut.sync_main_window_space((0, 0));
    assert_eq!(windows_on_screen(&hut), vec![20, 21, 23], "back to front, the Alert on top");
    hut.sync_main_window_space((0, 0));
    assert_eq!(windows_on_screen(&hut), vec![20, 21, 23], "arranging again changes nothing");
    hut.set_active_main_window(0);
    hut.sync_main_window_space((0, 0));
    assert_eq!(windows_on_screen(&hut), vec![10]);
    hut.set_showing_terminal(true);
    hut.sync_main_window_space((0, 0));
    assert!(hut.space().is_empty());
}

#[test]
fn a_window_that_is_held_twice_is_on_screen_once() {
    let mut hut = hut_with_everything();
    hut.find_main_window_mut(20).unwrap().alerts.push(Alert::new(21));
    hut.sync_main_window_space((0, 0));
    assert_eq!(windows_on_screen(&hut), vec![20, 23, 21]);
    assert_eq!(hut.placed_at(21), Some((100, 100)));
}

#[test]
fn the_active_tab_is_always_one_that_is_there() {
    let mut hut = new_hut();
    hut.push_main_window(10, false, 110);
    hut.push_main_window(20, false, 120);
    hut.set_active_main_window(99);
    assert_eq!(hut.active_main_window_index(), 1);
    hut.remove_window(20);
    assert_eq!(hut.active_window(), Some(10));
    hut.cycle_tab(true);
    assert_eq!(hut.active_window(), Some(10));
}
