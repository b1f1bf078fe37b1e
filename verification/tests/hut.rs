use mudhuts::hut::{pane_rects, shift_active_index_on_removal, wrapping_step, Axis, Direction};

/// The shares of an extent, rounded to whole pixels.
fn shares(fracs: &[f64], extent: i32) -> Vec<i32> {
    let total: f64 = fracs.iter().sum();
    fracs.iter().map(|f| ((f / total) * extent as f64).round() as i32).collect()
}

fn rects(axis: Axis, fracs: &[f64], size: (i32, i32)) -> Vec<(i32, i32, i32, i32)> {
    let extent = match axis {
        Axis::Horizontal => size.0,
        Axis::Vertical => size.1,
    };
    pane_rects(axis, &shares(fracs, extent), size)
}

#[test]
fn pane_rects_splits_proportionally_and_tiles_with_no_gap_or_overlap() {
    assert_eq!(
        rects(Axis::Horizontal, &[0.5, 0.5], (200, 80)),
        vec![(0, 0, 100, 80), (100, 0, 100, 80)]
    );
}

#[test]
fn pane_rects_uneven_fracs_gives_the_last_pane_the_rounding_remainder() {
    assert_eq!(
        rects(Axis::Horizontal, &[1.0, 2.0], (300, 80)),
        vec![(0, 0, 100, 80), (100, 0, 200, 80)]
    );
    assert_eq!(
        rects(Axis::Horizontal, &[1.0, 1.0, 1.0], (100, 80)),
        vec![(0, 0, 33, 80), (33, 0, 33, 80), (66, 0, 34, 80)]
    );
}

#[test]
fn pane_rects_vertical_axis_splits_by_height() {
    assert_eq!(
        rects(Axis::Vertical, &[1.0, 1.0], (200, 80)),
        vec![(0, 0, 200, 40), (0, 40, 200, 40)]
    );
}

#[test]
fn wrapping_step_wraps_in_both_directions() {
    assert_eq!(wrapping_step(3, 0, Direction::Prev), 2);
    assert_eq!(wrapping_step(3, 2, Direction::Next), 0);
    assert_eq!(wrapping_step(3, 1, Direction::Next), 2);
}

#[test]
fn a_step_and_its_reverse_lead_back() {
    for active in 0..5 {
        let there = wrapping_step(5, active, Direction::Next);
        assert_eq!(wrapping_step(5, there, Direction::Prev), active);
    }
}

#[test]
fn the_active_index_follows_its_survivor() {
    assert_eq!(shift_active_index_on_removal(2, 0, 3), 1);
    assert_eq!(shift_active_index_on_removal(1, 2, 2), 1);
    assert_eq!(shift_active_index_on_removal(2, 2, 2), 1);
    assert_eq!(shift_active_index_on_removal(0, 0, 0), 0);
}
