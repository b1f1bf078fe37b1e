use mudhuts::chrome::{
    build, strip_height, tab_h, tab_layout, tab_row_layout, truncate_with_ellipsis, window_app_id,
    window_title, LabelKey, StripMetrics, TabRect, LEFT_MARGIN, TAB_GAP, TAB_PADDING, TabTheme,
};
use mudhuts::console_hut::ConsoleHut;

fn scaled(n: i32, scale: f64) -> i32 {
    (n as f64 * scale).round() as i32
}

fn metrics(cell_w: usize, cell_h: i32, scale: f64) -> StripMetrics {
    StripMetrics {
        cell_w,
        cell_h,
        padding: scaled(TAB_PADDING, scale),
        gap: scaled(TAB_GAP, scale),
        left_margin: scaled(LEFT_MARGIN, scale),
    }
}

fn height(cell_h: i32, scale: f64) -> i32 {
    tab_h(cell_h, scaled(TAB_PADDING, scale))
}

fn layout(counts: &[usize], y: i32) -> Vec<TabRect> {
    tab_row_layout(&counts.to_vec(), y, metrics(8, 20, 1.0))
}

#[test]
fn tab_h_adds_padding_on_both_sides_of_the_cell_height() {
    assert_eq!(height(20, 1.0), 20 + TAB_PADDING * 2);
}

#[test]
fn tab_h_scales_the_padding_but_not_the_cell_height() {
    assert_eq!(height(20, 2.0), 20 + TAB_PADDING * 2 * 2);
}

#[test]
fn tab_row_layout_of_no_labels_is_empty() {
    assert!(layout(&[], 0).is_empty());
}

#[test]
fn tab_row_layout_starts_at_the_left_margin_and_the_given_row() {
    let rects = layout(&[1], 40);
    assert_eq!(rects.len(), 1);
    assert_eq!(rects[0].index, 0);
    assert_eq!((rects[0].rect.x, rects[0].rect.y), (LEFT_MARGIN, 40));
    assert_eq!(rects[0].rect.h, height(20, 1.0));
}

#[test]
fn tab_row_layout_widens_for_longer_labels() {
    let rects = layout(&[1, "much longer label".chars().count()], 0);
    assert!(rects[1].rect.w > rects[0].rect.w);
}

#[test]
fn tab_row_layout_places_each_tab_after_the_previous_ones_gap() {
    let rects = layout(&[1, 1], 0);
    let first = &rects[0].rect;
    let second = &rects[1].rect;
    assert_eq!(second.x, first.x + first.w + TAB_GAP);
}

#[test]
fn tab_row_layout_indexes_rects_in_label_order() {
    let rects = layout(&[1, 1, 1], 0);
    assert_eq!(rects.iter().map(|r| r.index).collect::<Vec<_>>(), vec![0, 1, 2]);
}

#[test]
fn a_long_label_is_cut_and_marked() {
    assert_eq!(truncate_with_ellipsis("abcdef", 6), "abcdef");
    assert_eq!(truncate_with_ellipsis("abcdefg", 6), "abcde\u{2026}");
    assert_eq!(truncate_with_ellipsis("abc", 1), "\u{2026}");
    assert_eq!(truncate_with_ellipsis("abc", 0), "");
    assert_eq!(truncate_with_ellipsis("", 0), "");
}

#[test]
fn a_window_is_titled_by_what_it_has() {
    let some = |s: &str| Some(s.to_string());
    assert_eq!(window_title(&some("notes"), &some("editor")), "notes");
    assert_eq!(window_title(&None, &some("editor")), "editor");
    assert_eq!(window_app_id(&some("editor")), "editor");
}

#[test]
fn a_strip_draws_one_tab_per_window_and_the_terminal() {
    let mut hut = ConsoleHut::spawned(1, (8, 16));
    hut.push_main_window(10, true, 110);
    hut.set_showing_terminal(false);
    let m = metrics(8, 20, 1.0);
    let titles = vec!["notes".to_string()];
    let rects = tab_layout(&hut, 0, &titles, m);
    assert_eq!(rects.len(), 2);
    assert!(strip_height(&hut, m) > 0);
    let theme = TabTheme {
        tab_active_fg: [1; 3],
        tab_active_bg: [2; 3],
        tab_inactive_fg: [3; 3],
        tab_inactive_bg: [4; 3],
    };
    let draws = build(&hut, 0, &titles, &vec![None, None], &vec![None, None], m, theme);
    assert!(!draws[0].active);
    assert!(draws[1].active);
    assert_eq!(draws[1].label, "notes");
    assert!(draws[1].stale);
    let kept = LabelKey { label: "notes".to_string(), active: true };
    assert_eq!((draws[0].fg, draws[0].bg), ([3; 3], [4; 3]));
    assert_eq!((draws[1].fg, draws[1].bg), ([1; 3], [2; 3]));
    assert!(draws[0].bg_changed);
    let last = vec![Some(true), Some(true)];
    let again = build(&hut, 0, &titles, &vec![None, Some(kept)], &last, m, theme);
    assert!(again[0].stale);
    assert!(!again[1].stale);
    assert!(again[0].bg_changed);
    assert!(!again[1].bg_changed);
}
