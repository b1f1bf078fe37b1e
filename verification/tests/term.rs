use alacritty_terminal::index::{Column, Line, Point};
use alacritty_terminal::term::test::mock_term;
use alacritty_terminal::term::TermMode;

use mudhuts::term::fonts::use_fallback;
use mudhuts::term::keys::{csi_tilde, encode, function_key, Key, Mods, NamedKey};
use mudhuts::term::mouse::{
    encode_button, encode_drag, extend_selection, point, start_selection, wants_drag_reports,
    wants_reports, GridPoint, BUTTON_LEFT, BUTTON_MIDDLE, BUTTON_RIGHT, BUTTON_WHEEL_DOWN,
    BUTTON_WHEEL_UP,
};
use mudhuts::term::palette::{
    default_entry, dim, lookup, resolve_bg, resolve_fg, Color, Rgb, BOLD, COLOR_COUNT, DIM,
    DIM_BLACK_INDEX,
};
use mudhuts::term::render::{
    blend, collect_cells, damage_bounds, fill_cell, get_pixel, needed_glyphs, put_pixel, render,
    stretches_are_fitting, Content, CursorShape, Damage, Glyph, GlyphSheet, GridCell, LineDamage,
    PixelRect, SelectedRange,
};
use mudhuts::term::terminal::{
    frame_damage, map_event, take_dirty_cells, window_size, EmulatorEvent, GridSize, TermEvent,
    Terminal,
};

fn mods(shift: bool, alt: bool, ctrl: bool) -> Mods {
    Mods { shift, alt, ctrl, logo: false }
}

#[test]
fn encodes_plain_press_and_release() {
    assert_eq!(
        encode_button(BUTTON_LEFT, mods(false, false, false), true, 5, 10),
        b"\x1b[<0;5;10M".to_vec()
    );
    assert_eq!(
        encode_button(BUTTON_LEFT, mods(false, false, false), false, 5, 10),
        b"\x1b[<0;5;10m".to_vec()
    );
}

#[test]
fn modifier_bits_add_to_the_button_code() {
    assert_eq!(encode_button(0, mods(true, false, false), true, 1, 1), b"\x1b[<4;1;1M".to_vec());
    assert_eq!(encode_button(0, mods(false, true, false), true, 1, 1), b"\x1b[<8;1;1M".to_vec());
    assert_eq!(encode_button(0, mods(false, false, true), true, 1, 1), b"\x1b[<16;1;1M".to_vec());
    assert_eq!(encode_button(0, mods(true, true, true), true, 1, 1), b"\x1b[<28;1;1M".to_vec());
}

#[test]
fn different_buttons_get_different_codes() {
    assert_eq!(
        encode_button(BUTTON_RIGHT, mods(false, false, false), true, 1, 1),
        b"\x1b[<2;1;1M".to_vec()
    );
    assert_eq!(
        encode_button(BUTTON_MIDDLE, mods(false, false, false), true, 1, 1),
        b"\x1b[<1;1;1M".to_vec()
    );
}

#[test]
fn wheel_uses_the_high_button_codes() {
    assert_eq!(
        encode_button(BUTTON_WHEEL_UP, mods(false, false, false), true, 3, 4),
        b"\x1b[<64;3;4M".to_vec()
    );
    assert_eq!(
        encode_button(BUTTON_WHEEL_DOWN, mods(false, false, false), true, 3, 4),
        b"\x1b[<65;3;4M".to_vec()
    );
}

#[test]
fn drag_adds_32_and_is_always_a_press() {
    let dragged = encode_drag(BUTTON_LEFT, mods(false, false, false), 7, 8);
    assert_eq!(dragged, b"\x1b[<32;7;8M".to_vec());
}

#[test]
fn no_reports_wanted_without_sgr_mode() {
    assert!(!wants_reports(TermMode::MOUSE_REPORT_CLICK.bits()));
}

#[test]
fn no_reports_wanted_with_sgr_alone_and_no_mouse_mode() {
    assert!(!wants_reports(TermMode::SGR_MOUSE.bits()));
}

#[test]
fn reports_wanted_once_both_sgr_and_a_mouse_mode_are_set() {
    assert!(wants_reports((TermMode::SGR_MOUSE | TermMode::MOUSE_REPORT_CLICK).bits()));
    assert!(wants_reports((TermMode::SGR_MOUSE | TermMode::MOUSE_MOTION).bits()));
    assert!(wants_reports((TermMode::SGR_MOUSE | TermMode::MOUSE_DRAG).bits()));
}

#[test]
fn drag_reports_require_drag_or_motion_specifically() {
    assert!(!wants_drag_reports((TermMode::SGR_MOUSE | TermMode::MOUSE_REPORT_CLICK).bits()));
    assert!(wants_drag_reports((TermMode::SGR_MOUSE | TermMode::MOUSE_DRAG).bits()));
    assert!(wants_drag_reports((TermMode::SGR_MOUSE | TermMode::MOUSE_MOTION).bits()));
}

#[test]
fn selection_start_and_extend_produce_a_range() {
    let term = mock_term("hello\nworld");
    let mut selection = start_selection(0, 0, 0, true);
    extend_selection(&mut selection, 4, 0, 0, false);
    let range = selection.to_range(&term).expect("should produce a range");
    assert_eq!(range.start, Point::new(Line(0), Column(0)));
    assert_eq!(range.end, Point::new(Line(0), Column(4)));
}

#[test]
fn a_selection_dragged_to_the_left_half_stops_a_cell_short() {
    let term = mock_term("hello\nworld");
    let mut selection = start_selection(1, 1, 0, false);
    extend_selection(&mut selection, 4, 1, 0, true);
    let range = selection.to_range(&term).expect("should produce a range");
    assert_eq!(range.start, Point::new(Line(1), Column(2)));
    assert_eq!(range.end, Point::new(Line(1), Column(3)));
}

#[test]
fn point_subtracts_display_offset_from_the_screen_relative_row() {
    assert_eq!(point(0, 5, 0), GridPoint { line: 5, column: 0 });
    assert_eq!(point(0, 5, 3), GridPoint { line: 2, column: 0 });
    assert_eq!(point(0, 2, 5), GridPoint { line: -3, column: 0 });
}

#[test]
fn arrows_follow_the_cursor_mode() {
    let none = Mods::default();
    assert_eq!(encode(Key::Named(NamedKey::Up), none, 0), Some(b"\x1b[A".to_vec()));
    assert_eq!(
        encode(Key::Named(NamedKey::Up), none, TermMode::APP_CURSOR.bits()),
        Some(b"\x1bOA".to_vec())
    );
    assert_eq!(
        encode(Key::Named(NamedKey::Left), mods(true, false, true), TermMode::APP_CURSOR.bits()),
        Some(b"\x1b[1;6D".to_vec())
    );
}

#[test]
fn editing_keys_have_their_sequences() {
    let none = Mods::default();
    assert_eq!(encode(Key::Named(NamedKey::Enter), none, 0), Some(b"\r".to_vec()));
    assert_eq!(encode(Key::Named(NamedKey::Backspace), none, 0), Some(b"\x7f".to_vec()));
    assert_eq!(encode(Key::Named(NamedKey::Delete), none, 0), Some(b"\x1b[3~".to_vec()));
    assert_eq!(
        encode(Key::Named(NamedKey::PageUp), mods(true, false, false), 0),
        Some(b"\x1b[5;2~".to_vec())
    );
    assert_eq!(encode(Key::Named(NamedKey::Tab), mods(true, false, false), 0), Some(b"\x1b[Z".to_vec()));
    assert_eq!(csi_tilde(none, "15"), b"\x1b[15~".to_vec());
    assert_eq!(function_key(1, none), b"\x1bOP".to_vec());
    assert_eq!(function_key(5, mods(false, false, true)), b"\x1b[15;5~".to_vec());
}

#[test]
fn text_is_sent_as_it_is_and_escaped_under_alt() {
    assert_eq!(encode(Key::Text('\u{3}'), mods(false, false, true), 0), Some(vec![3]));
    assert_eq!(encode(Key::Text('x'), mods(false, true, false), 0), Some(b"\x1bx".to_vec()));
    assert_eq!(encode(Key::Text('\u{e9}'), Mods::default(), 0), Some("\u{e9}".as_bytes().to_vec()));
}

fn no_colors() -> Vec<Option<Rgb>> {
    vec![None; COLOR_COUNT]
}

#[test]
fn the_cube_and_the_grey_ramp_have_their_usual_levels() {
    assert_eq!(default_entry(16), [0, 0, 0]);
    assert_eq!(default_entry(231), [255, 255, 255]);
    assert_eq!(default_entry(196), [255, 0, 0]);
    assert_eq!(default_entry(232), [8, 8, 8]);
    assert_eq!(default_entry(255), [238, 238, 238]);
}

#[test]
fn an_override_wins_over_the_default() {
    let mut colors = no_colors();
    colors[1] = Some([1, 2, 3]);
    assert_eq!(lookup(&colors, 1), [1, 2, 3]);
    assert_eq!(resolve_bg(Color::Indexed(1), &colors), [1, 2, 3]);
    assert_eq!(resolve_bg(Color::Indexed(2), &colors), default_entry(2));
}

#[test]
fn bold_brightens_and_dim_darkens_a_named_color() {
    let colors = no_colors();
    assert_eq!(resolve_fg(Color::Named(1), BOLD, &colors), default_entry(9));
    assert_eq!(resolve_fg(Color::Named(1), 0, &colors), default_entry(1));
    assert_eq!(resolve_fg(Color::Named(1), BOLD | DIM, &colors), default_entry(DIM_BLACK_INDEX + 1));
    assert_eq!(resolve_fg(Color::Named(9), DIM, &colors), default_entry(1));
    assert_eq!(resolve_fg(Color::Named(DIM_BLACK_INDEX + 1), BOLD, &colors), default_entry(1));
    assert_eq!(resolve_fg(Color::Indexed(1), BOLD | DIM, &colors), default_entry(9));
    assert_eq!(resolve_fg(Color::Spec([90, 60, 30]), DIM, &colors), dim([90, 60, 30]));
}

#[test]
fn dimming_keeps_two_thirds_of_every_channel() {
    for c in 0..=255u8 {
        let kept = (c as f32 * 0.66) as u8;
        assert_eq!(dim([c, c, c]), [kept, kept, kept]);
    }
}

#[test]
fn a_pixel_is_read_back_and_stays_inside_the_buffer() {
    let mut buf = vec![0u8; 4 * 4 * 3];
    put_pixel(&mut buf, 4, 3, 2, 1, [10, 20, 30]);
    assert_eq!(get_pixel(&buf, 4, 3, 2, 1), [10, 20, 30]);
    let before = buf.clone();
    put_pixel(&mut buf, 4, 3, -1, 1, [9, 9, 9]);
    put_pixel(&mut buf, 4, 3, 4, 1, [9, 9, 9]);
    assert_eq!(buf, before);
    fill_cell(&mut buf, 4, 3, 1, 0, 2, 2, [7, 8, 9]);
    assert_eq!(get_pixel(&buf, 4, 3, 2, 1), [7, 8, 9]);
    assert_eq!(get_pixel(&buf, 4, 3, 0, 0), [0, 0, 0]);
}

#[test]
fn blending_runs_from_background_to_foreground() {
    assert_eq!(blend([0, 100, 200], [255, 0, 50], 0), [0, 100, 200]);
    assert_eq!(blend([0, 100, 200], [255, 0, 50], 255), [255, 0, 50]);
    assert_eq!(blend([0, 0, 0], [255, 255, 255], 128), [128, 128, 128]);
}

fn cell(line: i32, column: usize, c: char) -> GridCell {
    GridCell {
        point: GridPoint { line, column },
        c,
        fg: Color::Spec([200, 200, 200]),
        bg: Color::Spec([10, 10, 10]),
        flags: 0,
    }
}

fn content() -> Content {
    Content {
        cells: vec![cell(0, 0, 'a'), cell(0, 1, 'b'), cell(1, 0, 'c'), cell(1, 1, 'd')],
        cursor: GridPoint { line: 1, column: 1 },
        cursor_shape: CursorShape::Hidden,
        selection: None,
        display_offset: 0,
        colors: no_colors(),
    }
}

#[test]
fn a_selected_cell_swaps_its_colors() {
    let mut content = content();
    content.selection = Some(SelectedRange {
        start: GridPoint { line: 0, column: 1 },
        end: GridPoint { line: 0, column: 1 },
        is_block: false,
    });
    let cells = collect_cells(&content);
    assert_eq!(cells.len(), 4);
    assert_eq!((cells[0].fg, cells[0].bg), ([200, 200, 200], [10, 10, 10]));
    assert_eq!((cells[1].fg, cells[1].bg), ([10, 10, 10], [200, 200, 200]));
    assert_eq!((cells[2].fg, cells[2].bg), ([200, 200, 200], [10, 10, 10]));
}

#[test]
fn rendering_fills_cells_and_draws_their_glyphs() {
    let glyph = Glyph { xmin: 0, ymin: 0, width: 1, height: 1, bitmap: vec![255] };
    let sheet = GlyphSheet {
        cell_width: 2,
        cell_height: 2,
        baseline: 1,
        glyphs: vec![glyph],
        of_cell: vec![0, 0, 0, 0],
    };
    let mut buf = vec![0u8; 4 * 4 * 4];
    let rects = render(&content(), &sheet, &mut buf, 4, 4, &Damage::Full);
    assert!(!rects.is_empty());
    assert_eq!(get_pixel(&buf, 4, 4, 0, 0), [200, 200, 200]);
    assert_eq!(get_pixel(&buf, 4, 4, 1, 1), [10, 10, 10]);
}

#[test]
fn the_bounds_hold_every_damaged_stretch() {
    let lines = Damage::Lines(vec![
        LineDamage { line: 4, left: 2, right: 5 },
        LineDamage { line: 1, left: 3, right: 9 },
    ]);
    assert_eq!(damage_bounds(&lines), Some((1, 4, 2, 9)));
    assert_eq!(damage_bounds(&Damage::Full), None);
}

#[test]
fn only_content_damage_makes_a_frame_dirty() {
    let cursor = GridPoint { line: 1, column: 1 };
    let cursor_only = Damage::Lines(vec![LineDamage { line: 1, left: 1, right: 1 }]);
    assert!(take_dirty_cells(&content(), cursor_only, cursor, false).is_none());
    let line = Damage::Lines(vec![LineDamage { line: 0, left: 0, right: 1 }]);
    assert!(take_dirty_cells(&content(), line, cursor, false).is_some());
    let (cells, _) = take_dirty_cells(&content(), Damage::Full, cursor, false).unwrap();
    assert_eq!(cells.len(), 4);
    assert!(matches!(frame_damage(Damage::Lines(vec![]), true), Damage::Full));
}

#[test]
fn emulator_events_become_terminal_events() {
    assert!(matches!(map_event(EmulatorEvent::Wakeup), Some(TermEvent::Wakeup)));
    assert!(matches!(map_event(EmulatorEvent::Exit), Some(TermEvent::Exited)));
    assert!(matches!(map_event(EmulatorEvent::ChildExit(3)), Some(TermEvent::Exited)));
    assert!(matches!(map_event(EmulatorEvent::Title("t".to_string())), Some(TermEvent::Title(t)) if t == "t"));
    assert!(map_event(EmulatorEvent::Other).is_none());
}

#[test]
fn a_terminal_reports_buttons_only_when_asked() {
    let size = window_size(GridSize { cols: 80, lines: 24 }, (8, 16));
    assert_eq!((size.num_cols, size.num_lines, size.cell_width, size.cell_height), (80, 24, 8, 16));
    let grid = GridSize { cols: 80, lines: 24 };
    assert_eq!((grid.total_lines(), grid.screen_lines(), grid.columns()), (24, 24, 80));
    let mut terminal = Terminal::spawned(80, 24, (8, 16), 42);
    terminal.resize(100, 30, (8, 16));
    assert_eq!((terminal.cols(), terminal.lines()), (100, 30));
    let none = Mods::default();
    assert_eq!(Terminal::report_mouse_button(0, BUTTON_LEFT, none, true, 0, 0), None);
    let mode = (TermMode::SGR_MOUSE | TermMode::MOUSE_DRAG).bits();
    assert_eq!(
        Terminal::report_mouse_button(mode, BUTTON_LEFT, none, true, 5, 10),
        Some(b"\x1b[<0;5;10M".to_vec())
    );
    assert_eq!(
        Terminal::report_mouse_drag(BUTTON_LEFT, none, 5, 10),
        b"\x1b[<32;5;10M".to_vec(),
        "a drag is reported whatever the mode"
    );
}

#[test]
fn a_key_without_text_sends_nothing() {
    let none = Mods::default();
    assert_eq!(encode(Key::Named(NamedKey::F(13)), none, 0), None);
    assert_eq!(encode(Key::Named(NamedKey::F(0)), none, 0), None);
    assert_eq!(encode(Key::Named(NamedKey::F(12)), none, 0), Some(b"\x1b[24~".to_vec()));
    assert_eq!(encode(Key::Named(NamedKey::F(1)), none, 0), Some(b"\x1bOP".to_vec()));
}

/// Cells of one pixel whose glyphs are three pixels wide.
fn overhanging() -> GlyphSheet {
    let glyph = Glyph { xmin: -1, ymin: 0, width: 3, height: 1, bitmap: vec![255, 255, 255] };
    GlyphSheet {
        cell_width: 1,
        cell_height: 1,
        baseline: 1,
        glyphs: vec![glyph],
        of_cell: vec![0, 0, 0, 0],
    }
}

#[test]
fn ink_stays_in_the_damaged_cells() {
    let mut buf = vec![7u8; 2 * 2 * 4];
    let line = Damage::Lines(vec![LineDamage { line: 0, left: 0, right: 0 }]);
    let rects = render(&content(), &overhanging(), &mut buf, 2, 2, &line);
    assert_eq!(rects, vec![PixelRect { x: 0, y: 0, width: 1, height: 1 }]);
    assert_eq!(get_pixel(&buf, 2, 2, 0, 0), [200, 200, 200]);
    assert!(buf[4..].iter().all(|&b| b == 7), "everything else stays as it was");
}

#[test]
fn ink_reaches_beyond_its_cell_where_that_is_redrawn() {
    let mut content = content();
    content.cells[0].c = ' ';
    let mut buf = vec![7u8; 2 * 2 * 4];
    render(&content, &overhanging(), &mut buf, 2, 2, &Damage::Full);
    assert_eq!(get_pixel(&buf, 2, 2, 0, 0), [200, 200, 200]);
    let row = Damage::Lines(vec![LineDamage { line: 0, left: 0, right: 1 }]);
    let mut buf = vec![7u8; 2 * 2 * 4];
    render(&content, &overhanging(), &mut buf, 2, 2, &row);
    assert_eq!(get_pixel(&buf, 2, 2, 0, 0), [200, 200, 200]);
    let cell = Damage::Lines(vec![LineDamage { line: 0, left: 1, right: 1 }]);
    let mut buf = vec![7u8; 2 * 2 * 4];
    render(&content, &overhanging(), &mut buf, 2, 2, &cell);
    assert_eq!(get_pixel(&buf, 2, 2, 0, 0), [7, 7, 7]);
    assert_eq!(get_pixel(&buf, 2, 2, 1, 0), [200, 200, 200]);
}

#[test]
fn every_stretch_of_a_row_counts() {
    let mut buf = vec![7u8; 2 * 2 * 4];
    let both = Damage::Lines(vec![
        LineDamage { line: 0, left: 0, right: 0 },
        LineDamage { line: 0, left: 1, right: 1 },
    ]);
    let rects = render(&content(), &overhanging(), &mut buf, 2, 2, &both);
    assert_eq!(rects.len(), 2);
    assert_eq!(get_pixel(&buf, 2, 2, 0, 0), [200, 200, 200]);
    assert_eq!(get_pixel(&buf, 2, 2, 1, 0), [200, 200, 200]);
    assert_eq!(get_pixel(&buf, 2, 2, 0, 1), [7, 7, 7]);
}

#[test]
fn each_glyph_is_needed_once() {
    let mut content = content();
    content.cells[2].c = 'a';
    content.cells[3].c = 'a';
    content.cells[3].flags = BOLD;
    let (glyphs, of_cell) = needed_glyphs(&content);
    assert_eq!(glyphs, vec![('a', false), ('b', false), ('a', true)]);
    assert_eq!(of_cell, vec![0, 1, 0, 2]);
    assert!(use_fallback(true, true));
    assert!(!use_fallback(true, false));
    assert!(!use_fallback(false, true));
}

#[test]
fn what_cannot_be_drawn_is_told_beforehand() {
    let mut content = content();
    let sheet = overhanging();
    assert!(content.is_valid() && sheet.is_fitting(&content));
    assert!(!GlyphSheet { of_cell: vec![0, 0, 0, 1], ..sheet.clone() }.is_fitting(&content));
    assert!(!GlyphSheet { cell_width: usize::MAX, ..sheet.clone() }.is_fitting(&content));
    let highest = GlyphSheet { baseline: i64::MAX as usize - 1, ..sheet };
    assert!(highest.is_fitting(&content));
    assert!(!GlyphSheet { baseline: i64::MAX as usize, ..highest }.is_fitting(&content));
    let far = Damage::Lines(vec![LineDamage { line: 0, left: 0, right: usize::MAX }]);
    assert!(stretches_are_fitting(&Damage::Full, 1, 1));
    assert!(!stretches_are_fitting(&far, 1, 1));
    content.cells[0].point.line = -1;
    assert!(!content.is_valid());
}
