use mudhuts::gpu_term::{
    changed_rect, label_quads, label_size, place_glyph, redraw_step, terminal_quads, touched_rect,
    AtlasAnswer, AtlasEntry, CellMetrics, FxHasher, GlyphAtlas, RedrawStep, ShelfPacker, Target,
    TargetRect, ATLAS_SIZE,
};
use mudhuts::term::fonts::{FontStep, GlyphCache};
use mudhuts::term::render::{CellInfo, Damage, Glyph, LineDamage};

const METRICS: CellMetrics = CellMetrics { width: 8, height: 16, baseline: 12 };

fn uv_pos(entry: &AtlasEntry) -> [f32; 2] {
    [entry.x as f32 / ATLAS_SIZE as f32, entry.y as f32 / ATLAS_SIZE as f32]
}

fn uv_size(entry: &AtlasEntry) -> [f32; 2] {
    [entry.width as f32 / ATLAS_SIZE as f32, entry.height as f32 / ATLAS_SIZE as f32]
}

#[test]
fn first_alloc_lands_at_the_origin() {
    let mut packer = ShelfPacker::new();
    assert_eq!(packer.allocate(10, 20), Some((0, 0)));
}

#[test]
fn sequential_allocs_on_the_same_shelf_advance_left_to_right() {
    let mut packer = ShelfPacker::new();
    assert_eq!(packer.allocate(10, 20), Some((0, 0)));
    assert_eq!(packer.allocate(15, 20), Some((10, 0)));
    assert_eq!(packer.allocate(5, 20), Some((25, 0)));
}

#[test]
fn a_glyph_that_would_overflow_the_row_wraps_to_a_new_shelf() {
    let mut packer = ShelfPacker::new();
    packer.allocate(ATLAS_SIZE - 5, 20).unwrap();
    assert_eq!(packer.allocate(10, 30), Some((0, 20)));
}

#[test]
fn a_new_shelfs_row_starts_below_the_tallest_glyph_on_the_previous_shelf() {
    let mut packer = ShelfPacker::new();
    assert_eq!(packer.allocate(10, 5), Some((0, 0)));
    assert_eq!(packer.allocate(10, 30), Some((10, 0)));
    assert_eq!(packer.allocate(ATLAS_SIZE, 1), Some((0, 30)));
}

#[test]
fn a_glyph_wider_than_the_atlas_never_fits() {
    let mut packer = ShelfPacker::new();
    assert_eq!(packer.allocate(ATLAS_SIZE + 1, 10), None);
}

#[test]
fn a_glyph_taller_than_the_atlas_never_fits() {
    let mut packer = ShelfPacker::new();
    assert_eq!(packer.allocate(10, ATLAS_SIZE + 1), None);
}

#[test]
fn once_the_atlas_is_vertically_full_further_allocs_fail() {
    let mut packer = ShelfPacker::new();
    assert!(packer.allocate(ATLAS_SIZE, ATLAS_SIZE).is_some());
    assert_eq!(packer.allocate(1, 1), None);
}

#[test]
fn the_first_glyph_lands_at_the_origin_with_correctly_normalized_uvs() {
    let mut packer = ShelfPacker::new();
    let (x, y, entry) = place_glyph(&mut packer, -1, 2, 10, 20).unwrap();
    assert_eq!((x, y), (0, 0));
    assert_eq!(uv_pos(&entry), [0.0, 0.0]);
    assert_eq!(uv_size(&entry), [10.0 / ATLAS_SIZE as f32, 20.0 / ATLAS_SIZE as f32]);
    assert_eq!((entry.xmin, entry.ymin), (-1, 2));
    assert_eq!((entry.width, entry.height), (10, 20));
}

#[test]
fn a_second_glyph_lands_wherever_the_packer_places_it_with_matching_uvs() {
    let mut packer = ShelfPacker::new();
    place_glyph(&mut packer, 0, 0, 10, 20).unwrap();
    let (x, y, entry) = place_glyph(&mut packer, 0, 0, 15, 20).unwrap();
    assert_eq!((x, y), (10, 0));
    assert_eq!(uv_pos(&entry), [10.0 / ATLAS_SIZE as f32, 0.0]);
}

#[test]
fn a_glyph_that_does_not_fit_returns_none_without_mutating_the_entry_it_would_have_made() {
    let mut packer = ShelfPacker::new();
    assert!(place_glyph(&mut packer, 0, 0, ATLAS_SIZE + 1, 10).is_none());
}

#[test]
fn no_two_allocations_overlap() {
    let mut packer = ShelfPacker::new();
    let sizes = [(700, 30), (700, 50), (700, 20), (1000, 60), (1000, 10), (48, 48), (2048, 1)];
    let placed: Vec<(u32, u32, u32, u32)> = sizes
        .iter()
        .map(|&(w, h)| {
            let (x, y) = packer.allocate(w, h).unwrap();
            (x, y, w, h)
        })
        .collect();
    for (i, a) in placed.iter().enumerate() {
        for b in &placed[i + 1..] {
            assert!(a.0 + a.2 <= b.0 || b.0 + b.2 <= a.0 || a.1 + a.3 <= b.1 || b.1 + b.3 <= a.1);
        }
    }
}

#[test]
fn a_hash_mixes_every_word() {
    let seed: u64 = 0x517c_c1b7_2722_0a95;
    let mut one = FxHasher::default();
    one.write_u64(1);
    assert_eq!(one.finish(), seed);
    one.write_u32(2);
    assert_eq!(one.finish(), (seed.rotate_left(5) ^ 2).wrapping_mul(seed));
    let mut small = FxHasher::default();
    small.write_u8(1);
    assert_eq!(small.finish(), seed);
}

#[test]
fn a_glyph_is_uploaded_once() {
    let mut atlas = GlyphAtlas::new();
    assert!(atlas.cached('a', false).is_none());
    let first = match atlas.atlas_entry('a', false, 1, 2, 8, 12) {
        AtlasAnswer::Upload(entry) => entry,
        _ => panic!("not uploaded"),
    };
    assert!(matches!(atlas.atlas_entry('a', false, 1, 2, 8, 12), AtlasAnswer::Cached(e) if e.x == first.x));
    assert!(matches!(atlas.atlas_entry('a', true, 1, 2, 8, 12), AtlasAnswer::Upload(_)));
    assert!(matches!(atlas.atlas_entry(' ', false, 0, 0, 0, 0), AtlasAnswer::Blank));
    assert!(matches!(atlas.atlas_entry('b', false, 0, 0, ATLAS_SIZE + 1, 4), AtlasAnswer::Full));
}

fn cell(col: usize, row: usize) -> CellInfo {
    CellInfo { col, row, c: 'a', bold: false, fg: [1, 2, 3], bg: [4, 5, 6] }
}

#[test]
fn a_cell_gives_a_background_and_a_glyph() {
    let white = GlyphAtlas::new().white;
    let entry = AtlasEntry { x: 4, y: 0, xmin: 1, ymin: 2, width: 5, height: 7 };
    let cells = vec![cell(0, 0), cell(2, 1)];
    let (quads, _) = terminal_quads(&cells, &vec![None, Some(entry)], METRICS, white);
    assert_eq!(quads.len(), 3);
    assert_eq!((quads[1].x, quads[1].y, quads[1].width, quads[1].height), (16, 16, 8, 16));
    assert_eq!(quads[1].color, [4, 5, 6]);
    assert_eq!(quads[2].color, [1, 2, 3]);
    assert_eq!((quads[2].x, quads[2].y), (17, 16 + 12 - 7 - 2));
}

#[test]
fn a_label_is_as_wide_as_its_characters() {
    assert_eq!(label_size(3, METRICS), (24, 16));
    let white = GlyphAtlas::new().white;
    let quads = label_quads(&vec!['a', 'b'], &vec![None, None], METRICS, white, [1, 1, 1], [2, 2, 2]);
    assert!(quads.iter().all(|q| q.color == [2, 2, 2]));
}

#[test]
fn the_redrawn_area_covers_the_damage() {
    let damage = Damage::Lines(vec![LineDamage { line: 2, left: 1, right: 3 }]);
    let rect = touched_rect(&damage, false, METRICS).unwrap();
    assert_eq!((rect.x, rect.y, rect.width, rect.height), (8, 32, 24, 16));
    assert!(touched_rect(&damage, true, METRICS).is_none());
    assert!(touched_rect(&Damage::Full, false, METRICS).is_none());
    let whole = changed_rect(None, (640, 480));
    assert_eq!((whole.x, whole.y, whole.width, whole.height), (0, 0, 640, 480));
    let part = changed_rect(Some(TargetRect { x: 1, y: 2, width: 3, height: 4 }), (640, 480));
    assert_eq!((part.x, part.y, part.width, part.height), (1, 2, 3, 4));
}

#[test]
fn a_target_is_remade_when_its_size_changes() {
    let mut target = Target::new();
    assert!(target.needs_resize(640, 480));
    target.resized(640, 480);
    assert!(!target.needs_resize(640, 480));
    assert!(target.needs_resize(641, 480));
    assert!(!target.needs_resize(0, 480));
    assert!(!target.needs_label_target(640, 480));
    assert!(target.needs_label_target(8, 16));
    assert!(matches!(redraw_step((0, 480), true), RedrawStep::Nothing));
    assert!(matches!(redraw_step((640, 480), true), RedrawStep::Draw));
    assert!(matches!(redraw_step((640, 480), false), RedrawStep::Reuse));
}

#[test]
fn a_font_is_looked_for_once_per_character() {
    let mut cache = GlyphCache::new(8, 16, 12);
    assert!(matches!(cache.font_for_char('a', true), FontStep::Primary));
    assert!(matches!(cache.font_for_char('\u{4e2d}', false), FontStep::Query));
    cache.queried('\u{4e2d}', Some("/fonts/cjk.ttf".to_string()));
    assert!(matches!(cache.font_for_char('\u{4e2d}', false), FontStep::Load(p) if p == "/fonts/cjk.ttf"));
    cache.loaded("/fonts/cjk.ttf".to_string());
    assert!(matches!(cache.font_for_char('\u{4e2d}', false), FontStep::Try(p) if p == "/fonts/cjk.ttf"));
    cache.queried('\u{1f980}', None);
    assert!(matches!(cache.font_for_char('\u{1f980}', false), FontStep::Primary));
    assert!(cache.glyph('a', false).is_none());
    cache.store('a', false, Glyph { xmin: 0, ymin: 0, width: 1, height: 1, bitmap: vec![9] });
    assert_eq!(cache.glyph('a', false).unwrap().bitmap, vec![9]);
    assert!(cache.glyph('a', true).is_none());
}
