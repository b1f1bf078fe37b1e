//! The glyph atlas: where each glyph goes in one shared texture, and the quads
//! that draw a terminal or a label with it.
use std::collections::HashMap;
use vstd::prelude::*;

use crate::term::palette::Rgb;
use crate::term::render::{bounds, damage_bounds, CellInfo, CellView, Damage};

verus! {

broadcast use vstd::std_specs::hash::group_hash_axioms;

/// The side of the square atlas texture.
pub const ATLAS_SIZE: u32 = 2048;

/// A rectangle of the atlas.
pub ghost struct Region {
    pub x: int,
    pub y: int,
    pub w: int,
    pub h: int,
}

impl Region {
    /// Whether the rectangle lies in the atlas.
    pub open spec fn in_atlas(self) -> bool {
        &&& 0 <= self.x
        &&& 0 <= self.y
        &&& 0 <= self.w
        &&& 0 <= self.h
        &&& self.x + self.w <= ATLAS_SIZE
        &&& self.y + self.h <= ATLAS_SIZE
    }

    /// Whether no texel lies in both rectangles.
    pub open spec fn apart(self, other: Region) -> bool {
        ||| self.x + self.w <= other.x
        ||| other.x + other.w <= self.x
        ||| self.y + self.h <= other.y
        ||| other.y + other.h <= self.y
    }
}

/// Places glyphs from left to right on shelves from top to bottom. Nothing is
/// ever evicted: once the atlas is full, no new glyph fits.
#[derive(Debug, Clone, Copy, PartialEq, Eq, Structural)]
pub struct ShelfPacker {
    pub cursor_x: u32,
    pub cursor_y: u32,
    pub shelf_height: u32,
}

impl ShelfPacker {
    /// The current shelf lies in the atlas.
    pub open spec fn wf(self) -> bool {
        self.cursor_x <= ATLAS_SIZE && self.cursor_y + self.shelf_height <= ATLAS_SIZE
    }

    /// The packer with the shelf on which a glyph `w` wide goes as its current
    /// one: a new shelf below, if it does not fit beside what is there.
    pub open spec fn on_shelf(self, w: u32) -> ShelfPacker {
        if self.cursor_x + w > ATLAS_SIZE {
            ShelfPacker {
                cursor_x: 0,
                cursor_y: (self.cursor_y + self.shelf_height) as u32,
                shelf_height: 0,
            }
        } else {
            self
        }
    }

    /// Whether a glyph fits in what is left of the atlas.
    pub open spec fn fits(self, w: u32, h: u32) -> bool {
        w <= ATLAS_SIZE && h <= ATLAS_SIZE && self.on_shelf(w).cursor_y + h <= ATLAS_SIZE
    }

    /// The packer after a glyph was asked for. A glyph that does not fit may
    /// still have closed a shelf.
    pub open spec fn after(self, w: u32, h: u32) -> ShelfPacker {
        let shelf = self.on_shelf(w);
        if w > ATLAS_SIZE || h > ATLAS_SIZE {
            self
        } else if self.fits(w, h) {
            ShelfPacker {
                cursor_x: (shelf.cursor_x + w) as u32,
                cursor_y: shelf.cursor_y,
                shelf_height: if shelf.shelf_height < h {
                    h
                } else {
                    shelf.shelf_height
                },
            }
        } else {
            shelf
        }
    }

    /// Whether a rectangle is behind the packer: on an earlier shelf, or to the
    /// left on the current one.
    pub open spec fn behind(self, r: Region) -> bool {
        ||| r.y + r.h <= self.cursor_y
        ||| r.y == self.cursor_y && r.x + r.w <= self.cursor_x && r.h <= self.shelf_height
    }

    pub fn new() -> (r: Self)
        ensures
            r.wf(),
            r == (ShelfPacker { cursor_x: 0, cursor_y: 0, shelf_height: 0 }),
    {
        ShelfPacker { cursor_x: 0, cursor_y: 0, shelf_height: 0 }
    }

    /// Finds room for a glyph: beside the last one, else on a new shelf below
    /// the tallest glyph of the current one; `None` if there is none.
    pub fn allocate(&mut self, w: u32, h: u32) -> (r: Option<(u32, u32)>)
        requires
            old(self).wf(),
        ensures
            final(self).wf(),
            *final(self) == old(self).after(w, h),
            r == if old(self).fits(w, h) {
                Some((old(self).on_shelf(w).cursor_x, old(self).on_shelf(w).cursor_y))
            } else {
                None
            },
    {
        if w > ATLAS_SIZE || h > ATLAS_SIZE {
            return None;
        }
        if self.cursor_x + w > ATLAS_SIZE {
            self.cursor_x = 0;
            self.cursor_y = self.cursor_y + self.shelf_height;
            self.shelf_height = 0;
        }
        if self.cursor_y + h > ATLAS_SIZE {
            return None;
        }
        let pos = (self.cursor_x, self.cursor_y);
        self.cursor_x = self.cursor_x + w;
        if self.shelf_height < h {
            self.shelf_height = h;
        }
        Some(pos)
    }
}

/// The rectangle that a glyph is given.
pub open spec fn given(packer: ShelfPacker, w: u32, h: u32) -> Region {
    let shelf = packer.on_shelf(w);
    Region { x: shelf.cursor_x as int, y: shelf.cursor_y as int, w: w as int, h: h as int }
}

/// A glyph that fits is given a rectangle that lies in the atlas and overlaps
/// none that was given before: whatever was behind the packer stays behind it,
/// and so is the new rectangle.
pub proof fn law_glyphs_never_overlap(packer: ShelfPacker, w: u32, h: u32, earlier: Region)
    requires
        packer.wf(),
        packer.behind(earlier),
    ensures
        packer.after(w, h).behind(earlier),
        packer.fits(w, h) ==> given(packer, w, h).in_atlas() && packer.after(w, h).behind(
            given(packer, w, h),
        ) && given(packer, w, h).apart(earlier),
{
}

/// Once a glyph of some size does not fit, none of that size or larger will.
pub proof fn law_full_stays_full(packer: ShelfPacker, w: u32, h: u32, wider: u32, taller: u32)
    requires
        packer.wf(),
        !packer.fits(w, h),
        w <= wider,
        h <= taller,
    ensures
        !packer.after(w, h).fits(wider, taller),
{
}

/// The seed of the hash.
pub const FX_SEED: u64 = 0x51_7c_c1_b7_27_22_0a_95;

/// A word rotated left by five bits.
pub open spec fn rotated(x: u64) -> u64 {
    (x << 5u64) | (x >> 59u64)
}

/// The hash state after one more word.
pub open spec fn fx_mixed(state: u64, word: u64) -> u64 {
    ((rotated(state) ^ word) * FX_SEED % 0x1_0000_0000_0000_0000) as u64
}

/// A fast hash for small keys: each word is mixed in by a rotation, an
/// exclusive or and a multiplication.
#[derive(Debug, Clone, Copy, PartialEq, Eq, Structural)]
pub struct FxHasher(pub u64);

impl Default for FxHasher {
    fn default() -> (r: Self)
        ensures
            r == FxHasher(0),
    {
        FxHasher(0)
    }
}

impl FxHasher {
    pub fn finish(&self) -> (r: u64)
        ensures
            r == self.0,
    {
        self.0
    }

    pub fn write_u8(&mut self, i: u8)
        ensures
            final(self).0 == fx_mixed(old(self).0, i as u64),
    {
        self.write_u64(i as u64);
    }

    pub fn write_u32(&mut self, i: u32)
        ensures
            final(self).0 == fx_mixed(old(self).0, i as u64),
    {
        self.write_u64(i as u64);
    }

    pub fn write_u64(&mut self, i: u64)
        ensures
            final(self).0 == fx_mixed(old(self).0, i),
    {
        let rotated: u64 = (self.0 << 5u64) | (self.0 >> 59u64);
        let product: u128 = (rotated ^ i) as u128 * FX_SEED as u128;
        self.0 = (product % 0x1_0000_0000_0000_0000) as u64;
    }
}

/// Where a glyph is in the atlas and how it sits relative to the pen.
#[derive(Debug, Clone, Copy, PartialEq, Eq, Structural)]
pub struct AtlasEntry {
    pub x: u32,
    pub y: u32,
    pub xmin: i32,
    pub ymin: i32,
    pub width: u32,
    pub height: u32,
}

impl AtlasEntry {
    /// The entry's rectangle of the atlas.
    pub open spec fn region(self) -> Region {
        Region { x: self.x as int, y: self.y as int, w: self.width as int, h: self.height as int }
    }
}

/// The entry that a glyph is given if it fits.
pub open spec fn placed(
    packer: ShelfPacker,
    xmin: i32,
    ymin: i32,
    width: u32,
    height: u32,
) -> AtlasEntry {
    let shelf = packer.on_shelf(width);
    AtlasEntry { x: shelf.cursor_x, y: shelf.cursor_y, xmin, ymin, width, height }
}

/// Finds room for a glyph of a given size and says where it is and how it
/// sits; `None` if the atlas is full.
pub fn place_glyph(
    packer: &mut ShelfPacker,
    xmin: i32,
    ymin: i32,
    width: u32,
    height: u32,
) -> (r: Option<(u32, u32, AtlasEntry)>)
    requires
        old(packer).wf(),
    ensures
        final(packer).wf(),
        *final(packer) == old(packer).after(width, height),
        r == if old(packer).fits(width, height) {
            let entry = placed(*old(packer), xmin, ymin, width, height);
            Some((entry.x, entry.y, entry))
        } else {
            None
        },
{
    match packer.allocate(width, height) {
        Some((x, y)) => Some((x, y, AtlasEntry { x, y, xmin, ymin, width, height })),
        None => None,
    }
}

/// The key that a character and its weight are looked up by.
pub open spec fn glyph_key(c: char, bold: bool) -> u64 {
    (c as u64 * 2 + if bold {
        1u64
    } else {
        0u64
    }) as u64
}

/// Different characters or weights have different keys.
pub proof fn law_glyph_keys_differ(c: char, bold: bool, d: char, other: bool)
    requires
        glyph_key(c, bold) == glyph_key(d, other),
    ensures
        c == d,
        bold == other,
{
}

/// What a glyph lookup comes to.
#[derive(Debug, Clone, Copy, PartialEq, Eq, Structural)]
pub enum AtlasAnswer {
    /// The glyph is in the atlas already.
    Cached(AtlasEntry),
    /// The glyph has just been given its place: its bitmap is to be uploaded.
    Upload(AtlasEntry),
    /// The glyph has no pixels.
    Blank,
    /// The atlas is full.
    Full,
}

/// The placement of every glyph seen so far, and of one solid texel with which
/// backgrounds are drawn.
pub struct GlyphAtlas {
    pub packer: ShelfPacker,
    pub glyphs: HashMap<u64, AtlasEntry>,
    pub white: AtlasEntry,
}

/// The rectangle that holds the solid texels.
pub open spec fn solid() -> Region {
    Region { x: 0, y: 0, w: 2, h: 2 }
}

/// Whether an entry of the atlas has its place in it, behind the packer and
/// clear of the solid texels.
pub open spec fn seated(packer: ShelfPacker, entry: AtlasEntry) -> bool {
    entry.region().in_atlas() && packer.behind(entry.region()) && entry.region().apart(solid())
}

impl GlyphAtlas {
    /// Every glyph lies in the atlas, clear of the solid texels, and no two
    /// overlap.
    pub open spec fn wf(&self) -> bool {
        &&& self.packer.wf()
        &&& self.packer.behind(solid())
        &&& self.white == (AtlasEntry { x: 0, y: 0, xmin: 0, ymin: 0, width: 1, height: 1 })
        &&& forall|k: u64| #[trigger]
            self.glyphs@.contains_key(k) ==> seated(self.packer, self.glyphs@[k])
        &&& forall|j: u64, k: u64|
            #![trigger self.glyphs@[j], self.glyphs@[k]]
            self.glyphs@.contains_key(j) && self.glyphs@.contains_key(k) && j != k
                ==> self.glyphs@[j].region().apart(self.glyphs@[k].region())
    }

    /// An atlas that holds the solid texels alone.
    pub fn new() -> (r: Self)
        ensures
            r.wf(),
            r.glyphs@ == Map::<u64, AtlasEntry>::empty(),
            r.packer == (ShelfPacker { cursor_x: 2, cursor_y: 0, shelf_height: 2 }),
    {
        let mut packer = ShelfPacker::new();
        let _ = packer.allocate(2, 2);
        let white = AtlasEntry { x: 0, y: 0, xmin: 0, ymin: 0, width: 1, height: 1 };
        GlyphAtlas { packer, glyphs: HashMap::new(), white }
    }

    /// The entry of a glyph that is in the atlas already.
    pub fn cached(&self, c: char, bold: bool) -> (r: Option<AtlasEntry>)
        ensures
            r == if self.glyphs@.contains_key(glyph_key(c, bold)) {
                Some(self.glyphs@[glyph_key(c, bold)])
            } else {
                None
            },
    {
        let key: u64 = c as u32 as u64 * 2 + if bold {
            1
        } else {
            0
        };
        match self.glyphs.get(&key) {
            Some(entry) => Some(*entry),
            None => None,
        }
    }

    /// Looks a glyph up, given its size and how it sits. A glyph not seen
    /// before is given a place, unless it has no pixels or the atlas is full.
    pub fn atlas_entry(
        &mut self,
        c: char,
        bold: bool,
        xmin: i32,
        ymin: i32,
        width: u32,
        height: u32,
    ) -> (r: AtlasAnswer)
        requires
            old(self).wf(),
        ensures
            final(self).wf(),
            final(self).white == old(self).white,
            ({
                let key = glyph_key(c, bold);
                let entry = placed(old(self).packer, xmin, ymin, width, height);
                if old(self).glyphs@.contains_key(key) {
                    &&& r == AtlasAnswer::Cached(old(self).glyphs@[key])
                    &&& final(self).glyphs@ == old(self).glyphs@
                    &&& final(self).packer == old(self).packer
                } else if width == 0 || height == 0 {
                    &&& r == AtlasAnswer::Blank
                    &&& final(self).glyphs@ == old(self).glyphs@
                    &&& final(self).packer == old(self).packer
                } else if old(self).packer.fits(width, height) {
                    &&& r == AtlasAnswer::Upload(entry)
                    &&& final(self).glyphs@ == old(self).glyphs@.insert(key, entry)
                    &&& final(self).packer == old(self).packer.after(width, height)
                } else {
                    &&& r == AtlasAnswer::Full
                    &&& final(self).glyphs@ == old(self).glyphs@
                    &&& final(self).packer == old(self).packer.after(width, height)
                }
            }),
    {
        let key: u64 = c as u32 as u64 * 2 + if bold {
            1
        } else {
            0
        };
        if let Some(entry) = self.glyphs.get(&key) {
            return AtlasAnswer::Cached(*entry);
        }
        if width == 0 || height == 0 {
            return AtlasAnswer::Blank;
        }
        let ghost before = *self;
        let found = place_glyph(&mut self.packer, xmin, ymin, width, height);
        proof {
            law_glyphs_never_overlap(before.packer, width, height, solid());
            assert forall|k: u64| #[trigger] before.glyphs@.contains_key(k) implies seated(
                self.packer,
                before.glyphs@[k],
            ) && (before.packer.fits(width, height) ==> given(before.packer, width, height).apart(
                before.glyphs@[k].region(),
            )) by {
                law_glyphs_never_overlap(before.packer, width, height, before.glyphs@[k].region());
            }
        }
        match found {
            Some((_, _, entry)) => {
                self.glyphs.insert(key, entry);
                assert(entry.region() == given(before.packer, width, height));
                AtlasAnswer::Upload(entry)
            },
            None => AtlasAnswer::Full,
        }
    }
}

/// A rectangle to draw: where it goes, which part of the atlas it samples, and
/// its color.
#[derive(Debug, Clone, Copy)]
pub struct Quad {
    pub x: i32,
    pub y: i32,
    pub width: usize,
    pub height: usize,
    pub texels: AtlasEntry,
    pub color: Rgb,
}

/// The contents of a [`Quad`].
pub ghost struct QuadView {
    pub x: int,
    pub y: int,
    pub width: int,
    pub height: int,
    pub texels: AtlasEntry,
    pub color: Seq<u8>,
}

impl View for Quad {
    type V = QuadView;

    open spec fn view(&self) -> QuadView {
        QuadView {
            x: self.x as int,
            y: self.y as int,
            width: self.width as int,
            height: self.height as int,
            texels: self.texels,
            color: self.color@,
        }
    }
}

/// What a list of quads holds.
pub open spec fn quad_views(quads: Seq<Quad>) -> Seq<QuadView> {
    Seq::new(quads.len(), |i: int| quads[i]@)
}

/// The metrics that a grid of text is laid out with.
#[derive(Debug, Clone, Copy, PartialEq, Eq, Structural)]
pub struct CellMetrics {
    pub width: usize,
    pub height: usize,
    pub baseline: usize,
}

/// The quad behind a cell.
pub open spec fn back_quad(cell: CellView, m: CellMetrics, white: AtlasEntry) -> QuadView {
    QuadView {
        x: cell.col * m.width,
        y: cell.row * m.height,
        width: m.width as int,
        height: m.height as int,
        texels: white,
        color: cell.bg,
    }
}

/// The quad of a glyph at a column and row, standing on the baseline.
pub open spec fn glyph_quad(
    col: int,
    row: int,
    m: CellMetrics,
    entry: AtlasEntry,
    color: Seq<u8>,
) -> QuadView {
    QuadView {
        x: col * m.width + entry.xmin,
        y: row * m.height + m.baseline - entry.height - entry.ymin,
        width: entry.width as int,
        height: entry.height as int,
        texels: entry,
        color,
    }
}

/// Whether a cell shows a glyph.
pub open spec fn inked(cell: CellView, entry: Option<AtlasEntry>) -> bool {
    cell.c != ' ' && cell.c != '\0' && entry is Some
}

/// The quads of the glyphs of the first `n` cells.
pub open spec fn glyph_quads(
    cells: Seq<CellInfo>,
    entries: Seq<Option<AtlasEntry>>,
    m: CellMetrics,
    n: int,
) -> Seq<QuadView>
    decreases n,
{
    if n <= 0 {
        Seq::empty()
    } else {
        let before = glyph_quads(cells, entries, m, n - 1);
        let cell = cells[n - 1]@;
        if inked(cell, entries[n - 1]) {
            before.push(glyph_quad(cell.col, cell.row, m, entries[n - 1]->0, cell.fg))
        } else {
            before
        }
    }
}

/// Whether a glyph at a column and row has its quad in the machine's range.
pub open spec fn place_fits(
    col: int,
    row: int,
    m: CellMetrics,
    entry: Option<AtlasEntry>,
) -> bool {
    &&& col * m.width <= i32::MAX
    &&& row * m.height <= i32::MAX
    &&& m.baseline <= i32::MAX
    &&& entry matches Some(e) ==> {
        &&& col * m.width + e.xmin <= i32::MAX
        &&& e.height <= i32::MAX
        &&& row * m.height + m.baseline <= i32::MAX
        &&& i32::MIN <= row * m.height + m.baseline - e.height - e.ymin <= i32::MAX
    }
}

fn make_glyph_quad(
    col: usize,
    row: usize,
    m: CellMetrics,
    entry: AtlasEntry,
    color: Rgb,
) -> (r: Quad)
    requires
        place_fits(col as int, row as int, m, Some(entry)),
    ensures
        r@ == glyph_quad(col as int, row as int, m, entry, color@),
{
    proof {
        assert(0 <= col * m.width) by (nonlinear_arith)
            requires
                0 <= col,
                0 <= m.width,
        ;
        assert(0 <= row * m.height) by (nonlinear_arith)
            requires
                0 <= row,
                0 <= m.height,
        ;
    }
    let x: i32 = (col * m.width) as i32 + entry.xmin;
    let y: i64 = (row * m.height) as i64 + m.baseline as i64 - entry.height as i64
        - entry.ymin as i64;
    Quad {
        x,
        y: y as i32,
        width: entry.width as usize,
        height: entry.height as usize,
        texels: entry,
        color,
    }
}

/// The quads that draw a terminal's cells: one behind every cell, then one for
/// every glyph. `entries` holds each cell's glyph, where it has one. Returns
/// also how many of the quads are backgrounds.
pub fn terminal_quads(
    cells: &Vec<CellInfo>,
    entries: &Vec<Option<AtlasEntry>>,
    m: CellMetrics,
    white: AtlasEntry,
) -> (r: (Vec<Quad>, usize))
    requires
        entries@.len() == cells@.len(),
        forall|i: int|
            0 <= i < cells@.len() ==> place_fits(
                (#[trigger] cells@[i]).col as int,
                cells@[i].row as int,
                m,
                entries@[i],
            ),
    ensures
        r.1 == cells@.len(),
        quad_views(r.0@) == Seq::new(
            cells@.len(),
            |i: int| back_quad(cells@[i]@, m, white),
        ) + glyph_quads(cells@, entries@, m, cells@.len() as int),
{
    let mut quads: Vec<Quad> = Vec::new();
    for i in 0..cells.len()
        invariant
            entries@.len() == cells@.len(),
            forall|i: int|
                0 <= i < cells@.len() ==> place_fits(
                    (#[trigger] cells@[i]).col as int,
                    cells@[i].row as int,
                    m,
                    entries@[i],
                ),
            quads@.len() == i,
            forall|k: int|
                0 <= k < i ==> (#[trigger] quads@[k])@ == back_quad(cells@[k]@, m, white),
    {
        let cell = cells[i];
        assert(place_fits(cell.col as int, cell.row as int, m, entries@[i as int]));
        proof {
            assert(0 <= cell.col * m.width) by (nonlinear_arith)
                requires
                    0 <= cell.col,
                    0 <= m.width,
            ;
            assert(0 <= cell.row * m.height) by (nonlinear_arith)
                requires
                    0 <= cell.row,
                    0 <= m.height,
            ;
        }
        quads.push(
            Quad {
                x: (cell.col * m.width) as i32,
                y: (cell.row * m.height) as i32,
                width: m.width,
                height: m.height,
                texels: white,
                color: cell.bg,
            },
        );
    }
    let backs: usize = quads.len();
    let ghost back_views = quad_views(quads@);
    assert(back_views =~= Seq::new(cells@.len(), |i: int| back_quad(cells@[i]@, m, white)));
    assert(quad_views(quads@) =~= back_views + glyph_quads(cells@, entries@, m, 0));
    for i in 0..cells.len()
        invariant
            entries@.len() == cells@.len(),
            forall|i: int|
                0 <= i < cells@.len() ==> place_fits(
                    (#[trigger] cells@[i]).col as int,
                    cells@[i].row as int,
                    m,
                    entries@[i],
                ),
            quad_views(quads@) == back_views + glyph_quads(cells@, entries@, m, i as int),
    {
        let cell = cells[i];
        let ghost before = quads@;
        if cell.c != ' ' && cell.c != '\0' {
            if let Some(entry) = entries[i] {
                assert(place_fits(cell.col as int, cell.row as int, m, entries@[i as int]));
                quads.push(make_glyph_quad(cell.col, cell.row, m, entry, cell.fg));
                assert(quad_views(quads@) =~= quad_views(before).push(quads@.last()@));
            }
        }
        assert(quad_views(quads@) =~= back_views + glyph_quads(cells@, entries@, m, i + 1));
    }
    (quads, backs)
}

/// A rectangle of the target.
#[derive(Debug, Clone, Copy, PartialEq, Eq, Structural)]
pub struct TargetRect {
    pub x: i32,
    pub y: i32,
    pub width: i32,
    pub height: i32,
}

/// The part of the target that a redraw touches: all of it, if it was made
/// anew or everything changed.
pub open spec fn touched(damage: Damage, resized: bool, m: CellMetrics) -> Option<TargetRect> {
    if resized {
        None
    } else {
        match bounds(damage) {
            None => None,
            Some((top, bottom, left, right)) => Some(
                TargetRect {
                    x: (left * m.width) as i32,
                    y: (top * m.height) as i32,
                    width: ((right - left + 1) * m.width) as i32,
                    height: ((bottom - top + 1) * m.height) as i32,
                },
            ),
        }
    }
}

/// Whether the part that a redraw touches stays in the machine's range.
pub open spec fn touch_fits(damage: Damage, m: CellMetrics) -> bool {
    bounds(damage) matches Some((top, bottom, left, right)) ==> {
        &&& left <= right
        &&& (right + 1) * m.width <= i32::MAX
        &&& (bottom + 1) * m.height <= i32::MAX
        &&& m.width <= i32::MAX
        &&& m.height <= i32::MAX
    }
}

/// The part of the target that a redraw touches, in pixels; `None` for all of
/// it.
pub fn touched_rect(damage: &Damage, resized: bool, m: CellMetrics) -> (r: Option<TargetRect>)
    requires
        touch_fits(*damage, m),
    ensures
        r == touched(*damage, resized, m),
{
    if resized {
        return None;
    }
    match damage_bounds(damage) {
        None => None,
        Some((top, bottom, left, right)) => {
            proof {
                lemma_hull_ordered(*damage);
                let (w, h) = (m.width as int, m.height as int);
                lemma_span(left as int, right as int, w);
                lemma_span(top as int, bottom as int, h);
            }
            Some(
                TargetRect {
                    x: (left * m.width) as i32,
                    y: (top * m.height) as i32,
                    width: ((right - left) * m.width) as i32 + m.width as i32,
                    height: ((bottom - top) * m.height) as i32 + m.height as i32,
                },
            )
        },
    }
}

proof fn lemma_span(from: int, to: int, unit: int)
    requires
        0 <= from <= to,
        0 <= unit,
    ensures
        0 <= from * unit <= (to + 1) * unit,
        0 <= (to - from) * unit,
        (to - from + 1) * unit == (to - from) * unit + unit,
        (to - from + 1) * unit <= (to + 1) * unit,
        from * unit + (to - from + 1) * unit == (to + 1) * unit,
{
    assert(from * unit + (to - from + 1) * unit == (to + 1) * unit) by (nonlinear_arith);
    assert(0 <= from * unit <= (to + 1) * unit) by (nonlinear_arith)
        requires
            0 <= from <= to,
            0 <= unit,
    ;
    assert(0 <= (to - from) * unit) by (nonlinear_arith)
        requires
            0 <= from <= to,
            0 <= unit,
    ;
    assert((to - from + 1) * unit == (to - from) * unit + unit) by (nonlinear_arith);
    assert((to - from + 1) * unit <= (to + 1) * unit) by (nonlinear_arith)
        requires
            0 <= from,
            0 <= unit,
    ;
}

proof fn lemma_hull_ordered(damage: Damage)
    ensures
        bounds(damage) matches Some((top, bottom, left, right)) ==> top <= bottom,
{
    if let Damage::Lines(lines) = damage {
        if lines@.len() > 0 {
            crate::term::render::law_bounds_hold_every_stretch(lines@, lines@.len() as int, 0);
        }
    }
}

/// An offscreen target: its size, and whether its texture exists.
#[derive(Debug, Clone, Copy)]
pub struct Target {
    pub tex_size: (i32, i32),
    pub has_texture: bool,
}

impl Target {
    pub fn new() -> (r: Self)
        ensures
            r.tex_size == (0i32, 0i32),
            !r.has_texture,
    {
        Target { tex_size: (0, 0), has_texture: false }
    }

    /// Whether a terminal's target has to be made anew for a size: the size
    /// changed and is not empty.
    pub fn needs_resize(&self, width: i32, height: i32) -> (r: bool)
        ensures
            r == (!((width, height) == self.tex_size) && width > 0 && height > 0),
    {
        !((width == self.tex_size.0 && height == self.tex_size.1) || width <= 0 || height <= 0)
    }

    /// Whether a label's target has to be made anew for a size: there is none,
    /// or one of another size.
    pub fn needs_label_target(&self, width: i32, height: i32) -> (r: bool)
        ensures
            r == !(self.has_texture && (width, height) == self.tex_size),
    {
        !(self.has_texture && width == self.tex_size.0 && height == self.tex_size.1)
    }

    /// The target was made anew.
    pub fn resized(&mut self, width: i32, height: i32)
        ensures
            final(self).tex_size == (width, height),
            final(self).has_texture,
    {
        self.tex_size = (width, height);
        self.has_texture = true;
    }
}

/// The width of a label: that of its characters, at least one.
pub open spec fn label_width(chars: int, m: CellMetrics) -> int {
    (if chars == 0 {
        1
    } else {
        chars
    }) * m.width
}

/// The size of a label's texture: as wide as its characters, at least one, and
/// one line high.
pub fn label_size(chars: usize, m: CellMetrics) -> (r: (i32, i32))
    requires
        label_width(chars as int, m) <= i32::MAX,
        m.height <= i32::MAX,
    ensures
        r.0 == label_width(chars as int, m),
        r.1 == (if m.height == 0 {
            1
        } else {
            m.height as int
        }),
{
    let n: usize = if chars == 0 {
        1
    } else {
        chars
    };
    proof {
        assert(0 <= n * m.width) by (nonlinear_arith)
            requires
                0 <= n,
                0 <= m.width,
        ;
    }
    let height: i32 = if m.height == 0 {
        1
    } else {
        m.height as i32
    };
    ((n * m.width) as i32, height)
}

/// The quads of the glyphs of the first `n` characters of a label.
pub open spec fn label_glyphs(
    chars: Seq<char>,
    entries: Seq<Option<AtlasEntry>>,
    m: CellMetrics,
    fg: Seq<u8>,
    n: int,
) -> Seq<QuadView>
    decreases n,
{
    if n <= 0 {
        Seq::empty()
    } else {
        let before = label_glyphs(chars, entries, m, fg, n - 1);
        if chars[n - 1] != ' ' && entries[n - 1] is Some {
            before.push(glyph_quad(n - 1, 0, m, entries[n - 1]->0, fg))
        } else {
            before
        }
    }
}

/// The quads that draw a label: one behind it all, then one for every glyph.
pub fn label_quads(
    chars: &Vec<char>,
    entries: &Vec<Option<AtlasEntry>>,
    m: CellMetrics,
    white: AtlasEntry,
    fg: Rgb,
    bg: Rgb,
) -> (r: Vec<Quad>)
    requires
        entries@.len() == chars@.len(),
        label_width(chars@.len() as int, m) <= i32::MAX,
        m.height <= i32::MAX,
        forall|i: int|
            0 <= i < chars@.len() ==> place_fits(i, 0, m, #[trigger] entries@[i]),
    ensures
        quad_views(r@) == seq![
            QuadView {
                x: 0,
                y: 0,
                width: label_width(chars@.len() as int, m),
                height: if m.height == 0 {
                    1
                } else {
                    m.height as int
                },
                texels: white,
                color: bg@,
            },
        ] + label_glyphs(chars@, entries@, m, fg@, chars@.len() as int),
{
    let (width, height) = label_size(chars.len(), m);
    let mut quads: Vec<Quad> = Vec::new();
    assert(0 <= label_width(chars@.len() as int, m)) by (nonlinear_arith)
        requires
            0 <= chars@.len(),
            0 <= m.width,
    ;
    quads.push(
        Quad { x: 0, y: 0, width: width as usize, height: height as usize, texels: white, color: bg },
    );
    let ghost back = quads@[0]@;
    assert(quad_views(quads@) =~= seq![back] + label_glyphs(chars@, entries@, m, fg@, 0));
    for i in 0..chars.len()
        invariant
            entries@.len() == chars@.len(),
            forall|i: int|
                0 <= i < chars@.len() ==> place_fits(i, 0, m, #[trigger] entries@[i]),
            quad_views(quads@) == seq![back] + label_glyphs(chars@, entries@, m, fg@, i as int),
    {
        let ghost before = quads@;
        if chars[i] != ' ' {
            if let Some(entry) = entries[i] {
                quads.push(make_glyph_quad(i, 0, m, entry, fg));
                assert(quad_views(quads@) =~= quad_views(before).push(quads@.last()@));
            }
        }
        assert(quad_views(quads@) =~= seq![back] + label_glyphs(chars@, entries@, m, fg@, i + 1));
    }
    quads
}

/// What a console's terminal needs before its next frame.
#[derive(Debug, Clone, Copy, PartialEq, Eq, Structural)]
pub enum RedrawStep {
    /// It has no size yet, and shows nothing.
    Nothing,
    /// Nothing changed: what was drawn last is shown again.
    Reuse,
    /// It has to be drawn.
    Draw,
}

/// What a console's terminal needs, given its size and whether anything
/// changed.
pub fn redraw_step(pixel_size: (i32, i32), dirty: bool) -> (r: RedrawStep)
    ensures
        r == if pixel_size.0 <= 0 || pixel_size.1 <= 0 {
            RedrawStep::Nothing
        } else if dirty {
            RedrawStep::Draw
        } else {
            RedrawStep::Reuse
        },
{
    if pixel_size.0 <= 0 || pixel_size.1 <= 0 {
        return RedrawStep::Nothing;
    }
    if dirty {
        RedrawStep::Draw
    } else {
        RedrawStep::Reuse
    }
}

/// The part of a texture that counts as changed after a redraw: what was
/// touched, or all of it.
pub fn changed_rect(touched: Option<TargetRect>, texture_size: (i32, i32)) -> (r: TargetRect)
    ensures
        r == match touched {
            Some(rect) => rect,
            None => TargetRect { x: 0, y: 0, width: texture_size.0, height: texture_size.1 },
        },
{
    match touched {
        Some(rect) => rect,
        None => TargetRect { x: 0, y: 0, width: texture_size.0, height: texture_size.1 },
    }
}

/// A glyph goes beside the last one where the shelf has room for it, and else
/// to the left end of a new shelf just below the current one. It moves the end
/// of its shelf by its width, and makes the shelf as high as itself if it is
/// higher.
pub proof fn law_where_a_glyph_goes(packer: ShelfPacker, w: u32, h: u32)
    requires
        packer.wf(),
    ensures
        ({
            let beside = packer.cursor_x + w <= 2048;
            let y = if beside {
                packer.cursor_y as int
            } else {
                packer.cursor_y + packer.shelf_height
            };
            let room = w <= 2048 && h <= 2048 && y + h <= 2048;
            let at = given(packer, w, h);
            let next = packer.after(w, h);
            &&& packer.fits(w, h) <==> room
            &&& room ==> at.x == (if beside {
                packer.cursor_x as int
            } else {
                0
            }) && at.y == y && at.w == w && at.h == h
            &&& room ==> next.cursor_x == at.x + w && next.cursor_y == y
            &&& room && beside ==> next.shelf_height >= packer.shelf_height && next.shelf_height >= h
                && (next.shelf_height == packer.shelf_height || next.shelf_height == h)
            &&& room && !beside ==> next.shelf_height == h
        }),
{
}

/// A placed glyph has the place that it was given, and keeps its own size and
/// the way it sits.
pub proof fn law_placed_glyph(packer: ShelfPacker, xmin: i32, ymin: i32, width: u32, height: u32)
    ensures
        ({
            let entry = placed(packer, xmin, ymin, width, height);
            &&& entry.region() == given(packer, width, height)
            &&& entry.xmin == xmin && entry.ymin == ymin
            &&& entry.width == width && entry.height == height
        }),
{
}

/// The hash turns its state left by five bits, mixes the word in, and multiplies
/// by the seed, keeping the low 64 bits.
pub proof fn law_hash_step(state: u64, word: u64)
    ensures
        ({
            let turned = rotated(state);
            &&& (turned >> 5u64) | (turned << 59u64) == state
            &&& state < 0x0800_0000_0000_0000 ==> turned == state * 32
            &&& fx_mixed(state, word) == (turned ^ word) * 0x517cc1b727220a95int
                % 0x1_0000_0000_0000_0000
            &&& fx_mixed(0, 1) == 0x517cc1b727220a95
        }),
{
    let turned = rotated(state);
    assert(turned == (state << 5u64) | (state >> 59u64));
    assert((((state << 5u64) | (state >> 59u64)) >> 5u64) | (((state << 5u64) | (state >> 59u64))
        << 59u64) == state) by (bit_vector);
    assert(state < 0x0800_0000_0000_0000 ==> (state << 5u64) | (state >> 59u64) == state * 32)
        by (bit_vector);
    assert((0u64 << 5u64) | (0u64 >> 59u64) == 0) by (bit_vector);
    assert(0u64 ^ 1u64 == 1u64) by (bit_vector);
}

/// The quad behind a cell covers exactly that cell, in its background color.
pub proof fn law_quad_behind_a_cell(cell: CellView, m: CellMetrics, white: AtlasEntry)
    ensures
        ({
            let q = back_quad(cell, m, white);
            &&& q.x == cell.col * m.width && q.y == cell.row * m.height
            &&& q.width == m.width && q.height == m.height
            &&& q.color == cell.bg && q.texels == white
        }),
{
}

/// The quad of a glyph has the glyph's own size and texels, stands so far right
/// of the cell's left edge as the glyph's offset says, and its lower side is on
/// the baseline, lowered or raised by the glyph's offset.
pub proof fn law_glyph_stands_on_the_baseline(
    col: int,
    row: int,
    m: CellMetrics,
    entry: AtlasEntry,
    color: Seq<u8>,
)
    ensures
        ({
            let q = glyph_quad(col, row, m, entry, color);
            &&& q.x - entry.xmin == col * m.width
            &&& q.y + q.height + entry.ymin == row * m.height + m.baseline
            &&& q.width == entry.width && q.height == entry.height
            &&& q.color == color && q.texels == entry
        }),
{
}

/// A cell has a quad for its glyph exactly if it has a glyph and is not blank,
/// in its foreground color. The quads come in the order of the cells.
pub proof fn law_which_glyphs_are_drawn(
    cells: Seq<CellInfo>,
    entries: Seq<Option<AtlasEntry>>,
    m: CellMetrics,
    n: int,
)
    requires
        0 <= n < cells.len(),
    ensures
        ({
            let before = glyph_quads(cells, entries, m, n);
            let after = glyph_quads(cells, entries, m, n + 1);
            let cell = cells[n];
            let drawn = cell.c != ' ' && cell.c != '\0' && entries[n] is Some;
            &&& drawn ==> after == before.push(
                glyph_quad(cell.col as int, cell.row as int, m, entries[n]->0, cell.fg@),
            )
            &&& !drawn ==> after == before
        }),
        glyph_quads(cells, entries, m, 0) == Seq::<QuadView>::empty(),
{
}

/// Each character of a label stands in a column of its own on the one line
/// there is; a space has no glyph.
pub proof fn law_label_is_one_line(
    chars: Seq<char>,
    entries: Seq<Option<AtlasEntry>>,
    m: CellMetrics,
    fg: Seq<u8>,
    n: int,
)
    requires
        0 <= n < chars.len(),
    ensures
        ({
            let before = label_glyphs(chars, entries, m, fg, n);
            let after = label_glyphs(chars, entries, m, fg, n + 1);
            let drawn = chars[n] != ' ' && entries[n] is Some;
            &&& drawn ==> after == before.push(glyph_quad(n, 0, m, entries[n]->0, fg))
            &&& !drawn ==> after == before
        }),
        label_glyphs(chars, entries, m, fg, 0) == Seq::<QuadView>::empty(),
        label_width(0, m) == m.width,
        n > 0 ==> label_width(n, m) == n * m.width,
{
    assert(1 * m.width == m.width) by (nonlinear_arith);
}

/// A redraw touches the pixels of the rectangle of cells that holds every
/// change, and everything where the target was made anew or nothing bounds the
/// change.
pub proof fn law_what_a_redraw_touches(damage: Damage, m: CellMetrics)
    requires
        touch_fits(damage, m),
    ensures
        touched(damage, true, m) is None,
        bounds(damage) is None ==> touched(damage, false, m) is None,
        bounds(damage) matches Some((top, bottom, left, right)) ==> {
            let t = touched(damage, false, m);
            &&& t is Some
            &&& 0 <= left && 0 <= top && top <= bottom ==> {
                &&& t->0.x == left * m.width
                &&& t->0.x + t->0.width == (right + 1) * m.width
                &&& t->0.y == top * m.height
                &&& t->0.y + t->0.height == (bottom + 1) * m.height
            }
        },
{
    if let Some((top, bottom, left, right)) = bounds(damage) {
        if 0 <= left && 0 <= top && top <= bottom {
            lemma_span(left, right, m.width as int);
            lemma_span(top, bottom, m.height as int);
        }
    }
}

/// The solid texels are a square of two by two at the start of the atlas, and no
/// glyph is placed on them.
pub proof fn law_solid_texels_are_kept_clear(packer: ShelfPacker, entry: AtlasEntry)
    requires
        seated(packer, entry),
    ensures
        solid().x == 0 && solid().y == 0 && solid().w == 2 && solid().h == 2,
        entry.width > 0 && entry.height > 0 ==> entry.region().x >= 2 || entry.region().y >= 2,
{
}

} // verus!
