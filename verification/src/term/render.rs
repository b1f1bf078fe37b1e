//! Drawing the terminal grid into an RGBA8 buffer.
use alacritty_terminal::grid::Indexed;
use alacritty_terminal::index::{Column, Line, Point};
use alacritty_terminal::selection::SelectionRange;
use alacritty_terminal::term::cell::{Cell, Flags};
use alacritty_terminal::vte::ansi;
use vstd::arithmetic::div_mod::*;
use vstd::prelude::*;

use crate::term::mouse::GridPoint;
use crate::term::palette::{
    background, color_ok, flags_contain, foreground, has, is_color, resolve_bg, resolve_fg, Color, Rgb, BOLD,
    COLOR_COUNT, INVERSE, WIDE_CHAR,
};

verus! {

/// The column of the pixel that byte `i` of a buffer `width` pixels wide
/// belongs to.
pub open spec fn column_of(i: int, width: int) -> int {
    i / 4 % width
}

/// The row of the pixel that byte `i` of a buffer `width` pixels wide belongs
/// to.
pub open spec fn row_of(i: int, width: int) -> int {
    i / 4 / width
}

/// Whether byte `i` belongs to a pixel of the image that the buffer holds in
/// full.
pub open spec fn in_image(len: int, width: int, height: int, i: int) -> bool {
    0 < width && row_of(i, width) < height && i / 4 * 4 + 4 <= len
}

/// The byte of an opaque pixel of color `rgb` at channel `k`.
pub open spec fn channel(rgb: Seq<u8>, k: int) -> u8 {
    if k < 3 {
        rgb[k]
    } else {
        255
    }
}

/// The buffer with every pixel that `pick` gives a color to painted with it.
pub open spec fn painted(
    buf: Seq<u8>,
    width: int,
    height: int,
    pick: spec_fn(int, int) -> Option<Seq<u8>>,
) -> Seq<u8> {
    Seq::new(
        buf.len(),
        |i: int|
            if in_image(buf.len() as int, width, height, i) && pick(
                column_of(i, width),
                row_of(i, width),
            ) is Some {
                channel(pick(column_of(i, width), row_of(i, width))->0, i % 4)
            } else {
                buf[i]
            },
    )
}

/// The color of a pixel; black outside the image.
pub open spec fn pixel(buf: Seq<u8>, width: int, height: int, x: int, y: int) -> Seq<u8> {
    if 0 <= x < width && 0 <= y < height && (y * width + x) * 4 + 3 <= buf.len() {
        let at = (y * width + x) * 4;
        seq![buf[at], buf[at + 1], buf[at + 2]]
    } else {
        seq![0u8, 0, 0]
    }
}

/// Paints the one pixel at `(x, y)`.
pub open spec fn just(x: int, y: int, rgb: Seq<u8>) -> spec_fn(int, int) -> Option<Seq<u8>> {
    |px: int, py: int|
        if px == x && py == y {
            Some(rgb)
        } else {
            None
        }
}

/// Paints the `cw` by `ch` cell at `(cell_x, cell_y)`.
pub open spec fn block(cell_x: int, cell_y: int, cw: int, ch: int, rgb: Seq<u8>) -> spec_fn(
    int,
    int,
) -> Option<Seq<u8>> {
    |px: int, py: int|
        if cell_x <= px < cell_x + cw && cell_y <= py < cell_y + ch {
            Some(rgb)
        } else {
            None
        }
}

/// Byte `i` belongs to the pixel at `(x, y)` exactly if its column and row are
/// these.
proof fn lemma_byte_of_pixel(i: int, width: int, x: int, y: int)
    requires
        0 <= i,
        0 <= x < width,
        0 <= y,
    ensures
        (i / 4 == y * width + x) <==> (column_of(i, width) == x && row_of(i, width) == y),
{
    let p = i / 4;
    if p == y * width + x {
        lemma_fundamental_div_mod_converse(p, width, y, x);
    } else {
        lemma_fundamental_div_mod(p, width);
        if column_of(i, width) == x && row_of(i, width) == y {
            assert(width * y == y * width) by (nonlinear_arith);
        }
    }
}

/// Paints one pixel, unless it lies outside the image.
pub fn put_pixel(buf: &mut Vec<u8>, width: usize, height: usize, x: i64, y: i64, rgb: Rgb)
    requires
        width * height * 4 <= usize::MAX,
    ensures
        final(buf)@ == painted(
            old(buf)@,
            width as int,
            height as int,
            just(x as int, y as int, rgb@),
        ),
{
    let ghost old_buf = buf@;
    let ghost wanted = painted(buf@, width as int, height as int, just(x as int, y as int, rgb@));
    proof {
        if 0 <= x < width && 0 <= y {
            assert forall|i: int| 0 <= i < buf@.len() implies (i / 4 == y * width + x) == (column_of(
                i,
                width as int,
            ) == x && row_of(i, width as int) == y) by {
                lemma_byte_of_pixel(i, width as int, x as int, y as int);
            }
        }
        if width > 0 {
            assert forall|i: int| 0 <= i < buf@.len() implies 0 <= column_of(i, width as int)
                < width && 0 <= row_of(i, width as int) by {
                lemma_mod_bound(i / 4, width as int);
                lemma_div_pos_is_pos(i / 4, width as int);
            }
        }
    }
    if x < 0 || y < 0 || x as u64 >= width as u64 || y as u64 >= height as u64 {
        assert(buf@ =~= wanted);
        return ;
    }
    proof {
        assert(y * width + x <= width * height - 1) by (nonlinear_arith)
            requires
                0 <= y <= height - 1,
                0 <= x <= width - 1,
        ;
        assert(0 <= y * width) by (nonlinear_arith)
            requires
                0 <= y,
                0 <= width,
        ;
        assert(y * width <= y * width + x);
    }
    let idx: usize = (y as usize * width + x as usize) * 4;
    if buf.len() < 4 || idx > buf.len() - 4 {
        assert(buf@ =~= wanted);
        return ;
    }
    buf.set(idx, rgb[0]);
    buf.set(idx + 1, rgb[1]);
    buf.set(idx + 2, rgb[2]);
    buf.set(idx + 3, 255);
    assert(buf@ =~= wanted);
}

/// The color of a pixel; black outside the image.
pub fn get_pixel(buf: &Vec<u8>, width: usize, height: usize, x: i64, y: i64) -> (r: Rgb)
    requires
        width * height * 4 <= usize::MAX,
    ensures
        r@ == pixel(buf@, width as int, height as int, x as int, y as int),
{
    if x < 0 || y < 0 || x as u64 >= width as u64 || y as u64 >= height as u64 {
        let r: Rgb = [0, 0, 0];
        assert(r@ =~= pixel(buf@, width as int, height as int, x as int, y as int));
        return r;
    }
    proof {
        assert(y * width + x <= width * height - 1) by (nonlinear_arith)
            requires
                0 <= y <= height - 1,
                0 <= x <= width - 1,
        ;
        assert(0 <= y * width) by (nonlinear_arith)
            requires
                0 <= y,
                0 <= width,
        ;
        assert(y * width <= y * width + x);
    }
    let idx: usize = (y as usize * width + x as usize) * 4;
    let r: Rgb = if buf.len() < 3 || idx > buf.len() - 3 {
        [0, 0, 0]
    } else {
        [buf[idx], buf[idx + 1], buf[idx + 2]]
    };
    assert(r@ =~= pixel(buf@, width as int, height as int, x as int, y as int));
    r
}

/// Fills a `cw` by `ch` cell; what lies outside the image is clipped.
pub fn fill_cell(
    buf: &mut Vec<u8>,
    width: usize,
    height: usize,
    cell_x: usize,
    cell_y: usize,
    cw: usize,
    ch: usize,
    rgb: Rgb,
)
    requires
        width * height * 4 <= usize::MAX,
        cell_x + cw <= usize::MAX,
        cell_y + ch <= usize::MAX,
        cell_x + cw <= i64::MAX,
        cell_y + ch <= i64::MAX,
    ensures
        final(buf)@ == painted(
            old(buf)@,
            width as int,
            height as int,
            block(cell_x as int, cell_y as int, cw as int, ch as int, rgb@),
        ),
{
    let ghost start = buf@;
    assert(buf@ =~= painted(
        start,
        width as int,
        height as int,
        block(cell_x as int, cell_y as int, cw as int, 0, rgb@),
    ));
    for dy in 0..ch
        invariant
            width * height * 4 <= usize::MAX,
            cell_x + cw <= usize::MAX,
            cell_y + ch <= usize::MAX,
            cell_x + cw <= i64::MAX,
            cell_y + ch <= i64::MAX,
            buf@ == painted(
                start,
                width as int,
                height as int,
                block(cell_x as int, cell_y as int, cw as int, dy as int, rgb@),
            ),
    {
        let ghost above = buf@;
        assert(buf@ =~= painted(
            above,
            width as int,
            height as int,
            block(cell_x as int, cell_y + dy, 0, 1, rgb@),
        ));
        for dx in 0..cw
            invariant
                width * height * 4 <= usize::MAX,
                cell_x + cw <= usize::MAX,
                cell_y + ch <= usize::MAX,
                cell_x + cw <= i64::MAX,
                cell_y + ch <= i64::MAX,
                dy < ch,
                buf@ == painted(
                    above,
                    width as int,
                    height as int,
                    block(cell_x as int, cell_y + dy, dx as int, 1, rgb@),
                ),
        {
            put_pixel(buf, width, height, (cell_x + dx) as i64, (cell_y + dy) as i64, rgb);
            assert(buf@ =~= painted(
                above,
                width as int,
                height as int,
                block(cell_x as int, cell_y + dy, dx + 1, 1, rgb@),
            ));
        }
        assert(buf@ =~= painted(
            start,
            width as int,
            height as int,
            block(cell_x as int, cell_y as int, cw as int, dy + 1, rgb@),
        ));
    }
}

/// One channel of a color laid over another with a given coverage.
pub open spec fn mixed(bg: u8, fg: u8, coverage: u8) -> u8 {
    ((fg * coverage + bg * (255 - coverage)) / 255) as u8
}

/// A color laid over another with a given coverage.
pub open spec fn blended(bg: Seq<u8>, fg: Seq<u8>, coverage: u8) -> Seq<u8> {
    seq![
        mixed(bg[0], fg[0], coverage),
        mixed(bg[1], fg[1], coverage),
        mixed(bg[2], fg[2], coverage),
    ]
}

fn mix(bg: u8, fg: u8, coverage: u8) -> (r: u8)
    ensures
        r == mixed(bg, fg, coverage),
{
    let a: u32 = coverage as u32;
    assert(fg * coverage + bg * (255 - coverage) <= 255 * 255) by (nonlinear_arith)
        requires
            0 <= fg <= 255,
            0 <= bg <= 255,
            0 <= coverage <= 255,
    ;
    assert(0 <= fg * coverage) by (nonlinear_arith)
        requires
            0 <= fg,
            0 <= coverage,
    ;
    assert(0 <= bg * (255 - coverage)) by (nonlinear_arith)
        requires
            0 <= bg,
            0 <= coverage <= 255,
    ;
    ((fg as u32 * a + bg as u32 * (255 - a)) / 255) as u8
}

/// Lays `fg` over `bg` with a given coverage.
pub fn blend(bg: Rgb, fg: Rgb, coverage: u8) -> (r: Rgb)
    ensures
        r@ == blended(bg@, fg@, coverage),
{
    let r: Rgb = [
        mix(bg[0], fg[0], coverage),
        mix(bg[1], fg[1], coverage),
        mix(bg[2], fg[2], coverage),
    ];
    assert(r@ =~= blended(bg@, fg@, coverage));
    r
}

/// Full coverage gives the upper color, none the lower one.
pub proof fn law_blend_ends(bg: u8, fg: u8)
    ensures
        mixed(bg, fg, 255) == fg,
        mixed(bg, fg, 0) == bg,
{
}

/// A mixed channel lies between the two it was mixed from.
pub proof fn law_blend_between(bg: u8, fg: u8, coverage: u8)
    ensures
        bg <= fg ==> bg <= mixed(bg, fg, coverage) <= fg,
        fg <= bg ==> fg <= mixed(bg, fg, coverage) <= bg,
{
    let sum = fg * coverage + bg * (255 - coverage);
    if bg <= fg {
        assert(255 * bg <= sum <= 255 * fg) by (nonlinear_arith)
            requires
                sum == fg * coverage + bg * (255 - coverage),
                0 <= bg <= fg <= 255,
                0 <= coverage <= 255,
        ;
    } else {
        assert(255 * fg <= sum <= 255 * bg) by (nonlinear_arith)
            requires
                sum == fg * coverage + bg * (255 - coverage),
                0 <= fg <= bg <= 255,
                0 <= coverage <= 255,
        ;
    }
}

/// A rasterized glyph: a bitmap of coverage values, row by row, and where it
/// sits relative to the pen position on the baseline.
#[derive(Debug, Clone)]
pub struct Glyph {
    pub xmin: i32,
    pub ymin: i32,
    pub width: usize,
    pub height: usize,
    pub bitmap: Vec<u8>,
}

impl Glyph {
    /// The coverage at a place of the bitmap; none beyond what it holds.
    pub open spec fn coverage(&self, gx: int, gy: int) -> u8 {
        if 0 <= gx < self.width && 0 <= gy < self.height && gy * self.width + gx
            < self.bitmap@.len() {
            self.bitmap@[gy * self.width + gx]
        } else {
            0
        }
    }
}

/// A region of the buffer.
#[derive(Debug, Clone, Copy, PartialEq, Eq, Structural)]
pub struct PixelRect {
    pub x: usize,
    pub y: usize,
    pub width: usize,
    pub height: usize,
}

/// Whether a pixel lies in a region.
pub open spec fn inside(rect: PixelRect, px: int, py: int) -> bool {
    rect.x <= px < rect.x + rect.width && rect.y <= py < rect.y + rect.height
}

/// A changed stretch of one row of the view, both ends of it changed.
#[derive(Debug, Clone, Copy, PartialEq, Eq, Structural)]
pub struct LineDamage {
    pub line: usize,
    pub left: usize,
    pub right: usize,
}

/// What changed since the last redraw.
#[derive(Debug, Clone)]
pub enum Damage {
    /// Everything: the first frame, or after a resize.
    Full,
    /// Only these stretches.
    Lines(Vec<LineDamage>),
}

/// The region of the buffer that a changed stretch covers.
pub open spec fn stretch_rect(l: LineDamage, cw: usize, ch: usize) -> PixelRect {
    PixelRect {
        x: (l.left * cw) as usize,
        y: (l.line * ch) as usize,
        width: ((if l.left <= l.right {
            l.right - l.left
        } else {
            0
        } + 1) * cw) as usize,
        height: ch,
    }
}

/// Whether the region that a changed stretch covers stays in the machine's
/// range.
pub open spec fn stretch_fits(l: LineDamage, cw: usize, ch: usize) -> bool {
    &&& l.left * cw <= usize::MAX
    &&& (l.right + 1) * cw <= usize::MAX
    &&& l.line * ch <= usize::MAX
    &&& l.right < usize::MAX
}

/// Whether the regions that the changed stretches cover stay in the machine's
/// range.
pub open spec fn stretches_fit(damage: Damage, cw: usize, ch: usize) -> bool {
    match damage {
        Damage::Full => true,
        Damage::Lines(lines) => forall|i: int|
            0 <= i < lines@.len() ==> stretch_fits(#[trigger] lines@[i], cw, ch),
    }
}

/// Whether a pixel lies in a cell that a changed stretch covers.
pub open spec fn in_stretch(l: LineDamage, cw: usize, ch: usize, px: int, py: int) -> bool {
    l.left <= l.right && inside(stretch_rect(l, cw, ch), px, py)
}

/// Whether drawing may touch a pixel: everything is redrawn, or the pixel lies
/// in a cell that has to be.
pub open spec fn touchable(damage: Damage, cw: usize, ch: usize, px: int, py: int) -> bool {
    match damage {
        Damage::Full => true,
        Damage::Lines(lines) => exists|k: int|
            0 <= k < lines@.len() && in_stretch(#[trigger] lines@[k], cw, ch, px, py),
    }
}

/// The regions of the buffer that were redrawn.
pub open spec fn redrawn(
    damage: Damage,
    width: usize,
    height: usize,
    cw: usize,
    ch: usize,
) -> Seq<PixelRect> {
    match damage {
        Damage::Full => seq![PixelRect { x: 0, y: 0, width, height }],
        Damage::Lines(lines) => Seq::new(
            lines@.len(),
            |i: int| stretch_rect(lines@[i], cw, ch),
        ),
    }
}

/// The ends of the region that a changed stretch covers.
proof fn lemma_stretch_rect(l: LineDamage, cw: usize, ch: usize)
    requires
        stretch_fits(l, cw, ch),
        l.left <= l.right,
    ensures
        stretch_rect(l, cw, ch).x == l.left * cw,
        stretch_rect(l, cw, ch).x + stretch_rect(l, cw, ch).width == (l.right + 1) * cw,
        stretch_rect(l, cw, ch).y == l.line * ch,
{
    let span = l.right - l.left + 1;
    assert(0 <= l.left * cw) by (nonlinear_arith)
        requires
            0 <= l.left,
            0 <= cw,
    ;
    assert(0 <= l.line * ch) by (nonlinear_arith)
        requires
            0 <= l.line,
            0 <= ch,
    ;
    assert(0 <= span * cw && l.left * cw + span * cw == (l.right + 1) * cw) by (nonlinear_arith)
        requires
            span == l.right - l.left + 1,
            0 <= span,
            0 <= cw,
    ;
}

fn is_in_stretch(l: LineDamage, cw: usize, ch: usize, x: i64, y: i64) -> (r: bool)
    requires
        stretch_fits(l, cw, ch),
    ensures
        r == in_stretch(l, cw, ch, x as int, y as int),
{
    if l.left > l.right || x < 0 || y < 0 {
        return false;
    }
    proof {
        lemma_stretch_rect(l, cw, ch);
    }
    let left: u64 = (l.left * cw) as u64;
    let right: u64 = ((l.right + 1) * cw) as u64;
    let top: u64 = (l.line * ch) as u64;
    left <= x as u64 && (x as u64) < right && top <= y as u64 && y as u64 - top < ch as u64
}

fn is_touchable(damage: &Damage, cw: usize, ch: usize, x: i64, y: i64) -> (r: bool)
    requires
        stretches_fit(*damage, cw, ch),
    ensures
        r == touchable(*damage, cw, ch, x as int, y as int),
{
    match damage {
        Damage::Full => true,
        Damage::Lines(lines) => {
            for k in 0..lines.len()
                invariant
                    *damage == Damage::Lines(*lines),
                    stretches_fit(*damage, cw, ch),
                    forall|j: int|
                        0 <= j < k ==> !in_stretch(#[trigger] lines@[j], cw, ch, x as int, y as int),
            {
                assert(stretch_fits(damage->Lines_0@[k as int], cw, ch));
                if is_in_stretch(lines[k], cw, ch, x, y) {
                    assert(in_stretch(damage->Lines_0@[k as int], cw, ch, x as int, y as int));
                    return true;
                }
            }
            false
        },
    }
}

/// Paints the first `rows` rows of a glyph at `(at_x, at_y)`, and `cols`
/// columns of the next one, over what is there, as far as drawing may touch them.
pub open spec fn ink(
    buf: Seq<u8>,
    width: int,
    height: int,
    at_x: int,
    at_y: int,
    damage: Damage,
    cw: usize,
    ch: usize,
    glyph: &Glyph,
    fg: Seq<u8>,
    rows: int,
    cols: int,
) -> spec_fn(int, int) -> Option<Seq<u8>> {
    |px: int, py: int|
        if touchable(damage, cw, ch, px, py) && (py - at_y < rows || (py - at_y == rows && px - at_x
            < cols)) && glyph.coverage(px - at_x, py - at_y) != 0 {
            Some(
                blended(
                    pixel(buf, width, height, px, py),
                    fg,
                    glyph.coverage(px - at_x, py - at_y),
                ),
            )
        } else {
            None
        }
}

/// Whether the coordinates of a glyph's pixels, its top left corner at
/// `(left, top)`, stay in the machine's range.
pub open spec fn pixels_fit(left: int, top: int, glyph: Glyph) -> bool {
    &&& glyph.width * glyph.height <= usize::MAX
    &&& glyph.width <= i64::MAX
    &&& glyph.height <= i64::MAX
    &&& i64::MIN <= left <= i64::MAX
    &&& i64::MIN <= top <= i64::MAX
    &&& left + glyph.width - 1 <= i64::MAX
    &&& top + glyph.height - 1 <= i64::MAX
}

/// Lays a glyph in color `fg` over the buffer, its top left corner at
/// `(at_x, at_y)`; what drawing may not touch or the
/// image does not hold is left out.
fn draw_glyph(
    buf: &mut Vec<u8>,
    width: usize,
    height: usize,
    at_x: i64,
    at_y: i64,
    damage: &Damage,
    cw: usize,
    ch: usize,
    glyph: &Glyph,
    fg: Rgb,
)
    requires
        width * height * 4 <= usize::MAX,
        pixels_fit(at_x as int, at_y as int, *glyph),
        stretches_fit(*damage, cw, ch),
    ensures
        final(buf)@ == painted(
            old(buf)@,
            width as int,
            height as int,
            ink(
                old(buf)@,
                width as int,
                height as int,
                at_x as int,
                at_y as int,
                *damage,
                cw,
                ch,
                glyph,
                fg@,
                glyph.height as int,
                0,
            ),
        ),
{
    let ghost w = width as int;
    let ghost h = height as int;
    let ghost x0 = at_x as int;
    let ghost y0 = at_y as int;
    let ghost start = buf@;
    assert(buf@ =~= painted(start, w, h, ink(start, w, h, x0, y0, *damage, cw, ch, glyph, fg@, 0, 0)));
    for gy in 0..glyph.height
        invariant
            width * height * 4 <= usize::MAX,
            pixels_fit(at_x as int, at_y as int, *glyph),
            stretches_fit(*damage, cw, ch),
            w == width,
            h == height,
            x0 == at_x,
            y0 == at_y,
            buf@ == painted(start, w, h, ink(start, w, h, x0, y0, *damage, cw, ch, glyph, fg@, gy as int, 0)),
    {
        for gx in 0..glyph.width
            invariant
                width * height * 4 <= usize::MAX,
                pixels_fit(at_x as int, at_y as int, *glyph),
                stretches_fit(*damage, cw, ch),
                w == width,
                h == height,
                x0 == at_x,
                y0 == at_y,
                gy < glyph.height,
                buf@ == painted(
                    start,
                    w,
                    h,
                    ink(start, w, h, x0, y0, *damage, cw, ch, glyph, fg@, gy as int, gx as int),
                ),
        {
            let ghost before = buf@;
            proof {
                assert(gy * glyph.width + gx <= glyph.width * glyph.height - 1) by (nonlinear_arith)
                    requires
                        0 <= gy <= glyph.height - 1,
                        0 <= gx <= glyph.width - 1,
                ;
                assert(0 <= gy * glyph.width) by (nonlinear_arith)
                    requires
                        0 <= gy,
                        0 <= glyph.width,
                ;
                assert(gy * glyph.width <= gy * glyph.width + gx);
            }
            let at: usize = gy * glyph.width + gx;
            let coverage: u8 = if at < glyph.bitmap.len() {
                glyph.bitmap[at]
            } else {
                0
            };
            assert(coverage == glyph.coverage(gx as int, gy as int));
            let x: i64 = at_x + gx as i64;
            let y: i64 = at_y + gy as i64;
            if coverage != 0 && is_touchable(damage, cw, ch, x, y) {
                let existing = get_pixel(buf, width, height, x, y);
                proof {
                    lemma_unpainted_pixel(
                        start,
                        w,
                        h,
                        ink(start, w, h, x0, y0, *damage, cw, ch, glyph, fg@, gy as int, gx as int),
                        x as int,
                        y as int,
                    );
                }
                let laid = blend(existing, fg, coverage);
                put_pixel(buf, width, height, x, y, laid);
            }
            assert(buf@ =~= painted(
                start,
                w,
                h,
                ink(start, w, h, x0, y0, *damage, cw, ch, glyph, fg@, gy as int, gx + 1),
            ));
        }
        assert(buf@ =~= painted(start, w, h, ink(start, w, h, x0, y0, *damage, cw, ch, glyph, fg@, gy + 1, 0)));
    }
}

/// A pixel that was not painted has the color it had.
proof fn lemma_unpainted_pixel(
    buf: Seq<u8>,
    width: int,
    height: int,
    pick: spec_fn(int, int) -> Option<Seq<u8>>,
    x: int,
    y: int,
)
    requires
        pick(x, y) is None,
    ensures
        pixel(painted(buf, width, height, pick), width, height, x, y) == pixel(
            buf,
            width,
            height,
            x,
            y,
        ),
{
    let after = painted(buf, width, height, pick);
    if 0 <= x < width && 0 <= y < height && (y * width + x) * 4 + 3 <= buf.len() {
        let at = (y * width + x) * 4;
        assert(0 <= y * width) by (nonlinear_arith)
            requires
                0 <= y,
                0 < width,
        ;
        lemma_byte_of_pixel(at, width, x, y);
        lemma_byte_of_pixel(at + 1, width, x, y);
        lemma_byte_of_pixel(at + 2, width, x, y);
        assert(at / 4 == y * width + x);
        assert((at + 1) / 4 == y * width + x);
        assert((at + 2) / 4 == y * width + x);
        assert(after[at] == buf[at]);
        assert(after[at + 1] == buf[at + 1]);
        assert(after[at + 2] == buf[at + 2]);
    }
    assert(pixel(after, width, height, x, y) =~= pixel(buf, width, height, x, y));
}

/// The shape of the cursor.
#[derive(Debug, Clone, Copy, PartialEq, Eq, Structural)]
pub enum CursorShape {
    Block,
    Underline,
    Beam,
    HollowBlock,
    Hidden,
}

/// A range of selected cells, both ends of it selected.
#[derive(Debug, Clone, Copy, PartialEq, Eq, Structural)]
pub struct SelectedRange {
    pub start: GridPoint,
    pub end: GridPoint,
    pub is_block: bool,
}

impl SelectedRange {
    /// Whether a point lies in the range: between its ends in reading order,
    /// or in the rectangle they span if it is a block.
    pub open spec fn covers(self, line: int, column: int) -> bool {
        &&& self.start.line <= line <= self.end.line
        &&& self.start.column <= column || (self.start.line != line && !self.is_block)
        &&& column <= self.end.column || (self.end.line != line && !self.is_block)
    }

    /// Whether a point is one of the range's corners.
    pub open spec fn corner(self, point: GridPoint) -> bool {
        ||| self.start == point
        ||| self.end == point
        ||| self.is_block && self.start.line == point.line && self.end.column == point.column
        ||| self.is_block && self.end.line == point.line && self.start.column == point.column
    }
}

/// Whether a cell is shown as selected. A block cursor at a corner of the
/// range is not; a wide character is if either of its columns is.
pub open spec fn shown_selected(
    range: SelectedRange,
    point: GridPoint,
    flags: u16,
    cursor: GridPoint,
    shape: CursorShape,
) -> bool {
    &&& !(shape is Block && cursor == point && range.corner(point))
    &&& range.covers(point.line as int, point.column as int) || (has(flags, WIDE_CHAR)
        && range.covers(point.line as int, point.column + 1))
}

/// `SelectionRange::contains_cell` of alacritty_terminal: whether the cell at
/// `point`, with attributes `flags`, is part of the selection, the cursor
/// being at `cursor` with a block shape or another.
#[verifier::external_body]
fn range_contains_cell(
    range: SelectedRange,
    point: GridPoint,
    flags: u16,
    cursor: GridPoint,
    block_cursor: bool,
) -> (r: bool)
    requires
        point.column < usize::MAX,
    ensures
        r == shown_selected(
            range,
            point,
            flags,
            cursor,
            if block_cursor {
                CursorShape::Block
            } else {
                CursorShape::Beam
            },
        ),
{
    let at = |p: GridPoint| Point::new(Line(p.line), Column(p.column));
    let shape = if block_cursor { ansi::CursorShape::Block } else { ansi::CursorShape::Beam };
    let cell = Cell { flags: Flags::from_bits_retain(flags), ..Cell::default() };
    let selection =
        SelectionRange { start: at(range.start), end: at(range.end), is_block: range.is_block };
    selection.contains_cell(&Indexed { point: at(point), cell: &cell }, at(cursor), shape)
}

/// One cell of the grid.
#[derive(Debug, Clone, Copy)]
pub struct GridCell {
    pub point: GridPoint,
    pub c: char,
    pub fg: Color,
    pub bg: Color,
    pub flags: u16,
}

/// What the terminal shows: its visible cells, the cursor, the selection, how
/// far the view is scrolled into history, and the program's color table.
#[derive(Debug, Clone)]
pub struct Content {
    pub cells: Vec<GridCell>,
    pub cursor: GridPoint,
    pub cursor_shape: CursorShape,
    pub selection: Option<SelectedRange>,
    pub display_offset: usize,
    pub colors: Vec<Option<Rgb>>,
}

impl Content {
    /// Whether the color table is complete and every cell lies in the view.
    pub open spec fn valid(&self) -> bool {
        &&& self.colors@.len() == COLOR_COUNT
        &&& self.display_offset <= i32::MAX
        &&& forall|i: int|
            0 <= i < self.cells@.len() ==> {
                let cell = #[trigger] self.cells@[i];
                &&& color_ok(cell.fg)
                &&& color_ok(cell.bg)
                &&& 0 <= cell.point.line + self.display_offset <= i32::MAX
                &&& cell.point.column < usize::MAX
            }
    }

    /// The row of the view that a cell is in.
    pub open spec fn row(&self, cell: GridCell) -> int {
        cell.point.line + self.display_offset
    }

    /// Whether a cell's two colors change places: it is inverse, selected or
    /// under a visible cursor, or more than one of these.
    pub open spec fn swapped(&self, cell: GridCell) -> bool {
        ||| has(cell.flags, INVERSE)
        ||| self.selection is Some && shown_selected(
            self.selection->0,
            cell.point,
            cell.flags,
            self.cursor,
            self.cursor_shape,
        )
        ||| self.cursor_shape !is Hidden && cell.point == self.cursor
    }

    /// A cell's colors as shown: foreground and background.
    pub open spec fn shown_colors(&self, cell: GridCell) -> (Seq<u8>, Seq<u8>) {
        let fg = foreground(cell.fg, cell.flags, self.colors@);
        let bg = background(cell.bg, self.colors@);
        if self.swapped(cell) {
            (bg, fg)
        } else {
            (fg, bg)
        }
    }
}

impl Content {
    /// Whether the color table is complete and every cell lies in the view.
    pub fn is_valid(&self) -> (r: bool)
        ensures
            r == self.valid(),
    {
        if self.colors.len() != COLOR_COUNT || self.display_offset as u64 > i32::MAX as u64 {
            return false;
        }
        for i in 0..self.cells.len()
            invariant
                self.colors@.len() == COLOR_COUNT,
                self.display_offset <= i32::MAX,
                forall|k: int|
                    0 <= k < i ==> {
                        let cell = #[trigger] self.cells@[k];
                        &&& color_ok(cell.fg)
                        &&& color_ok(cell.bg)
                        &&& 0 <= cell.point.line + self.display_offset <= i32::MAX
                        &&& cell.point.column < usize::MAX
                    },
        {
            let cell = self.cells[i];
            let row: i64 = cell.point.line as i64 + self.display_offset as i64;
            assert(cell == self.cells@[i as int]);
            if !is_color(cell.fg) || !is_color(cell.bg) || row < 0 || row > i32::MAX as i64
                || cell.point.column == usize::MAX {
                return false;
            }
        }
        true
    }
}

/// A visible cell's character and its colors as shown.
#[derive(Debug, Clone, Copy)]
pub struct CellInfo {
    pub col: usize,
    pub row: usize,
    pub c: char,
    pub bold: bool,
    pub fg: Rgb,
    pub bg: Rgb,
}

/// The contents of a [`CellInfo`].
pub ghost struct CellView {
    pub col: int,
    pub row: int,
    pub c: char,
    pub bold: bool,
    pub fg: Seq<u8>,
    pub bg: Seq<u8>,
}

impl View for CellInfo {
    type V = CellView;

    open spec fn view(&self) -> CellView {
        CellView {
            col: self.col as int,
            row: self.row as int,
            c: self.c,
            bold: self.bold,
            fg: self.fg@,
            bg: self.bg@,
        }
    }
}

/// How a cell is shown.
pub open spec fn shown(content: &Content, cell: GridCell) -> CellView {
    CellView {
        col: cell.point.column as int,
        row: content.row(cell),
        c: cell.c,
        bold: has(cell.flags, BOLD),
        fg: content.shown_colors(cell).0,
        bg: content.shown_colors(cell).1,
    }
}

/// How a cell is shown.
pub(crate) fn resolve_cell(content: &Content, i: usize) -> (r: CellInfo)
    requires
        content.valid(),
        i < content.cells@.len(),
    ensures
        r@ == shown(content, content.cells@[i as int]),
{
    let cell = content.cells[i];
    let row: usize = (cell.point.line + content.display_offset as i32) as usize;
    let hidden = matches!(content.cursor_shape, CursorShape::Hidden);
    let is_cursor_cell = !hidden && cell.point == content.cursor;
    let is_selected = match content.selection {
        Some(range) => {
            let block = matches!(content.cursor_shape, CursorShape::Block);
            range_contains_cell(range, cell.point, cell.flags, content.cursor, block)
        },
        None => false,
    };
    let fg = resolve_fg(cell.fg, cell.flags, &content.colors);
    let bg = resolve_bg(cell.bg, &content.colors);
    let bold = flags_contain(cell.flags, BOLD);
    if flags_contain(cell.flags, INVERSE) || is_selected || is_cursor_cell {
        CellInfo { col: cell.point.column, row, c: cell.c, bold, fg: bg, bg: fg }
    } else {
        CellInfo { col: cell.point.column, row, c: cell.c, bold, fg, bg }
    }
}

/// Every visible cell as it is shown, in the order of the grid.
pub fn collect_cells(content: &Content) -> (r: Vec<CellInfo>)
    requires
        content.valid(),
    ensures
        r@.len() == content.cells@.len(),
        forall|i: int|
            0 <= i < r@.len() ==> (#[trigger] r@[i])@ == shown(content, content.cells@[i]),
{
    let mut cells: Vec<CellInfo> = Vec::new();
    for i in 0..content.cells.len()
        invariant
            content.valid(),
            cells@.len() == i,
            forall|k: int|
                0 <= k < i ==> (#[trigger] cells@[k])@ == shown(content, content.cells@[k]),
    {
        cells.push(resolve_cell(content, i));
    }
    cells
}

/// Whether a changed stretch covers a column and row of the view.
pub open spec fn covers(l: LineDamage, col: int, row: int) -> bool {
    l.line == row && l.left <= col <= l.right
}

/// Whether the cell at a column and row of the view has to be redrawn: some
/// changed stretch covers it.
pub open spec fn damaged(damage: Damage, col: int, row: int) -> bool {
    match damage {
        Damage::Full => true,
        Damage::Lines(lines) => exists|k: int|
            0 <= k < lines@.len() && covers(#[trigger] lines@[k], col, row),
    }
}

fn is_damaged(damage: &Damage, col: usize, row: usize) -> (r: bool)
    ensures
        r == damaged(*damage, col as int, row as int),
{
    match damage {
        Damage::Full => true,
        Damage::Lines(lines) => {
            for k in 0..lines.len()
                invariant
                    *damage == Damage::Lines(*lines),
                    forall|j: int|
                        0 <= j < k ==> !covers(#[trigger] lines@[j], col as int, row as int),
            {
                let l = lines[k];
                if l.line == row && l.left <= col && col <= l.right {
                    assert(covers(damage->Lines_0@[k as int], col as int, row as int));
                    return true;
                }
            }
            false
        },
    }
}

/// The glyphs to draw a frame with: the size of a cell, where the baseline is
/// in it, the rasterized glyphs, and which of them each cell shows.
#[derive(Debug, Clone)]
pub struct GlyphSheet {
    pub cell_width: usize,
    pub cell_height: usize,
    pub baseline: usize,
    pub glyphs: Vec<Glyph>,
    pub of_cell: Vec<usize>,
}

/// Whether a character leaves its cell empty.
pub open spec fn blank(c: char) -> bool {
    c == ' ' || c == '\0'
}

impl GlyphSheet {
    /// Whether a cell lies in the machine's range, and so do the coordinates
    /// that drawing its glyph computes, unless it is blank.
    pub open spec fn fits_cell(&self, col: int, row: int, c: char, glyph: Glyph) -> bool {
        let x = col * self.cell_width;
        let y = row * self.cell_height;
        &&& (col + 1) * self.cell_width <= usize::MAX
        &&& (col + 1) * self.cell_width <= i64::MAX
        &&& (row + 1) * self.cell_height <= usize::MAX
        &&& (row + 1) * self.cell_height <= i64::MAX
        &&& blank(c) || {
            &&& y + self.baseline <= i64::MAX
            &&& pixels_fit(x + glyph.xmin, y + self.baseline - glyph.height - glyph.ymin, glyph)
        }
    }

    /// Whether every cell of `content` has a glyph, and no coordinate that
    /// drawing computes leaves the machine's range.
    pub open spec fn fits(&self, content: &Content) -> bool {
        &&& self.of_cell@.len() == content.cells@.len()
        &&& forall|i: int|
            0 <= i < content.cells@.len() ==> {
                let cell = #[trigger] content.cells@[i];
                &&& self.of_cell@[i] < self.glyphs@.len()
                &&& self.fits_cell(
                    cell.point.column as int,
                    content.row(cell),
                    cell.c,
                    self.glyphs@[self.of_cell@[i] as int],
                )
            }
    }
}

/// Whether the coordinates of a glyph's pixels, its top left corner at
/// `(left, top)`, stay in the machine's range.
fn are_pixels_fitting(left: i128, top: i128, glyph: &Glyph) -> (r: bool)
    requires
        -0x1_0000_0000_0000_0000_0000 <= left <= 0x1_0000_0000_0000_0000_0000,
        -0x1_0000_0000_0000_0000_0000 <= top <= 0x1_0000_0000_0000_0000_0000,
    ensures
        r == pixels_fit(left as int, top as int, *glyph),
{
    proof {
        lemma_usize_product(glyph.width as int, glyph.height as int);
    }
    let area: u128 = glyph.width as u128 * glyph.height as u128;
    let w: i128 = glyph.width as i128;
    let h: i128 = glyph.height as i128;
    let low: i128 = i64::MIN as i128;
    let high: i128 = i64::MAX as i128;
    area <= usize::MAX as u128 && w <= high && h <= high && low <= left && left <= high && low <= top
        && top <= high && left + w - 1 <= high && top + h - 1 <= high
}

impl GlyphSheet {
    fn is_fitting_cell(&self, col: usize, row: usize, c: char, glyph: &Glyph) -> (r: bool)
        requires
            col < usize::MAX,
            row <= i32::MAX,
        ensures
            r == self.fits_cell(col as int, row as int, c, *glyph),
    {
        let cw: u128 = self.cell_width as u128;
        let ch: u128 = self.cell_height as u128;
        proof {
            lemma_usize_product(col + 1, cw as int);
            lemma_usize_product(row + 1, ch as int);
            assert((col + 1) * cw == col * cw + cw) by (nonlinear_arith);
            assert((row + 1) * ch == row * ch + ch) by (nonlinear_arith);
            assert(0 <= col * cw && 0 <= row * ch) by (nonlinear_arith)
                requires
                    0 <= col,
                    0 <= row,
                    0 <= cw,
                    0 <= ch,
            ;
        }
        let right: u128 = (col as u128 + 1) * cw;
        let bottom: u128 = (row as u128 + 1) * ch;
        let high: u128 = i64::MAX as u128;
        if right > usize::MAX as u128 || right > high || bottom > usize::MAX as u128 || bottom
            > high {
            return false;
        }
        if c == ' ' || c == '\0' {
            return true;
        }
        let x: i128 = (right - cw) as i128;
        let y: i128 = (bottom - ch) as i128;
        let baseline: i128 = self.baseline as i128;
        y + baseline <= i64::MAX as i128 && are_pixels_fitting(
            x + glyph.xmin as i128,
            y + baseline - glyph.height as i128 - glyph.ymin as i128,
            glyph,
        )
    }

    /// Whether every cell of `content` has a glyph, and no coordinate that
    /// drawing computes leaves the machine's range.
    pub fn is_fitting(&self, content: &Content) -> (r: bool)
        requires
            content.valid(),
        ensures
            r == self.fits(content),
    {
        if self.of_cell.len() != content.cells.len() {
            return false;
        }
        for i in 0..content.cells.len()
            invariant
                content.valid(),
                self.of_cell@.len() == content.cells@.len(),
                forall|k: int|
                    0 <= k < i ==> {
                        let cell = #[trigger] content.cells@[k];
                        &&& self.of_cell@[k] < self.glyphs@.len()
                        &&& self.fits_cell(
                            cell.point.column as int,
                            content.row(cell),
                            cell.c,
                            self.glyphs@[self.of_cell@[k] as int],
                        )
                    },
        {
            let cell = content.cells[i];
            assert(cell == content.cells@[i as int]);
            let row: usize = (cell.point.line + content.display_offset as i32) as usize;
            if self.of_cell[i] >= self.glyphs.len() {
                return false;
            }
            if !self.is_fitting_cell(
                cell.point.column,
                row,
                cell.c,
                &self.glyphs[self.of_cell[i]],
            ) {
                return false;
            }
        }
        true
    }
}

proof fn lemma_usize_product(a: int, b: int)
    requires
        0 <= a <= usize::MAX,
        0 <= b <= usize::MAX,
    ensures
        0 <= a * b <= u128::MAX,
{
    assert(0 <= a * b <= 0xffff_ffff_ffff_ffff * 0xffff_ffff_ffff_ffff) by (nonlinear_arith)
        requires
            0 <= a <= 0xffff_ffff_ffff_ffff,
            0 <= b <= 0xffff_ffff_ffff_ffff,
    ;
}

/// The glyph that a cell shows: its character, and whether it is bold.
pub open spec fn glyph_of(cell: GridCell) -> (char, bool) {
    (cell.c, has(cell.flags, BOLD))
}

/// Whether some cell shows a glyph.
pub open spec fn shows_glyph(content: &Content, glyph: (char, bool)) -> bool {
    exists|i: int|
        0 <= i < content.cells@.len() && #[trigger] glyph_of(content.cells@[i]) == glyph
}

/// The glyphs that a frame needs, each once, and which of them each cell
/// shows.
pub fn needed_glyphs(content: &Content) -> (r: (Vec<(char, bool)>, Vec<usize>))
    ensures
        r.1@.len() == content.cells@.len(),
        forall|i: int|
            0 <= i < content.cells@.len() ==> (#[trigger] r.1@[i]) < r.0@.len()
                && r.0@[r.1@[i] as int] == glyph_of(content.cells@[i]),
        forall|a: int, b: int| 0 <= a < b < r.0@.len() ==> r.0@[a] != r.0@[b],
        forall|a: int| 0 <= a < r.0@.len() ==> shows_glyph(content, #[trigger] r.0@[a]),
{
    let mut glyphs: Vec<(char, bool)> = Vec::new();
    let mut of_cell: Vec<usize> = Vec::new();
    for i in 0..content.cells.len()
        invariant
            of_cell@.len() == i,
            forall|k: int|
                0 <= k < i ==> (#[trigger] of_cell@[k]) < glyphs@.len()
                    && glyphs@[of_cell@[k] as int] == glyph_of(content.cells@[k]),
            forall|a: int, b: int| 0 <= a < b < glyphs@.len() ==> glyphs@[a] != glyphs@[b],
            forall|a: int| 0 <= a < glyphs@.len() ==> shows_glyph(content, #[trigger] glyphs@[a]),
    {
        let cell = content.cells[i];
        let bold = flags_contain(cell.flags, BOLD);
        let mut at: usize = 0;
        while at < glyphs.len() && !(glyphs[at].0 == cell.c && glyphs[at].1 == bold)
            invariant
                at <= glyphs@.len(),
                forall|k: int|
                    0 <= k < at ==> #[trigger] glyphs@[k] != glyph_of(cell),
                bold == has(cell.flags, BOLD),
            decreases glyphs@.len() - at,
        {
            at = at + 1;
        }
        assert(glyph_of(content.cells@[i as int]) == (cell.c, bold));
        assert(shows_glyph(content, (cell.c, bold)));
        if at == glyphs.len() {
            glyphs.push((cell.c, bold));
        }
        of_cell.push(at);
    }
    (glyphs, of_cell)
}

/// The buffer after one cell was drawn into it: its background, then its
/// glyph, which may reach beyond the cell as far as drawing may touch, unless
/// it is blank.
pub open spec fn with_cell(
    buf: Seq<u8>,
    width: int,
    height: int,
    sheet: &GlyphSheet,
    glyph: &Glyph,
    damage: Damage,
    cell: CellView,
) -> Seq<u8> {
    let x = cell.col * sheet.cell_width;
    let y = cell.row * sheet.cell_height;
    let filled = painted(
        buf,
        width,
        height,
        block(x, y, sheet.cell_width as int, sheet.cell_height as int, cell.bg),
    );
    if blank(cell.c) {
        filled
    } else {
        painted(
            filled,
            width,
            height,
            ink(
                filled,
                width,
                height,
                x + glyph.xmin,
                y + sheet.baseline - glyph.height - glyph.ymin,
                damage,
                sheet.cell_width,
                sheet.cell_height,
                glyph,
                cell.fg,
                glyph.height as int,
                0,
            ),
        )
    }
}

/// The buffer after the damaged ones of the first `n` cells were drawn into
/// it, one after the other.
pub open spec fn with_cells(
    buf: Seq<u8>,
    width: int,
    height: int,
    sheet: &GlyphSheet,
    content: &Content,
    damage: Damage,
    n: int,
) -> Seq<u8>
    decreases n,
{
    if n <= 0 {
        buf
    } else {
        let before = with_cells(buf, width, height, sheet, content, damage, n - 1);
        let cell = shown(content, content.cells@[n - 1]);
        if damaged(damage, cell.col, cell.row) {
            with_cell(
                before,
                width,
                height,
                sheet,
                &sheet.glyphs@[sheet.of_cell@[n - 1] as int],
                damage,
                cell,
            )
        } else {
            before
        }
    }
}

/// The buffer that drawing starts from: cleared, if everything is redrawn.
pub open spec fn cleared(buf: Seq<u8>, damage: Damage) -> Seq<u8> {
    if damage is Full {
        Seq::new(buf.len(), |i: int| 0u8)
    } else {
        buf
    }
}

/// Whether the regions that the changed stretches cover stay in the machine's
/// range.
pub fn stretches_are_fitting(damage: &Damage, cw: usize, ch: usize) -> (r: bool)
    ensures
        r == stretches_fit(*damage, cw, ch),
{
    match damage {
        Damage::Full => true,
        Damage::Lines(lines) => {
            for i in 0..lines.len()
                invariant
                    *damage == Damage::Lines(*lines),
                    forall|k: int|
                        0 <= k < i ==> stretch_fits(#[trigger] lines@[k], cw, ch),
            {
                let l = lines[i];
                assert(l == damage->Lines_0@[i as int]);
                if l.right == usize::MAX {
                    return false;
                }
                proof {
                    lemma_usize_product(l.left as int, cw as int);
                    lemma_usize_product(l.right + 1, cw as int);
                    lemma_usize_product(l.line as int, ch as int);
                }
                let left: u128 = l.left as u128 * cw as u128;
                let right: u128 = (l.right as u128 + 1) * cw as u128;
                let top: u128 = l.line as u128 * ch as u128;
                if left > usize::MAX as u128 || right > usize::MAX as u128 || top
                    > usize::MAX as u128 {
                    return false;
                }
            }
            true
        },
    }
}

/// A cell that a stretch covers lies in the region that the stretch covers.
proof fn lemma_cell_in_stretch(
    l: LineDamage,
    sheet: &GlyphSheet,
    col: int,
    row: int,
    px: int,
    py: int,
)
    requires
        covers(l, col, row),
        stretch_fits(l, sheet.cell_width, sheet.cell_height),
        0 <= col,
        0 <= row,
        (col + 1) * sheet.cell_width <= usize::MAX,
        (row + 1) * sheet.cell_height <= usize::MAX,
        col * sheet.cell_width <= px < col * sheet.cell_width + sheet.cell_width,
        row * sheet.cell_height <= py < row * sheet.cell_height + sheet.cell_height,
    ensures
        inside(stretch_rect(l, sheet.cell_width, sheet.cell_height), px, py),
{
    let cw = sheet.cell_width as int;
    let ch = sheet.cell_height as int;
    assert(0 <= l.left * cw <= col * cw) by (nonlinear_arith)
        requires
            0 <= l.left <= col,
            0 <= cw,
    ;
    assert(0 <= l.line * ch) by (nonlinear_arith)
        requires
            0 <= l.line,
            0 <= ch,
    ;
    let span = l.right - l.left + 1;
    assert(l.left * cw + span * cw == (l.right + 1) * cw) by (nonlinear_arith)
        requires
            span == l.right - l.left + 1,
    ;
    assert(col * cw + cw <= (l.right + 1) * cw) by (nonlinear_arith)
        requires
            col <= l.right,
            0 <= cw,
    ;
    assert(0 <= span * cw) by (nonlinear_arith)
        requires
            0 <= span,
            0 <= cw,
    ;
}

proof fn lemma_with_cells_len(
    buf: Seq<u8>,
    width: int,
    height: int,
    sheet: &GlyphSheet,
    content: &Content,
    damage: Damage,
    n: int,
)
    ensures
        with_cells(buf, width, height, sheet, content, damage, n).len() == buf.len(),
    decreases n,
{
    if n > 0 {
        lemma_with_cells_len(buf, width, height, sheet, content, damage, n - 1);
    }
}

/// Only what changed is touched: where just some stretches are redrawn, every
/// byte of a pixel outside the regions that they cover stays as it was.
pub proof fn law_only_damage_is_touched(
    buf: Seq<u8>,
    width: int,
    height: int,
    sheet: &GlyphSheet,
    content: &Content,
    lines: Vec<LineDamage>,
    n: int,
    i: int,
)
    requires
        content.valid(),
        sheet.fits(content),
        stretches_fit(Damage::Lines(lines), sheet.cell_width, sheet.cell_height),
        0 <= n <= content.cells@.len(),
        0 <= i < buf.len(),
        outside_all(lines@, sheet.cell_width, sheet.cell_height, width, i),
    ensures
        ({
            let after = with_cells(buf, width, height, sheet, content, Damage::Lines(lines), n);
            after.len() == buf.len() && after[i] == buf[i]
        }),
    decreases n,
{
    if n > 0 {
        law_only_damage_is_touched(buf, width, height, sheet, content, lines, n - 1, i);
        let raw = content.cells@[n - 1];
        let cell = shown(content, raw);
        assert(cell.col == raw.point.column && cell.row == content.row(raw));
        if damaged(Damage::Lines(lines), cell.col, cell.row) {
            let k = choose|k: int|
                0 <= k < lines@.len() && covers(#[trigger] lines@[k], cell.col, cell.row);
            let px = column_of(i, width);
            let py = row_of(i, width);
            let cw = sheet.cell_width as int;
            let ch = sheet.cell_height as int;
            assert(0 <= cell.col * cw <= (cell.col + 1) * cw && (cell.col + 1) * cw == cell.col * cw
                + cw) by (nonlinear_arith)
                requires
                    0 <= cell.col,
                    0 <= cw,
            ;
            assert(0 <= cell.row * ch <= (cell.row + 1) * ch && (cell.row + 1) * ch == cell.row * ch
                + ch) by (nonlinear_arith)
                requires
                    0 <= cell.row,
                    0 <= ch,
            ;
            if cell.col * cw <= px < cell.col * cw + cw && cell.row * ch <= py < cell.row * ch + ch {
                lemma_cell_in_stretch(lines@[k], sheet, cell.col, cell.row, px, py);
                assert(!inside(stretch_rect(lines@[k], sheet.cell_width, sheet.cell_height), px, py));
            }
        }
    }
}

/// Whether byte `i` belongs to a pixel outside the regions that all the
/// changed stretches cover.
pub open spec fn outside_all(
    lines: Seq<LineDamage>,
    cw: usize,
    ch: usize,
    width: int,
    i: int,
) -> bool {
    forall|k: int|
        0 <= k < lines.len() ==> !inside(
            stretch_rect(#[trigger] lines[k], cw, ch),
            column_of(i, width),
            row_of(i, width),
        )
}

fn clear(buf: &mut Vec<u8>)
    ensures
        final(buf)@ == Seq::new(old(buf)@.len(), |i: int| 0u8),
{
    let n: usize = buf.len();
    let mut i: usize = 0;
    while i < n
        invariant
            i <= n,
            n == buf@.len(),
            n == old(buf)@.len(),
            forall|k: int| 0 <= k < i ==> buf@[k] == 0,
        decreases n - i,
    {
        buf.set(i, 0);
        i = i + 1;
    }
    assert(buf@ =~= Seq::new(old(buf)@.len(), |k: int| 0u8));
}

fn draw_cell(
    buf: &mut Vec<u8>,
    width: usize,
    height: usize,
    sheet: &GlyphSheet,
    glyph: &Glyph,
    damage: &Damage,
    cell: CellInfo,
)
    requires
        width * height * 4 <= usize::MAX,
        sheet.fits_cell(cell.col as int, cell.row as int, cell.c, *glyph),
        stretches_fit(*damage, sheet.cell_width, sheet.cell_height),
    ensures
        final(buf)@ == with_cell(
            old(buf)@,
            width as int,
            height as int,
            sheet,
            glyph,
            *damage,
            cell@,
        ),
{
    let cw: usize = sheet.cell_width;
    let ch: usize = sheet.cell_height;
    proof {
        assert((cell.col + 1) * cw == cell.col * cw + cw) by (nonlinear_arith);
        assert((cell.row + 1) * ch == cell.row * ch + ch) by (nonlinear_arith);
        assert(0 <= cell.col * cw) by (nonlinear_arith)
            requires
                0 <= cell.col,
                0 <= cw,
        ;
        assert(0 <= cell.row * ch) by (nonlinear_arith)
            requires
                0 <= cell.row,
                0 <= ch,
        ;
    }
    let px_x: usize = cell.col * cw;
    let px_y: usize = cell.row * ch;
    fill_cell(buf, width, height, px_x, px_y, cw, ch, cell.bg);
    if cell.c != ' ' && cell.c != '\0' {
        let glyph_x: i64 = px_x as i64 + glyph.xmin as i64;
        let glyph_y: i64 = px_y as i64 + sheet.baseline as i64 - glyph.height as i64
            - glyph.ymin as i64;
        draw_glyph(buf, width, height, glyph_x, glyph_y, damage, cw, ch, glyph, cell.fg);
    }
}

/// Draws the view into an RGBA8 buffer of `width` by `height` pixels, touching
/// only the cells that `damage` covers, and returns the regions that were
/// redrawn. Cells beyond the buffer are clipped.
pub fn render(
    content: &Content,
    sheet: &GlyphSheet,
    buf: &mut Vec<u8>,
    width: usize,
    height: usize,
    damage: &Damage,
) -> (r: Vec<PixelRect>)
    requires
        content.valid(),
        sheet.fits(content),
        stretches_fit(*damage, sheet.cell_width, sheet.cell_height),
        width * height * 4 <= usize::MAX,
    ensures
        final(buf)@ == with_cells(
            cleared(old(buf)@, *damage),
            width as int,
            height as int,
            sheet,
            content,
            *damage,
            content.cells@.len() as int,
        ),
        r@ == redrawn(*damage, width, height, sheet.cell_width, sheet.cell_height),
        final(buf)@.len() == old(buf)@.len(),
        damage is Lines ==> forall|i: int|
            0 <= i < old(buf)@.len() && (forall|k: int|
                0 <= k < r@.len() ==> !inside(
                    #[trigger] r@[k],
                    column_of(i, width as int),
                    row_of(i, width as int),
                )) ==> #[trigger] final(buf)@[i] == old(buf)@[i],
{
    if matches!(damage, Damage::Full) {
        clear(buf);
    }
    let ghost start = cleared(old(buf)@, *damage);
    assert(buf@ =~= start);
    for i in 0..content.cells.len()
        invariant
            content.valid(),
            sheet.fits(content),
            stretches_fit(*damage, sheet.cell_width, sheet.cell_height),
            width * height * 4 <= usize::MAX,
            buf@ == with_cells(
                start,
                width as int,
                height as int,
                sheet,
                content,
                *damage,
                i as int,
            ),
    {
        let cell = resolve_cell(content, i);
        assert(content.cells@[i as int].point.column == cell.col);
        assert(sheet.of_cell@[i as int] < sheet.glyphs@.len());
        if is_damaged(damage, cell.col, cell.row) {
            let glyph = &sheet.glyphs[sheet.of_cell[i]];
            draw_cell(buf, width, height, sheet, glyph, damage, cell);
        }
    }
    let cw: usize = sheet.cell_width;
    let ch: usize = sheet.cell_height;
    let mut rects: Vec<PixelRect> = Vec::new();
    match damage {
        Damage::Full => {
            rects.push(PixelRect { x: 0, y: 0, width, height });
        },
        Damage::Lines(lines) => {
            assert(damage->Lines_0 == *lines);
            for i in 0..lines.len()
                invariant
                    forall|k: int|
                        0 <= k < lines@.len() ==> stretch_fits(#[trigger] lines@[k], cw, ch),
                    rects@ == Seq::new(i as nat, |k: int| stretch_rect(lines@[k], cw, ch)),
            {
                let l = lines[i];
                assert(l == lines@[i as int]);
                let span: usize = if l.left <= l.right {
                    l.right - l.left + 1
                } else {
                    1
                };
                proof {
                    assert(span * cw <= (l.right + 1) * cw) by (nonlinear_arith)
                        requires
                            span <= l.right + 1,
                            0 <= cw,
                    ;
                    assert(0 <= l.left * cw) by (nonlinear_arith)
                        requires
                            0 <= l.left,
                            0 <= cw,
                    ;
                    assert(0 <= l.line * ch) by (nonlinear_arith)
                        requires
                            0 <= l.line,
                            0 <= ch,
                    ;
                    assert(0 <= span * cw) by (nonlinear_arith)
                        requires
                            0 <= span,
                            0 <= cw,
                    ;
                }
                let rect = PixelRect { x: l.left * cw, y: l.line * ch, width: span * cw, height: ch };
                assert(rect == stretch_rect(lines@[i as int], cw, ch));
                rects.push(rect);
                assert(rects@ =~= Seq::new((i + 1) as nat, |k: int| stretch_rect(lines@[k], cw, ch)));
            }
        },
    }
    assert(rects@ =~= redrawn(*damage, width, height, cw, ch));
    proof {
        lemma_with_cells_len(
            start,
            width as int,
            height as int,
            sheet,
            content,
            *damage,
            content.cells@.len() as int,
        );
        if *damage is Lines {
            let lines = damage->Lines_0;
            assert forall|i: int|
                0 <= i < old(buf)@.len() && (forall|k: int|
                    0 <= k < rects@.len() ==> !inside(
                        #[trigger] rects@[k],
                        column_of(i, width as int),
                        row_of(i, width as int),
                    )) implies #[trigger] buf@[i] == old(buf)@[i] by {
                assert forall|k: int| 0 <= k < lines@.len() implies !inside(
                    stretch_rect(#[trigger] lines@[k], cw, ch),
                    column_of(i, width as int),
                    row_of(i, width as int),
                ) by {
                    assert(rects@[k] == stretch_rect(lines@[k], cw, ch));
                }
                law_only_damage_is_touched(
                    old(buf)@,
                    width as int,
                    height as int,
                    sheet,
                    content,
                    lines,
                    content.cells@.len() as int,
                    i,
                );
            }
        }
    }
    rects
}

/// The smallest rectangle of rows and columns that holds every one of the
/// first `n` stretches: first and last row, first and last column.
pub open spec fn hull(lines: Seq<LineDamage>, n: int) -> (int, int, int, int)
    decreases n,
{
    let l = lines[n - 1];
    if n <= 1 {
        (lines[0].line as int, lines[0].line as int, lines[0].left as int, lines[0].right as int)
    } else {
        let (top, bottom, left, right) = hull(lines, n - 1);
        (
            if l.line < top {
                l.line as int
            } else {
                top
            },
            if l.line > bottom {
                l.line as int
            } else {
                bottom
            },
            if l.left < left {
                l.left as int
            } else {
                left
            },
            if l.right > right {
                l.right as int
            } else {
                right
            },
        )
    }
}

/// What has to be redrawn as one rectangle of rows and columns, or `None` if
/// that is everything.
pub open spec fn bounds(damage: Damage) -> Option<(int, int, int, int)> {
    match damage {
        Damage::Full => None,
        Damage::Lines(lines) => if lines@.len() == 0 {
            None
        } else {
            Some(hull(lines@, lines@.len() as int))
        },
    }
}

/// What has to be redrawn as one rectangle, its first and last row and its
/// first and last column, or `None` if that is everything.
pub fn damage_bounds(damage: &Damage) -> (r: Option<(usize, usize, usize, usize)>)
    ensures
        r is None <==> bounds(*damage) is None,
        r matches Some((top, bottom, left, right)) ==> bounds(*damage) == Some(
            (top as int, bottom as int, left as int, right as int),
        ),
{
    match damage {
        Damage::Full => None,
        Damage::Lines(lines) => {
            if lines.len() == 0 {
                return None;
            }
            let mut top: usize = lines[0].line;
            let mut bottom: usize = lines[0].line;
            let mut left: usize = lines[0].left;
            let mut right: usize = lines[0].right;
            for i in 1..lines.len()
                invariant
                    (top as int, bottom as int, left as int, right as int) == hull(
                        lines@,
                        i as int,
                    ),
            {
                let l = lines[i];
                if l.line < top {
                    top = l.line;
                }
                if l.line > bottom {
                    bottom = l.line;
                }
                if l.left < left {
                    left = l.left;
                }
                if l.right > right {
                    right = l.right;
                }
            }
            Some((top, bottom, left, right))
        },
    }
}

/// Every changed stretch lies in the rectangle.
pub proof fn law_bounds_hold_every_stretch(lines: Seq<LineDamage>, n: int, i: int)
    requires
        0 <= i < n <= lines.len(),
    ensures
        ({
            let (top, bottom, left, right) = hull(lines, n);
            &&& top <= lines[i].line <= bottom
            &&& left <= lines[i].left
            &&& lines[i].right <= right
        }),
    decreases n,
{
    if n > 1 && i < n - 1 {
        law_bounds_hold_every_stretch(lines, n - 1, i);
    }
}

/// A cell keeps its place in the view, its character and its weight.
pub proof fn law_shown_cell_stays_in_place(content: &Content, cell: GridCell)
    ensures
        ({
            let s = shown(content, cell);
            &&& s.col == cell.point.column
            &&& s.row == cell.point.line + content.display_offset
            &&& s.c == cell.c
            &&& s.bold <==> cell.flags & 0x2 == 0x2
        }),
{
}

/// The cell under a visible cursor, of whatever shape, is shown with its two
/// colors exchanged.
pub proof fn law_cursor_is_shown(content: &Content, cell: GridCell)
    requires
        !(content.cursor_shape is Hidden),
        cell.point.line == content.cursor.line,
        cell.point.column == content.cursor.column,
    ensures
        shown(content, cell).fg == background(cell.bg, content.colors@),
        shown(content, cell).bg == foreground(cell.fg, cell.flags, content.colors@),
{
}

/// An inverse cell is shown with its two colors exchanged, also where it is
/// selected or under the cursor as well.
pub proof fn law_inverse_cell_is_shown(content: &Content, cell: GridCell)
    requires
        cell.flags & 0x1 == 0x1,
    ensures
        shown(content, cell).fg == background(cell.bg, content.colors@),
        shown(content, cell).bg == foreground(cell.fg, cell.flags, content.colors@),
{
}

/// A cell between the ends of the selection in reading order is shown with its
/// two colors exchanged, both ends counted, and so is one in the rectangle that
/// a block selection spans.
pub proof fn law_selection_is_shown(content: &Content, cell: GridCell)
    requires
        content.selection is Some,
        !(content.cursor_shape is Block),
        ({
            let range = content.selection->0;
            let (line, column) = (cell.point.line, cell.point.column);
            let after = range.start.line < line || range.start.line == line && range.start.column
                <= column;
            let before = line < range.end.line || range.end.line == line && column
                <= range.end.column;
            if range.is_block {
                range.start.line <= line <= range.end.line && range.start.column <= column
                    <= range.end.column
            } else {
                after && before
            }
        }),
    ensures
        shown(content, cell).fg == background(cell.bg, content.colors@),
        shown(content, cell).bg == foreground(cell.fg, cell.flags, content.colors@),
{
}

/// A cell that is not inverse, not under a visible cursor and not in the
/// selection is shown in its own colors.
pub proof fn law_plain_cell_is_shown(content: &Content, cell: GridCell)
    requires
        cell.flags & 0x1 != 0x1,
        content.cursor_shape is Hidden || cell.point.line != content.cursor.line
            || cell.point.column != content.cursor.column,
        content.selection is Some ==> {
            let range = content.selection->0;
            let (line, column) = (cell.point.line, cell.point.column);
            let wide = cell.flags & 0x20 == 0x20;
            let after = range.start.line < line || range.start.line == line && (range.start.column
                <= column || wide && range.start.column <= column + 1);
            let before = line < range.end.line || range.end.line == line && column
                <= range.end.column;
            if range.is_block {
                !(range.start.line <= line <= range.end.line) || range.end.column < column
                    || column < range.start.column && !(wide && range.start.column <= column + 1)
            } else {
                !(after && before)
            }
        },
    ensures
        shown(content, cell).fg == foreground(cell.fg, cell.flags, content.colors@),
        shown(content, cell).bg == background(cell.bg, content.colors@),
{
}

/// A laid channel is the mean of the two weighted by the coverage out of 255,
/// rounded down.
pub proof fn law_blend_is_weighted(bg: u8, fg: u8, coverage: u8)
    ensures
        255 * mixed(bg, fg, coverage) <= fg * coverage + bg * (255 - coverage) < 255 * (mixed(
            bg,
            fg,
            coverage,
        ) + 1),
{
    let sum = fg * coverage + bg * (255 - coverage);
    assert(0 <= sum <= 255 * 255) by (nonlinear_arith)
        requires
            sum == fg * coverage + bg * (255 - coverage),
            0 <= fg <= 255,
            0 <= bg <= 255,
            0 <= coverage <= 255,
    ;
}

/// A color is laid over another channel by channel.
pub proof fn law_blend_by_channel(bg: Seq<u8>, fg: Seq<u8>, coverage: u8, k: int)
    requires
        0 <= k < 3,
    ensures
        blended(bg, fg, coverage).len() == 3,
        blended(bg, fg, coverage)[k] == mixed(bg[k], fg[k], coverage),
{
}

/// A pixel is four bytes, row after row: red, green, blue and an opacity.
pub proof fn law_pixel_is_four_bytes(buf: Seq<u8>, width: int, height: int, x: int, y: int, k: int)
    requires
        0 <= x < width,
        0 <= y < height,
        (y * width + x) * 4 + 4 <= buf.len(),
        0 <= k < 3,
    ensures
        pixel(buf, width, height, x, y).len() == 3,
        pixel(buf, width, height, x, y)[k] == buf[(y * width + x) * 4 + k],
{
}

/// Painting gives a pixel the color picked for it, opaque, and leaves one that
/// none was picked for. What lies outside the image, or beyond the buffer,
/// stays.
pub proof fn law_painting(
    buf: Seq<u8>,
    width: int,
    height: int,
    pick: spec_fn(int, int) -> Option<Seq<u8>>,
    x: int,
    y: int,
)
    requires
        0 <= x < width,
        0 <= y < height,
        (y * width + x) * 4 + 4 <= buf.len(),
    ensures
        ({
            let after = painted(buf, width, height, pick);
            let at = (y * width + x) * 4;
            &&& after.len() == buf.len()
            &&& pick(x, y) matches Some(rgb) ==> after[at] == rgb[0] && after[at + 1] == rgb[1]
                && after[at + 2] == rgb[2] && after[at + 3] == 255
            &&& pick(x, y) is None ==> after[at] == buf[at] && after[at + 1] == buf[at + 1]
                && after[at + 2] == buf[at + 2] && after[at + 3] == buf[at + 3]
        }),
{
    let at = (y * width + x) * 4;
    assert(0 <= y * width) by (nonlinear_arith)
        requires
            0 <= y,
            0 < width,
    ;
    lemma_byte_of_pixel(at, width, x, y);
    lemma_byte_of_pixel(at + 1, width, x, y);
    lemma_byte_of_pixel(at + 2, width, x, y);
    lemma_byte_of_pixel(at + 3, width, x, y);
    assert(at / 4 == y * width + x && (at + 1) / 4 == y * width + x && (at + 2) / 4 == y * width + x
        && (at + 3) / 4 == y * width + x);
    assert(at % 4 == 0 && (at + 1) % 4 == 1 && (at + 2) % 4 == 2 && (at + 3) % 4 == 3);
}

/// Putting a pixel colors that pixel and no other; filling colors just the
/// rectangle given.
pub proof fn law_what_is_picked(x: int, y: int, w: int, h: int, rgb: Seq<u8>, px: int, py: int)
    ensures
        just(x, y, rgb)(px, py) is Some <==> px == x && py == y,
        just(x, y, rgb)(px, py) is Some ==> just(x, y, rgb)(px, py)->0 == rgb,
        block(x, y, w, h, rgb)(px, py) is Some <==> x <= px && px < x + w && y <= py && py < y + h,
        block(x, y, w, h, rgb)(px, py) is Some ==> block(x, y, w, h, rgb)(px, py)->0 == rgb,
{
}

proof fn lemma_painted_pixel(
    buf: Seq<u8>,
    width: int,
    height: int,
    pick: spec_fn(int, int) -> Option<Seq<u8>>,
    x: int,
    y: int,
)
    requires
        0 <= x < width,
        0 <= y < height,
        (y * width + x) * 4 + 4 <= buf.len(),
        pick(x, y) matches Some(rgb) ==> rgb.len() == 3,
    ensures
        pixel(painted(buf, width, height, pick), width, height, x, y) == match pick(x, y) {
            Some(rgb) => rgb,
            None => pixel(buf, width, height, x, y),
        },
{
    law_painting(buf, width, height, pick, x, y);
    let after = painted(buf, width, height, pick);
    assert(pixel(after, width, height, x, y) =~= match pick(x, y) {
        Some(rgb) => rgb,
        None => pixel(buf, width, height, x, y),
    });
}

/// Drawing a cell fills it with its background, and lays its glyph over that
/// and over what is around: column `gx` of the bitmap comes so many pixels
/// right of the cell's left edge as the glyph's own offset says, and the
/// bitmap's last row ends on the baseline, lowered or raised by the glyph's
/// own offset. Each pixel of it is laid with its coverage, where drawing may
/// touch. Nothing else changes, and a blank cell has no glyph.
pub proof fn law_drawn_cell(
    buf: Seq<u8>,
    width: int,
    height: int,
    sheet: &GlyphSheet,
    glyph: &Glyph,
    damage: Damage,
    cell: CellView,
    x: int,
    y: int,
)
    requires
        0 <= x < width,
        0 <= y < height,
        (y * width + x) * 4 + 4 <= buf.len(),
        cell.fg.len() == 3,
        cell.bg.len() == 3,
    ensures
        ({
            let after = with_cell(buf, width, height, sheet, glyph, damage, cell);
            let left = cell.col * sheet.cell_width;
            let top = cell.row * sheet.cell_height;
            let under = if left <= x < left + sheet.cell_width && top <= y < top
                + sheet.cell_height {
                cell.bg
            } else {
                pixel(buf, width, height, x, y)
            };
            let gx = x - left - glyph.xmin;
            let gy = y - (top + sheet.baseline) + glyph.ymin + glyph.height;
            let inked = 0 <= gx < glyph.width && 0 <= gy < glyph.height && gy * glyph.width + gx
                < glyph.bitmap@.len() && glyph.bitmap@[gy * glyph.width + gx] != 0;
            let shown = cell.c != ' ' && cell.c != '\0' && touchable(
                damage,
                sheet.cell_width,
                sheet.cell_height,
                x,
                y,
            );
            &&& inked && shown ==> pixel(after, width, height, x, y) == blended(
                under,
                cell.fg,
                glyph.bitmap@[gy * glyph.width + gx],
            )
            &&& !(inked && shown) ==> pixel(after, width, height, x, y) == under
        }),
{
    let left = cell.col * sheet.cell_width;
    let top = cell.row * sheet.cell_height;
    let fill = block(left, top, sheet.cell_width as int, sheet.cell_height as int, cell.bg);
    lemma_painted_pixel(buf, width, height, fill, x, y);
    let filled = painted(buf, width, height, fill);
    let laid = ink(
        filled,
        width,
        height,
        left + glyph.xmin,
        top + sheet.baseline - glyph.height - glyph.ymin,
        damage,
        sheet.cell_width,
        sheet.cell_height,
        glyph,
        cell.fg,
        glyph.height as int,
        0,
    );
    lemma_painted_pixel(filled, width, height, laid, x, y);
}

/// Where everything is redrawn, drawing may touch every pixel; else just those
/// of the cells that a changed stretch covers.
pub proof fn law_what_may_be_touched(damage: Damage, cw: usize, ch: usize, col: int, row: int, px: int, py: int)
    requires
        stretches_fit(damage, cw, ch),
        0 <= col,
        0 <= row,
        col * cw <= px < col * cw + cw,
        row * ch <= py < row * ch + ch,
    ensures
        damage is Full ==> touchable(damage, cw, ch, px, py),
        damage matches Damage::Lines(lines) ==> (touchable(damage, cw, ch, px, py) <==> exists|
            k: int,
        |
            0 <= k < lines@.len() && (#[trigger] lines@[k]).line == row && lines@[k].left <= col
                && col <= lines@[k].right),
{
    if damage is Lines {
        let lines = damage->Lines_0;
        assert forall|k: int| 0 <= k < lines@.len() implies in_stretch(
            #[trigger] lines@[k],
            cw,
            ch,
            px,
            py,
        ) == (lines@[k].line == row && lines@[k].left <= col && col <= lines@[k].right) by {
            let l = lines@[k];
            assert(stretch_fits(l, cw, ch));
            if l.left <= l.right {
                lemma_stretch_rect(l, cw, ch);
                lemma_cell_holds(l.left as int, l.right as int, cw as int, col, px);
                lemma_cell_holds(l.line as int, l.line as int, ch as int, row, py);
            }
        }
    }
}

/// A place in cell `i` lies in the cells from `first` to `last` exactly if `i`
/// does.
proof fn lemma_cell_holds(first: int, last: int, size: int, i: int, p: int)
    by (nonlinear_arith)
    requires
        0 <= first <= last,
        0 <= i,
        0 < size,
        i * size <= p < i * size + size,
    ensures
        first * size <= p < (last + 1) * size <==> first <= i <= last,
        (last + 1) * size == last * size + size,
{
}

/// A full redraw starts from a cleared buffer, another one from what is there.
pub proof fn law_full_redraw_clears(buf: Seq<u8>, damage: Damage, i: int)
    requires
        0 <= i < buf.len(),
    ensures
        cleared(buf, damage).len() == buf.len(),
        damage is Full ==> cleared(buf, damage)[i] == 0,
        damage is Lines ==> cleared(buf, damage)[i] == buf[i],
{
}

/// The cells are drawn one after the other, each one if some changed stretch
/// covers it, and every one where everything is redrawn.
pub proof fn law_cells_are_drawn_in_order(
    buf: Seq<u8>,
    width: int,
    height: int,
    sheet: &GlyphSheet,
    content: &Content,
    damage: Damage,
    n: int,
)
    requires
        0 <= n < content.cells@.len(),
    ensures
        ({
            let cell = content.cells@[n];
            let before = with_cells(buf, width, height, sheet, content, damage, n);
            let after = with_cells(buf, width, height, sheet, content, damage, n + 1);
            let row = cell.point.line + content.display_offset;
            let drawn = match damage {
                Damage::Full => true,
                Damage::Lines(lines) => exists|k: int|
                    0 <= k < lines@.len() && (#[trigger] lines@[k]).line == row && lines@[k].left
                        <= cell.point.column && cell.point.column <= lines@[k].right,
            };
            &&& drawn ==> after == with_cell(
                before,
                width,
                height,
                sheet,
                &sheet.glyphs@[sheet.of_cell@[n] as int],
                damage,
                shown(content, cell),
            )
            &&& !drawn ==> after == before
        }),
        with_cells(buf, width, height, sheet, content, damage, 0) == buf,
{
    let cell = shown(content, content.cells@[n]);
    if damage is Lines {
        let lines = damage->Lines_0;
        assert forall|k: int| 0 <= k < lines@.len() implies covers(
            #[trigger] lines@[k],
            cell.col,
            cell.row,
        ) == (lines@[k].line == cell.row && lines@[k].left <= cell.col && cell.col
            <= lines@[k].right) by {}
    }
}

/// What is reported as redrawn: the whole image, or for each changed stretch
/// the pixels of its cells.
pub proof fn law_redrawn_regions(damage: Damage, width: usize, height: usize, cw: usize, ch: usize, i: int)
    requires
        stretches_fit(damage, cw, ch),
    ensures
        ({
            let r = redrawn(damage, width, height, cw, ch);
            &&& damage is Full ==> r.len() == 1 && r[0].x == 0 && r[0].y == 0 && r[0].width == width
                && r[0].height == height
            &&& damage matches Damage::Lines(lines) ==> {
                &&& r.len() == lines@.len()
                &&& 0 <= i < r.len() && lines@[i].left <= lines@[i].right ==> {
                    &&& r[i].x == lines@[i].left * cw
                    &&& r[i].x + r[i].width == (lines@[i].right + 1) * cw
                    &&& r[i].y == lines@[i].line * ch
                    &&& r[i].height == ch
                }
            }
        }),
{
    if damage is Lines {
        let lines = damage->Lines_0;
        if 0 <= i < lines@.len() && lines@[i].left <= lines@[i].right {
            assert(stretch_fits(lines@[i], cw, ch));
            lemma_stretch_rect(lines@[i], cw, ch);
        }
    }
}

/// Each side of the rectangle touches a changed stretch.
pub proof fn law_bounds_are_tight(lines: Seq<LineDamage>, n: int)
    requires
        0 < n <= lines.len(),
    ensures
        ({
            let (top, bottom, left, right) = hull(lines, n);
            &&& exists|i: int| 0 <= i < n && (#[trigger] lines[i]).line == top
            &&& exists|i: int| 0 <= i < n && (#[trigger] lines[i]).line == bottom
            &&& exists|i: int| 0 <= i < n && (#[trigger] lines[i]).left == left
            &&& exists|i: int| 0 <= i < n && (#[trigger] lines[i]).right == right
        }),
    decreases n,
{
    if n > 1 {
        law_bounds_are_tight(lines, n - 1);
        let last = lines[n - 1];
        let (top, bottom, left, right) = hull(lines, n - 1);
        let a = choose|i: int| 0 <= i < n - 1 && (#[trigger] lines[i]).line == top;
        let b = choose|i: int| 0 <= i < n - 1 && (#[trigger] lines[i]).line == bottom;
        let c = choose|i: int| 0 <= i < n - 1 && (#[trigger] lines[i]).left == left;
        let d = choose|i: int| 0 <= i < n - 1 && (#[trigger] lines[i]).right == right;
        assert(lines[a].line == top && lines[b].line == bottom && lines[c].left == left
            && lines[d].right == right);
    } else {
        assert(lines[0].line == hull(lines, n).0);
    }
}

/// Nothing bounds a full redraw, nor one of no stretches; any other one is
/// bounded by its stretches.
pub proof fn law_what_bounds_a_redraw(damage: Damage)
    ensures
        damage is Full ==> bounds(damage) is None,
        damage matches Damage::Lines(lines) ==> (bounds(damage) is None <==> lines@.len() == 0) && (
        lines@.len() > 0 ==> bounds(damage) == Some(hull(lines@, lines@.len() as int))),
{
}

/// A cell shows the glyph of its own character, bold exactly if its flag for bold
/// is set, and every glyph that is shown is some cell's.
pub proof fn law_what_glyph_a_cell_shows(content: &Content, i: int, glyph: (char, bool))
    ensures
        0 <= i < content.cells@.len() ==> {
            let cell = content.cells@[i];
            &&& glyph_of(cell).0 == cell.c
            &&& glyph_of(cell).1 <==> cell.flags & 2u16 == 2u16
            &&& shows_glyph(content, glyph_of(cell))
        },
        shows_glyph(content, glyph) ==> exists|k: int|
            0 <= k < content.cells@.len() && (#[trigger] content.cells@[k]).c == glyph.0 && ((
            content.cells@[k].flags & 2u16 == 2u16) == glyph.1),
{
    if shows_glyph(content, glyph) {
        let k = choose|k: int|
            0 <= k < content.cells@.len() && #[trigger] glyph_of(content.cells@[k]) == glyph;
        assert(content.cells@[k].c == glyph.0);
    }
}

} // verus!
