//! The 256-color palette, and how a cell's colors come out of it.
use alacritty_terminal::term::cell::Flags;
use vstd::prelude::*;

verus! {

pub type Rgb = [u8; 3];

/// The number of entries of a color table: 256 indexed ones and the named
/// extras.
pub const COLOR_COUNT: usize = 269;

/// Indices of the named extras.
pub const FOREGROUND_INDEX: usize = 256;

pub const BACKGROUND_INDEX: usize = 257;

pub const CURSOR_INDEX: usize = 258;

pub const DIM_BLACK_INDEX: usize = 259;

pub const DIM_WHITE_INDEX: usize = 266;

pub const BRIGHT_FOREGROUND_INDEX: usize = 267;

pub const DIM_FOREGROUND_INDEX: usize = 268;

/// Cell attributes, by the bits of alacritty_terminal's `Flags`.
pub const INVERSE: u16 = 0x1;

pub const BOLD: u16 = 0x2;

pub const DIM: u16 = 0x80;

pub const WIDE_CHAR: u16 = 0x20;

/// A cell's color as the terminal program asked for it.
#[derive(Debug, Clone, Copy)]
pub enum Color {
    /// A named color, by its index in the color table.
    Named(usize),
    /// A true color.
    Spec(Rgb),
    /// An entry of the 256-color palette.
    Indexed(u8),
}

/// `Flags::contains` of alacritty_terminal, on attributes given by their bits:
/// whether every bit of `mask` is set in `flags`.
#[verifier::external_body]
pub(crate) fn flags_contain(flags: u16, mask: u16) -> (r: bool)
    ensures
        r == (flags & mask == mask),
{
    Flags::from_bits_retain(flags).contains(Flags::from_bits_retain(mask))
}

/// Whether every bit of `mask` is set in `flags`.
pub open spec fn has(flags: u16, mask: u16) -> bool {
    flags & mask == mask
}

/// Whether an index is that of a named color.
pub open spec fn is_named(index: int) -> bool {
    0 <= index < 16 || FOREGROUND_INDEX <= index <= DIM_FOREGROUND_INDEX
}

/// A color dimmed to two thirds of its brightness: each component at 66%,
/// rounded down.
pub open spec fn dimmed(c: Seq<u8>) -> Seq<u8> {
    seq![(c[0] * 66 / 100) as u8, (c[1] * 66 / 100) as u8, (c[2] * 66 / 100) as u8]
}

/// The sixteen basic colors.
pub open spec fn base16(i: int) -> Seq<u8> {
    if i == 0 {
        seq![0x00u8, 0x00, 0x00]
    } else if i == 1 {
        seq![0xcdu8, 0x00, 0x00]
    } else if i == 2 {
        seq![0x00u8, 0xcd, 0x00]
    } else if i == 3 {
        seq![0xcdu8, 0xcd, 0x00]
    } else if i == 4 {
        seq![0x00u8, 0x00, 0xee]
    } else if i == 5 {
        seq![0xcdu8, 0x00, 0xcd]
    } else if i == 6 {
        seq![0x00u8, 0xcd, 0xcd]
    } else if i == 7 {
        seq![0xe5u8, 0xe5, 0xe5]
    } else if i == 8 {
        seq![0x7fu8, 0x7f, 0x7f]
    } else if i == 9 {
        seq![0xffu8, 0x00, 0x00]
    } else if i == 10 {
        seq![0x00u8, 0xff, 0x00]
    } else if i == 11 {
        seq![0xffu8, 0xff, 0x00]
    } else if i == 12 {
        seq![0x5cu8, 0x5c, 0xff]
    } else if i == 13 {
        seq![0xffu8, 0x00, 0xff]
    } else if i == 14 {
        seq![0x00u8, 0xff, 0xff]
    } else {
        seq![0xffu8, 0xff, 0xff]
    }
}

/// The brightness of one of the six levels of the color cube.
pub open spec fn cube_level(v: int) -> u8 {
    if v == 0 {
        0
    } else {
        (v * 40 + 55) as u8
    }
}

/// The built-in palette: sixteen basic colors, a cube of six levels a side, a
/// ramp of grays, and the named extras.
pub open spec fn default_color(index: int) -> Seq<u8> {
    if index < 16 {
        base16(index)
    } else if index < 232 {
        seq![
            cube_level((index - 16) / 36),
            cube_level((index - 16) / 6 % 6),
            cube_level((index - 16) % 6),
        ]
    } else if index < 256 {
        let v = (8 + (index - 232) * 10) as u8;
        seq![v, v, v]
    } else if index == BACKGROUND_INDEX {
        seq![0x00u8, 0x00, 0x00]
    } else if index == DIM_FOREGROUND_INDEX {
        dimmed(seq![0xe5u8, 0xe5, 0xe5])
    } else if DIM_BLACK_INDEX <= index <= DIM_WHITE_INDEX {
        dimmed(base16(index - DIM_BLACK_INDEX))
    } else {
        seq![0xe5u8, 0xe5, 0xe5]
    }
}

/// A color table's entry: what the program set, else the built-in color.
pub open spec fn table_color(colors: Seq<Option<Rgb>>, index: int) -> Seq<u8> {
    match colors[index] {
        Some(c) => c@,
        None => default_color(index),
    }
}

/// The dim counterpart of a named color: the dim variant of a basic color or
/// of the foreground, the basic color of a bright one; else the color itself.
pub open spec fn dim_index(index: int) -> int {
    if index < 8 {
        index + DIM_BLACK_INDEX
    } else if index < 16 {
        index - 8
    } else if index == FOREGROUND_INDEX {
        DIM_FOREGROUND_INDEX as int
    } else if index == BRIGHT_FOREGROUND_INDEX {
        FOREGROUND_INDEX as int
    } else {
        index
    }
}

/// The bright counterpart of a named color: the bright variant of a basic
/// color or of the foreground, the basic color of a dim one; else the color
/// itself.
pub open spec fn bright_index(index: int) -> int {
    if index < 8 {
        index + 8
    } else if index == FOREGROUND_INDEX {
        BRIGHT_FOREGROUND_INDEX as int
    } else if index == DIM_FOREGROUND_INDEX {
        FOREGROUND_INDEX as int
    } else if DIM_BLACK_INDEX <= index <= DIM_WHITE_INDEX {
        index - DIM_BLACK_INDEX
    } else {
        index
    }
}

/// Making a basic color bright and then dim gives it back, and so does the
/// other way round.
pub proof fn law_dim_undoes_bright(index: int)
    requires
        0 <= index < 8 || index == FOREGROUND_INDEX,
    ensures
        dim_index(bright_index(index)) == index,
        bright_index(dim_index(index)) == index,
{
}

/// The foreground color of a cell.
pub open spec fn foreground(color: Color, flags: u16, colors: Seq<Option<Rgb>>) -> Seq<u8> {
    match color {
        Color::Spec(c) => if has(flags, DIM) {
            dimmed(c@)
        } else {
            c@
        },
        Color::Named(named) => if has(flags, DIM) {
            table_color(colors, dim_index(named as int))
        } else if has(flags, BOLD) {
            table_color(colors, bright_index(named as int))
        } else {
            table_color(colors, named as int)
        },
        Color::Indexed(i) => if has(flags, BOLD) && i < 8 {
            table_color(colors, i + 8)
        } else {
            table_color(colors, i as int)
        },
    }
}

/// The background color of a cell.
pub open spec fn background(color: Color, colors: Seq<Option<Rgb>>) -> Seq<u8> {
    match color {
        Color::Spec(c) => c@,
        Color::Named(named) => table_color(colors, named as int),
        Color::Indexed(i) => table_color(colors, i as int),
    }
}

/// Whether a named color is one of the table's.
pub open spec fn color_ok(color: Color) -> bool {
    color matches Color::Named(named) ==> is_named(named as int)
}

/// Whether a named color is one that there is.
pub fn is_color(color: Color) -> (r: bool)
    ensures
        r == color_ok(color),
{
    match color {
        Color::Named(named) => named < 16 || (FOREGROUND_INDEX <= named && named
            <= DIM_FOREGROUND_INDEX),
        _ => true,
    }
}

/// Each component at 66%, rounded down.
pub fn dim(c: Rgb) -> (r: Rgb)
    ensures
        r@ == dimmed(c@),
{
    let r: Rgb = [
        (c[0] as u32 * 66 / 100) as u8,
        (c[1] as u32 * 66 / 100) as u8,
        (c[2] as u32 * 66 / 100) as u8,
    ];
    assert(r@ =~= dimmed(c@));
    r
}

fn basic(i: usize) -> (r: Rgb)
    requires
        i < 16,
    ensures
        r@ == base16(i as int),
{
    let r: Rgb = match i {
        0 => [0x00, 0x00, 0x00],
        1 => [0xcd, 0x00, 0x00],
        2 => [0x00, 0xcd, 0x00],
        3 => [0xcd, 0xcd, 0x00],
        4 => [0x00, 0x00, 0xee],
        5 => [0xcd, 0x00, 0xcd],
        6 => [0x00, 0xcd, 0xcd],
        7 => [0xe5, 0xe5, 0xe5],
        8 => [0x7f, 0x7f, 0x7f],
        9 => [0xff, 0x00, 0x00],
        10 => [0x00, 0xff, 0x00],
        11 => [0xff, 0xff, 0x00],
        12 => [0x5c, 0x5c, 0xff],
        13 => [0xff, 0x00, 0xff],
        14 => [0x00, 0xff, 0xff],
        _ => [0xff, 0xff, 0xff],
    };
    assert(r@ =~= base16(i as int));
    r
}

fn to_level(v: usize) -> (r: u8)
    requires
        v < 6,
    ensures
        r == cube_level(v as int),
{
    if v == 0 {
        0
    } else {
        (v * 40 + 55) as u8
    }
}

/// The built-in color of a table entry.
pub fn default_entry(index: usize) -> (r: Rgb)
    ensures
        r@ == default_color(index as int),
{
    if index < 16 {
        basic(index)
    } else if index < 232 {
        let i: usize = index - 16;
        let r: Rgb = [to_level(i / 36), to_level(i / 6 % 6), to_level(i % 6)];
        assert(r@ =~= default_color(index as int));
        r
    } else if index < 256 {
        let v: u8 = (8 + (index - 232) * 10) as u8;
        let r: Rgb = [v, v, v];
        assert(r@ =~= default_color(index as int));
        r
    } else if index == BACKGROUND_INDEX {
        let r: Rgb = [0x00, 0x00, 0x00];
        assert(r@ =~= default_color(index as int));
        r
    } else if index == DIM_FOREGROUND_INDEX {
        let r: Rgb = [0xe5, 0xe5, 0xe5];
        assert(r@ =~= seq![0xe5u8, 0xe5, 0xe5]);
        dim(r)
    } else if DIM_BLACK_INDEX <= index && index <= DIM_WHITE_INDEX {
        dim(basic(index - DIM_BLACK_INDEX))
    } else {
        let r: Rgb = [0xe5, 0xe5, 0xe5];
        assert(r@ =~= default_color(index as int));
        r
    }
}

/// A table entry: what the program set, else the built-in color.
pub fn lookup(colors: &Vec<Option<Rgb>>, index: usize) -> (r: Rgb)
    requires
        colors.len() == COLOR_COUNT,
        index < COLOR_COUNT,
    ensures
        r@ == table_color(colors@, index as int),
{
    match colors[index] {
        Some(c) => c,
        None => default_entry(index),
    }
}

fn to_dim(index: usize) -> (r: usize)
    requires
        is_named(index as int),
    ensures
        r == dim_index(index as int),
{
    if index < 8 {
        index + DIM_BLACK_INDEX
    } else if index < 16 {
        index - 8
    } else if index == FOREGROUND_INDEX {
        DIM_FOREGROUND_INDEX
    } else if index == BRIGHT_FOREGROUND_INDEX {
        FOREGROUND_INDEX
    } else {
        index
    }
}

fn to_bright(index: usize) -> (r: usize)
    requires
        is_named(index as int),
    ensures
        r == bright_index(index as int),
{
    if index < 8 {
        index + 8
    } else if index == FOREGROUND_INDEX {
        BRIGHT_FOREGROUND_INDEX
    } else if index == DIM_FOREGROUND_INDEX {
        FOREGROUND_INDEX
    } else if DIM_BLACK_INDEX <= index && index <= DIM_WHITE_INDEX {
        index - DIM_BLACK_INDEX
    } else {
        index
    }
}

/// A cell's foreground color: a dim cell takes the dim variant, a bold one the
/// bright variant of a basic color.
pub fn resolve_fg(color: Color, flags: u16, colors: &Vec<Option<Rgb>>) -> (r: Rgb)
    requires
        colors.len() == COLOR_COUNT,
        color_ok(color),
    ensures
        r@ == foreground(color, flags, colors@),
{
    match color {
        Color::Spec(c) => {
            if flags_contain(flags, DIM) {
                dim(c)
            } else {
                c
            }
        },
        Color::Named(named) => {
            if flags_contain(flags, DIM) {
                lookup(colors, to_dim(named))
            } else if flags_contain(flags, BOLD) {
                lookup(colors, to_bright(named))
            } else {
                lookup(colors, named)
            }
        },
        Color::Indexed(i) => {
            if flags_contain(flags, BOLD) && i < 8 {
                lookup(colors, i as usize + 8)
            } else {
                lookup(colors, i as usize)
            }
        },
    }
}

/// A cell's background color.
pub fn resolve_bg(color: Color, colors: &Vec<Option<Rgb>>) -> (r: Rgb)
    requires
        colors.len() == COLOR_COUNT,
        color_ok(color),
    ensures
        r@ == background(color, colors@),
{
    match color {
        Color::Spec(c) => c,
        Color::Named(named) => lookup(colors, named),
        Color::Indexed(i) => lookup(colors, i as usize),
    }
}

/// A dimmed component is 66% of what it was, rounded down.
pub proof fn law_dimmed_components(c: Seq<u8>, k: int)
    requires
        0 <= k < 3,
    ensures
        dimmed(c).len() == 3,
        100 * dimmed(c)[k] <= 66 * c[k] < 100 * (dimmed(c)[k] + 1),
{
}

/// The sixteen basic colors: black, red, green, yellow, blue, magenta, cyan and
/// white, and then the same ones bright.
pub proof fn law_basic_colors()
    ensures
        default_color(0) == seq![0x00u8, 0x00, 0x00],
        default_color(1) == seq![0xcdu8, 0x00, 0x00],
        default_color(2) == seq![0x00u8, 0xcd, 0x00],
        default_color(3) == seq![0xcdu8, 0xcd, 0x00],
        default_color(4) == seq![0x00u8, 0x00, 0xee],
        default_color(5) == seq![0xcdu8, 0x00, 0xcd],
        default_color(6) == seq![0x00u8, 0xcd, 0xcd],
        default_color(7) == seq![0xe5u8, 0xe5, 0xe5],
        default_color(8) == seq![0x7fu8, 0x7f, 0x7f],
        default_color(9) == seq![0xffu8, 0x00, 0x00],
        default_color(10) == seq![0x00u8, 0xff, 0x00],
        default_color(11) == seq![0xffu8, 0xff, 0x00],
        default_color(12) == seq![0x5cu8, 0x5c, 0xff],
        default_color(13) == seq![0xffu8, 0x00, 0xff],
        default_color(14) == seq![0x00u8, 0xff, 0xff],
        default_color(15) == seq![0xffu8, 0xff, 0xff],
{
}

/// The color cube: red changes slowest and blue fastest, and the six levels of
/// each are 0, 95, 135, 175, 215 and 255.
pub proof fn law_color_cube(r: int, g: int, b: int)
    requires
        0 <= r < 6,
        0 <= g < 6,
        0 <= b < 6,
    ensures
        ({
            let levels = seq![0u8, 95, 135, 175, 215, 255];
            default_color(16 + 36 * r + 6 * g + b) == seq![levels[r], levels[g], levels[b]]
        }),
{
    let i = 36 * r + 6 * g + b;
    assert(i / 36 == r && i / 6 % 6 == g && i % 6 == b);
}

/// The ramp of grays: from 8 up in steps of 10.
pub proof fn law_gray_ramp(k: int)
    requires
        0 <= k < 24,
    ensures
        ({
            let c = default_color(232 + k);
            c.len() == 3 && c[0] == 8 + 10 * k && c[1] == c[0] && c[2] == c[0]
        }),
{
}

/// The named extras: the foreground and the cursor are as white is, also where
/// the foreground is bright, the background is black, and the dim variants are
/// dimmed.
pub proof fn law_named_colors(i: int)
    requires
        0 <= i < 8,
    ensures
        default_color(256) == seq![0xe5u8, 0xe5, 0xe5],
        default_color(257) == seq![0u8, 0, 0],
        default_color(258) == seq![0xe5u8, 0xe5, 0xe5],
        default_color(267) == seq![0xe5u8, 0xe5, 0xe5],
        default_color(268) == seq![151u8, 151, 151],
        default_color(259 + i) == dimmed(default_color(i)),
        COLOR_COUNT == 269,
{
    assert(dimmed(seq![0xe5u8, 0xe5, 0xe5]) =~= seq![151u8, 151, 151]);
}

/// What the program set in the color table comes before the built-in color.
pub proof fn law_set_color_comes_first(colors: Seq<Option<Rgb>>, index: int)
    ensures
        colors[index] matches Some(c) ==> table_color(colors, index) == c@,
        colors[index] is None ==> table_color(colors, index) == default_color(index),
{
}

/// A true color is shown as it is, but dimmed in a dim cell. Bold does not
/// change it.
pub proof fn law_true_color(c: Rgb, flags: u16, colors: Seq<Option<Rgb>>)
    ensures
        flags & 0x80 != 0x80 ==> foreground(Color::Spec(c), flags, colors) == c@,
        flags & 0x80 == 0x80 ==> foreground(Color::Spec(c), flags, colors) == dimmed(c@),
        background(Color::Spec(c), colors) == c@,
{
}

/// A named foreground color is shown as the table has it. In a bold cell a
/// basic color is shown bright and in a dim one dim, a dim one basic where bold
/// and a bright one basic where dim; the same goes for the foreground. Dim
/// comes before bold. The background color takes no notice of either.
pub proof fn law_named_foreground(named: usize, flags: u16, colors: Seq<Option<Rgb>>)
    requires
        named < 16 || 256 <= named <= 268,
    ensures
        ({
            let dim = flags & 0x80 == 0x80;
            let bold = flags & 0x2 == 0x2;
            let fg = foreground(Color::Named(named), flags, colors);
            &&& !dim && !bold ==> fg == table_color(colors, named as int)
            &&& dim && named < 8 ==> fg == table_color(colors, 259 + named)
            &&& dim && 8 <= named < 16 ==> fg == table_color(colors, named - 8)
            &&& dim && named == 256 ==> fg == table_color(colors, 268)
            &&& dim && named == 267 ==> fg == table_color(colors, 256)
            &&& dim && (257 <= named <= 266 || named == 268) ==> fg == table_color(
                colors,
                named as int,
            )
            &&& bold && !dim && named < 8 ==> fg == table_color(colors, named + 8)
            &&& bold && !dim && 8 <= named < 16 ==> fg == table_color(colors, named as int)
            &&& bold && !dim && named == 256 ==> fg == table_color(colors, 267)
            &&& bold && !dim && named == 268 ==> fg == table_color(colors, 256)
            &&& bold && !dim && 259 <= named <= 266 ==> fg == table_color(colors, named - 259)
            &&& bold && !dim && (named == 257 || named == 258 || named == 267) ==> fg
                == table_color(colors, named as int)
            &&& background(Color::Named(named), colors) == table_color(colors, named as int)
        }),
{
}

/// An indexed color is shown as the table has it, but that one of the first
/// eight is shown bright in a bold cell. Dim does not change it.
pub proof fn law_indexed_color(i: u8, flags: u16, colors: Seq<Option<Rgb>>)
    ensures
        ({
            let fg = foreground(Color::Indexed(i), flags, colors);
            let bold = flags & 0x2 == 0x2;
            &&& bold && i < 8 ==> fg == table_color(colors, i + 8)
            &&& !(bold && i < 8) ==> fg == table_color(colors, i as int)
            &&& background(Color::Indexed(i), colors) == table_color(colors, i as int)
        }),
{
}

} // verus!
