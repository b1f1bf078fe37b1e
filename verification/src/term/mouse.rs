//! Mouse reporting in the SGR encoding, and text selection by dragging.
use alacritty_terminal::index::{Column, Line, Point, Side};
use alacritty_terminal::selection::{Selection, SelectionType};
use vstd::prelude::*;
use vstd::utf8::*;

use crate::term::keys::{bit, mode_contains, mode_intersects, Mods};
use crate::text::{bytes_of, decimal, push_decimal};

verus! {

/// xterm mouse button numbers, before modifiers are added in.
pub const BUTTON_LEFT: u32 = 0;

pub const BUTTON_MIDDLE: u32 = 1;

pub const BUTTON_RIGHT: u32 = 2;

pub const BUTTON_WHEEL_UP: u32 = 64;

pub const BUTTON_WHEEL_DOWN: u32 = 65;

/// `TermMode::SGR_MOUSE`: mouse reports use the SGR encoding.
pub const SGR_MOUSE: u32 = 0x20;

/// `TermMode::MOUSE_MODE`: any of click, drag and motion reporting.
pub const MOUSE_MODE: u32 = 0x2048;

/// `TermMode::MOUSE_DRAG` and `TermMode::MOUSE_MOTION`.
pub const DRAG_OR_MOTION: u32 = 0x2040;

/// Whether the program wants mouse reports at all. Only the SGR encoding is
/// supported.
pub fn wants_reports(mode: u32) -> (r: bool)
    ensures
        r == (mode & SGR_MOUSE == SGR_MOUSE && mode & MOUSE_MODE != 0),
{
    mode_contains(mode, SGR_MOUSE) && mode_intersects(mode, MOUSE_MODE)
}

/// Whether motion should be reported while a button is held.
pub fn wants_drag_reports(mode: u32) -> (r: bool)
    ensures
        r == (mode & SGR_MOUSE == SGR_MOUSE && mode & DRAG_OR_MOTION != 0),
{
    mode_contains(mode, SGR_MOUSE) && mode_intersects(mode, DRAG_OR_MOTION)
}

/// A program that wants drag reports wants reports.
pub proof fn law_drag_reports_are_reports(mode: u32)
    ensures
        mode & SGR_MOUSE == SGR_MOUSE && mode & DRAG_OR_MOTION != 0 ==> mode & MOUSE_MODE != 0,
{
    assert(mode & 0x2040 != 0 ==> mode & 0x2048 != 0) by (bit_vector);
}

/// The button code with the modifiers added in.
pub open spec fn button_code(button: int, mods: Mods) -> int {
    button + 4 * bit(mods.shift) + 8 * bit(mods.alt) + 16 * bit(mods.ctrl)
}

/// `CSI < code ; col ; row` and `M` for a press, `m` for a release.
pub open spec fn button_text(
    button: int,
    mods: Mods,
    pressed: bool,
    col: nat,
    row: nat,
) -> Seq<char> {
    seq!['\x1b', '[', '<'] + decimal(button_code(button, mods) as nat) + seq![';'] + decimal(col)
        + seq![';'] + decimal(row) + seq![
        if pressed {
            'M'
        } else {
            'm'
        },
    ]
}

/// Reports a button press or release at 1-based cell coordinates.
pub fn encode_button(button: u32, mods: Mods, pressed: bool, col: usize, row: usize) -> (r: Vec<u8>)
    requires
        button_code(button as int, mods) <= u32::MAX,
    ensures
        r@ == encode_utf8(button_text(button as int, mods, pressed, col as nat, row as nat)),
{
    let mut code: u32 = button;
    if mods.shift {
        code = code + 4;
    }
    if mods.alt {
        code = code + 8;
    }
    if mods.ctrl {
        code = code + 16;
    }
    let mut s = String::new();
    s.push('\x1b');
    s.push('[');
    s.push('<');
    push_decimal(&mut s, code as u128);
    s.push(';');
    push_decimal(&mut s, col as u128);
    s.push(';');
    push_decimal(&mut s, row as u128);
    if pressed {
        s.push('M');
    } else {
        s.push('m');
    }
    assert(s@ =~= button_text(button as int, mods, pressed, col as nat, row as nat));
    bytes_of(&s)
}

/// Reports motion while a button is held: the button's code plus 32, always
/// as a press.
pub fn encode_drag(button: u32, mods: Mods, col: usize, row: usize) -> (r: Vec<u8>)
    requires
        button_code(button as int, mods) + 32 <= u32::MAX,
    ensures
        r@ == encode_utf8(button_text(button + 32, mods, true, col as nat, row as nat)),
{
    encode_button(button + 32, mods, true, col, row)
}

/// A cell of the grid. Line 0 is the top of the live screen however far the
/// view is scrolled; lines of history are negative.
#[derive(Debug, Clone, Copy, PartialEq, Eq, Structural)]
pub struct GridPoint {
    pub line: i32,
    pub column: usize,
}

/// One end of a selection: a cell and the half of it that was pointed at.
#[derive(Debug, Clone, Copy, PartialEq, Eq, Structural)]
pub struct Anchor {
    pub point: GridPoint,
    pub left_half: bool,
}

/// A selection of alacritty_terminal.
#[verifier::external_type_specification]
#[verifier::external_body]
pub struct ExSelection(Selection);

/// What a selection of alacritty_terminal holds: whether it is of the simple,
/// character-wise kind, where it started and where it is now.
pub uninterp spec fn selected(selection: Selection) -> (bool, Anchor, Anchor);

/// `Selection::new` of alacritty_terminal: a simple selection that starts and
/// ends at one anchor.
#[verifier::external_body]
fn selection_at(at: Anchor) -> (r: Selection)
    ensures
        selected(r) == (true, at, at),
{
    let side = if at.left_half { Side::Left } else { Side::Right };
    let point = Point::new(Line(at.point.line), Column(at.point.column));
    Selection::new(SelectionType::Simple, point, side)
}

/// `Selection::update` of alacritty_terminal: moves the end of the selection
/// to an anchor; its kind and its start stay.
#[verifier::external_body]
fn selection_to(selection: &mut Selection, at: Anchor)
    ensures
        selected(*final(selection)) == (selected(*old(selection)).0, selected(*old(selection)).1, at),
{
    let side = if at.left_half { Side::Left } else { Side::Right };
    selection.update(Point::new(Line(at.point.line), Column(at.point.column)), side);
}

/// The grid cell under a cell of the view: `row` counts from the top of what
/// is visible, and the view is scrolled `display_offset` lines into history.
pub fn point(col: usize, row: usize, display_offset: usize) -> (r: GridPoint)
    requires
        row <= i32::MAX,
        display_offset <= i32::MAX,
    ensures
        r == (GridPoint { line: (row - display_offset) as i32, column: col }),
{
    GridPoint { line: row as i32 - display_offset as i32, column: col }
}

/// The anchor at a cell of the view.
pub open spec fn anchor(col: usize, row: usize, display_offset: usize, left_half: bool) -> Anchor {
    Anchor {
        point: GridPoint { line: (row - display_offset) as i32, column: col },
        left_half,
    }
}

/// Starts a selection at a cell of the view, on the half that was pointed at.
pub fn start_selection(
    col: usize,
    row: usize,
    display_offset: usize,
    left_half: bool,
) -> (r: Selection)
    requires
        row <= i32::MAX,
        display_offset <= i32::MAX,
    ensures
        selected(r) == (
            true,
            anchor(col, row, display_offset, left_half),
            anchor(col, row, display_offset, left_half),
        ),
{
    selection_at(Anchor { point: point(col, row, display_offset), left_half })
}

/// Extends a selection to a cell of the view; its start stays.
pub fn extend_selection(
    selection: &mut Selection,
    col: usize,
    row: usize,
    display_offset: usize,
    left_half: bool,
)
    requires
        row <= i32::MAX,
        display_offset <= i32::MAX,
    ensures
        selected(*final(selection)) == (
            selected(*old(selection)).0,
            selected(*old(selection)).1,
            anchor(col, row, display_offset, left_half),
        ),
{
    selection_to(selection, Anchor { point: point(col, row, display_offset), left_half });
}

/// What a mouse report says: `CSI <`, the button with four for shift, eight for
/// alt and sixteen for ctrl added, the column and the row, each after a
/// semicolon, and `M` for a press or `m` for a release. The logo key does not
/// count.
pub proof fn law_mouse_report(button: int, mods: Mods, pressed: bool, col: nat, row: nat)
    requires
        0 <= button,
    ensures
        ({
            let code = button + (if mods.shift {
                4int
            } else {
                0
            }) + (if mods.alt {
                8int
            } else {
                0
            }) + (if mods.ctrl {
                16int
            } else {
                0
            });
            let start = seq!['\x1b', '[', '<'];
            let place = seq![';'] + decimal(col) + seq![';'] + decimal(row);
            &&& button_code(button, mods) == code
            &&& pressed ==> button_text(button, mods, pressed, col, row) == start + decimal(
                code as nat,
            ) + place + seq!['M']
            &&& !pressed ==> button_text(button, mods, pressed, col, row) == start + decimal(
                code as nat,
            ) + place + seq!['m']
        }),
{
    let code = button_code(button, mods) as nat;
    let start = seq!['\x1b', '[', '<'];
    let place = seq![';'] + decimal(col) + seq![';'] + decimal(row);
    assert(button_text(button, mods, true, col, row) =~= start + decimal(code) + place + seq!['M']);
    assert(button_text(button, mods, false, col, row) =~= start + decimal(code) + place + seq!['m']);
}

/// The numbers that xterm gives the buttons, and the bits by which a program
/// asks for reports.
pub proof fn law_mouse_numbers()
    ensures
        BUTTON_LEFT == 0,
        BUTTON_MIDDLE == 1,
        BUTTON_RIGHT == 2,
        BUTTON_WHEEL_UP == 64,
        BUTTON_WHEEL_DOWN == 65,
        SGR_MOUSE == 0x20,
        MOUSE_MODE == 0x8u32 | 0x40u32 | 0x2000u32,
        DRAG_OR_MOTION == 0x40u32 | 0x2000u32,
{
    assert(0x8u32 | 0x40 | 0x2000 == 0x2048) by (bit_vector);
    assert(0x40u32 | 0x2000 == 0x2040) by (bit_vector);
}

/// A cell of the view that is scrolled into history is so many lines further
/// up in the grid: scrolling one line further moves it up by one.
pub proof fn law_scrolling_moves_the_anchor(
    col: usize,
    row: usize,
    display_offset: usize,
    left_half: bool,
)
    requires
        row <= i32::MAX,
        display_offset < i32::MAX,
    ensures
        ({
            let at = anchor(col, row, display_offset, left_half);
            let further = anchor(col, row, (display_offset + 1) as usize, left_half);
            &&& at.point.line == row - display_offset
            &&& at.point.column == col
            &&& at.left_half == left_half
            &&& further.point.line == at.point.line - 1
            &&& further.point.column == at.point.column
        }),
{
}

} // verus!
