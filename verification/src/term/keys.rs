//! The bytes that a key press sends to a terminal program, in the standard
//! xterm encoding.
use alacritty_terminal::term::TermMode;
use vstd::prelude::*;
use vstd::string::*;
use vstd::utf8::*;

use crate::text::{bytes_of, decimal, push_decimal, push_text};

verus! {

/// `TermMode::APP_CURSOR`: arrow keys, Home and End send application
/// sequences.
pub const APP_CURSOR: u32 = 0x2;

/// `TermMode::contains` of alacritty_terminal, on modes given by their bits:
/// whether every bit of `flags` is set in `mode`.
#[verifier::external_body]
pub(crate) fn mode_contains(mode: u32, flags: u32) -> (r: bool)
    ensures
        r == (mode & flags == flags),
{
    TermMode::from_bits_retain(mode).contains(TermMode::from_bits_retain(flags))
}

/// `TermMode::intersects` of alacritty_terminal, on modes given by their bits:
/// whether any bit of `flags` is set in `mode`.
#[verifier::external_body]
pub(crate) fn mode_intersects(mode: u32, flags: u32) -> (r: bool)
    ensures
        r == (mode & flags != 0),
{
    TermMode::from_bits_retain(mode).intersects(TermMode::from_bits_retain(flags))
}

#[derive(Debug, Clone, Copy, PartialEq, Eq, Structural)]
pub struct Mods {
    pub shift: bool,
    pub alt: bool,
    pub ctrl: bool,
    pub logo: bool,
}

impl Default for Mods {
    fn default() -> (r: Self)
        ensures
            r == (Mods { shift: false, alt: false, ctrl: false, logo: false }),
    {
        Mods { shift: false, alt: false, ctrl: false, logo: false }
    }
}

/// 1 for `true`, 0 for `false`.
pub open spec fn bit(b: bool) -> int {
    if b {
        1
    } else {
        0
    }
}

impl Mods {
    /// Whether no modifier is held.
    pub open spec fn none(self) -> bool {
        !self.shift && !self.alt && !self.ctrl && !self.logo
    }

    /// The xterm modifier parameter.
    pub open spec fn parameter(self) -> int {
        1 + bit(self.shift) + 2 * bit(self.alt) + 4 * bit(self.ctrl) + 8 * bit(self.logo)
    }

    pub fn is_empty(self) -> (r: bool)
        ensures
            r == self.none(),
    {
        !self.shift && !self.alt && !self.ctrl && !self.logo
    }

    /// The xterm modifier parameter: one, plus one for shift, two for alt,
    /// four for ctrl and eight for the logo key.
    pub fn code(self) -> (r: u8)
        ensures
            r == self.parameter(),
    {
        let shift: u8 = if self.shift { 1 } else { 0 };
        let alt: u8 = if self.alt { 2 } else { 0 };
        let ctrl: u8 = if self.ctrl { 4 } else { 0 };
        let logo: u8 = if self.logo { 8 } else { 0 };
        1 + shift + alt + ctrl + logo
    }
}

#[derive(Debug, Clone, Copy, PartialEq, Eq)]
pub enum Key {
    Named(NamedKey),
    /// A character the keyboard layout has already resolved, control
    /// characters included.
    Text(char),
}

#[derive(Debug, Clone, Copy, PartialEq, Eq)]
pub enum NamedKey {
    Enter,
    Escape,
    Backspace,
    Tab,
    Home,
    End,
    PageUp,
    PageDown,
    Insert,
    Delete,
    Up,
    Down,
    Left,
    Right,
    F(u8),
}

/// `CSI 1;<mods><letter>`.
pub open spec fn modified_letter(mods: Mods, letter: char) -> Seq<char> {
    seq!['\x1b', '[', '1', ';'] + decimal(mods.parameter() as nat) + seq![letter]
}

/// `SS3 <letter>` unmodified, else `CSI 1;<mods><letter>`.
pub open spec fn ss3_text(mods: Mods, letter: char) -> Seq<char> {
    if mods.none() {
        seq!['\x1b', 'O', letter]
    } else {
        modified_letter(mods, letter)
    }
}

/// [`ss3_text`] in application mode, else `CSI <letter>` where unmodified.
pub open spec fn cursor_text(mods: Mods, app: bool, letter: char) -> Seq<char> {
    if mods.none() && !app {
        seq!['\x1b', '[', letter]
    } else {
        ss3_text(mods, letter)
    }
}

/// `CSI <n>~` unmodified, else `CSI <n>;<mods>~`.
pub open spec fn tilde_text(mods: Mods, n: Seq<char>) -> Seq<char> {
    if mods.none() {
        seq!['\x1b', '['] + n + seq!['~']
    } else {
        seq!['\x1b', '['] + n + seq![';'] + decimal(mods.parameter() as nat) + seq!['~']
    }
}

/// The number that a function key from F5 on is known by.
pub open spec fn function_number(n: u8) -> nat {
    match n {
        5 => 15,
        6 => 17,
        7 => 18,
        8 => 19,
        9 => 20,
        10 => 21,
        11 => 23,
        _ => 24,
    }
}

/// What function key `n` sends: nothing beyond F12.
pub open spec fn function_text(n: u8, mods: Mods) -> Seq<char> {
    if 1 <= n <= 4 {
        ss3_text(mods, (79 + n) as char)
    } else if 5 <= n <= 12 {
        tilde_text(mods, decimal(function_number(n)))
    } else {
        Seq::empty()
    }
}

/// What a key sends, as text.
pub open spec fn key_text(key: Key, mods: Mods, app: bool) -> Seq<char> {
    match key {
        Key::Named(NamedKey::Up) => cursor_text(mods, app, 'A'),
        Key::Named(NamedKey::Down) => cursor_text(mods, app, 'B'),
        Key::Named(NamedKey::Right) => cursor_text(mods, app, 'C'),
        Key::Named(NamedKey::Left) => cursor_text(mods, app, 'D'),
        Key::Named(NamedKey::Home) => cursor_text(mods, app, 'H'),
        Key::Named(NamedKey::End) => cursor_text(mods, app, 'F'),
        Key::Named(NamedKey::PageUp) => tilde_text(mods, seq!['5']),
        Key::Named(NamedKey::PageDown) => tilde_text(mods, seq!['6']),
        Key::Named(NamedKey::Insert) => tilde_text(mods, seq!['2']),
        Key::Named(NamedKey::Delete) => tilde_text(mods, seq!['3']),
        Key::Named(NamedKey::F(n)) => function_text(n, mods),
        Key::Named(NamedKey::Enter) => seq!['\r'],
        Key::Named(NamedKey::Escape) => seq!['\x1b'],
        Key::Named(NamedKey::Backspace) => if mods.alt {
            seq!['\x1b', '\x7f']
        } else {
            seq!['\x7f']
        },
        Key::Named(NamedKey::Tab) => if mods.shift {
            seq!['\x1b', '[', 'Z']
        } else {
            seq!['\t']
        },
        Key::Text(c) => if mods.alt {
            seq!['\x1b', c]
        } else {
            seq![c]
        },
    }
}

fn with_modified_letter(mods: Mods, letter: char) -> (r: String)
    ensures
        r@ == modified_letter(mods, letter),
{
    let mut s = String::new();
    s.push('\x1b');
    s.push('[');
    s.push('1');
    s.push(';');
    push_decimal(&mut s, mods.code() as u128);
    s.push(letter);
    assert(s@ =~= modified_letter(mods, letter));
    s
}

fn ss3_string(mods: Mods, letter: char) -> (r: String)
    ensures
        r@ == ss3_text(mods, letter),
{
    if mods.is_empty() {
        let mut s = String::new();
        s.push('\x1b');
        s.push('O');
        s.push(letter);
        assert(s@ =~= ss3_text(mods, letter));
        s
    } else {
        with_modified_letter(mods, letter)
    }
}

/// F1 to F4: an SS3 sequence when unmodified, whatever the mode.
pub fn ss3_or_csi(mods: Mods, letter: char) -> (r: Vec<u8>)
    ensures
        r@ == encode_utf8(ss3_text(mods, letter)),
{
    bytes_of(&ss3_string(mods, letter))
}

/// Arrow keys, Home and End: an SS3 sequence in application mode when
/// unmodified, else a CSI sequence.
pub fn app_or_csi(mods: Mods, mode: u32, letter: char) -> (r: Vec<u8>)
    ensures
        r@ == encode_utf8(cursor_text(mods, mode & APP_CURSOR == APP_CURSOR, letter)),
{
    if mods.is_empty() && !mode_contains(mode, APP_CURSOR) {
        let mut s = String::new();
        s.push('\x1b');
        s.push('[');
        s.push(letter);
        assert(s@ =~= seq!['\x1b', '[', letter]);
        bytes_of(&s)
    } else {
        ss3_or_csi(mods, letter)
    }
}

/// PageUp, PageDown, Insert, Delete and the function keys from F5 on.
pub fn csi_tilde(mods: Mods, n: &str) -> (r: Vec<u8>)
    ensures
        r@ == encode_utf8(tilde_text(mods, n@)),
{
    let mut s = String::new();
    s.push('\x1b');
    s.push('[');
    push_text(&mut s, n);
    if !mods.is_empty() {
        s.push(';');
        push_decimal(&mut s, mods.code() as u128);
    }
    s.push('~');
    assert(s@ =~= tilde_text(mods, n@));
    bytes_of(&s)
}

/// What function key `n` sends: nothing beyond F12.
pub fn function_key(n: u8, mods: Mods) -> (r: Vec<u8>)
    ensures
        r@ == encode_utf8(function_text(n, mods)),
{
    if 1 <= n && n <= 4 {
        ss3_or_csi(mods, (79 + n) as char)
    } else if 5 <= n && n <= 12 {
        let code: u128 = match n {
            5 => 15,
            6 => 17,
            7 => 18,
            8 => 19,
            9 => 20,
            10 => 21,
            11 => 23,
            _ => 24,
        };
        let mut s = String::new();
        push_decimal(&mut s, code);
        assert(s@ =~= decimal(function_number(n)));
        csi_tilde(mods, s.as_str())
    } else {
        let s = String::new();
        bytes_of(&s)
    }
}

/// Just a function key that there is none of sends nothing.
proof fn lemma_silent(key: Key, mods: Mods, app: bool)
    ensures
        key_text(key, mods, app).len() == 0 <==> (key matches Key::Named(NamedKey::F(n)) && !(1
            <= n <= 12)),
{
}

/// The bytes that a key press sends, the terminal being in `mode`; nothing if
/// the key sends no text, as a function key beyond F12 does not.
pub fn encode(key: Key, mods: Mods, mode: u32) -> (r: Option<Vec<u8>>)
    ensures
        r is None <==> key_text(key, mods, mode & APP_CURSOR == APP_CURSOR).len() == 0,
        r is None <==> (key matches Key::Named(NamedKey::F(n)) && !(1 <= n <= 12)),
        r matches Some(bytes) ==> bytes@ == encode_utf8(
            key_text(key, mods, mode & APP_CURSOR == APP_CURSOR),
        ),
{
    proof {
        lemma_silent(key, mods, mode & APP_CURSOR == APP_CURSOR);
    }
    let bytes = match key {
        Key::Named(NamedKey::Up) => app_or_csi(mods, mode, 'A'),
        Key::Named(NamedKey::Down) => app_or_csi(mods, mode, 'B'),
        Key::Named(NamedKey::Right) => app_or_csi(mods, mode, 'C'),
        Key::Named(NamedKey::Left) => app_or_csi(mods, mode, 'D'),
        Key::Named(NamedKey::Home) => app_or_csi(mods, mode, 'H'),
        Key::Named(NamedKey::End) => app_or_csi(mods, mode, 'F'),
        Key::Named(NamedKey::PageUp) => csi_tilde_char(mods, '5'),
        Key::Named(NamedKey::PageDown) => csi_tilde_char(mods, '6'),
        Key::Named(NamedKey::Insert) => csi_tilde_char(mods, '2'),
        Key::Named(NamedKey::Delete) => csi_tilde_char(mods, '3'),
        Key::Named(NamedKey::F(n)) => {
            if n < 1 || n > 12 {
                return None;
            }
            function_key(n, mods)
        },
        Key::Named(NamedKey::Enter) => escaped(false, '\r'),
        Key::Named(NamedKey::Escape) => escaped(false, '\x1b'),
        Key::Named(NamedKey::Backspace) => escaped(mods.alt, '\x7f'),
        Key::Named(NamedKey::Tab) => {
            if mods.shift {
                let mut s = String::new();
                s.push('\x1b');
                s.push('[');
                s.push('Z');
                assert(s@ =~= seq!['\x1b', '[', 'Z']);
                bytes_of(&s)
            } else {
                escaped(false, '\t')
            }
        },
        Key::Text(c) => escaped(mods.alt, c),
    };
    Some(bytes)
}

fn csi_tilde_char(mods: Mods, n: char) -> (r: Vec<u8>)
    ensures
        r@ == encode_utf8(tilde_text(mods, seq![n])),
{
    let mut s = String::new();
    s.push(n);
    assert(s@ =~= seq![n]);
    csi_tilde(mods, s.as_str())
}

/// The character, with an escape before it if asked for.
fn escaped(escape: bool, c: char) -> (r: Vec<u8>)
    ensures
        r@ == encode_utf8(
            if escape {
                seq!['\x1b', c]
            } else {
                seq![c]
            },
        ),
{
    let mut s = String::new();
    if escape {
        s.push('\x1b');
    }
    s.push(c);
    assert(s@ =~= if escape {
        seq!['\x1b', c]
    } else {
        seq![c]
    });
    bytes_of(&s)
}

/// The modifier parameter counts shift as one, alt as two, ctrl as four and
/// the logo key as eight, from one on.
pub proof fn law_modifier_parameter(mods: Mods)
    ensures
        mods.parameter() == 1 + (if mods.shift {
            1int
        } else {
            0
        }) + (if mods.alt {
            2int
        } else {
            0
        }) + (if mods.ctrl {
            4int
        } else {
            0
        }) + (if mods.logo {
            8int
        } else {
            0
        }),
        mods.parameter() == 1 <==> mods.none(),
        mods.none() <==> mods == (Mods { shift: false, alt: false, ctrl: false, logo: false }),
        APP_CURSOR == 0x2,
{
}

/// What the arrow keys, Home and End send without a modifier: `CSI` and a
/// letter, and `SS3` and that letter in application mode.
pub proof fn law_cursor_keys(mods: Mods)
    requires
        mods == (Mods { shift: false, alt: false, ctrl: false, logo: false }),
    ensures
        key_text(Key::Named(NamedKey::Up), mods, false) == seq!['\x1b', '[', 'A'],
        key_text(Key::Named(NamedKey::Down), mods, false) == seq!['\x1b', '[', 'B'],
        key_text(Key::Named(NamedKey::Right), mods, false) == seq!['\x1b', '[', 'C'],
        key_text(Key::Named(NamedKey::Left), mods, false) == seq!['\x1b', '[', 'D'],
        key_text(Key::Named(NamedKey::Home), mods, false) == seq!['\x1b', '[', 'H'],
        key_text(Key::Named(NamedKey::End), mods, false) == seq!['\x1b', '[', 'F'],
        key_text(Key::Named(NamedKey::Up), mods, true) == seq!['\x1b', 'O', 'A'],
        key_text(Key::Named(NamedKey::Down), mods, true) == seq!['\x1b', 'O', 'B'],
        key_text(Key::Named(NamedKey::Right), mods, true) == seq!['\x1b', 'O', 'C'],
        key_text(Key::Named(NamedKey::Left), mods, true) == seq!['\x1b', 'O', 'D'],
        key_text(Key::Named(NamedKey::Home), mods, true) == seq!['\x1b', 'O', 'H'],
        key_text(Key::Named(NamedKey::End), mods, true) == seq!['\x1b', 'O', 'F'],
{
}

/// What the arrow keys, Home and End send with a modifier, whatever the mode:
/// `CSI 1;`, the modifier parameter and the letter of the key.
pub proof fn law_modified_cursor_keys(mods: Mods, app: bool)
    requires
        mods.shift || mods.alt || mods.ctrl || mods.logo,
    ensures
        ({
            let start = seq!['\x1b', '[', '1', ';'] + decimal(mods.parameter() as nat);
            &&& key_text(Key::Named(NamedKey::Up), mods, app) == start + seq!['A']
            &&& key_text(Key::Named(NamedKey::Down), mods, app) == start + seq!['B']
            &&& key_text(Key::Named(NamedKey::Right), mods, app) == start + seq!['C']
            &&& key_text(Key::Named(NamedKey::Left), mods, app) == start + seq!['D']
            &&& key_text(Key::Named(NamedKey::Home), mods, app) == start + seq!['H']
            &&& key_text(Key::Named(NamedKey::End), mods, app) == start + seq!['F']
        }),
{
}

/// What PageUp, PageDown, Insert and Delete send, whatever the mode: `CSI`,
/// the number of the key, the modifier parameter after a semicolon if a
/// modifier is held, and a tilde.
pub proof fn law_editing_keys(mods: Mods, app: bool)
    ensures
        ({
            let held = mods.shift || mods.alt || mods.ctrl || mods.logo;
            let end = if held {
                seq![';'] + decimal(mods.parameter() as nat) + seq!['~']
            } else {
                seq!['~']
            };
            &&& key_text(Key::Named(NamedKey::PageUp), mods, app) == seq!['\x1b', '[', '5'] + end
            &&& key_text(Key::Named(NamedKey::PageDown), mods, app) == seq!['\x1b', '[', '6'] + end
            &&& key_text(Key::Named(NamedKey::Insert), mods, app) == seq!['\x1b', '[', '2'] + end
            &&& key_text(Key::Named(NamedKey::Delete), mods, app) == seq!['\x1b', '[', '3'] + end
        }),
{
    let held = mods.shift || mods.alt || mods.ctrl || mods.logo;
    let end = if held {
        seq![';'] + decimal(mods.parameter() as nat) + seq!['~']
    } else {
        seq!['~']
    };
    assert(key_text(Key::Named(NamedKey::PageUp), mods, app) =~= seq!['\x1b', '[', '5'] + end);
    assert(key_text(Key::Named(NamedKey::PageDown), mods, app) =~= seq!['\x1b', '[', '6'] + end);
    assert(key_text(Key::Named(NamedKey::Insert), mods, app) =~= seq!['\x1b', '[', '2'] + end);
    assert(key_text(Key::Named(NamedKey::Delete), mods, app) =~= seq!['\x1b', '[', '3'] + end);
}

/// What the first four function keys send, whatever the mode: `SS3` and a
/// letter, and with a modifier `CSI 1;`, the modifier parameter and that
/// letter.
pub proof fn law_first_function_keys(mods: Mods, app: bool)
    ensures
        ({
            let held = mods.shift || mods.alt || mods.ctrl || mods.logo;
            let start = if held {
                seq!['\x1b', '[', '1', ';'] + decimal(mods.parameter() as nat)
            } else {
                seq!['\x1b', 'O']
            };
            &&& key_text(Key::Named(NamedKey::F(1)), mods, app) == start + seq!['P']
            &&& key_text(Key::Named(NamedKey::F(2)), mods, app) == start + seq!['Q']
            &&& key_text(Key::Named(NamedKey::F(3)), mods, app) == start + seq!['R']
            &&& key_text(Key::Named(NamedKey::F(4)), mods, app) == start + seq!['S']
        }),
{
    let held = mods.shift || mods.alt || mods.ctrl || mods.logo;
    let start = if held {
        seq!['\x1b', '[', '1', ';'] + decimal(mods.parameter() as nat)
    } else {
        seq!['\x1b', 'O']
    };
    assert(key_text(Key::Named(NamedKey::F(1)), mods, app) =~= start + seq!['P']);
    assert(key_text(Key::Named(NamedKey::F(2)), mods, app) =~= start + seq!['Q']);
    assert(key_text(Key::Named(NamedKey::F(3)), mods, app) =~= start + seq!['R']);
    assert(key_text(Key::Named(NamedKey::F(4)), mods, app) =~= start + seq!['S']);
}

/// What the function keys from F5 to F12 send, whatever the mode: `CSI`, the
/// number of the key, the modifier parameter after a semicolon if a modifier
/// is held, and a tilde. There are no function keys beyond.
pub proof fn law_other_function_keys(mods: Mods, app: bool, n: u8)
    ensures
        ({
            let held = mods.shift || mods.alt || mods.ctrl || mods.logo;
            let end = if held {
                seq![';'] + decimal(mods.parameter() as nat) + seq!['~']
            } else {
                seq!['~']
            };
            &&& key_text(Key::Named(NamedKey::F(5)), mods, app) == seq!['\x1b', '[', '1', '5'] + end
            &&& key_text(Key::Named(NamedKey::F(6)), mods, app) == seq!['\x1b', '[', '1', '7'] + end
            &&& key_text(Key::Named(NamedKey::F(7)), mods, app) == seq!['\x1b', '[', '1', '8'] + end
            &&& key_text(Key::Named(NamedKey::F(8)), mods, app) == seq!['\x1b', '[', '1', '9'] + end
            &&& key_text(Key::Named(NamedKey::F(9)), mods, app) == seq!['\x1b', '[', '2', '0'] + end
            &&& key_text(Key::Named(NamedKey::F(10)), mods, app) == seq!['\x1b', '[', '2', '1'] + end
            &&& key_text(Key::Named(NamedKey::F(11)), mods, app) == seq!['\x1b', '[', '2', '3'] + end
            &&& key_text(Key::Named(NamedKey::F(12)), mods, app) == seq!['\x1b', '[', '2', '4'] + end
            &&& n == 0 || n > 12 ==> key_text(Key::Named(NamedKey::F(n)), mods, app) == Seq::<
                char,
            >::empty()
        }),
{
    let held = mods.shift || mods.alt || mods.ctrl || mods.logo;
    let end = if held {
        seq![';'] + decimal(mods.parameter() as nat) + seq!['~']
    } else {
        seq!['~']
    };
    reveal_with_fuel(decimal, 2);
    assert(decimal(15) =~= seq!['1', '5']);
    assert(key_text(Key::Named(NamedKey::F(5)), mods, app) =~= seq!['\x1b', '[', '1', '5'] + end);
    assert(decimal(17) =~= seq!['1', '7']);
    assert(key_text(Key::Named(NamedKey::F(6)), mods, app) =~= seq!['\x1b', '[', '1', '7'] + end);
    assert(decimal(18) =~= seq!['1', '8']);
    assert(key_text(Key::Named(NamedKey::F(7)), mods, app) =~= seq!['\x1b', '[', '1', '8'] + end);
    assert(decimal(19) =~= seq!['1', '9']);
    assert(key_text(Key::Named(NamedKey::F(8)), mods, app) =~= seq!['\x1b', '[', '1', '9'] + end);
    assert(decimal(20) =~= seq!['2', '0']);
    assert(key_text(Key::Named(NamedKey::F(9)), mods, app) =~= seq!['\x1b', '[', '2', '0'] + end);
    assert(decimal(21) =~= seq!['2', '1']);
    assert(key_text(Key::Named(NamedKey::F(10)), mods, app) =~= seq!['\x1b', '[', '2', '1'] + end);
    assert(decimal(23) =~= seq!['2', '3']);
    assert(key_text(Key::Named(NamedKey::F(11)), mods, app) =~= seq!['\x1b', '[', '2', '3'] + end);
    assert(decimal(24) =~= seq!['2', '4']);
    assert(key_text(Key::Named(NamedKey::F(12)), mods, app) =~= seq!['\x1b', '[', '2', '4'] + end);
}

/// What the other keys send, whatever the mode: Enter, Escape and Tab their
/// control character, Tab with shift `CSI Z`, Backspace a delete character,
/// and a character itself. Alt puts an escape before the last two.
pub proof fn law_plain_keys(mods: Mods, app: bool, c: char)
    ensures
        key_text(Key::Named(NamedKey::Enter), mods, app) == seq!['\r'],
        key_text(Key::Named(NamedKey::Escape), mods, app) == seq!['\x1b'],
        !mods.shift ==> key_text(Key::Named(NamedKey::Tab), mods, app) == seq!['\t'],
        mods.shift ==> key_text(Key::Named(NamedKey::Tab), mods, app) == seq!['\x1b', '[', 'Z'],
        !mods.alt ==> key_text(Key::Named(NamedKey::Backspace), mods, app) == seq!['\x7f'],
        mods.alt ==> key_text(Key::Named(NamedKey::Backspace), mods, app) == seq!['\x1b', '\x7f'],
        !mods.alt ==> key_text(Key::Text(c), mods, app) == seq![c],
        mods.alt ==> key_text(Key::Text(c), mods, app) == seq!['\x1b', c],
{
}

} // verus!
