//! Keys as the interpreter knows them.

use vstd::prelude::*;

verus! {

pub const BAD: char = '\u{0000}';

pub const BACKSPACE: char = '\u{0008}';

pub const INDENT: char = '\u{0009}';

pub const RETURN: char = '\u{000d}';

pub const ESCAPE: char = '\u{001b}';

pub const DEL: char = '\u{007f}';

pub const ARROW_UP: char = '\u{0081}';

pub const ARROW_DOWN: char = '\u{0082}';

pub const ARROW_LEFT: char = '\u{0083}';

pub const ARROW_RIGHT: char = '\u{0084}';

pub const FKEY_MIN: u8 = 0x85;

pub const FKEY_MAX: u8 = 0x90;

/// A key of the keyboard.
#[derive(Debug, Clone, Copy)]
pub enum Key {
    Char(char),
    Esc,
    Up,
    Down,
    Left,
    Right,
    Backspace,
    Enter,
    Tab,
    Delete,
    F(u8),
    Other,
}

/// The modifier keys held down with a key.
#[derive(Debug, Clone, Copy)]
pub struct Modifiers {
    pub shift: bool,
    pub control: bool,
    pub alt: bool,
}

/// The character that the interpreter reads for a key.
///
/// A letter with Alt is no character; with Control it is the control
/// character of that letter; a small letter with Shift is the capital.
/// Any other character counts only without modifiers. The named keys have
/// codes of their own, function key `n` the code `FKEY_MIN + n - 1`.
pub open spec fn key_char(key: Key, modifiers: Modifiers) -> char {
    match key {
        Key::Char(ch) => {
            if 'a' <= ch <= 'z' {
                if modifiers.alt {
                    BAD
                } else if modifiers.control {
                    ((ch as u8 - 'a' as u8 + 1) as u8) as char
                } else if modifiers.shift {
                    ((ch as u8 - 32) as u8) as char
                } else {
                    ch
                }
            } else if 'A' <= ch <= 'Z' {
                if modifiers.alt {
                    BAD
                } else if modifiers.control {
                    ((ch as u8 - 'A' as u8 + 1) as u8) as char
                } else {
                    ch
                }
            } else if !modifiers.shift && !modifiers.control && !modifiers.alt {
                ch
            } else {
                BAD
            }
        },
        Key::Esc => ESCAPE,
        Key::Up => ARROW_UP,
        Key::Down => ARROW_DOWN,
        Key::Left => ARROW_LEFT,
        Key::Right => ARROW_RIGHT,
        Key::Backspace => BACKSPACE,
        Key::Enter => RETURN,
        Key::Tab => INDENT,
        Key::Delete => DEL,
        Key::F(n) => ((FKEY_MIN + n - 1) as u8) as char,
        Key::Other => BAD,
    }
}

/// Whether `key` is one that `char_from_key_event` takes: any but a
/// function key beyond the 122nd, whose code would not fit in a byte.
pub fn has_code(key: Key) -> (ok: bool)
    ensures
        ok == (key matches Key::F(n) ==> n <= 122),
{
    match key {
        Key::F(n) => n <= 122,
        _ => true,
    }
}

/// The character that the interpreter reads for a key.
pub fn char_from_key_event(key: Key, modifiers: Modifiers) -> (c: char)
    requires
        key matches Key::F(n) ==> n <= 122,
    ensures
        c == key_char(key, modifiers),
{
    match key {
        Key::Char(ch) => {
            if 'a' <= ch && ch <= 'z' {
                if modifiers.alt {
                    BAD
                } else if modifiers.control {
                    (ch as u8 - 'a' as u8 + 1) as char
                } else if modifiers.shift {
                    (ch as u8 - 32) as char
                } else {
                    ch
                }
            } else if 'A' <= ch && ch <= 'Z' {
                if modifiers.alt {
                    BAD
                } else if modifiers.control {
                    (ch as u8 - 'A' as u8 + 1) as char
                } else {
                    ch
                }
            } else if !modifiers.shift && !modifiers.control && !modifiers.alt {
                ch
            } else {
                BAD
            }
        },
        Key::Esc => ESCAPE,
        Key::Up => ARROW_UP,
        Key::Down => ARROW_DOWN,
        Key::Left => ARROW_LEFT,
        Key::Right => ARROW_RIGHT,
        Key::Backspace => BACKSPACE,
        Key::Enter => RETURN,
        Key::Tab => INDENT,
        Key::Delete => DEL,
        Key::F(n) => (FKEY_MIN + n - 1) as char,
        Key::Other => BAD,
    }
}

} // verus!
