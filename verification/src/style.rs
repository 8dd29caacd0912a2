//! The styles that the terminal front end prints text in.

use vstd::prelude::*;
use vstd::std_specs::cmp::PartialEqSpecImpl;

verus! {

/// A colour for text.
#[derive(Debug, Clone, Copy, PartialEq, Eq, Structural)]
pub enum Tint {
    Plain,
    Red,
    White,
}

/// How text looks on the terminal.
#[derive(Debug, Clone, Copy, Eq)]
pub struct TextStyle {
    pub reverse: bool,
    pub bold: bool,
    pub italic: bool,
    pub tint: Tint,
}

impl PartialEq for TextStyle {
    fn eq(&self, other: &TextStyle) -> (same: bool) {
        self.reverse == other.reverse && self.bold == other.bold && self.italic == other.italic
            && self.tint == other.tint
    }
}

impl PartialEqSpecImpl for TextStyle {
    open spec fn obeys_eq_spec() -> bool {
        true
    }

    open spec fn eq_spec(&self, other: &TextStyle) -> bool {
        self.reverse == other.reverse && self.bold == other.bold && self.italic == other.italic
            && self.tint == other.tint
    }
}

/// The style of plain text.
pub open spec fn plain_style() -> TextStyle {
    TextStyle { reverse: false, bold: false, italic: false, tint: Tint::Plain }
}

impl Default for TextStyle {
    fn default() -> (style: TextStyle)
        ensures
            style == plain_style(),
    {
        TextStyle { reverse: false, bold: false, italic: false, tint: Tint::Plain }
    }
}

/// The style that the interpreter asks for with the bits `zstyle`: bit 0
/// for reverse video, bit 1 for bold face, which is also shown in red, and
/// bit 2 for emphasis. Bit 3, fixed width, changes nothing on a terminal.
pub open spec fn style_of(zstyle: u16) -> TextStyle {
    TextStyle {
        reverse: zstyle & 1 != 0,
        bold: zstyle & 2 != 0,
        italic: zstyle & 4 != 0,
        tint: if zstyle & 2 != 0 {
            Tint::Red
        } else {
            Tint::Plain
        },
    }
}

/// The style in which the names of objects are printed.
pub open spec fn object_style() -> TextStyle {
    TextStyle { reverse: false, bold: false, italic: true, tint: Tint::White }
}

/// The style of the status bar.
pub open spec fn bar_style() -> TextStyle {
    TextStyle { reverse: true, bold: false, italic: false, tint: Tint::Plain }
}

/// The style that the interpreter asks for with the bits `zstyle`.
pub fn text_style(zstyle: u16) -> (style: TextStyle)
    ensures
        style == style_of(zstyle),
{
    let bold = zstyle & 2 != 0;
    TextStyle {
        reverse: zstyle & 1 != 0,
        bold: bold,
        italic: zstyle & 4 != 0,
        tint: if bold {
            Tint::Red
        } else {
            Tint::Plain
        },
    }
}

} // verus!
