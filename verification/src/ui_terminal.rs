//! The terminal front end: a wrapped, scrolling lower window below an upper
//! window of fixed lines, as the interpreter sees them.
//!
//! The front end does no input or output itself. It queues commands for
//! the terminal, and is handed what was read from the keyboard.

use crate::chgrid::Rect;
use crate::segment::{count_graphemes, grapheme_starts, is_whitespace};
use crate::style::{bar_style, object_style, plain_style, style_of, text_style, TextStyle, Tint};
use crate::termbuffer::{emit, redraw, shown, Command, Shown, TermBuffer, WrapBuffer};
use crate::text::{blanks, chars_of, lemma_encode_concat, spaces};
use regex::Regex;
use vstd::prelude::*;
use vstd::string::*;
use vstd::utf8::*;

verus! {

/// A place in a window.
#[derive(Debug, Clone, Copy)]
pub struct Point {
    pub x: u16,
    pub y: u16,
}

/// How the screen is divided.
#[derive(Debug, Clone, Copy)]
pub struct Layout {
    /// The width of the text.
    pub width: u16,
    /// The height of the screen.
    pub height: u16,
    /// The region of the lower window.
    pub area: Rect,
}

/// The layout for text of `width` columns, or of any width where `width` is
/// zero, on a terminal of the size `size`.
///
/// On a terminal the text is centred between equal margins where the
/// terminal is wider than the text, and the first line is left to the
/// upper window. Without a terminal the text is 60 columns wide and 25
/// lines high.
pub open spec fn layout_of(width: u16, size: Option<(u16, u16)>) -> Layout {
    match size {
        Some((w, h)) => {
            let wanted = if width == 0 {
                u16::MAX
            } else {
                width
            };
            let margin = if w > wanted {
                ((w - wanted) / 2) as u16
            } else {
                0
            };
            Layout {
                width: (w - margin * 2) as u16,
                height: h,
                area: Rect { x: margin, y: 1, width: (w - margin * 2) as u16, height: (h - 1) as u16 },
            }
        },
        None => Layout { width: 60, height: 25, area: Rect { x: 0, y: 0, width: 60, height: 25 } },
    }
}

/// The layout for text of `width` columns on a terminal of the size `size`.
pub fn layout(width: u16, size: Option<(u16, u16)>) -> (l: Layout)
    requires
        size matches Some((w, h)) ==> h >= 1,
    ensures
        l == layout_of(width, size),
{
    match size {
        Some((w, h)) => {
            let wanted = if width == 0 {
                u16::MAX
            } else {
                width
            };
            let margin = if w > wanted {
                (w - wanted) / 2
            } else {
                0
            };
            Layout {
                width: w - margin * 2,
                height: h,
                area: Rect { x: margin, y: 1, width: w - margin * 2, height: h - 1 },
            }
        },
        None => Layout { width: 60, height: 25, area: Rect { x: 0, y: 0, width: 60, height: 25 } },
    }
}

/// Where the cursor of the upper window goes when the interpreter sets it
/// to column `x` of line `y`, both counted from 1, in a window `width`
/// columns wide. Zero leaves a coordinate as it is, and a column beyond the
/// window becomes column 1.
pub open spec fn cursor_at(cursor: Point, width: u16, x: i16, y: i16) -> Point {
    let column = if x == 0 {
        cursor.x
    } else if x > 0 {
        (x - 1) as u16
    } else {
        (x + 0x1_0000 - 1) as u16
    };
    Point {
        x: if column >= width {
            1
        } else {
            column
        },
        y: if y == 0 {
            cursor.y
        } else {
            (y - 1) as u16
        },
    }
}

/// Where the cursor of the upper window goes; a negative line leaves it
/// where it is.
pub fn set_cursor_at(cursor: Point, width: u16, x: i16, y: i16) -> (at: Point)
    ensures
        at == if y < 0 {
            cursor
        } else {
            cursor_at(cursor, width, x, y)
        },
{
    if y < 0 {
        return cursor;
    }
    let line = if y == 0 {
        cursor.y
    } else {
        (y - 1) as u16
    };
    let mut column = if x == 0 {
        cursor.x
    } else if x > 0 {
        (x - 1) as u16
    } else {
        (x as i32 + 0x1_0000 - 1) as u16
    };
    if column >= width {
        column = 1;
    }
    Point { x: column, y: line }
}


/// `text` without the white space that it starts with.
pub open spec fn trim_start_of(text: Seq<char>) -> Seq<char>
    decreases text.len(),
{
    if text.len() > 0 && is_whitespace(text[0]) {
        trim_start_of(text.drop_first())
    } else {
        text
    }
}

/// `text` without the white space that it ends with.
pub open spec fn trim_end_of(text: Seq<char>) -> Seq<char>
    decreases text.len(),
{
    if text.len() > 0 && is_whitespace(text.last()) {
        trim_end_of(text.drop_last())
    } else {
        text
    }
}

/// Calls `str::trim`, which gives the text without the white space at
/// either end, white space being what `char::is_whitespace` says.
#[verifier::external_body]
pub(crate) fn trim_text(s: &str) -> (r: &str)
    ensures
        r@ == trim_end_of(trim_start_of(s@)),
{
    s.trim()
}

/// What replacing every match of the regular expression `pattern` in `text`
/// by `with` gives, or `None` where `pattern` is no regular expression.
pub uninterp spec fn regex_replaced(
    pattern: Seq<char>,
    text: Seq<char>,
    with: Seq<char>,
) -> Option<Seq<char>>;

/// Calls `Regex::new` on `pattern` and `Regex::replace_all` on the regex
/// that it gives: each match in `s`, from left to right and none
/// overlapping another, is replaced by `with`. What comes of it depends on
/// the three texts alone and is named here `regex_replaced`; a pattern that
/// does not compile gives `None`.
#[verifier::external_body]
pub(crate) fn replace_all(pattern: &str, s: &str, with: &str) -> (r: Option<String>)
    ensures
        chars_of(r) == regex_replaced(pattern@, s@, with@),
{
    match Regex::new(pattern) {
        Ok(regex) => Some(regex.replace_all(s, with).into_owned()),
        Err(_) => None,
    }
}

/// The regular expression for the control sequences of a terminal: an
/// escape or a control sequence introducer, intermediate characters,
/// numbers between semicolons, and a final character.
pub const CONTROL_SEQUENCE: &'static str =
    r"[\x1b\x9b][\[()#;?]*(?:[0-9]{1,4}(?:;[0-9]{0,4})*)?[0-9A-PRZcf-nqry=><]";

/// What the user typed as the interpreter is to see it: trimmed, without
/// control sequences, and trimmed once more. `None` where the pattern of
/// control sequences is no regular expression.
pub open spec fn cleaned(line: Seq<char>) -> Option<Seq<char>> {
    match regex_replaced(CONTROL_SEQUENCE@, trim_end_of(trim_start_of(line)), ""@) {
        Some(text) => Some(trim_end_of(trim_start_of(text))),
        None => None,
    }
}

/// What the user typed as the interpreter is to see it.
pub fn clean_input(line: &str) -> (input: Option<String>)
    ensures
        chars_of(input) == cleaned(line@),
{
    match replace_all(CONTROL_SEQUENCE, trim_text(line), "") {
        Some(stripped) => Some(trim_text(stripped.as_str()).to_owned()),
        None => None,
    }
}

/// The text of the left part of a status bar `width` columns wide: a
/// space, the text `left`, and spaces up to the last column but one.
pub open spec fn bar_text(left: Seq<char>, width: u16) -> Seq<u8> {
    encode_utf8(seq![' ']) + encode_utf8(left) + spaces(
        if left.len() < width - 1 {
            (width - 1 - left.len()) as nat
        } else {
            0
        },
    )
}

/// The text of the left part of a status bar.
pub fn status_text(left: &str, width: u16) -> (text: String)
    requires
        width >= 1,
    ensures
        encode_utf8(text@) == bar_text(left@, width),
{
    let mut text = String::new();
    text.append(" ");
    text.append(left);
    let have = left.unicode_len();
    let room = (width - 1) as usize;
    let fill = if have < room {
        blanks(room - have)
    } else {
        blanks(0)
    };
    let ghost before = text@;
    text.append(fill.as_str());
    proof {
        reveal_strlit(" ");
        assert(" "@ =~= seq![' ']);
        assert(Seq::<char>::empty() + " "@ =~= " "@);
        lemma_encode_concat(" "@, left@);
        lemma_encode_concat(before, fill@);
    }
    text
}

/// The upper window: a buffer and the place where the next text goes.
#[derive(Debug)]
pub struct Window {
    pub buffer: TermBuffer<TextStyle>,
    pub cursor: Point,
}

/// The terminal front end.
#[derive(Debug)]
pub struct TerminalUI {
    /// Whether the output is a terminal.
    pub isatty: bool,
    /// The height of the screen.
    pub height: u16,
    /// The width of the text.
    pub width: u16,
    /// The lower window.
    pub buffer: WrapBuffer<TextStyle>,
    /// The upper window.
    pub window: Window,
    /// The window that text goes to: 0 is the lower one.
    pub zwindow: u16,
    /// The style that text is printed in.
    pub style: TextStyle,
    /// The commands that wait to be carried out.
    pub out: Vec<Command<TextStyle>>,
}

impl TerminalUI {
    /// What holds of every front end: its windows are in order, and what
    /// they queue has been moved to the queue of the front end.
    pub open spec fn inv(&self) -> bool {
        &&& self.buffer.inv()
        &&& self.window.buffer.inv()
        &&& self.buffer.termbuf.out@.len() == 0
        &&& self.window.buffer.out@.len() == 0
    }

    /// The commands that wait to be carried out.
    pub open spec fn queued(&self) -> Seq<Shown<TextStyle>> {
        shown(self.out@)
    }

    /// `after` differs from this front end at most in its windows and its
    /// queue.
    pub open spec fn same_settings(&self, after: TerminalUI) -> bool {
        &&& after.isatty == self.isatty
        &&& after.height == self.height
        &&& after.width == self.width
        &&& after.zwindow == self.zwindow
        &&& after.style == self.style
    }

    /// `after` is this front end with the commands `extra` queued and
    /// nothing else changed.
    pub open spec fn queued_more(&self, after: TerminalUI, extra: Seq<Shown<TextStyle>>) -> bool {
        &&& self.same_settings(after)
        &&& after.buffer == self.buffer
        &&& after.window == self.window
        &&& after.queued() == self.queued() + extra
    }

    /// `after` is this front end with `text` printed to the lower window in
    /// the style `style`.
    pub open spec fn lower_printed(&self, after: TerminalUI, text: Seq<char>, style: TextStyle) -> bool {
        &&& self.same_settings(after)
        &&& after.window == self.window
        &&& exists|b: WrapBuffer<TextStyle>| #[trigger]
            self.buffer.printed(b, text, style) && b.emptied(after.buffer) && after.queued()
                == self.queued() + b.termbuf.queued()
    }

    /// `after` is this front end with `text` printed to the upper window at
    /// its cursor. The cursor goes behind the text, or to the last column
    /// where that is beyond the window.
    pub open spec fn upper_printed(&self, after: TerminalUI, text: Seq<char>) -> bool {
        let behind = self.window.cursor.x + grapheme_starts(text).len();
        &&& self.same_settings(after)
        &&& after.buffer == self.buffer
        &&& after.window.cursor.y == self.window.cursor.y
        &&& after.window.cursor.x == if behind > self.window.buffer.area.width {
            self.window.buffer.area.width - 1
        } else {
            behind as int
        }
        &&& exists|w: TermBuffer<TextStyle>| #[trigger]
            self.window.buffer.written(
                w,
                self.window.cursor.x,
                self.window.cursor.y,
                text,
                self.style,
            ) && w.emptied(after.window.buffer) && after.queued() == self.queued() + w.queued()
    }

    /// `after` is this front end with `text` printed: written as it is
    /// where the output is no terminal, and else printed to the window
    /// that text goes to.
    pub open spec fn printed(&self, after: TerminalUI, text: Seq<char>) -> bool {
        if !self.isatty {
            self.queued_more(after, seq![Shown::Raw { text: encode_utf8(text) }])
        } else if self.zwindow == 0 {
            self.lower_printed(after, text, self.style)
        } else {
            self.upper_printed(after, text)
        }
    }

    /// The lower window can take a text of `len` bytes.
    pub open spec fn lower_ready(&self, len: nat) -> bool {
        self.buffer.has_room(len)
    }

    /// The upper window can take text at its cursor.
    pub open spec fn upper_ready(&self) -> bool {
        &&& self.window.buffer.area.width > 0
        &&& self.window.buffer.first_row + self.window.cursor.y < usize::MAX
    }

    /// The front end can print a text of `len` bytes.
    pub open spec fn ready(&self, len: nat) -> bool {
        self.isatty ==> if self.zwindow == 0 {
            self.lower_ready(len)
        } else {
            self.upper_ready()
        }
    }

    /// Whether the front end can print `text`.
    pub fn can_print(&self, text: &str) -> (ok: bool)
        ensures
            ok == self.ready(text.spec_bytes().len()),
    {
        if !self.isatty {
            return true;
        }
        if self.zwindow == 0 {
            self.can_print_below(text)
        } else {
            self.window.buffer.area.width > 0 && (self.window.buffer.first_row as u64)
                + (self.window.cursor.y as u64) < usize::MAX as u64
        }
    }

    /// Whether the lower window can take `text`.
    pub fn can_print_below(&self, text: &str) -> (ok: bool)
        ensures
            ok == self.lower_ready(text.spec_bytes().len()),
    {
        self.buffer.can_print(text)
    }

    /// A front end for text of `width` columns on a terminal of the size
    /// `size`; `None` where the output is no terminal. On a terminal the
    /// lines below the first are set to scroll.
    pub fn new_with_width(width: u16, size: Option<(u16, u16)>, isatty: bool) -> (ui: TerminalUI)
        requires
            size matches Some((w, h)) ==> h >= 1,
        ensures
            ui.inv(),
            ui.isatty == (size is Some && isatty),
            ui.width == layout_of(width, size).width,
            ui.height == layout_of(width, size).height,
            ui.buffer.termbuf.area == layout_of(width, size).area,
            ui.buffer.termbuf.rows@.len() == 0,
            ui.buffer.termbuf.first_row == 0,
            ui.buffer.lines@.len() == 0,
            ui.buffer.more_context == 1,
            ui.buffer.more_lines == 0,
            ui.window.buffer.area == (Rect {
                x: layout_of(width, size).area.x,
                y: 0,
                width: layout_of(width, size).area.width,
                height: 1,
            }),
            ui.window.buffer.rows@.len() == 0,
            ui.window.buffer.first_row == 0,
            ui.window.cursor.x == 0,
            ui.window.cursor.y == 0,
            ui.zwindow == 0,
            ui.style == plain_style(),
            ui.queued() == match size {
                Some((w, h)) => seq![Shown::<TextStyle>::SetScrollRegion { top: 2, bottom: h }],
                None => Seq::<Shown<TextStyle>>::empty(),
            },
    {
        let l = layout(width, size);
        let mut out: Vec<Command<TextStyle>> = Vec::new();
        proof {
            assert(shown(out@) =~= Seq::<Shown<TextStyle>>::empty());
        }
        let mut tty = false;
        match size {
            Some((w, h)) => {
                tty = isatty;
                emit(&mut out, Command::SetScrollRegion { top: 2, bottom: h });
                proof {
                    assert(shown(out@) =~= seq![Shown::SetScrollRegion { top: 2, bottom: h }]);
                }
            },
            None => {},
        }
        TerminalUI {
            isatty: tty,
            height: l.height,
            width: l.width,
            buffer: WrapBuffer::new(l.area),
            window: Window {
                buffer: TermBuffer::new(
                    Rect { x: l.area.x, y: 0, width: l.area.width, height: 1 },
                ),
                cursor: Point { x: 0, y: 0 },
            },
            zwindow: 0,
            style: TextStyle { reverse: false, bold: false, italic: false, tint: Tint::Plain },
            out: out,
        }
    }

    /// Whether the output is a terminal.
    pub fn is_term(&self) -> (tty: bool)
        ensures
            tty == self.isatty,
    {
        self.isatty
    }

    /// Hands out the commands that wait and empties the queue.
    pub fn take_commands(&mut self) -> (commands: Vec<Command<TextStyle>>)
        ensures
            commands@ == old(self).out@,
            final(self).out@.len() == 0,
            old(self).same_settings(*final(self)),
            final(self).buffer == old(self).buffer,
            final(self).window == old(self).window,
    {
        let mut commands: Vec<Command<TextStyle>> = Vec::new();
        std::mem::swap(&mut commands, &mut self.out);
        commands
    }

    /// Prints `text` to the lower window in the style `style`.
    pub fn print_below(&mut self, text: &str, style: TextStyle)
        requires
            old(self).inv(),
            old(self).lower_ready(text.spec_bytes().len()),
        ensures
            final(self).inv(),
            old(self).lower_printed(*final(self), text@, style),
    {
        self.buffer.print_style(text, &style);
        let ghost b = self.buffer;
        let mut commands = self.buffer.take_commands();
        let ghost before = self.out@;
        let ghost added = commands@;
        self.out.append(&mut commands);
        proof {
            assert(shown(before + added) =~= shown(before) + shown(added));
            assert(old(self).buffer.printed(b, text@, style));
        }
    }

    /// Prints `text` in the style set: as it is where the output is no
    /// terminal, and else to the window that text goes to.
    pub fn print(&mut self, text: &str)
        requires
            old(self).inv(),
            old(self).ready(text.spec_bytes().len()),
        ensures
            final(self).inv(),
            old(self).printed(*final(self), text@),
    {
        if !self.isatty {
            emit(&mut self.out, Command::Raw { text: text.to_owned() });
            proof {
                assert(self.queued() =~= old(self).queued() + seq![
                    Shown::Raw { text: encode_utf8(text@) },
                ]);
            }
            return ;
        }
        if self.zwindow == 0 {
            self.print_below(text, self.style);
        } else {
            let x = self.window.cursor.x;
            let count = self.window.buffer.put_at(x, self.window.cursor.y, text, self.style);
            let ghost w = self.window.buffer;
            let width = self.window.buffer.area.width;
            self.window.cursor.x = if x > width || count > (width - x) as usize {
                width - 1
            } else {
                x + count as u16
            };
            let mut commands = self.window.buffer.take_commands();
            let ghost before = self.out@;
            let ghost added = commands@;
            self.out.append(&mut commands);
            proof {
                assert(shown(before + added) =~= shown(before) + shown(added));
                assert(old(self).window.buffer.written(
                    w,
                    old(self).window.cursor.x,
                    old(self).window.cursor.y,
                    text@,
                    old(self).style,
                ));
            }
        }
    }

    /// This front end with text going to window `zwindow`.
    pub open spec fn at_window(&self, zwindow: u16) -> TerminalUI {
        TerminalUI { zwindow: zwindow, ..*self }
    }

    /// Prints `text` to the lower window, whatever window text goes to.
    pub fn debug(&mut self, text: &str)
        requires
            old(self).inv(),
            old(self).isatty ==> old(self).lower_ready(text.spec_bytes().len()),
        ensures
            final(self).inv(),
            final(self).zwindow == old(self).zwindow,
            old(self).at_window(0).printed(final(self).at_window(0), text@),
    {
        let zwindow = self.zwindow;
        self.zwindow = 0;
        self.print(text);
        self.zwindow = zwindow;
    }

    /// Prints the name of an object: to the lower window of a terminal in
    /// the style of objects, and else as any text.
    pub fn print_object(&mut self, object: &str)
        requires
            old(self).inv(),
            old(self).ready(object.spec_bytes().len()),
        ensures
            final(self).inv(),
            if old(self).zwindow == 0 && old(self).isatty {
                old(self).lower_printed(*final(self), object@, object_style())
            } else {
                old(self).printed(*final(self), object@)
            },
    {
        if self.zwindow == 0 && self.isatty {
            self.print_below(
                object,
                TextStyle { reverse: false, bold: false, italic: true, tint: Tint::White },
            );
        } else {
            self.print(object);
        }
    }

    /// Sets the style that text is printed in.
    pub fn set_text_style(&mut self, zstyle: u16)
        ensures
            final(self).style == style_of(zstyle),
            final(self).isatty == old(self).isatty,
            final(self).height == old(self).height,
            final(self).width == old(self).width,
            final(self).zwindow == old(self).zwindow,
            final(self).buffer == old(self).buffer,
            final(self).window == old(self).window,
            final(self).out == old(self).out,
    {
        self.style = text_style(zstyle);
    }

    /// Sets the window that text goes to.
    pub fn set_window(&mut self, zwindow: u16)
        ensures
            *final(self) == old(self).at_window(zwindow),
    {
        self.zwindow = zwindow;
    }

    /// Puts the cursor of the upper window at column `x` of line `y`, both
    /// counted from 1; a negative line leaves it where it is.
    pub fn set_cursor(&mut self, x: i16, y: i16)
        ensures
            final(self).window.cursor == if y < 0 {
                old(self).window.cursor
            } else {
                cursor_at(old(self).window.cursor, old(self).window.buffer.area.width, x, y)
            },
            final(self).window.buffer == old(self).window.buffer,
            old(self).same_settings(*final(self)),
            final(self).buffer == old(self).buffer,
            final(self).out == old(self).out,
    {
        self.window.cursor = set_cursor_at(self.window.cursor, self.window.buffer.area.width, x, y);
    }

    /// The place of the cursor can be counted from 1.
    pub open spec fn has_cursor(&self) -> bool {
        self.window.cursor.x < u16::MAX && self.window.cursor.y < u16::MAX
    }

    /// Whether the place of the cursor can be counted from 1.
    pub fn has_cursor_now(&self) -> (ok: bool)
        ensures
            ok == self.has_cursor(),
    {
        self.window.cursor.x < u16::MAX && self.window.cursor.y < u16::MAX
    }

    /// Where the cursor of the upper window is, counted from 1.
    pub fn get_cursor(&self) -> (at: (u16, u16))
        requires
            self.has_cursor(),
        ensures
            at.0 == self.window.cursor.x + 1,
            at.1 == self.window.cursor.y + 1,
    {
        (self.window.cursor.x + 1, self.window.cursor.y + 1)
    }

    /// What clears the screen of a terminal and sets the lines below the
    /// upper window to scroll.
    pub open spec fn clearing(&self) -> Seq<Shown<TextStyle>> {
        if self.isatty {
            seq![
                Shown::ClearScreen,
                Shown::SetScrollRegion {
                    top: (self.window.buffer.area.height + 1) as u16,
                    bottom: self.height,
                },
            ]
        } else {
            seq![]
        }
    }

    /// The screen can be cleared: on a terminal the line below the upper
    /// window can be numbered.
    pub open spec fn can_clear(&self) -> bool {
        self.isatty ==> self.window.buffer.area.height < u16::MAX
    }

    /// Whether the screen can be cleared.
    pub fn can_clear_now(&self) -> (ok: bool)
        ensures
            ok == self.can_clear(),
    {
        !self.isatty || self.window.buffer.area.height < u16::MAX
    }

    /// Clears the screen of a terminal.
    pub fn clear(&mut self)
        requires
            old(self).can_clear(),
        ensures
            old(self).queued_more(*final(self), old(self).clearing()),
    {
        if self.isatty {
            emit(&mut self.out, Command::ClearScreen);
            emit(
                &mut self.out,
                Command::SetScrollRegion {
                    top: self.window.buffer.area.height + 1,
                    bottom: self.height,
                },
            );
        }
        proof {
            assert(self.queued() =~= old(self).queued() + old(self).clearing());
        }
    }

    /// The region of the upper window when it is `height` lines high.
    pub open spec fn upper_area(&self, height: u16) -> Rect {
        Rect { x: self.window.buffer.area.x, y: 0, width: self.window.buffer.area.width, height: height }
    }

    /// The region of the lower window below an upper window of `height`
    /// lines.
    pub open spec fn lower_area(&self, height: u16) -> Rect {
        Rect {
            x: self.window.buffer.area.x,
            y: height,
            width: self.window.buffer.area.width,
            height: (self.height - height) as u16,
        }
    }

    /// The screen can be split below line `height`.
    pub open spec fn can_split(&self, height: u16) -> bool {
        self.isatty ==> {
            &&& height <= self.height
            &&& height < u16::MAX
            &&& self.buffer.termbuf.first_row + (self.height - height) <= u32::MAX
        }
    }

    /// Whether the screen can be split below line `height`.
    pub fn can_split_now(&self, height: u16) -> (ok: bool)
        ensures
            ok == self.can_split(height),
    {
        !self.isatty || (height <= self.height && height < u16::MAX
            && self.buffer.termbuf.first_row as u64 + (self.height - height) as u64
            <= u32::MAX as u64)
    }

    /// `after` is this front end with the upper window `height` lines
    /// high.
    ///
    /// The upper window keeps its first row; the lower window takes the
    /// rest of the screen and keeps its last row. The lines below the upper
    /// window are set to scroll, and each window is redrawn if it can be.
    /// Nothing happens where the output is no terminal.
    pub open spec fn split(&self, after: TerminalUI, height: u16) -> bool {
        if !self.isatty {
            after == *self
        } else {
            let moved = self.buffer.termbuf.first_row + (self.height - height);
            let first = if moved >= self.buffer.termbuf.area.height {
                moved - self.buffer.termbuf.area.height
            } else {
                0
            };
            let upper = redraw(
                self.window.buffer.rows@,
                self.window.buffer.first_row as int,
                self.upper_area(height),
            );
            let lower = redraw(self.buffer.termbuf.rows@, first, self.lower_area(height));
            &&& self.same_settings(after)
            &&& after.window.cursor == self.window.cursor
            &&& after.window.buffer.area == self.upper_area(height)
            &&& after.window.buffer.rows == self.window.buffer.rows
            &&& after.window.buffer.first_row == self.window.buffer.first_row
            &&& after.buffer.lines == self.buffer.lines
            &&& after.buffer.more_context == self.buffer.more_context
            &&& after.buffer.more_lines == self.buffer.more_lines
            &&& after.buffer.termbuf.area == self.lower_area(height)
            &&& after.buffer.termbuf.rows == self.buffer.termbuf.rows
            &&& after.buffer.termbuf.first_row == first
            &&& after.queued() == self.queued() + seq![
                Shown::SetScrollRegion { top: (height + 1) as u16, bottom: self.height },
            ] + (if after.window.buffer.refreshable() {
                upper
            } else {
                seq![]
            }) + (if after.buffer.termbuf.refreshable() {
                lower
            } else {
                seq![]
            })
        }
    }

    /// Makes the upper window `height` lines high.
    pub fn split_window(&mut self, height: u16)
        requires
            old(self).inv(),
            old(self).can_split(height),
        ensures
            final(self).inv(),
            old(self).split(*final(self), height),
    {
        if self.isatty {
            let area = self.window.buffer.area;
            self.window.buffer.resize(
                Rect { x: area.x, y: 0, width: area.width, height: height },
                false,
            );
            self.buffer.resize(
                Rect { x: area.x, y: height, width: area.width, height: self.height - height },
                true,
            );
            emit(&mut self.out, Command::SetScrollRegion { top: height + 1, bottom: self.height });
            let ghost set = self.out@;
            if self.window.buffer.can_refresh() {
                let mut commands = self.window.buffer.render();
                let ghost before = self.out@;
                let ghost added = commands@;
                self.out.append(&mut commands);
                proof {
                    assert(shown(before + added) =~= shown(before) + shown(added));
                }
            }
            let ghost upper = self.out@;
            if self.buffer.termbuf.can_refresh() {
                let mut commands = self.buffer.termbuf.render();
                let ghost before = self.out@;
                let ghost added = commands@;
                self.out.append(&mut commands);
                proof {
                    assert(shown(before + added) =~= shown(before) + shown(added));
                }
            }
            proof {
                let empty = Seq::<Shown<TextStyle>>::empty();
                assert(shown(upper) + empty =~= shown(upper));
                assert(shown(set) + empty =~= shown(set));
                assert(shown(set) =~= old(self).queued() + seq![
                    Shown::SetScrollRegion { top: (height + 1) as u16, bottom: self.height },
                ]);
            }
        }
    }

    /// The front end can erase window `zwindow`.
    pub open spec fn can_erase(&self, zwindow: i16) -> bool {
        if zwindow == -1 {
            self.can_split(0)
        } else if -2 <= zwindow <= 1 {
            true
        } else {
            self.isatty ==> self.lower_ready(64)
        }
    }

    /// Whether the front end can erase window `zwindow`.
    pub fn can_erase_now(&self, zwindow: i16) -> (ok: bool)
        ensures
            ok == self.can_erase(zwindow),
    {
        if zwindow == -1 {
            self.can_split_now(0)
        } else if -2 <= zwindow && zwindow <= 1 {
            true
        } else {
            !self.isatty || self.buffer.has_room_for(64)
        }
    }

    /// `after` is this front end with its lower window emptied.
    pub open spec fn lower_cleared(&self, after: TerminalUI) -> bool {
        &&& after.buffer.lines@.len() == 0
        &&& after.buffer.termbuf.rows@.len() == 0
        &&& after.buffer.termbuf.first_row == 0
        &&& after.buffer.termbuf.area == self.buffer.termbuf.area
        &&& after.buffer.more_context == self.buffer.more_context
        &&& after.buffer.more_lines == self.buffer.more_lines
    }

    /// `after` is this front end with its upper window emptied.
    pub open spec fn upper_cleared(&self, after: TerminalUI) -> bool {
        &&& after.window.buffer.rows@.len() == 0
        &&& after.window.buffer.first_row == 0
        &&& after.window.buffer.area == self.window.buffer.area
        &&& after.window.cursor == self.window.cursor
    }

    /// `after` is this front end with window `zwindow` erased.
    pub open spec fn window_erased(&self, after: TerminalUI, zwindow: i16) -> bool {
        if zwindow == -2 {
            &&& self.same_settings(after)
            &&& after.out == self.out
            &&& self.lower_cleared(after)
            &&& self.upper_cleared(after)
        } else if zwindow == -1 {
            exists|mid: TerminalUI| #[trigger]
                self.split(mid, 0) && mid.queued_more(after, mid.clearing())
        } else if zwindow == 0 {
            &&& self.same_settings(after)
            &&& after.out == self.out
            &&& after.window == self.window
            &&& self.lower_cleared(after)
        } else if zwindow == 1 {
            &&& self.same_settings(after)
            &&& after.out == self.out
            &&& after.buffer == self.buffer
            &&& self.upper_cleared(after)
        } else {
            &&& after.zwindow == self.zwindow
            &&& self.at_window(0).printed(after.at_window(0), unknown_window(zwindow))
        }
    }

    /// Erases a window: 0 the lower one, 1 the upper one, -2 both. With -1
    /// the upper window is closed and the screen cleared. For any other
    /// window a note is printed to the lower one.
    pub fn erase_window(&mut self, zwindow: i16)
        requires
            old(self).inv(),
            old(self).can_erase(zwindow),
        ensures
            final(self).inv(),
            old(self).window_erased(*final(self), zwindow),
    {
        if zwindow == -2 {
            self.buffer.clear();
            self.window.buffer.clear();
        } else if zwindow == -1 {
            self.split_window(0);
            let ghost mid = *self;
            self.clear();
            proof {
                assert(old(self).split(mid, 0));
            }
        } else if zwindow == 0 {
            self.buffer.clear();
        } else if zwindow == 1 {
            self.window.buffer.clear();
        } else {
            let mut note = String::new();
            note.append("erase_window unknown window: ");
            let digits = decimal(zwindow);
            note.append(digits.as_str());
            note.append("\n");
            proof {
                let intro = "erase_window unknown window: "@;
                reveal_strlit("erase_window unknown window: ");
                reveal_strlit("\n");
                assert(Seq::<char>::empty() + intro =~= intro);
                assert(note@ =~= unknown_window(zwindow));
                lemma_encode_concat(intro, digits@);
                lemma_encode_concat(intro + digits@, "\n"@);
                lemma_ascii_len(intro);
                lemma_ascii_len("\n"@);
                lemma_ascii_len(digits@);
            }
            self.debug(note.as_str());
        }
    }

    /// The status bar has room for the text `right` at its right end.
    pub open spec fn bar_fits(&self, right: Seq<char>) -> bool {
        &&& grapheme_starts(right).len() < self.window.buffer.area.width
        &&& self.window.buffer.first_row < usize::MAX
    }

    /// `after` is this front end with the status bar written on the first
    /// line of the upper window: `left` at its left end behind a space, and
    /// `right` at its right end before a space, both in reverse video.
    pub open spec fn bar_set(&self, after: TerminalUI, left: Seq<char>, right: Seq<char>) -> bool {
        let width = self.window.buffer.area.width;
        let column = (width - grapheme_count(right) - 1) as u16;
        &&& self.same_settings(after)
        &&& after.buffer == self.buffer
        &&& after.window.cursor == self.window.cursor
        &&& exists|text: Seq<char>, a: TermBuffer<TextStyle>, b: TermBuffer<TextStyle>|
            {
                &&& encode_utf8(text) == bar_text(left, width)
                &&& #[trigger] self.window.buffer.written(a, 0, 0, text, bar_style())
                &&& #[trigger] a.written(b, column, 0, right, bar_style())
                &&& b.emptied(after.window.buffer)
                &&& after.queued() == self.queued() + b.queued()
            }
    }

    /// Writes the status bar of a terminal. Returns `false`, with nothing
    /// done, where the bar has no room for the text at its right end.
    pub fn set_status_bar(&mut self, left: &str, right: &str) -> (done: bool)
        requires
            old(self).inv(),
        ensures
            final(self).inv(),
            done == (!old(self).isatty || old(self).bar_fits(right@)),
            if old(self).isatty && done {
                old(self).bar_set(*final(self), left@, right@)
            } else {
                *final(self) == *old(self)
            },
    {
        if !self.isatty {
            return true;
        }
        let width = self.window.buffer.area.width;
        let count = count_graphemes(right);
        if count >= width as usize || self.window.buffer.first_row as u64 >= usize::MAX as u64 {
            return false;
        }
        let bar = TextStyle { reverse: true, bold: false, italic: false, tint: Tint::Plain };
        let text = status_text(left, width);
        self.window.buffer.put_at(0, 0, text.as_str(), bar);
        let ghost a = self.window.buffer;
        let right_width = count as u16 + 1;
        self.window.buffer.put_at(width - right_width, 0, right, bar);
        let ghost b = self.window.buffer;
        let mut commands = self.window.buffer.take_commands();
        let ghost before = self.out@;
        let ghost added = commands@;
        self.out.append(&mut commands);
        proof {
            assert(shown(before + added) =~= shown(before) + shown(added));
            assert(old(self).window.buffer.written(a, 0, 0, text@, bar_style()));
            assert(a.written(b, (width - grapheme_count(right@) - 1) as u16, 0, right@, bar_style()));
        }
        true
    }

    /// What scrolls the lower window back by one line: the scroll, followed
    /// by the commands that redraw the window for a terminal that cannot
    /// scroll.
    pub open spec fn scroll_back(&self) -> Seq<Shown<TextStyle>> {
        let lower = self.buffer.termbuf;
        if lower.refreshable() {
            seq![
                Shown::ScrollDown {
                    fallback: Some(
                        redraw(lower.rows@, lower.first_row as int, lower.area).len() as usize,
                    ),
                },
            ] + redraw(lower.rows@, lower.first_row as int, lower.area)
        } else {
            seq![Shown::ScrollDown { fallback: None }]
        }
    }

    /// `after` is this front end with the input `input` shown: on a
    /// terminal the line that the user's return key scrolled in is scrolled
    /// back, and the input is printed to the lower window with two line
    /// feeds behind it.
    pub open spec fn echoed(&self, after: TerminalUI, input: Seq<char>) -> bool {
        if !self.isatty {
            after == *self
        } else {
            exists|mid: TerminalUI| #[trigger]
                self.queued_more(mid, self.scroll_back()) && mid.lower_printed(
                    after,
                    input + "\n\n"@,
                    plain_style(),
                )
        }
    }

    /// Shows on a terminal what the user typed, so that the lower window
    /// holds what the screen shows.
    pub fn echo_input(&mut self, input: &str)
        requires
            old(self).inv(),
            old(self).isatty ==> old(self).lower_ready(input.spec_bytes().len() + 2),
        ensures
            final(self).inv(),
            old(self).echoed(*final(self), input@),
    {
        if !self.isatty {
            return ;
        }
        if self.buffer.termbuf.can_refresh() {
            let mut commands = self.buffer.termbuf.render();
            emit(&mut self.out, Command::ScrollDown { fallback: Some(commands.len()) });
            let ghost before = self.out@;
            let ghost added = commands@;
            self.out.append(&mut commands);
            proof {
                assert(shown(before + added) =~= shown(before) + shown(added));
                assert(shown(added).len() == added.len());
                assert(self.queued() =~= old(self).queued() + old(self).scroll_back());
            }
        } else {
            emit(&mut self.out, Command::ScrollDown { fallback: None });
            proof {
                assert(self.queued() =~= old(self).queued() + old(self).scroll_back());
            }
        }
        let ghost mid = *self;
        let mut echo = String::new();
        echo.append(input);
        echo.append("\n\n");
        proof {
            reveal_strlit("\n\n");
            assert(Seq::<char>::empty() + input@ =~= input@);
            lemma_encode_concat(input@, "\n\n"@);
            lemma_ascii_len("\n\n"@);
            assert(old(self).queued_more(mid, old(self).scroll_back()));
        }
        self.print_below(
            echo.as_str(),
            TextStyle { reverse: false, bold: false, italic: false, tint: Tint::Plain },
        );
    }

    /// Begins to take input: a prompt need not come up before the user
    /// has answered.
    pub fn begin_input(&mut self)
        ensures
            final(self).buffer.more_lines == 0,
            final(self).buffer.more_context == old(self).buffer.more_context,
            final(self).buffer.termbuf == old(self).buffer.termbuf,
            final(self).buffer.lines == old(self).buffer.lines,
            final(self).window == old(self).window,
            final(self).out == old(self).out,
            old(self).same_settings(*final(self)),
    {
        self.buffer.reset_more_counter();
    }
}

/// The number of grapheme clusters in `text`.
pub open spec fn grapheme_count(text: Seq<char>) -> int {
    grapheme_starts(text).len() as int
}

/// The note that is printed when a window is to be erased that there is
/// not.
pub open spec fn unknown_window(zwindow: i16) -> Seq<char> {
    "erase_window unknown window: "@ + decimal_of(zwindow as int) + "\n"@
}

/// The decimal digits of a natural number.
pub open spec fn digits_of(n: nat) -> Seq<char>
    decreases n,
{
    if n < 10 {
        seq![digit_of(n)]
    } else {
        digits_of(n / 10) + seq![digit_of(n % 10)]
    }
}

/// The digit for a number below ten.
pub open spec fn digit_of(n: nat) -> char {
    ((n + 48) as u8) as char
}

/// A number written in decimal, with a minus sign where it is negative.
pub open spec fn decimal_of(n: int) -> Seq<char> {
    if n < 0 {
        seq!['-'] + digits_of((-n) as nat)
    } else {
        digits_of(n as nat)
    }
}

/// The digit for a number below ten, as text.
pub fn digit(n: u16) -> (d: &'static str)
    requires
        n < 10,
    ensures
        d@ == seq![digit_of(n as nat)],
{
    proof {
        reveal_strlit("0");
        reveal_strlit("1");
        reveal_strlit("2");
        reveal_strlit("3");
        reveal_strlit("4");
        reveal_strlit("5");
        reveal_strlit("6");
        reveal_strlit("7");
        reveal_strlit("8");
        reveal_strlit("9");
    }
    let d = if n == 0 {
        "0"
    } else if n == 1 {
        "1"
    } else if n == 2 {
        "2"
    } else if n == 3 {
        "3"
    } else if n == 4 {
        "4"
    } else if n == 5 {
        "5"
    } else if n == 6 {
        "6"
    } else if n == 7 {
        "7"
    } else if n == 8 {
        "8"
    } else {
        "9"
    };
    proof {
        assert(d@ =~= seq![digit_of(n as nat)]);
    }
    d
}

/// `n` written in decimal.
pub fn digits(n: u16) -> (text: String)
    ensures
        text@ == digits_of(n as nat),
        1 <= text@.len() <= 5,
        n < 10 ==> text@.len() <= 1,
        n < 100 ==> text@.len() <= 2,
        n < 1000 ==> text@.len() <= 3,
        n < 10000 ==> text@.len() <= 4,
        is_ascii_chars(text@),
    decreases n,
{
    if n < 10 {
        let mut text = String::new();
        text.append(digit(n));
        proof {
            assert(text@ =~= digits_of(n as nat));
        }
        text
    } else {
        let mut text = digits(n / 10);
        text.append(digit(n % 10));
        text
    }
}

/// `n` written in decimal, with a minus sign where it is negative.
pub fn decimal(n: i16) -> (text: String)
    ensures
        text@ == decimal_of(n as int),
        text@.len() <= 6,
        is_ascii_chars(text@),
{
    let mut text = String::new();
    if n < 0 {
        text.append("-");
        proof {
            reveal_strlit("-");
            assert(text@ =~= seq!['-']);
        }
        let rest = digits((-(n as i32)) as u16);
        text.append(rest.as_str());
    } else {
        let rest = digits(n as u16);
        text.append(rest.as_str());
        proof {
            assert(text@ =~= rest@);
        }
    }
    text
}

/// ASCII text takes one byte for each character.
pub proof fn lemma_ascii_len(text: Seq<char>)
    requires
        is_ascii_chars(text),
    ensures
        encode_utf8(text).len() == text.len(),
{
    is_ascii_chars_encode_utf8(text);
}

} // verus!
