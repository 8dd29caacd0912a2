//! The web front end: what is printed is kept as tokens and handed to the
//! page as HTML when the interpreter flushes.

use crate::text::{
    byte_len, chars_of, is_boundary, lemma_boundary_subrange, lemma_subrange_valid, slice,
};
use crate::wrap::is_line_feed;
use vstd::prelude::*;
use vstd::string::*;
use vstd::utf8::*;

verus! {

/// A piece of output.
#[derive(Debug, Clone, PartialEq)]
pub enum Token {
    Newline,
    Text(String),
    Object(String),
    Debug(String),
    Erase,
}

/// A piece of output with its text as characters.
pub enum Part {
    Newline,
    Text(Seq<char>),
    Object(Seq<char>),
    Debug(Seq<char>),
    Erase,
}

impl View for Token {
    type V = Part;

    open spec fn view(&self) -> Part {
        match *self {
            Token::Newline => Part::Newline,
            Token::Text(text) => Part::Text(text@),
            Token::Object(text) => Part::Object(text@),
            Token::Debug(text) => Part::Debug(text@),
            Token::Erase => Part::Erase,
        }
    }
}

/// The tokens of a list, each with its text as characters.
pub open spec fn parts_of(tokens: Seq<Token>) -> Seq<Part> {
    tokens.map_values(|t: Token| t@)
}

/// The index of the first line feed in `bytes`, or their number where
/// there is none.
pub open spec fn line_end(bytes: Seq<u8>) -> int
    decreases bytes.len(),
{
    if bytes.len() == 0 || bytes[0] == 0x0Au8 {
        0
    } else {
        1 + line_end(bytes.drop_first())
    }
}

/// A line without the carriage return that it ends with.
pub open spec fn without_return(line: Seq<u8>) -> Seq<u8> {
    if line.len() > 0 && line.last() == 0x0Du8 {
        line.drop_last()
    } else {
        line
    }
}

/// The lines of a text: what stands between one line ending and the next,
/// a line ending being a line feed or a carriage return and a line feed.
/// What follows the last line ending is a line if it is not empty.
pub open spec fn lines_of(bytes: Seq<u8>) -> Seq<Seq<u8>>
    decreases bytes.len(),
{
    if bytes.len() == 0 {
        seq![]
    } else {
        let n = line_end(bytes);
        if n < 0 || n >= bytes.len() {
            seq![bytes]
        } else {
            seq![without_return(bytes.subrange(0, n))] + lines_of(
                bytes.subrange(n + 1, bytes.len() as int),
            )
        }
    }
}

/// The tokens for the lines `lines` from line `i` on: a text for each line
/// that is not empty, and a new line between two lines.
pub open spec fn line_tokens(lines: Seq<Seq<u8>>, i: int) -> Seq<Part>
    decreases lines.len() - i,
{
    if i < 0 || i >= lines.len() {
        seq![]
    } else {
        (if lines[i].len() > 0 {
            seq![Part::Text(decode_utf8(lines[i]))]
        } else {
            seq![]
        }) + (if i + 1 < lines.len() {
            seq![Part::Newline]
        } else {
            seq![]
        }) + line_tokens(lines, i + 1)
    }
}

/// Whether a line feed is among the bytes.
pub open spec fn has_line_feed(bytes: Seq<u8>) -> bool {
    line_end(bytes) < bytes.len()
}

/// The tokens that printing `text` adds: nothing for no text, a new line
/// for a line feed, the text itself where it holds no line feed, and else
/// its lines with a new line between them and one more where the text ends
/// with a line feed.
pub open spec fn printed_tokens(text: Seq<char>) -> Seq<Part> {
    let bytes = encode_utf8(text);
    if bytes.len() == 0 {
        seq![]
    } else if bytes == seq![0x0Au8] {
        seq![Part::Newline]
    } else if !has_line_feed(bytes) {
        seq![Part::Text(text)]
    } else {
        line_tokens(lines_of(bytes), 0) + if bytes.last() == 0x0Au8 {
            seq![Part::Newline]
        } else {
            seq![]
        }
    }
}

/// Behind an ASCII byte of valid text a character starts or the text ends.
pub proof fn lemma_boundary_after_ascii(bytes: Seq<u8>, i: int)
    requires
        valid_utf8(bytes),
        0 <= i < bytes.len(),
        bytes[i] < 0x80,
    ensures
        is_boundary(bytes, i),
        is_boundary(bytes, i + 1),
{
    is_char_boundary_iff_not_is_continuation_byte(bytes, i);
    is_char_boundary_start_end_of_seq(bytes);
    let len = bytes.len() as int;
    let tail = bytes.subrange(i, len);
    lemma_subrange_valid(bytes, i, len);
    assert(tail[0] == bytes[i]);
    assert(is_leading_byte_width_1(tail[0]));
    assert(length_of_first_scalar(tail) == 1);
    assert(valid_utf8(pop_first_scalar(tail)));
    reveal_with_fuel(is_char_boundary, 2);
    assert(is_char_boundary(tail, 1));
    lemma_boundary_subrange(bytes, i, len, i + 1);
}

/// The index of the first line feed in `text` from `from` on, or the length
/// of `text`.
pub fn find_line_end(text: &str, from: usize) -> (at: usize)
    requires
        from <= text.spec_bytes().len(),
    ensures
        at == from + line_end(text.spec_bytes().subrange(from as int, text.spec_bytes().len() as int)),
        from <= at <= text.spec_bytes().len(),
        at < text.spec_bytes().len() ==> text.spec_bytes()[at as int] == 0x0Au8,
{
    let bytes = text.as_bytes();
    let len = bytes.len();
    let ghost all = text.spec_bytes();
    let mut at = from;
    while at < len && bytes[at] != 0x0A
        invariant
            bytes@ == all,
            len == all.len(),
            from <= at <= len,
            line_end(all.subrange(from as int, len as int)) == (at - from) + line_end(
                all.subrange(at as int, len as int),
            ),
        decreases len - at,
    {
        proof {
            assert(all.subrange(at as int, len as int).drop_first() =~= all.subrange(
                at + 1,
                len as int,
            ));
        }
        at = at + 1;
    }
    at
}

/// The lines of `text`.
pub fn lines<'a>(text: &'a str) -> (found: Vec<&'a str>)
    ensures
        found@.len() == lines_of(text.spec_bytes()).len(),
        forall|i: int|
            0 <= i < found@.len() ==> (#[trigger] found@[i]).spec_bytes() == lines_of(
                text.spec_bytes(),
            )[i],
{
    let mut found: Vec<&'a str> = Vec::new();
    let len = byte_len(text);
    let bytes = text.as_bytes();
    let ghost all = text.spec_bytes();
    let ghost mut done: Seq<Seq<u8>> = seq![];
    let mut from: usize = 0;
    proof {
        encode_utf8_valid_utf8(text@);
        is_char_boundary_start_end_of_seq(all);
        assert(all.subrange(0, len as int) =~= all);
        assert(done + lines_of(all) =~= lines_of(all));
    }
    while from < len
        invariant
            bytes@ == all,
            all == text.spec_bytes(),
            valid_utf8(all),
            len == all.len(),
            from <= len,
            is_boundary(all, from as int),
            is_boundary(all, len as int),
            done + lines_of(all.subrange(from as int, len as int)) == lines_of(all),
            found@.len() == done.len(),
            forall|i: int| 0 <= i < found@.len() ==> (#[trigger] found@[i]).spec_bytes() == done[i],
        decreases len - from,
    {
        let at = find_line_end(text, from);
        let ghost rest = all.subrange(from as int, len as int);
        if at >= len {
            let line = slice(text, from, len);
            found.push(line);
            proof {
                assert(lines_of(rest) =~= seq![rest]);
                assert(all.subrange(len as int, len as int) =~= Seq::<u8>::empty());
                assert(done.push(rest) + lines_of(all.subrange(len as int, len as int)) =~= done
                    + lines_of(rest));
                done = done.push(rest);
            }
            from = len;
        } else {
            proof {
                lemma_boundary_after_ascii(all, at as int);
                if at > from && all[at - 1] == 0x0Du8 {
                    lemma_boundary_after_ascii(all, at - 1);
                }
            }
            let stop = if at > from && bytes[at - 1] == 0x0D {
                at - 1
            } else {
                at
            };
            let line = slice(text, from, stop);
            found.push(line);
            proof {
                let n = line_end(rest);
                let cut = without_return(rest.subrange(0, n));
                assert(rest.subrange(0, n) =~= all.subrange(from as int, at as int));
                assert(line.spec_bytes() =~= cut);
                assert(rest.subrange(n + 1, rest.len() as int) =~= all.subrange(
                    at + 1,
                    len as int,
                ));
                assert(done.push(cut) + lines_of(all.subrange(at + 1, len as int)) =~= done
                    + lines_of(rest));
                done = done.push(cut);
            }
            from = at + 1;
        }
    }
    proof {
        assert(all.subrange(len as int, len as int) =~= Seq::<u8>::empty());
        assert(done =~= lines_of(all));
    }
    found
}


/// The HTML for token `i` of `tokens`.
///
/// A new line is a break. Texts that follow one another share one span. An
/// object that stands alone on its line, at the start or behind a new line
/// and before a new line, is a room; any other is an object.
pub open spec fn token_html(tokens: Seq<Part>, i: int) -> Seq<char> {
    let after_text = i > 0 && tokens[i - 1] is Text;
    let before_text = i + 1 < tokens.len() && tokens[i + 1] is Text;
    let starts_line = i == 0 || tokens[i - 1] is Newline;
    let ends_line = i + 1 < tokens.len() && tokens[i + 1] is Newline;
    match tokens[i] {
        Part::Newline => "<br>"@,
        Part::Text(text) => (if after_text {
            seq![]
        } else {
            "<span>"@
        }) + text + (if before_text {
            seq![]
        } else {
            "</span>"@
        }),
        Part::Object(name) => "<span class=\""@ + (if starts_line && ends_line {
            "room"@
        } else {
            "object"@
        }) + "\">"@ + name + "</span>"@,
        Part::Debug(text) => "<span class=\"debug\">"@ + text + "</span>"@,
        Part::Erase => "<div height=\"100%\"></div>"@,
    }
}

/// The HTML for the tokens from token `i` on.
pub open spec fn html_from(tokens: Seq<Part>, i: int) -> Seq<char>
    decreases tokens.len() - i,
{
    if i < 0 || i >= tokens.len() {
        seq![]
    } else {
        token_html(tokens, i) + html_from(tokens, i + 1)
    }
}

/// Adds `token` to `list`.
pub fn push_token(list: &mut Vec<Token>, token: Token)
    ensures
        final(list)@ == old(list)@.push(token),
        parts_of(final(list)@) == parts_of(old(list)@).push(token@),
{
    list.push(token);
    proof {
        assert(parts_of(list@) =~= parts_of(old(list)@).push(token@));
    }
}

/// The web front end.
#[derive(Debug)]
pub struct WebUI {
    /// What has been printed since the last flush.
    pub buffer: Vec<Token>,
}

impl WebUI {
    /// What has been printed since the last flush.
    pub open spec fn parts(&self) -> Seq<Part> {
        parts_of(self.buffer@)
    }

    /// A front end with nothing printed.
    pub fn new() -> (ui: WebUI)
        ensures
            ui.buffer@.len() == 0,
    {
        WebUI { buffer: Vec::new() }
    }

    /// Prints `text`.
    pub fn print(&mut self, text: &str)
        ensures
            final(self).parts() == old(self).parts() + printed_tokens(text@),
    {
        let len = byte_len(text);
        let ghost before = self.parts();
        let ghost all = text.spec_bytes();
        proof {
            encode_utf8_decode_utf8(text@);
        }
        if len == 0 {
            proof {
                assert(before + printed_tokens(text@) =~= before);
            }
            return ;
        }
        if is_line_feed(text) {
            push_token(&mut self.buffer, Token::Newline);
            proof {
                assert(self.parts() =~= before + seq![Part::Newline]);
            }
            return ;
        }
        let at = find_line_end(text, 0);
        proof {
            assert(all.subrange(0, len as int) =~= all);
        }
        if at >= len {
            push_token(&mut self.buffer, Token::Text(text.to_owned()));
            proof {
                assert(self.parts() =~= before + seq![Part::Text(text@)]);
            }
            return ;
        }
        let found = lines(text);
        let n = found.len();
        let ghost ls = lines_of(all);
        let mut i: usize = 0;
        proof {
            assert(self.parts() + line_tokens(ls, 0) == before + line_tokens(ls, 0));
        }
        while i < n
            invariant
                i <= n,
                n == found@.len(),
                n == ls.len(),
                forall|k: int| 0 <= k < n ==> (#[trigger] found@[k]).spec_bytes() == ls[k],
                self.parts() + line_tokens(ls, i as int) == before + line_tokens(ls, 0),
            decreases n - i,
        {
            let line = found[i];
            let ghost so_far = self.parts();
            let ghost rest = line_tokens(ls, i + 1);
            let ghost first: Seq<Part> = if ls[i as int].len() > 0 {
                seq![Part::Text(decode_utf8(ls[i as int]))]
            } else {
                seq![]
            };
            let ghost second: Seq<Part> = if i + 1 < n {
                seq![Part::Newline]
            } else {
                seq![]
            };
            if byte_len(line) > 0 {
                proof {
                    encode_utf8_decode_utf8(line@);
                }
                push_token(&mut self.buffer, Token::Text(line.to_owned()));
            }
            if i + 1 < n {
                push_token(&mut self.buffer, Token::Newline);
            }
            proof {
                assert(self.parts() =~= so_far + first + second);
                assert(so_far + (first + second + rest) =~= (so_far + first + second) + rest);
            }
            i = i + 1;
        }
        let ghost lined = self.parts();
        let bytes = text.as_bytes();
        if bytes[len - 1] == 0x0A {
            push_token(&mut self.buffer, Token::Newline);
        }
        proof {
            assert(lined + line_tokens(ls, n as int) =~= lined);
            assert(self.parts() =~= before + printed_tokens(text@));
        }
    }

    /// Prints a note for the developer.
    pub fn debug(&mut self, text: &str)
        ensures
            final(self).parts() == old(self).parts().push(Part::Debug(text@)),
    {
        push_token(&mut self.buffer, Token::Debug(text.to_owned()));
    }

    /// Prints the name of an object.
    pub fn print_object(&mut self, obj: &str)
        ensures
            final(self).parts() == old(self).parts().push(Part::Object(obj@)),
    {
        push_token(&mut self.buffer, Token::Object(obj.to_owned()));
    }

    /// Hands out what has been printed as HTML and forgets it; `None` where
    /// nothing has been printed.
    pub fn flush(&mut self) -> (page: Option<String>)
        ensures
            final(self).buffer@.len() == 0,
            match page {
                Some(html) => old(self).buffer@.len() > 0 && html@ == html_from(
                    old(self).parts(),
                    0,
                ),
                None => old(self).buffer@.len() == 0,
            },
    {
        let n = self.buffer.len();
        if n == 0 {
            return None;
        }
        let mut html = String::new();
        let ghost tokens = self.parts();
        let mut index: usize = 0;
        proof {
            assert(html@ + html_from(tokens, 0) =~= html_from(tokens, 0));
        }
        while index < n
            invariant
                index <= n,
                n == self.buffer@.len(),
                tokens == self.parts(),
                *self == *old(self),
                html@ + html_from(tokens, index as int) == html_from(tokens, 0),
            decreases n - index,
        {
            let ghost before = html@;
            let ghost rest = html_from(tokens, index + 1);
            let after_text = index > 0 && is_text(&self.buffer[index - 1]);
            let before_text = index + 1 < n && is_text(&self.buffer[index + 1]);
            let starts_line = index == 0 || is_newline(&self.buffer[index - 1]);
            let ends_line = index + 1 < n && is_newline(&self.buffer[index + 1]);
            proof {
                assert(tokens[index as int] == self.buffer@[index as int]@);
                if index > 0 {
                    assert(tokens[index - 1] == self.buffer@[index - 1]@);
                }
                if index + 1 < n {
                    assert(tokens[index + 1] == self.buffer@[index + 1]@);
                }
            }
            match &self.buffer[index] {
                Token::Newline => {
                    html.append("<br>");
                },
                Token::Text(text) => {
                    if !after_text {
                        html.append("<span>");
                    }
                    html.append(text.as_str());
                    if !before_text {
                        html.append("</span>");
                    }
                },
                Token::Object(obj) => {
                    html.append("<span class=\"");
                    if starts_line && ends_line {
                        html.append("room");
                    } else {
                        html.append("object");
                    }
                    html.append("\">");
                    html.append(obj.as_str());
                    html.append("</span>");
                },
                Token::Debug(text) => {
                    html.append("<span class=\"debug\">");
                    html.append(text.as_str());
                    html.append("</span>");
                },
                Token::Erase => {
                    html.append("<div height=\"100%\"></div>");
                },
            }
            proof {
                let here = token_html(tokens, index as int);
                assert(html@ =~= before + here);
                assert(before + (here + rest) =~= (before + here) + rest);
            }
            index = index + 1;
        }
        proof {
            assert(html@ + html_from(tokens, n as int) =~= html@);
        }
        self.buffer.clear();
        Some(html)
    }

    /// Erases the window `window`: for the lower window, 0, and for the
    /// whole screen, -1, an erasure is printed and all is flushed.
    pub fn erase_window(&mut self, window: i16) -> (page: Option<String>)
        ensures
            if window == 0 || window == -1 {
                &&& final(self).buffer@.len() == 0
                &&& page matches Some(html)
                &&& html@ == html_from(old(self).parts().push(Part::Erase), 0)
            } else {
                page is None && final(self).buffer == old(self).buffer
            },
    {
        if window == 0 || window == -1 {
            push_token(&mut self.buffer, Token::Erase);
            self.flush()
        } else {
            None
        }
    }
}

/// Whether `token` is a text.
pub fn is_text(token: &Token) -> (b: bool)
    ensures
        b == (token@ is Text),
{
    match token {
        Token::Text(_) => true,
        _ => false,
    }
}

/// Whether `token` is a new line.
pub fn is_newline(token: &Token) -> (b: bool)
    ensures
        b == (token@ is Newline),
{
    match token {
        Token::Newline => true,
        _ => false,
    }
}

/// What serialising two texts gives: their JSON array, or `None` on an error.
pub uninterp spec fn json_pair(left: Seq<char>, right: Seq<char>) -> Option<Seq<char>>;

/// Calls `serde_json::to_string` on the pair of the two texts. What it gives,
/// a JSON array of the two strings or an error, depends on the texts alone
/// and is named here `json_pair`; an error becomes `None`.
#[verifier::external_body]
pub(crate) fn to_json(left: &str, right: &str) -> (json: Option<String>)
    ensures
        chars_of(json) == json_pair(left@, right@),
{
    serde_json::to_string(&(left, right)).ok()
}

/// The message that sets the status bar of the page: the two texts as a
/// JSON array of two strings, or `None` where they cannot be serialised.
pub fn status_message(left: &str, right: &str) -> (message: Option<String>)
    ensures
        chars_of(message) == json_pair(left@, right@),
{
    to_json(left, right)
}

} // verus!
