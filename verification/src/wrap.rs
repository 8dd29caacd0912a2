//! Word wrapping.
//!
//! [`WordWrapIter`] cuts a text into segments that fit a width, counted in
//! grapheme clusters. It breaks between words, cuts a word only where the
//! word alone is wider than a line, and ends a segment at each line feed.

use crate::segment::{
    all_whitespace, any_alphanumeric, any_punctuation, clusters, count_graphemes,
    grapheme_offsets, has_alphanumeric, has_punctuation, is_blank, is_segmentation,
    lemma_empty_text, tokens, word_offsets,
};
use crate::text::{byte_len, is_boundary, lemma_boundary_subrange, lemma_subrange_valid, slice};
use vstd::prelude::*;
use vstd::slice::*;
use vstd::string::*;
use vstd::utf8::*;

verus! {

/// The encoding of a single line feed.
pub open spec fn line_feed() -> Seq<u8> {
    seq![0x0Au8]
}

/// Where piece `t` of the text `rem`, cut into pieces at `toks`, ends.
pub open spec fn token_end(rem: Seq<u8>, toks: Seq<usize>, t: int) -> int {
    if t + 1 < toks.len() {
        toks[t + 1] as int
    } else {
        rem.len() as int
    }
}

/// Piece `t` of the text.
pub open spec fn token(rem: Seq<u8>, toks: Seq<usize>, t: int) -> Seq<u8> {
    rem.subrange(toks[t] as int, token_end(rem, toks, t))
}

/// Whether piece `t` takes the piece behind it along into one word: it holds
/// a letter or a number, and the piece behind it holds ASCII punctuation.
pub open spec fn absorbs(rem: Seq<u8>, toks: Seq<usize>, t: int) -> bool {
    &&& t + 1 < toks.len()
    &&& any_alphanumeric(decode_utf8(token(rem, toks, t)))
    &&& any_punctuation(decode_utf8(token(rem, toks, t + 1)))
}

/// The number of pieces in the word that starts with piece `t`.
pub open spec fn word_tokens(rem: Seq<u8>, toks: Seq<usize>, t: int) -> int {
    if absorbs(rem, toks, t) {
        2
    } else {
        1
    }
}

/// Where the word that starts with piece `t` ends.
pub open spec fn word_end(rem: Seq<u8>, toks: Seq<usize>, t: int) -> int {
    token_end(rem, toks, t + word_tokens(rem, toks, t) - 1)
}

/// How a walk over the words of a text ends.
pub enum Scan {
    /// Every word fits; `width` clusters are on the line then.
    End { width: int },
    /// The word at offset `at` is a line feed.
    Newline { at: int },
    /// The word from `at` to `end` is the first on its line and wider than
    /// the line.
    Split { at: int, end: int },
    /// The word at offset `at` does not fit behind what is on the line.
    Break { at: int },
}

/// Walks the words of `rem` from piece `t` on, with `cur` clusters on the
/// line so far, up to the first word that ends the line.
pub open spec fn scan(rem: Seq<u8>, toks: Seq<usize>, t: int, width: int, cur: int) -> Scan
    decreases toks.len() - t,
{
    if t < 0 || t >= toks.len() {
        Scan::End { width: cur }
    } else {
        let at = toks[t] as int;
        let end = word_end(rem, toks, t);
        let word = rem.subrange(at, end);
        let count = clusters(word).len();
        if word == line_feed() {
            Scan::Newline { at: at }
        } else if cur + count > width {
            if cur == 0 {
                Scan::Split { at: at, end: end }
            } else {
                Scan::Break { at: at }
            }
        } else {
            scan(rem, toks, t + word_tokens(rem, toks, t), width, cur + count)
        }
    }
}

/// Where a word that is wider than the line is cut: after `width` of its
/// clusters, and after one cluster where the width is zero.
pub open spec fn hard_cut(word: Seq<u8>, width: int) -> int {
    let g = clusters(word);
    let n = if width == 0 {
        1
    } else {
        width
    };
    if n < g.len() {
        g[n] as int
    } else {
        word.len() as int
    }
}

/// The offset of the first piece of `rest`, from piece `t` on, that is not
/// white space throughout or is a line feed; the length of `rest` where
/// there is none.
pub open spec fn skip_from(rest: Seq<u8>, toks: Seq<usize>, t: int) -> int
    decreases toks.len() - t,
{
    if t < 0 || t >= toks.len() {
        rest.len() as int
    } else {
        let piece = token(rest, toks, t);
        if !all_whitespace(decode_utf8(piece)) || piece == line_feed() {
            toks[t] as int
        } else {
            skip_from(rest, toks, t + 1)
        }
    }
}

/// The length of the white space that `rest` starts with, in whole pieces
/// and up to the first line feed.
pub open spec fn blank_prefix(rest: Seq<u8>) -> int {
    skip_from(rest, tokens(rest), 0)
}

/// What may lie between one segment and the next: nothing, a line feed, or
/// white space.
pub open spec fn is_gap(gap: Seq<u8>) -> bool {
    gap.len() == 0 || gap == line_feed() || all_whitespace(decode_utf8(gap))
}

/// The clusters on the line when a walk over the words from piece `t` on
/// stops, with `cur` on it at the start and each word counted by its own
/// clusters.
pub open spec fn line_fill(rem: Seq<u8>, toks: Seq<usize>, t: int, width: int, cur: int) -> int
    decreases toks.len() - t,
{
    if t < 0 || t >= toks.len() {
        cur
    } else {
        let word = rem.subrange(toks[t] as int, word_end(rem, toks, t));
        let count = clusters(word).len();
        if word == line_feed() || cur + count > width {
            cur
        } else {
            line_fill(rem, toks, t + word_tokens(rem, toks, t), width, cur + count)
        }
    }
}

/// A segment that ends between words is no wider than the line: the words
/// that a walk takes onto a line that was not too full fill it to no more
/// than its width, and a walk that reaches the end of the text reports
/// that fill.
pub proof fn lemma_line_fits(rem: Seq<u8>, toks: Seq<usize>, t: int, width: int, cur: int)
    ensures
        cur <= width ==> line_fill(rem, toks, t, width, cur) <= width,
        cur <= line_fill(rem, toks, t, width, cur),
        scan(rem, toks, t, width, cur) matches Scan::End { width: w } ==> w == line_fill(
            rem,
            toks,
            t,
            width,
            cur,
        ),
    decreases toks.len() - t,
{
    if 0 <= t < toks.len() {
        let word = rem.subrange(toks[t] as int, word_end(rem, toks, t));
        let count = clusters(word).len();
        if !(word == line_feed() || cur + count > width) {
            lemma_line_fits(rem, toks, t + word_tokens(rem, toks, t), width, cur + count);
        }
    }
}

/// One segment and the state of the walk after it.
pub struct Piece {
    /// Where the segment starts in the text.
    pub start: int,
    /// Where the segment ends.
    pub end: int,
    /// Where the next segment is looked for.
    pub pos: int,
    /// The clusters on the line when the next segment is looked for.
    pub cur_width: int,
}

/// The segment that is cut off the text `s` at `pos`, with `cur` clusters on
/// the line already, and where the walk goes on.
///
/// A text that is one line feed gives an empty segment. A line feed ends
/// the segment before it and is passed over, unless it ends the text: then
/// it is left to give that empty segment. A word that does not fit ends the
/// segment before it, and the white space from there on is passed over. A
/// word that is first on its line and wider than the line is cut. What is
/// left at the end of the text is the last segment.
pub open spec fn step(s: Seq<u8>, pos: int, width: int, cur: int) -> Piece {
    let len = s.len() as int;
    let rem = s.subrange(pos, len);
    if rem == line_feed() {
        Piece { start: pos, end: pos, pos: pos + 1, cur_width: cur }
    } else {
        match scan(rem, tokens(rem), 0, width, cur) {
            Scan::End { width: w } => Piece { start: pos, end: len, pos: len, cur_width: w },
            Scan::Newline { at } => Piece {
                start: pos,
                end: pos + at,
                pos: if pos + at + 1 < len {
                    pos + at + 1
                } else {
                    len - 1
                },
                cur_width: 0,
            },
            Scan::Split { at, end } => {
                let cut = hard_cut(rem.subrange(at, end), width);
                Piece { start: pos + at, end: pos + at + cut, pos: pos + at + cut, cur_width: 0 }
            },
            Scan::Break { at } => Piece {
                start: pos,
                end: pos + at,
                pos: pos + at + blank_prefix(s.subrange(pos + at, len)),
                cur_width: 0,
            },
        }
    }
}

/// The segments that the text `s` gives from offset `pos` on, no more than
/// `fuel` of them.
pub open spec fn pieces(s: Seq<u8>, pos: int, width: int, cur: int, fuel: nat) -> Seq<Piece>
    decreases fuel,
{
    if fuel == 0 || pos >= s.len() {
        seq![]
    } else {
        let piece = step(s, pos, width, cur);
        seq![piece] + pieces(s, piece.pos, width, piece.cur_width, (fuel - 1) as nat)
    }
}

/// The segments of the text `s` for lines of `width` clusters, the first of
/// which has `offset` clusters on it already. A text of `n` bytes gives no
/// more than `2 * n + 1` segments.
pub open spec fn segments(s: Seq<u8>, width: int, offset: int) -> Seq<Piece> {
    pieces(s, 0, width, offset, 2 * s.len() + 2)
}

/// Whether `s` is a single line feed.
pub fn is_line_feed(s: &str) -> (b: bool)
    ensures
        b == (s.spec_bytes() == line_feed()),
{
    let bytes = s.as_bytes();
    let b = bytes.len() == 1 && bytes[0] == 0x0A;
    proof {
        if b {
            assert(s.spec_bytes() =~= line_feed());
        }
    }
    b
}

/// A walk over the segments of a text.
pub struct WordWrapIter<'a> {
    pub s: &'a str,
    pub pos: usize,
    pub width: usize,
    pub cur_width: usize,
}

/// The segments of `s` for lines of `width` clusters, the first of which has
/// `offset` clusters on it already.
pub fn wrap_to_width_offset<'a>(s: &'a str, width: usize, offset: usize) -> (it: WordWrapIter<'a>)
    ensures
        it.s == s,
        it.pos == 0,
        it.width == width,
        it.cur_width == offset,
        it.inv(),
{
    proof {
        encode_utf8_valid_utf8(s@);
        is_char_boundary_start_end_of_seq(s.spec_bytes());
    }
    WordWrapIter { s: s, pos: 0, width: width, cur_width: offset }
}

/// The segments of `s` for lines of `width` clusters.
pub fn wrap_to_width<'a>(s: &'a str, width: usize) -> (it: WordWrapIter<'a>)
    ensures
        it.s == s,
        it.pos == 0,
        it.width == width,
        it.cur_width == 0,
        it.inv(),
{
    wrap_to_width_offset(s, width, 0)
}

impl<'a> WordWrapIter<'a> {
    /// The walk stands on a character boundary of its text.
    pub open spec fn inv(&self) -> bool {
        is_boundary(self.s.spec_bytes(), self.pos as int)
    }

    /// What bounds the number of segments still to come: it goes down with
    /// each segment.
    pub open spec fn remaining(&self) -> int {
        2 * (self.s.spec_bytes().len() - self.pos) + if self.cur_width > 0 {
            1int
        } else {
            0int
        }
    }

    /// The next segment with the offset at which it starts, or `None` at the
    /// end of the text.
    ///
    /// The segment is `step` of the walk's state. It starts where the walk
    /// stood, so that the segments and the white space passed over between
    /// them make up the text.
    pub fn next(&mut self) -> (item: Option<(usize, &'a str)>)
        requires
            old(self).inv(),
        ensures
            final(self).inv(),
            final(self).s == old(self).s,
            final(self).width == old(self).width,
            match item {
                Some((start, text)) => {
                    let bytes = old(self).s.spec_bytes();
                    let piece = step(
                        bytes,
                        old(self).pos as int,
                        old(self).width as int,
                        old(self).cur_width as int,
                    );
                    &&& old(self).pos < bytes.len()
                    &&& start == piece.start
                    &&& text.spec_bytes() == bytes.subrange(piece.start, piece.end)
                    &&& final(self).pos == piece.pos
                    &&& final(self).cur_width == piece.cur_width
                    &&& start == old(self).pos
                    &&& start <= piece.end <= final(self).pos <= bytes.len()
                    &&& is_boundary(bytes, piece.end)
                    &&& is_gap(bytes.subrange(piece.end, piece.pos))
                    &&& final(self).remaining() < old(self).remaining()
                },
                None => {
                    &&& old(self).pos >= old(self).s.spec_bytes().len()
                    &&& final(self).pos == old(self).pos
                    &&& final(self).cur_width == old(self).cur_width
                },
            },
    {
        let s = self.s;
        let len = byte_len(s);
        if self.pos >= len {
            return None;
        }
        let start = self.pos;
        let ghost bytes = s.spec_bytes();
        let ghost cur0 = self.cur_width as int;
        let ghost width = self.width as int;
        proof {
            encode_utf8_valid_utf8(s@);
            is_char_boundary_start_end_of_seq(bytes);
            lemma_subrange_valid(bytes, start as int, len as int);
        }
        let rem = slice(s, start, len);
        let ghost rb = rem.spec_bytes();
        proof {
            is_char_boundary_start_end_of_seq(rb);
        }
        if is_line_feed(rem) {
            self.pos = start + 1;
            let empty = slice(rem, 0, 0);
            proof {
                assert(empty.spec_bytes() =~= bytes.subrange(start as int, start as int));
                assert(bytes.subrange(start as int, start + 1) =~= rb);
            }
            return Some((start, empty));
        }
        let found = scan_words(rem, self.width, self.cur_width);
        match found {
            Found::End { width: w } => {
                self.pos = len;
                self.cur_width = w;
                Some((start, rem))
            },
            Found::Newline { at } => {
                let next_pos = start + at;
                self.pos = if next_pos + 1 < len {
                    next_pos + 1
                } else {
                    len - 1
                };
                self.cur_width = 0;
                let text = slice(rem, 0, at);
                proof {
                    assert(text.spec_bytes() =~= bytes.subrange(start as int, start + at));
                    lemma_boundary_subrange(bytes, start as int, len as int, next_pos as int);
                    if next_pos + 1 < len {
                        lemma_boundary_subrange(bytes, start as int, len as int, next_pos + 1);
                        assert(bytes.subrange(next_pos as int, next_pos + 1) =~= rb.subrange(
                            at as int,
                            at + 1,
                        ));
                    } else {
                        lemma_boundary_subrange(bytes, start as int, len as int, next_pos as int);
                        if at == 0 {
                            assert(rb.subrange(0, 1) =~= rb);
                        }
                    }
                }
                Some((start, text))
            },
            Found::Split { at, end } => {
                proof {
                    lemma_subrange_valid(rb, at as int, end as int);
                }
                let word = slice(rem, at, end);
                proof {
                    lemma_empty_text(word@);
                }
                let cut = cut_word(word, self.width);
                proof {
                    lemma_boundary_subrange(rb, at as int, end as int, at + cut);
                    lemma_boundary_subrange(bytes, start as int, len as int, start + at + cut);
                }
                let text = slice(word, 0, cut);
                self.pos = start + at + cut;
                proof {
                    assert(text.spec_bytes() =~= bytes.subrange(start + at, start + at + cut));
                }
                Some((start + at, text))
            },
            Found::Break { at } => {
                let stop = start + at;
                proof {
                    lemma_boundary_subrange(bytes, start as int, len as int, stop as int);
                    lemma_subrange_valid(bytes, stop as int, len as int);
                }
                let rest = slice(s, stop, len);
                let skipped = skip_blank(rest);
                let text = slice(rem, 0, at);
                proof {
                    assert(text.spec_bytes() =~= bytes.subrange(start as int, start + at));
                    lemma_boundary_subrange(bytes, stop as int, len as int, stop + skipped);
                    assert(bytes.subrange(stop as int, stop + skipped) =~= rest.spec_bytes().subrange(
                        0,
                        skipped as int,
                    ));
                }
                self.pos = stop + skipped;
                self.cur_width = 0;
                Some((start, text))
            },
        }
    }
}

/// How a walk over the words of a text ended, with the offsets it found.
pub enum Found {
    End { width: usize },
    Newline { at: usize },
    Split { at: usize, end: usize },
    Break { at: usize },
}

impl Found {
    /// The outcome with its offsets as integers.
    pub open spec fn outcome(&self) -> Scan {
        match *self {
            Found::End { width } => Scan::End { width: width as int },
            Found::Newline { at } => Scan::Newline { at: at as int },
            Found::Split { at, end } => Scan::Split { at: at as int, end: end as int },
            Found::Break { at } => Scan::Break { at: at as int },
        }
    }
}

/// Walks the words of `rem`, with `cur` clusters on the line so far, up to
/// the first word that ends the line.
pub fn scan_words(rem: &str, width: usize, cur: usize) -> (found: Found)
    ensures
        found.outcome() == scan(
            rem.spec_bytes(),
            tokens(rem.spec_bytes()),
            0,
            width as int,
            cur as int,
        ),
        match found {
            Found::End { width: w } => true,
            Found::Newline { at } => {
                &&& at < rem.spec_bytes().len()
                &&& is_boundary(rem.spec_bytes(), at as int)
                &&& is_boundary(rem.spec_bytes(), at + 1)
                &&& rem.spec_bytes().subrange(at as int, at + 1) == line_feed()
            },
            Found::Split { at, end } => {
                &&& at == 0
                &&& cur == 0
                &&& at < end <= rem.spec_bytes().len()
                &&& is_boundary(rem.spec_bytes(), end as int)
            },
            Found::Break { at } => {
                &&& cur > 0 || at > 0
                &&& at < rem.spec_bytes().len()
                &&& is_boundary(rem.spec_bytes(), at as int)
            },
        },
{
    let toks = word_offsets(rem);
    let n = toks.len();
    let ghost rb = rem.spec_bytes();
    let mut t: usize = 0;
    let mut line: usize = cur;
    proof {
        encode_utf8_decode_utf8(rem@);
        encode_utf8_valid_utf8(rem@);
        is_char_boundary_start_end_of_seq(rb);
    }
    while t < n
        invariant
            rb == rem.spec_bytes(),
            valid_utf8(rb),
            is_boundary(rb, 0),
            toks@ == tokens(rb),
            is_segmentation(rb, toks@),
            n == toks@.len(),
            t <= n,
            t > 0 ==> line > 0,
            t == 0 ==> line == cur,
            line > 0 ==> cur > 0 || t > 0,
            scan(rb, toks@, 0, width as int, cur as int) == scan(
                rb,
                toks@,
                t as int,
                width as int,
                line as int,
            ),
        decreases n - t,
    {
        let at = toks[t];
        let (pieces, end) = word_span(rem, &toks, t);
        proof {
            lemma_subrange_valid(rb, at as int, end as int);
            if t > 0 {
                assert(toks@[0] < toks@[t as int]);
            }
        }
        let word = slice(rem, at, end);
        let count = count_graphemes(word);
        proof {
            encode_utf8_decode_utf8(word@);
            lemma_empty_text(word@);
        }
        if is_line_feed(word) {
            return Found::Newline { at: at };
        }
        let over = if line > width {
            true
        } else {
            count > width - line
        };
        if over {
            if line == 0 {
                return Found::Split { at: at, end: end };
            }
            return Found::Break { at: at };
        }
        line = line + count;
        t = t + pieces;
    }
    Found::End { width: line }
}

/// The number of pieces in the word that starts with piece `t` of `rem`, and
/// where the word ends.
pub fn word_span(rem: &str, toks: &Vec<usize>, t: usize) -> (span: (usize, usize))
    requires
        is_segmentation(rem.spec_bytes(), toks@),
        t < toks.len(),
    ensures
        span.0 == word_tokens(rem.spec_bytes(), toks@, t as int),
        span.1 == word_end(rem.spec_bytes(), toks@, t as int),
        1 <= span.0 <= 2,
        toks@[t as int] < span.1 <= rem.spec_bytes().len(),
        is_boundary(rem.spec_bytes(), span.1 as int),
{
    let n = toks.len();
    let len = byte_len(rem);
    let ghost rb = rem.spec_bytes();
    proof {
        encode_utf8_valid_utf8(rem@);
        is_char_boundary_start_end_of_seq(rb);
    }
    let at = toks[t];
    if t + 1 >= n {
        return (1, len);
    }
    let first_end = toks[t + 1];
    let second_end = if t + 2 < n {
        toks[t + 2]
    } else {
        len
    };
    proof {
        assert(toks@[t as int] < toks@[t + 1]);
        if t + 2 < n {
            assert(toks@[t + 1] < toks@[t + 2]);
        }
    }
    let first = slice(rem, at, first_end);
    if has_alphanumeric(first) {
        let second = slice(rem, first_end, second_end);
        if has_punctuation(second) {
            return (2, second_end);
        }
    }
    (1, first_end)
}

/// Where a word that is wider than a line of `width` clusters is cut.
pub fn cut_word(word: &str, width: usize) -> (cut: usize)
    requires
        word@.len() > 0,
    ensures
        cut == hard_cut(word.spec_bytes(), width as int),
        1 <= cut <= word.spec_bytes().len(),
        is_boundary(word.spec_bytes(), cut as int),
{
    let g = grapheme_offsets(word);
    let len = byte_len(word);
    let ghost wb = word.spec_bytes();
    proof {
        encode_utf8_decode_utf8(word@);
        encode_utf8_valid_utf8(word@);
        is_char_boundary_start_end_of_seq(wb);
        lemma_empty_text(word@);
    }
    let k = if width == 0 {
        1
    } else {
        width
    };
    if k < g.len() {
        proof {
            assert(g@[0] < g@[k as int]);
        }
        g[k]
    } else {
        len
    }
}

/// The length of the white space that `rest` starts with, in whole pieces
/// and up to the first line feed.
pub fn skip_blank(rest: &str) -> (skipped: usize)
    ensures
        skipped == blank_prefix(rest.spec_bytes()),
        skipped <= rest.spec_bytes().len(),
        is_boundary(rest.spec_bytes(), skipped as int),
        all_whitespace(decode_utf8(rest.spec_bytes().subrange(0, skipped as int))),
{
    let toks = word_offsets(rest);
    let n = toks.len();
    let len = byte_len(rest);
    let ghost rb = rest.spec_bytes();
    proof {
        encode_utf8_decode_utf8(rest@);
        encode_utf8_valid_utf8(rest@);
        is_char_boundary_start_end_of_seq(rb);
    }
    let mut t: usize = 0;
    proof {
        assert(rb.subrange(0, 0) =~= Seq::<u8>::empty());
        assert(decode_utf8(Seq::<u8>::empty()).len() == 0);
    }
    while t < n
        invariant
            rb == rest.spec_bytes(),
            valid_utf8(rb),
            is_boundary(rb, 0),
            is_boundary(rb, rb.len() as int),
            len == rb.len(),
            toks@ == tokens(rb),
            is_segmentation(rb, toks@),
            n == toks@.len(),
            t <= n,
            skip_from(rb, toks@, 0) == skip_from(rb, toks@, t as int),
            all_whitespace(
                decode_utf8(
                    rb.subrange(
                        0,
                        if t < n {
                            toks@[t as int] as int
                        } else {
                            len as int
                        },
                    ),
                ),
            ),
        decreases n - t,
    {
        let at = toks[t];
        let end = if t + 1 < n {
            toks[t + 1]
        } else {
            len
        };
        proof {
            if t + 1 < n {
                assert(toks@[t as int] < toks@[t + 1]);
            }
        }
        let piece = slice(rest, at, end);
        if !is_blank(piece) || is_line_feed(piece) {
            return at;
        }
        proof {
            let upto = rb.subrange(0, end as int);
            lemma_subrange_valid(rb, 0, end as int);
            lemma_boundary_subrange(rb, 0, end as int, at as int);
            decode_utf8_split(upto, at as int);
            assert(upto.subrange(0, at as int) =~= rb.subrange(0, at as int));
            assert(upto.subrange(at as int, upto.len() as int) =~= rb.subrange(
                at as int,
                end as int,
            ));
        }
        t = t + 1;
    }
    len
}


/// The segments with the starts and ends `spans` and the gaps between them
/// make up the text `bytes`: the first segment starts the text, each later
/// one starts at or behind the end of the one before, and what lies between
/// two segments and behind the last is a gap. A text without segments is
/// empty.
pub open spec fn tiled(bytes: Seq<u8>, spans: Seq<(usize, usize)>) -> bool {
    &&& spans.len() == 0 ==> bytes.len() == 0
    &&& spans.len() > 0 ==> spans[0].0 == 0 && is_gap(
        bytes.subrange(spans.last().1 as int, bytes.len() as int),
    )
    &&& forall|i: int|
        0 <= i < spans.len() ==> (#[trigger] spans[i]).0 <= spans[i].1 <= bytes.len()
    &&& forall|i: int|
        0 <= i < spans.len() - 1 ==> (#[trigger] spans[i]).1 <= spans[i + 1].0 && is_gap(
            bytes.subrange(spans[i].1 as int, spans[i + 1].0 as int),
        )
}

/// Where each segment of `s` starts and ends, for lines of `width` clusters
/// the first of which has `offset` clusters on it already.
///
/// The segments are those of `segments`, in order. With the gaps between
/// them they make up the text, so that nothing of the text is lost but
/// white space and line feeds where a line breaks.
pub fn wrap_spans(s: &str, width: usize, offset: usize) -> (spans: Vec<(usize, usize)>)
    ensures
        spans@.len() == segments(s.spec_bytes(), width as int, offset as int).len(),
        forall|i: int|
            0 <= i < spans@.len() ==> {
                let piece = segments(s.spec_bytes(), width as int, offset as int)[i];
                &&& (#[trigger] spans@[i]).0 == piece.start
                &&& spans@[i].1 == piece.end
                &&& is_boundary(s.spec_bytes(), piece.start)
                &&& is_boundary(s.spec_bytes(), piece.end)
            },
        tiled(s.spec_bytes(), spans@),
{
    let mut spans: Vec<(usize, usize)> = Vec::new();
    let mut it = wrap_to_width_offset(s, width, offset);
    let ghost bytes = s.spec_bytes();
    let ghost all = segments(bytes, width as int, offset as int);
    let ghost mut done: Seq<Piece> = seq![];
    let ghost mut fuel: nat = (2 * bytes.len() + 2) as nat;
    let mut more = true;
    proof {
        assert(done + pieces(bytes, 0, width as int, offset as int, fuel) =~= all);
        assert(bytes.subrange(0, 0) =~= Seq::<u8>::empty());
    }
    while more
        invariant
            it.inv(),
            it.s == s,
            it.width == width,
            bytes == s.spec_bytes(),
            all == segments(bytes, width as int, offset as int),
            fuel >= it.remaining() + 1,
            it.remaining() >= 0,
            it.pos <= bytes.len(),
            more || it.pos >= bytes.len(),
            done + pieces(bytes, it.pos as int, width as int, it.cur_width as int, fuel) == all,
            spans@.len() == done.len(),
            forall|i: int|
                0 <= i < spans@.len() ==> {
                    &&& (#[trigger] spans@[i]).0 == done[i].start
                    &&& spans@[i].1 == done[i].end
                    &&& is_boundary(bytes, done[i].start)
                    &&& is_boundary(bytes, done[i].end)
                    &&& spans@[i].0 <= spans@[i].1 <= bytes.len()
                },
            forall|i: int|
                0 <= i < spans@.len() - 1 ==> (#[trigger] spans@[i]).1 <= spans@[i + 1].0 && is_gap(
                    bytes.subrange(spans@[i].1 as int, spans@[i + 1].0 as int),
                ),
            spans@.len() == 0 ==> it.pos == 0,
            spans@.len() > 0 ==> spans@[0].0 == 0 && spans@.last().1 <= it.pos && is_gap(
                bytes.subrange(spans@.last().1 as int, it.pos as int),
            ),
        decreases it.remaining() + if more { 1int } else { 0int },
    {
        let ghost pos = it.pos as int;
        let ghost cur = it.cur_width as int;
        let ghost before = spans@;
        match it.next() {
            None => {
                more = false;
            },
            Some((start, text)) => {
                let ghost piece = step(bytes, pos, width as int, cur);
                let ghost rest = pieces(
                    bytes,
                    piece.pos,
                    width as int,
                    piece.cur_width,
                    (fuel - 1) as nat,
                );
                let end = start + byte_len(text);
                spans.push((start, end));
                proof {
                    assert(done + (seq![piece] + rest) =~= done.push(piece) + rest);
                    assert forall|i: int| 0 <= i < spans@.len() - 1 implies (
                    #[trigger] spans@[i]).1 <= spans@[i + 1].0 && is_gap(
                        bytes.subrange(spans@[i].1 as int, spans@[i + 1].0 as int),
                    ) by {
                        if i < before.len() - 1 {
                            assert(spans@[i] == before[i]);
                            assert(spans@[i + 1] == before[i + 1]);
                        } else {
                            assert(spans@[i] == before.last());
                        }
                    }
                    done = done.push(piece);
                    fuel = (fuel - 1) as nat;
                }
            },
        }
    }
    proof {
        assert(done =~= all);
    }
    spans
}

} // verus!
