//! Unicode segmentation of text into grapheme clusters.

use unicode_segmentation::UnicodeSegmentation;
use vstd::prelude::*;
use vstd::string::*;
use vstd::utf8::*;

verus! {

/// The byte offsets at which the extended grapheme clusters of `text` start,
/// in order.
pub uninterp spec fn grapheme_starts(text: Seq<char>) -> Seq<usize>;

/// What every list of segment starts satisfies: the first segment starts the
/// text, each later one starts after the one before, and no segment starts at
/// the end or inside a character.
pub open spec fn is_segmentation(bytes: Seq<u8>, starts: Seq<usize>) -> bool {
    &&& starts.len() == 0 <==> bytes.len() == 0
    &&& starts.len() > 0 ==> starts[0] == 0
    &&& forall|i: int, j: int| 0 <= i < j < starts.len() ==> starts[i] < starts[j]
    &&& forall|i: int|
        0 <= i < starts.len() ==> starts[i] < bytes.len() && is_char_boundary(
            bytes,
            #[trigger] starts[i] as int,
        )
}

/// The cluster starts of text given by its encoding.
pub open spec fn clusters(bytes: Seq<u8>) -> Seq<usize> {
    grapheme_starts(decode_utf8(bytes))
}

/// Calls `UnicodeSegmentation::grapheme_indices(s, true)` and keeps the byte
/// offset of each cluster. The iterator walks `s` from offset 0, yields one
/// non-empty substring per cluster, each starting where the one before
/// ended, and stops at the end of `s`; so the offsets form a segmentation of
/// `s`. Which offsets they are is left to the name `grapheme_starts`.
#[verifier::external_body]
pub(crate) fn grapheme_offsets(s: &str) -> (r: Vec<usize>)
    ensures
        r@ == grapheme_starts(s@),
        is_segmentation(s.spec_bytes(), r@),
{
    s.grapheme_indices(true).map(|(i, _)| i).collect()
}

/// The number of grapheme clusters in `s`.
pub fn count_graphemes(s: &str) -> (n: usize)
    ensures
        n == grapheme_starts(s@).len(),
        n <= s.spec_bytes().len(),
        n == 0 <==> s@.len() == 0,
        is_segmentation(s.spec_bytes(), grapheme_starts(s@)),
{
    let g = grapheme_offsets(s);
    proof {
        lemma_segmentation_short(s.spec_bytes(), g@);
        lemma_empty_text(s@);
    }
    g.len()
}

/// Text is empty exactly when its encoding is.
pub proof fn lemma_empty_text(text: Seq<char>)
    ensures
        text.len() == 0 <==> encode_utf8(text).len() == 0,
{
    if text.len() > 0 {
        encode_utf8_first_scalar(text);
    }
}

/// A segmentation has no more segments than the text has bytes; more
/// exactly, segment `i` starts at byte `i` or later.
pub proof fn lemma_segmentation_short(bytes: Seq<u8>, starts: Seq<usize>)
    requires
        is_segmentation(bytes, starts),
    ensures
        starts.len() <= bytes.len(),
        forall|i: int| 0 <= i < starts.len() ==> i <= #[trigger] starts[i],
{
    lemma_segment_at_least(bytes, starts, starts.len() as int);
    if starts.len() > 0 {
        assert(starts.len() - 1 <= starts[starts.len() - 1]);
    }
}

/// The first `n` segments each start at their index or later.
proof fn lemma_segment_at_least(bytes: Seq<u8>, starts: Seq<usize>, n: int)
    requires
        is_segmentation(bytes, starts),
        0 <= n <= starts.len(),
    ensures
        forall|i: int| 0 <= i < n ==> i <= #[trigger] starts[i],
    decreases n,
{
    if n > 0 {
        lemma_segment_at_least(bytes, starts, n - 1);
        if n > 1 {
            assert(starts[n - 2] < starts[n - 1]);
        }
    }
}


/// The byte offsets at which the pieces of `text` start that lie between
/// one Unicode word boundary and the next, in order.
pub uninterp spec fn word_starts(text: Seq<char>) -> Seq<usize>;

/// The word-boundary pieces of text given by its encoding.
pub open spec fn tokens(bytes: Seq<u8>) -> Seq<usize> {
    word_starts(decode_utf8(bytes))
}

/// Calls `UnicodeSegmentation::split_word_bound_indices(s)` and keeps the
/// byte offset of each piece. The iterator cuts a non-empty piece off the
/// front of what is left of `s` until nothing is left, so the offsets form a
/// segmentation of `s`. Which offsets they are is left to the name
/// `word_starts`.
#[verifier::external_body]
pub(crate) fn word_offsets(s: &str) -> (r: Vec<usize>)
    ensures
        r@ == word_starts(s@),
        is_segmentation(s.spec_bytes(), r@),
{
    s.split_word_bound_indices().map(|(i, _)| i).collect()
}

/// Whether `c` is white space in the sense of Unicode: one of the 25
/// characters that Unicode marks as `White_Space`.
pub open spec fn is_whitespace(c: char) -> bool {
    ||| '\u{9}' <= c <= '\u{d}'
    ||| c == ' '
    ||| c == '\u{85}'
    ||| c == '\u{a0}'
    ||| c == '\u{1680}'
    ||| '\u{2000}' <= c <= '\u{200a}'
    ||| c == '\u{2028}'
    ||| c == '\u{2029}'
    ||| c == '\u{202f}'
    ||| c == '\u{205f}'
    ||| c == '\u{3000}'
}

/// Calls `char::is_whitespace`, which says whether a character is marked
/// `White_Space` in Unicode. Those characters are the ones that
/// `is_whitespace` lists.
#[verifier::external_body]
pub(crate) fn char_is_whitespace(c: char) -> (b: bool)
    ensures
        b == is_whitespace(c),
{
    c.is_whitespace()
}

/// Whether `c` is a letter or a number in Unicode's sense.
pub uninterp spec fn is_alphanumeric(c: char) -> bool;

/// Calls `char::is_alphanumeric`, whose result is named `is_alphanumeric`.
#[verifier::external_body]
pub(crate) fn char_is_alphanumeric(c: char) -> (b: bool)
    ensures
        b == is_alphanumeric(c),
{
    c.is_alphanumeric()
}

/// Whether `c` is an ASCII punctuation character: one of
/// `` !"#$%&'()*+,-./ ``, `:;<=>?@`, `` [\]^_` `` and `{|}~`.
pub open spec fn is_ascii_punctuation(c: char) -> bool {
    ||| '!' <= c <= '/'
    ||| ':' <= c <= '@'
    ||| '[' <= c <= '`'
    ||| '{' <= c <= '~'
}

/// Whether `c` is an ASCII punctuation character.
pub fn char_is_ascii_punctuation(c: char) -> (b: bool)
    ensures
        b == is_ascii_punctuation(c),
{
    ('!' <= c && c <= '/') || (':' <= c && c <= '@') || ('[' <= c && c <= '`') || ('{' <= c && c
        <= '~')
}

/// Some character of `text` is a letter or a number.
pub open spec fn any_alphanumeric(text: Seq<char>) -> bool {
    exists|i: int| 0 <= i < text.len() && is_alphanumeric(#[trigger] text[i])
}

/// Some character of `text` is ASCII punctuation.
pub open spec fn any_punctuation(text: Seq<char>) -> bool {
    exists|i: int| 0 <= i < text.len() && is_ascii_punctuation(#[trigger] text[i])
}

/// Every character of `text` is white space.
pub open spec fn all_whitespace(text: Seq<char>) -> bool {
    forall|i: int| 0 <= i < text.len() ==> is_whitespace(#[trigger] text[i])
}

/// Whether some character of `s` is a letter or a number.
pub fn has_alphanumeric(s: &str) -> (b: bool)
    ensures
        b == any_alphanumeric(s@),
{
    let mut found = false;
    for c in it: s.chars()
        invariant
            it.seq() == s@,
            found == exists|i: int| 0 <= i < it.index() && is_alphanumeric(#[trigger] s@[i]),
    {
        if char_is_alphanumeric(c) {
            found = true;
        }
    }
    found
}

/// Whether some character of `s` is ASCII punctuation.
pub fn has_punctuation(s: &str) -> (b: bool)
    ensures
        b == any_punctuation(s@),
{
    let mut found = false;
    for c in it: s.chars()
        invariant
            it.seq() == s@,
            found == exists|i: int| 0 <= i < it.index() && is_ascii_punctuation(#[trigger] s@[i]),
    {
        if char_is_ascii_punctuation(c) {
            found = true;
        }
    }
    found
}

/// Whether every character of `s` is white space.
pub fn is_blank(s: &str) -> (b: bool)
    ensures
        b == all_whitespace(s@),
{
    let mut blank = true;
    for c in it: s.chars()
        invariant
            it.seq() == s@,
            blank == forall|i: int| 0 <= i < it.index() ==> is_whitespace(#[trigger] s@[i]),
    {
        if !char_is_whitespace(c) {
            blank = false;
        }
    }
    blank
}

} // verus!
