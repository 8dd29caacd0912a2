//! Byte-level reasoning about UTF-8 text.
//!
//! A string is modelled by its UTF-8 encoding, a `Seq<u8>`. Offsets are byte
//! offsets and are only meaningful on character boundaries.

use vstd::prelude::*;
use vstd::string::*;
use vstd::utf8::*;

verus! {

/// `i` lies inside `bytes` (or at its end) and does not cut a character.
pub open spec fn is_boundary(bytes: Seq<u8>, i: int) -> bool {
    0 <= i <= bytes.len() && is_char_boundary(bytes, i)
}

/// The encoding of `n` ASCII spaces.
pub open spec fn spaces(n: nat) -> Seq<u8> {
    Seq::new(n, |i: int| 0x20u8)
}

/// Encoding distributes over concatenation.
pub proof fn lemma_encode_concat(a: Seq<char>, b: Seq<char>)
    ensures
        encode_utf8(a + b) == encode_utf8(a) + encode_utf8(b),
    decreases a.len(),
{
    if a.len() == 0 {
        assert(a + b =~= b);
        assert(encode_utf8(a) + encode_utf8(b) =~= encode_utf8(b));
    } else {
        assert((a + b).drop_first() =~= a.drop_first() + b);
        lemma_encode_concat(a.drop_first(), b);
        assert(encode_utf8(a + b) =~= encode_utf8(a) + encode_utf8(b));
    }
}

/// A boundary of the left part of a concatenation is a boundary of the whole.
pub proof fn lemma_boundary_concat_left(x: Seq<u8>, y: Seq<u8>, i: int)
    requires
        valid_utf8(x),
        valid_utf8(y),
        0 <= i <= x.len(),
    ensures
        valid_utf8(x + y),
        is_char_boundary(x + y, i) <==> is_char_boundary(x, i),
{
    valid_utf8_concat(x, y);
    is_char_boundary_start_end_of_seq(x);
    is_char_boundary_start_end_of_seq(y);
    is_char_boundary_start_end_of_seq(x + y);
    if i < x.len() {
        is_char_boundary_iff_not_is_continuation_byte(x, i);
        is_char_boundary_iff_not_is_continuation_byte(x + y, i);
    } else if y.len() > 0 {
        is_char_boundary_iff_not_is_continuation_byte(y, 0);
        is_char_boundary_iff_not_is_continuation_byte(x + y, i);
    }
}

/// A boundary of the right part of a concatenation, shifted by the length of
/// the left part, is a boundary of the whole.
pub proof fn lemma_boundary_concat_right(x: Seq<u8>, y: Seq<u8>, i: int)
    requires
        valid_utf8(x),
        valid_utf8(y),
        0 <= i <= y.len(),
    ensures
        valid_utf8(x + y),
        is_char_boundary(x + y, x.len() + i) <==> is_char_boundary(y, i),
{
    valid_utf8_concat(x, y);
    is_char_boundary_start_end_of_seq(y);
    is_char_boundary_start_end_of_seq(x + y);
    if i < y.len() {
        is_char_boundary_iff_not_is_continuation_byte(y, i);
        is_char_boundary_iff_not_is_continuation_byte(x + y, x.len() + i);
    }
}

/// In text put together from three parts, the boundaries of the first part
/// are boundaries still, and so are the two seams.
pub proof fn lemma_boundary_spliced(a: Seq<u8>, s: Seq<u8>, b: Seq<u8>, i: int)
    requires
        valid_utf8(a),
        valid_utf8(s),
        valid_utf8(b),
        0 <= i <= a.len(),
        is_char_boundary(a, i),
    ensures
        valid_utf8(a + s + b),
        is_boundary(a + s + b, i),
        is_boundary(a + s + b, a.len() as int),
        is_boundary(a + s + b, (a.len() + s.len()) as int),
{
    lemma_boundary_concat_left(a, s, i);
    lemma_boundary_concat_left(a + s, b, i);
    is_char_boundary_start_end_of_seq(a);
    lemma_boundary_concat_left(a, s, a.len() as int);
    lemma_boundary_concat_left(a + s, b, a.len() as int);
    is_char_boundary_start_end_of_seq(a + s);
    lemma_boundary_concat_left(a + s, b, (a.len() + s.len()) as int);
}

/// Cutting valid text at two boundaries leaves valid text, with the same
/// boundaries in between.
pub proof fn lemma_boundary_subrange(b: Seq<u8>, lo: int, hi: int, i: int)
    requires
        valid_utf8(b),
        is_boundary(b, lo),
        is_boundary(b, hi),
        lo <= i <= hi,
    ensures
        valid_utf8(b.subrange(lo, hi)),
        is_char_boundary(b.subrange(lo, hi), i - lo) <==> is_char_boundary(b, i),
{
    lemma_subrange_valid(b, lo, hi);
    let m = b.subrange(lo, hi);
    is_char_boundary_start_end_of_seq(m);
    if i < hi {
        is_char_boundary_iff_not_is_continuation_byte(m, i - lo);
        is_char_boundary_iff_not_is_continuation_byte(b, i);
    }
}

/// Cutting valid text at two boundaries leaves valid text.
pub proof fn lemma_subrange_valid(b: Seq<u8>, lo: int, hi: int)
    requires
        valid_utf8(b),
        is_boundary(b, lo),
        is_boundary(b, hi),
        lo <= hi,
    ensures
        valid_utf8(b.subrange(lo, hi)),
{
    valid_utf8_split(b, hi);
    let head = b.subrange(0, hi);
    is_char_boundary_start_end_of_seq(head);
    if lo < hi {
        is_char_boundary_iff_not_is_continuation_byte(head, lo);
        is_char_boundary_iff_not_is_continuation_byte(b, lo);
    }
    valid_utf8_split(head, lo);
    assert(head.subrange(lo, head.len() as int) =~= b.subrange(lo, hi));
}

/// The characters of a text that may be missing.
pub open spec fn chars_of(text: Option<String>) -> Option<Seq<char>> {
    match text {
        Some(t) => Some(t@),
        None => None,
    }
}

/// The byte length of `s`.
pub fn byte_len(s: &str) -> (n: usize)
    ensures
        n == s.spec_bytes().len(),
{
    s.as_bytes().len()
}

/// The part of `s` between the byte offsets `lo` and `hi`.
pub fn slice<'a>(s: &'a str, lo: usize, hi: usize) -> (r: &'a str)
    requires
        lo <= hi,
        is_boundary(s.spec_bytes(), lo as int),
        is_boundary(s.spec_bytes(), hi as int),
    ensures
        r.spec_bytes() == s.spec_bytes().subrange(lo as int, hi as int),
        r@ == decode_utf8(s.spec_bytes().subrange(lo as int, hi as int)),
{
    proof {
        encode_utf8_valid_utf8(s@);
    }
    let (head, _) = s.split_at(hi);
    proof {
        encode_utf8_valid_utf8(head@);
        lemma_boundary_subrange(s.spec_bytes(), 0, hi as int, lo as int);
    }
    let (_, mid) = head.split_at(lo);
    proof {
        assert(mid.spec_bytes() =~= s.spec_bytes().subrange(lo as int, hi as int));
        encode_utf8_decode_utf8(mid@);
    }
    mid
}

/// A string of `n` spaces.
pub fn blanks(n: usize) -> (r: String)
    ensures
        encode_utf8(r@) == spaces(n as nat),
{
    let mut r = String::new();
    let mut i: usize = 0;
    proof {
        assert(encode_utf8(r@) =~= spaces(0));
    }
    while i < n
        invariant
            i <= n,
            encode_utf8(r@) == spaces(i as nat),
        decreases n - i,
    {
        let ghost before = r@;
        r.append(" ");
        proof {
            reveal_strlit(" ");
            assert(" "@ =~= seq![' ']);
            lemma_encode_concat(before, " "@);
            lemma_encode_space();
            assert(encode_utf8(r@) =~= spaces((i + 1) as nat));
        }
        i = i + 1;
    }
    r
}

/// A single space encodes as the byte 0x20.
pub proof fn lemma_encode_space()
    ensures
        encode_utf8(seq![' ']) == seq![0x20u8],
{
    let c = ' ' as u32;
    assert(c == 0x20);
    assert(has_width_1_encoding(c));
    assert(leading_byte_width_1(c) == 0x20u8) by (bit_vector)
        requires
            c == 0x20u32,
    ;
    assert(seq![' '].drop_first() =~= Seq::<char>::empty());
    reveal_with_fuel(encode_utf8, 2);
    assert(encode_utf8(seq![' ']) =~= seq![0x20u8]);
}

} // verus!
