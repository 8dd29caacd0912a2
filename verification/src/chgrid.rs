//! A text buffer grid.
//!
//! A [`Row`] is one line of text together with the styles of its parts, kept
//! as a short list of runs. Callers address a row by grapheme cluster; the run
//! list is kept in byte offsets.

use crate::segment::{
    clusters, count_graphemes, grapheme_offsets, grapheme_starts, lemma_empty_text,
    lemma_segmentation_short,
};
use crate::text::{
    blanks, byte_len, is_boundary, lemma_boundary_concat_left, lemma_boundary_concat_right,
    lemma_boundary_spliced, lemma_boundary_subrange, lemma_encode_concat, lemma_subrange_valid,
    slice, spaces,
};
use std::ops::Range;
use vstd::prelude::*;
use vstd::std_specs::cmp::PartialEqSpec;
use vstd::string::*;
use vstd::utf8::*;

verus! {

/// A rectangular region of the terminal, in character cells.
#[derive(Debug, Clone, Copy)]
pub struct Rect {
    pub x: u16,
    pub y: u16,
    pub width: u16,
    pub height: u16,
}

/// The style that holds from byte offset `start` up to the start of the next
/// run.
#[derive(Debug, Clone, Copy)]
pub struct Run<T> where T: PartialEq {
    pub start: usize,
    pub style: T,
}

/// A line of text and the runs that style it.
#[derive(Debug)]
pub struct Row<T> where T: PartialEq {
    pub runs: Vec<Run<T>>,
    pub text: String,
}

/// The number of runs that start before `pos`.
pub open spec fn runs_before<T: PartialEq>(runs: Seq<Run<T>>, pos: int) -> int
    decreases runs.len(),
{
    if runs.len() == 0 {
        0
    } else {
        runs_before(runs.drop_last(), pos) + if runs.last().start < pos {
            1int
        } else {
            0int
        }
    }
}

/// Each run starts after the one before it.
pub open spec fn ascending<T: PartialEq>(runs: Seq<Run<T>>) -> bool {
    forall|i: int, j: int| 0 <= i < j < runs.len() ==> runs[i].start < runs[j].start
}

/// The run list after the range `[start, end)` of a text of `len` bytes has
/// been given `style`, where `differs_before` says whether the run in force
/// just before `start` has another style, and `differs_after` whether the run
/// in force at `end` has.
///
/// The runs that start before `start` stay. A run for the range follows
/// unless the run before it has the style already. Where the text goes on
/// after `end`, a run restores the style that held there, unless that is the
/// new style. The runs that start after `end` stay. An empty range changes
/// nothing.
pub open spec fn restyled_with<T: PartialEq>(
    runs: Seq<Run<T>>,
    len: int,
    start: usize,
    end: usize,
    style: T,
    differs_before: bool,
    differs_after: bool,
) -> Seq<Run<T>> {
    if start >= end {
        runs
    } else {
        let k = runs_before(runs, start as int);
        let m = runs_before(runs, end as int + 1);
        let opening = if k == 0 || differs_before {
            seq![Run { start: start, style: style }]
        } else {
            seq![]
        };
        let closing = if end < len && m > 0 && differs_after {
            seq![Run { start: end, style: runs[m - 1].style }]
        } else {
            seq![]
        };
        runs.take(k) + opening + closing + runs.skip(m)
    }
}

/// The run list after the range `[start, end)` of a text of `len` bytes has
/// been given `style`, with styles compared by `eq_spec`.
pub open spec fn restyled<T: PartialEq>(
    runs: Seq<Run<T>>,
    len: int,
    start: usize,
    end: usize,
    style: T,
) -> Seq<Run<T>> {
    let k = runs_before(runs, start as int);
    let m = runs_before(runs, end as int + 1);
    restyled_with(
        runs,
        len,
        start,
        end,
        style,
        k > 0 && !runs[k - 1].style.eq_spec(&style),
        m > 0 && !runs[m - 1].style.eq_spec(&style),
    )
}

/// The runs are in order: there is one, the first starts at offset 0, and
/// each later one starts after the one before.
pub open spec fn runs_ordered<T: PartialEq>(runs: Seq<Run<T>>) -> bool {
    &&& runs.len() > 0
    &&& runs[0].start == 0
    &&& ascending(runs)
}

/// The runs are in order and each starts on a character boundary of the text
/// `bytes`, so that their ranges split the text with no gap and no overlap.
pub open spec fn runs_cover<T: PartialEq>(runs: Seq<Run<T>>, bytes: Seq<u8>) -> bool {
    &&& runs_ordered(runs)
    &&& forall|i: int| 0 <= i < runs.len() ==> is_boundary(bytes, #[trigger] runs[i].start as int)
}

/// In a list in ascending order the runs that start before `pos` are the
/// first `runs_before(runs, pos)` ones.
pub proof fn lemma_runs_before<T: PartialEq>(runs: Seq<Run<T>>, pos: int)
    requires
        ascending(runs),
    ensures
        0 <= runs_before(runs, pos) <= runs.len(),
        forall|i: int|
            0 <= i < runs.len() ==> (i < runs_before(runs, pos) <==> (#[trigger] runs[i]).start
                < pos),
    decreases runs.len(),
{
    if runs.len() > 0 {
        let init = runs.drop_last();
        lemma_runs_before(init, pos);
        let k = runs_before(init, pos);
        assert forall|i: int| 0 <= i < runs.len() implies (i < runs_before(runs, pos) <==> (
        #[trigger] runs[i]).start < pos) by {
            if i < init.len() {
                assert(init[i] == runs[i]);
                if runs.last().start < pos {
                    assert(runs[i].start < runs[runs.len() - 1].start);
                }
            } else {
                if k < init.len() {
                    assert(init[k] == runs[k]);
                    assert(!(init[k].start < pos));
                    assert(runs[k].start < runs[runs.len() - 1].start);
                }
            }
        }
    }
}

/// Every run that restyling `[start, end)` keeps lies on a character
/// boundary of the text `bytes`.
pub open spec fn kept_on_boundaries<T: PartialEq>(
    runs: Seq<Run<T>>,
    bytes: Seq<u8>,
    start: usize,
    end: usize,
) -> bool {
    forall|i: int|
        0 <= i < runs.len() && ((#[trigger] runs[i]).start < start || runs[i].start > end)
            ==> is_boundary(bytes, runs[i].start as int)
}

/// Restyling keeps the runs in order, whatever the comparisons of styles
/// said. The new runs lie on character boundaries of a text exactly when the
/// range does and the runs kept do.
pub proof fn lemma_restyled_covers<T: PartialEq>(
    runs: Seq<Run<T>>,
    bytes: Seq<u8>,
    start: usize,
    end: usize,
    style: T,
    differs_before: bool,
    differs_after: bool,
)
    requires
        runs_ordered(runs),
    ensures
        runs_ordered(
            restyled_with(
                runs,
                bytes.len() as int,
                start,
                end,
                style,
                differs_before,
                differs_after,
            ),
        ),
        start >= end ==> restyled_with(
            runs,
            bytes.len() as int,
            start,
            end,
            style,
            differs_before,
            differs_after,
        ) == runs,
        start < end && is_boundary(bytes, start as int) && is_boundary(bytes, end as int)
            ==> (runs_cover(
            restyled_with(
                runs,
                bytes.len() as int,
                start,
                end,
                style,
                differs_before,
                differs_after,
            ),
            bytes,
        ) <==> kept_on_boundaries(runs, bytes, start, end)),
{
    if start < end {
        let len = bytes.len() as int;
        let out = restyled_with(runs, len, start, end, style, differs_before, differs_after);
        let k = runs_before(runs, start as int);
        let m = runs_before(runs, end as int + 1);
        lemma_runs_before(runs, start as int);
        lemma_runs_before(runs, end as int + 1);
        assert(m >= 1) by {
            assert(runs[0].start < end as int + 1);
        }
        assert(k <= m) by {
            if m < k {
                assert(runs[m].start < start as int);
            }
        }
        let opening = if k == 0 || differs_before {
            seq![Run { start: start, style: style }]
        } else {
            seq![]
        };
        let closing = if end < len && m > 0 && differs_after {
            seq![Run { start: end, style: runs[m - 1].style }]
        } else {
            seq![]
        };
        let head = runs.take(k) + opening;
        let mid = head + closing;
        assert(out == mid + runs.skip(m));
        // what comes before the cut points starts at or before them
        assert forall|i: int| 0 <= i < head.len() implies (#[trigger] head[i]).start
            <= start by {
            if i < k {
                assert(head[i] == runs[i]);
            }
        }
        assert forall|i: int| 0 <= i < mid.len() implies (#[trigger] mid[i]).start <= end by {
            if i < head.len() {
                assert(mid[i] == head[i]);
            }
        }
        assert forall|i: int, j: int| 0 <= i < j < head.len() implies head[i].start
            < head[j].start by {
            assert(head[i] == runs[i]);
            if j < k {
                assert(head[j] == runs[j]);
            }
        }
        assert forall|i: int, j: int| 0 <= i < j < mid.len() implies mid[i].start
            < mid[j].start by {
            assert(mid[i] == head[i]);
            if j < head.len() {
                assert(mid[j] == head[j]);
            }
        }
        assert forall|i: int, j: int| 0 <= i < j < out.len() implies out[i].start
            < out[j].start by {
            if j < mid.len() {
                assert(out[i] == mid[i] && out[j] == mid[j]);
            } else {
                assert(out[j] == runs[j - mid.len() + m]);
                if i < mid.len() {
                    assert(out[i] == mid[i]);
                } else {
                    assert(out[i] == runs[i - mid.len() + m]);
                }
            }
        }
        if is_boundary(bytes, start as int) && is_boundary(bytes, end as int) {
            if kept_on_boundaries(runs, bytes, start, end) {
                assert forall|i: int| 0 <= i < out.len() implies is_boundary(
                    bytes,
                    #[trigger] out[i].start as int,
                ) by {
                    if i < mid.len() {
                        assert(out[i] == mid[i]);
                        if i < head.len() {
                            assert(mid[i] == head[i]);
                            if i < k {
                                assert(head[i] == runs[i]);
                            }
                        }
                    } else {
                        assert(out[i] == runs[i - mid.len() + m]);
                    }
                }
            }
            if forall|i: int| 0 <= i < out.len() ==> is_boundary(
                bytes,
                #[trigger] out[i].start as int,
            ) {
                assert forall|i: int|
                    0 <= i < runs.len() && ((#[trigger] runs[i]).start < start || runs[i].start
                        > end) implies is_boundary(bytes, runs[i].start as int) by {
                    if runs[i].start < start {
                        assert(out[i] == mid[i]);
                        assert(mid[i] == head[i]);
                        assert(head[i] == runs[i]);
                    } else {
                        assert(out[i - m + mid.len()] == runs[i]);
                    }
                }
            }
        }
        assert(out.len() > 0 && out[0].start == 0) by {
            if k == 0 {
                assert(!(runs[0].start < start as int));
                assert(head[0].start == start);
            } else {
                assert(head[0] == runs[0]);
            }
            assert(mid[0] == head[0]);
            assert(out[0] == mid[0]);
        }
    }
}

impl<T> Row<T> where T: PartialEq {
    /// The UTF-8 encoding of the row's text.
    pub open spec fn bytes(&self) -> Seq<u8> {
        encode_utf8(self.text@)
    }

    /// The row is as `new` makes it: no text, and one run of a default
    /// style.
    pub open spec fn fresh(&self) -> bool where T: Default {
        &&& self.text@ == Seq::<char>::empty()
        &&& self.runs@.len() == 1
        &&& self.runs@[0].start == 0
        &&& call_ensures(T::default, (), self.runs@[0].style)
    }

    /// What holds of every row: its runs are in order.
    pub open spec fn ordered(&self) -> bool {
        runs_ordered(self.runs@)
    }

    /// The runs are in order and lie on character boundaries of the text, so
    /// that the ranges of the runs split the text with no gap and no overlap.
    pub open spec fn wf(&self) -> bool {
        runs_cover(self.runs@, self.bytes())
    }
}

impl<T> Row<T> where T: PartialEq + Default {
    /// An empty row, with one run of the default style.
    pub fn new() -> (row: Row<T>)
        ensures
            row.wf(),
            row.fresh(),
    {
        let run = Run::<T> { start: 0, style: Default::default() };
        let mut runs = Vec::new();
        runs.push(run);
        let row = Row { runs: runs, text: String::new() };
        proof {
            encode_utf8_valid_utf8(row.text@);
            is_char_boundary_start_end_of_seq(row.bytes());
        }
        row
    }
}

impl<T> Row<T> where T: PartialEq {
    /// Gives the byte range `[start, end)` the style `style`.
    ///
    /// The new run list is `restyled` of the old one. Where `T` compares
    /// styles in a way Verus knows nothing of, the list is still the
    /// restyled one for some outcome of the two comparisons made.
    pub fn apply_style(&mut self, start: usize, end: usize, style: &T) where T: Copy
        requires
            old(self).ordered(),
        ensures
            final(self).text == old(self).text,
            final(self).ordered(),
            T::obeys_eq_spec() ==> final(self).runs@ == restyled(
                old(self).runs@,
                old(self).bytes().len() as int,
                start,
                end,
                *style,
            ),
            exists|differs_before: bool, differs_after: bool|
                final(self).runs@ == #[trigger] restyled_with(
                    old(self).runs@,
                    old(self).bytes().len() as int,
                    start,
                    end,
                    *style,
                    differs_before,
                    differs_after,
                ),
            old(self).wf() && (start >= end || (is_boundary(old(self).bytes(), start as int)
                && is_boundary(old(self).bytes(), end as int))) ==> final(self).wf(),
            start < end && is_boundary(old(self).bytes(), start as int) && is_boundary(
                old(self).bytes(),
                end as int,
            ) ==> (final(self).wf() <==> kept_on_boundaries(
                old(self).runs@,
                old(self).bytes(),
                start,
                end,
            )),
    {
        let ghost runs = self.runs@;
        let ghost bytes = self.bytes();
        let ghost blen = bytes.len() as int;
        if start >= end {
            assert(self.runs@ == restyled_with(runs, blen, start, end, *style, true, true));
            return ;
        }
        let n = self.runs.len();
        let len = byte_len(self.text.as_str());
        let mut out: Vec<Run<T>> = Vec::new();
        let mut k: usize = 0;
        while k < n && self.runs[k].start < start
            invariant
                self.runs@ == runs,
                n == runs.len(),
                k <= n,
                out@ == runs.take(k as int),
                forall|i: int| 0 <= i < k ==> (#[trigger] runs[i]).start < start,
            decreases n - k,
        {
            out.push(self.runs[k]);
            k = k + 1;
            proof {
                assert(out@ =~= runs.take(k as int));
            }
        }
        proof {
            lemma_runs_before(runs, start as int);
            let kk = runs_before(runs, start as int);
            if kk < k {
                assert(runs[kk].start < start);
            }
            if k < kk {
                assert(runs[k as int].start < start as int);
            }
            assert(k == kk);
        }
        let ghost spec_before = k > 0 && !runs[k - 1].style.eq_spec(style);
        let mut differs_before = true;
        if k > 0 {
            differs_before = self.runs[k - 1].style != *style;
        }
        let ghost seen_before = if k > 0 {
            differs_before
        } else {
            spec_before
        };
        if differs_before {
            out.push(Run { start: start, style: *style });
        }
        let ghost head = out@;
        let mut m: usize = k;
        while m < n && self.runs[m].start <= end
            invariant
                self.runs@ == runs,
                n == runs.len(),
                k <= m <= n,
                forall|i: int| k <= i < m ==> (#[trigger] runs[i]).start <= end,
            decreases n - m,
        {
            m = m + 1;
        }
        proof {
            lemma_runs_before(runs, end as int + 1);
            let mm = runs_before(runs, end as int + 1);
            if mm < m {
                if mm < k {
                    assert(runs[mm].start < start);
                } else {
                    assert(runs[mm].start <= end);
                }
            }
            if m < mm {
                assert(runs[m as int].start < end as int + 1);
            }
            assert(m == mm);
        }
        let ghost spec_after = m > 0 && !runs[m - 1].style.eq_spec(style);
        let ghost mut seen_after = spec_after;
        if end < len && m > 0 {
            let differs_after = self.runs[m - 1].style != *style;
            proof {
                seen_after = differs_after;
            }
            if differs_after {
                out.push(Run { start: end, style: self.runs[m - 1].style });
            }
        }
        let ghost mid = out@;
        let mut j: usize = m;
        while j < n
            invariant
                self.runs@ == runs,
                n == runs.len(),
                m <= j <= n,
                out@ == mid + runs.subrange(m as int, j as int),
            decreases n - j,
        {
            out.push(self.runs[j]);
            j = j + 1;
            proof {
                assert(out@ =~= mid + runs.subrange(m as int, j as int));
            }
        }
        proof {
            assert(runs.subrange(m as int, n as int) =~= runs.skip(m as int));
            assert(out@ == restyled_with(runs, blen, start, end, *style, seen_before, seen_after));
            lemma_restyled_covers(runs, bytes, start, end, *style, seen_before, seen_after);
        }
        self.runs = out;
    }
}


/// Where grapheme cluster `n` of the text `bytes` starts, and how many
/// spaces the text is short of having `n` clusters. Beyond the end the
/// offset counts one byte for each missing space.
pub open spec fn cluster_offset(bytes: Seq<u8>, n: int) -> (int, int) {
    let g = clusters(bytes);
    if n < g.len() {
        (g[n] as int, 0)
    } else {
        (bytes.len() + n - g.len(), n - g.len())
    }
}

/// Where the range ends that writing `count` clusters at cluster `n`
/// replaces: `count` clusters after the start, counted in the text that
/// follows the start, or the end of the text where it has fewer.
pub open spec fn replaced_end(bytes: Seq<u8>, n: int, count: int) -> int {
    let g = clusters(bytes);
    if n < g.len() {
        let start = g[n] as int;
        let rest = clusters(bytes.subrange(start, bytes.len() as int));
        if count < rest.len() {
            start + rest[count]
        } else {
            bytes.len() as int
        }
    } else {
        bytes.len() + n - g.len()
    }
}

/// Writing `s` at cluster `n` leaves the bytes behind it where they were:
/// the write lies beyond the end of the text, or `s` is as long in bytes as
/// the text it replaces.
pub open spec fn keeps_width(bytes: Seq<u8>, n: int, s: Seq<u8>) -> bool {
    n >= clusters(bytes).len() || replaced_end(bytes, n, clusters(s).len() as int)
        - cluster_offset(bytes, n).0 == s.len()
}

/// The text after `s` has been written at cluster `n`: inside the text `s`
/// replaces as many clusters as it holds, beyond its end the text is padded
/// with spaces up to cluster `n` first.
pub open spec fn overwritten(bytes: Seq<u8>, n: int, s: Seq<u8>) -> Seq<u8> {
    let g = clusters(bytes);
    if n < g.len() {
        bytes.subrange(0, g[n] as int) + s + bytes.subrange(
            replaced_end(bytes, n, clusters(s).len() as int),
            bytes.len() as int,
        )
    } else {
        bytes + spaces((n - g.len()) as nat) + s
    }
}

impl<T> Row<T> where T: PartialEq {
    /// The byte range of run `i`: from its start to the start of the next
    /// run, or to the end of the text.
    pub open spec fn run_range(&self, i: int) -> (int, int) {
        (
            self.runs@[i].start as int,
            if i + 1 < self.runs@.len() {
                self.runs@[i + 1].start as int
            } else {
                self.bytes().len() as int
            },
        )
    }

    /// `after` is this row with the text `s` written at grapheme cluster `n`
    /// in the style `style`.
    ///
    /// Writing nothing changes nothing. Otherwise the text is `overwritten`,
    /// which puts `s` at the byte offset that cluster `n` resolves to, and
    /// the runs are restyled over the bytes of `s`. Runs behind those bytes
    /// keep their offsets, so a row that was well formed stays so exactly
    /// when they still lie on character boundaries.
    pub open spec fn overwritten_as(&self, after: Row<T>, n: u16, s: Seq<char>, style: T) -> bool {
        if s.len() == 0 {
            after == *self
        } else {
            let start = cluster_offset(self.bytes(), n as int).0;
            let end = start + encode_utf8(s).len();
            &&& after.bytes() == overwritten(self.bytes(), n as int, encode_utf8(s))
            &&& end <= after.bytes().len()
            &&& after.bytes().subrange(start, end) == encode_utf8(s)
            &&& T::obeys_eq_spec() ==> after.runs@ == restyled(
                self.runs@,
                after.bytes().len() as int,
                start as usize,
                end as usize,
                style,
            )
            &&& exists|differs_before: bool, differs_after: bool|
                after.runs@ == #[trigger] restyled_with(
                    self.runs@,
                    after.bytes().len() as int,
                    start as usize,
                    end as usize,
                    style,
                    differs_before,
                    differs_after,
                )
            &&& self.wf() ==> (after.wf() <==> forall|i: int|
                0 <= i < self.runs@.len() && (#[trigger] self.runs@[i]).start > end ==> is_boundary(
                    after.bytes(),
                    self.runs@[i].start as int,
                ))
        }
    }

    /// `after` is this row cut before grapheme cluster `n`: the text ends
    /// where that cluster started and the runs that started behind it are
    /// gone. A row that has no such cluster is unchanged.
    pub open spec fn truncated_as(&self, after: Row<T>, n: u16) -> bool {
        if n >= clusters(self.bytes()).len() {
            after == *self
        } else {
            let cut = clusters(self.bytes())[n as int] as int;
            &&& after.bytes() == self.bytes().subrange(0, cut)
            &&& after.runs@ == self.runs@.take(runs_before(self.runs@, cut + 1))
        }
    }

    /// `after` is this row with the text `s` appended in the style `style`:
    /// the text is longer by `s`, and the runs are restyled over the bytes
    /// of `s`.
    pub open spec fn appended_as(&self, after: Row<T>, s: Seq<char>, style: T) -> bool {
        &&& after.text@ == self.text@ + s
        &&& after.bytes() == self.bytes() + encode_utf8(s)
        &&& T::obeys_eq_spec() ==> after.runs@ == restyled(
            self.runs@,
            after.bytes().len() as int,
            self.bytes().len() as usize,
            after.bytes().len() as usize,
            style,
        )
        &&& exists|differs_before: bool, differs_after: bool|
            after.runs@ == #[trigger] restyled_with(
                self.runs@,
                after.bytes().len() as int,
                self.bytes().len() as usize,
                after.bytes().len() as usize,
                style,
                differs_before,
                differs_after,
            )
    }

    /// Whether the runs are in order and on character boundaries.
    pub fn is_wf(&self) -> (ok: bool)
        ensures
            ok == self.wf(),
    {
        let n = self.runs.len();
        if n == 0 || self.runs[0].start != 0 {
            return false;
        }
        let text = self.text.as_str();
        let mut i: usize = 1;
        proof {
            encode_utf8_valid_utf8(self.text@);
            is_char_boundary_start_end_of_seq(self.bytes());
        }
        while i < n
            invariant
                1 <= i <= n,
                n == self.runs@.len(),
                text@ == self.text@,
                valid_utf8(self.bytes()),
                self.runs@[0].start == 0,
                forall|a: int, b: int| 0 <= a < b < i ==> self.runs@[a].start < self.runs@[b].start,
                forall|a: int|
                    0 <= a < i ==> is_boundary(self.bytes(), #[trigger] self.runs@[a].start as int),
            decreases n - i,
        {
            if self.runs[i - 1].start >= self.runs[i].start {
                return false;
            }
            if !text.is_char_boundary(self.runs[i].start) {
                proof {
                    lemma_off_boundary(self.bytes(), self.runs@[i as int].start as int);
                }
                return false;
            }
            proof {
                lemma_off_boundary(self.bytes(), self.runs@[i as int].start as int);
                assert forall|a: int, b: int| 0 <= a < b < i + 1 implies self.runs@[a].start
                    < self.runs@[b].start by {
                    if b == i && a < i - 1 {
                        assert(self.runs@[a].start < self.runs@[i - 1].start);
                    }
                }
            }
            i = i + 1;
        }
        true
    }

    /// A walk over the byte ranges of the runs, in order.
    pub fn iter_run_ranges(&self) -> (it: RowIterRunRanges<'_, T>)
        ensures
            it.row == self,
            it.cur == 0,
    {
        RowIterRunRanges { row: self, cur: 0 }
    }

    /// A walk over the text of the runs with their styles, cut off after
    /// `width` grapheme clusters.
    pub fn iter_width(&self, width: u16) -> (it: RowIter<'_, T>)
        requires
            self.wf(),
        ensures
            it.row == self,
            it.width == width,
            it.graphemes == 0,
            it.cur == 0,
            it.inv(),
    {
        RowIter { row: self, width: width as usize, graphemes: 0, cur: 0 }
    }

    /// A walk over the text of the runs with their styles.
    pub fn iter(&self) -> (it: RowIter<'_, T>)
        requires
            self.wf(),
        ensures
            it.row == self,
            it.width == u16::MAX,
            it.graphemes == 0,
            it.cur == 0,
            it.inv(),
    {
        self.iter_width(u16::MAX)
    }

    /// Appends `s` to the text and gives the new part the style `style`.
    pub fn append(&mut self, s: &str, style: &T) where T: Copy
        requires
            old(self).ordered(),
        ensures
            final(self).ordered(),
            old(self).wf() ==> final(self).wf(),
            old(self).appended_as(*final(self), s@, *style),
    {
        let ghost before = self.bytes();
        let ghost runs = self.runs@;
        let l = byte_len(self.text.as_str());
        self.text.append(s);
        let end = byte_len(self.text.as_str());
        proof {
            lemma_encode_concat(old(self).text@, s@);
            encode_utf8_valid_utf8(old(self).text@);
            encode_utf8_valid_utf8(s@);
            is_char_boundary_start_end_of_seq(before);
            let empty = Seq::<u8>::empty();
            assert(before + s.spec_bytes() + empty =~= self.bytes());
            lemma_boundary_spliced(before, s.spec_bytes(), empty, l as int);
            if runs_cover(runs, before) {
                assert forall|i: int| 0 <= i < runs.len() implies is_boundary(
                    self.bytes(),
                    (#[trigger] runs[i]).start as int,
                ) by {
                    lemma_boundary_spliced(before, s.spec_bytes(), empty, runs[i].start as int);
                }
            }
        }
        self.apply_style(l, end, style);
        proof {
            let (a, b): (bool, bool) = choose|a: bool, b: bool|
                self.runs@ == #[trigger] restyled_with(runs, end as int, l, end, *style, a, b);
            assert(self.runs@ == restyled_with(
                runs,
                self.bytes().len() as int,
                before.len() as usize,
                self.bytes().len() as usize,
                *style,
                a,
                b,
            ));
        }
    }

    /// Writes `s` at grapheme cluster `grapheme_index` in the style `style`
    /// and returns the number of clusters in `s`.
    ///
    /// Inside the text `s` replaces as many clusters as it holds; beyond the
    /// end the row is padded with spaces first. The runs are restyled over
    /// the bytes written and are otherwise left as they were: where `s` is
    /// not as long in bytes as the text it replaces, the runs behind it keep
    /// their offsets, and the row is well formed only if they still lie on
    /// character boundaries.
    pub fn splice_at(&mut self, grapheme_index: u16, s: &str, style: &T) -> (count: usize) where
        T: Copy,

        requires
            old(self).ordered(),
        ensures
            count == grapheme_starts(s@).len(),
            final(self).ordered(),
            old(self).overwritten_as(*final(self), grapheme_index, s@, *style),
            old(self).wf() && keeps_width(old(self).bytes(), grapheme_index as int, s.spec_bytes())
                ==> final(self).wf(),
    {
        let s_len = count_graphemes(s);
        if s_len == 0 {
            return 0;
        }
        let ghost before = self.bytes();
        let ghost runs = self.runs@;
        let ghost sb = s.spec_bytes();
        let n = grapheme_index as usize;
        let g = grapheme_offsets(self.text.as_str());
        proof {
            encode_utf8_decode_utf8(self.text@);
            encode_utf8_decode_utf8(s@);
            encode_utf8_valid_utf8(self.text@);
            encode_utf8_valid_utf8(s@);
            is_char_boundary_start_end_of_seq(before);
        }
        let ghost head: Seq<u8>;
        let ghost tail: Seq<u8>;
        let ghost cut: int;
        let start: usize;
        if n < g.len() {
            let text = self.text.as_str();
            let old_len = byte_len(text);
            start = g[n];
            let rest = slice(text, start, old_len);
            let h = grapheme_offsets(rest);
            let end = if s_len < h.len() {
                start + h[s_len]
            } else {
                old_len
            };
            proof {
                lemma_subrange_valid(before, start as int, old_len as int);
                if s_len < h.len() {
                    lemma_boundary_subrange(before, start as int, old_len as int, end as int);
                }
                head = before.subrange(0, start as int);
                tail = before.subrange(end as int, old_len as int);
                cut = end as int;
                lemma_subrange_valid(before, 0, start as int);
                lemma_subrange_valid(before, end as int, old_len as int);
            }
            let front = slice(text, 0, start);
            let back = slice(text, end, old_len);
            let mut t = String::new();
            t.append(front);
            t.append(s);
            t.append(back);
            proof {
                assert(Seq::<char>::empty() + front@ =~= front@);
                lemma_encode_concat(front@, s@);
                lemma_encode_concat(front@ + s@, back@);
            }
            self.text = t;
        } else {
            let pad = n - g.len();
            let padding = blanks(pad);
            self.text.append(padding.as_str());
            start = byte_len(self.text.as_str());
            self.text.append(s);
            proof {
                lemma_encode_concat(old(self).text@, padding@);
                lemma_encode_concat(old(self).text@ + padding@, s@);
                encode_utf8_valid_utf8(old(self).text@ + padding@);
                encode_utf8_valid_utf8(padding@);
                head = before + spaces(pad as nat);
                tail = Seq::<u8>::empty();
                cut = before.len() as int;
                assert(head + sb + tail =~= head + sb);
            }
        }
        proof {
            assert(n >= g@.len() ==> valid_utf8(spaces((n - g@.len()) as nat)));
            assert(self.bytes() == head + sb + tail);
            assert(start == head.len());
            is_char_boundary_start_end_of_seq(head);
            lemma_boundary_spliced(head, sb, tail, start as int);
            assert(self.bytes().subrange(start as int, start + sb.len()) =~= sb);
        }
        let written = byte_len(s);
        let new_len = byte_len(self.text.as_str());
        let end = start + written;
        let ghost now = self.bytes();
        proof {
            if runs_cover(runs, before) {
                assert forall|i: int| 0 <= i < runs.len() && (#[trigger] runs[i]).start
                    < start implies is_boundary(now, runs[i].start as int) by {
                    let p = runs[i].start as int;
                    if n < g@.len() {
                        lemma_boundary_subrange(before, 0, start as int, p);
                    } else {
                        lemma_off_boundary(before, p);
                        if p <= before.len() {
                            lemma_boundary_concat_left(before, spaces((n - g@.len()) as nat), p);
                        }
                    }
                    lemma_off_boundary(head, p);
                    lemma_boundary_spliced(head, sb, tail, p);
                }
            }
        }
        self.apply_style(start, end, style);
        proof {
            lemma_empty_text(s@);
            let (a, b): (bool, bool) = choose|a: bool, b: bool|
                self.runs@ == #[trigger] restyled_with(
                    runs,
                    new_len as int,
                    start,
                    end,
                    *style,
                    a,
                    b,
                );
            assert(now == overwritten(before, grapheme_index as int, sb));
            assert(start == cluster_offset(before, grapheme_index as int).0);
            let start_int = cluster_offset(before, grapheme_index as int).0;
            let end_int = start_int + sb.len();
            assert(self.runs@ == restyled_with(
                runs,
                self.bytes().len() as int,
                start_int as usize,
                end_int as usize,
                *style,
                a,
                b,
            ));
            if runs_cover(runs, before) {
                assert(self.wf() <==> kept_on_boundaries(runs, now, start, end));
                assert(self.wf() <==> forall|i: int|
                    0 <= i < runs.len() && (#[trigger] runs[i]).start > end ==> is_boundary(
                        now,
                        runs[i].start as int,
                    ));
                if keeps_width(before, grapheme_index as int, sb) {
                    assert forall|i: int|
                        0 <= i < runs.len() && (#[trigger] runs[i]).start > end implies is_boundary(
                        now,
                        runs[i].start as int,
                    ) by {
                        let p = runs[i].start as int;
                        assert(is_boundary(before, p));
                        if n < g@.len() {
                            assert(cut == end);
                            lemma_boundary_subrange(before, cut, before.len() as int, p);
                            valid_utf8_concat(head, sb);
                            lemma_boundary_concat_right(head + sb, tail, p - cut);
                        }
                    }
                }
            }
        }
        s_len
    }

    /// Writes `s` at grapheme cluster `grapheme_index` in the style `style`,
    /// as `splice_at` does, and returns the cluster index after the text
    /// written.
    pub fn overwrite_at(&mut self, grapheme_index: u16, s: &str, style: &T) -> (next: u16) where
        T: Copy,

        requires
            old(self).ordered(),
            grapheme_index + grapheme_starts(s@).len() <= u16::MAX,
        ensures
            next == grapheme_index + grapheme_starts(s@).len(),
            final(self).ordered(),
            old(self).overwritten_as(*final(self), grapheme_index, s@, *style),
            old(self).wf() && keeps_width(old(self).bytes(), grapheme_index as int, s.spec_bytes())
                ==> final(self).wf(),
    {
        let count = self.splice_at(grapheme_index, s, style);
        grapheme_index + count as u16
    }

    /// Writes `s` as `overwrite_at` does where the cluster index after it
    /// fits in 16 bits, and otherwise leaves the row as it is and returns
    /// `None`.
    pub fn try_overwrite_at(&mut self, grapheme_index: u16, s: &str, style: &T) -> (next: Option<
        u16,
    >) where T: Copy
        requires
            old(self).ordered(),
        ensures
            final(self).ordered(),
            match next {
                Some(index) => {
                    &&& index == grapheme_index + grapheme_starts(s@).len()
                    &&& old(self).overwritten_as(*final(self), grapheme_index, s@, *style)
                    &&& old(self).wf() && keeps_width(
                        old(self).bytes(),
                        grapheme_index as int,
                        s.spec_bytes(),
                    ) ==> final(self).wf()
                },
                None => {
                    &&& grapheme_index + grapheme_starts(s@).len() > u16::MAX
                    &&& *final(self) == *old(self)
                },
            },
    {
        let count = count_graphemes(s);
        if count > (u16::MAX - grapheme_index) as usize {
            return None;
        }
        Some(self.overwrite_at(grapheme_index, s, style))
    }

    /// Resolves grapheme cluster `grapheme_index` to a byte offset and the
    /// number of spaces the row is short of reaching it.
    pub fn find_grapheme_index(&self, grapheme_index: u16) -> (at: (usize, usize))
        requires
            self.bytes().len() + grapheme_index <= usize::MAX,
        ensures
            at.0 == cluster_offset(self.bytes(), grapheme_index as int).0,
            at.1 == cluster_offset(self.bytes(), grapheme_index as int).1,
            grapheme_index < clusters(self.bytes()).len() ==> at.0 < self.bytes().len()
                && is_boundary(self.bytes(), at.0 as int),
            grapheme_index >= clusters(self.bytes()).len() ==> at.0 >= self.bytes().len(),
    {
        let text = self.text.as_str();
        let g = grapheme_offsets(text);
        proof {
            encode_utf8_decode_utf8(self.text@);
            lemma_segmentation_short(self.bytes(), g@);
        }
        let n = grapheme_index as usize;
        if n < g.len() {
            (g[n], 0)
        } else {
            let pad = n - g.len();
            (byte_len(text) + pad, pad)
        }
    }

    /// Cuts the text before grapheme cluster `grapheme_index` and drops the
    /// runs that start beyond the cut. A row that has no such cluster is left
    /// as it is.
    pub fn truncate_at(&mut self, grapheme_index: u16)
        requires
            old(self).ordered(),
        ensures
            final(self).ordered(),
            old(self).wf() ==> final(self).wf(),
            old(self).truncated_as(*final(self), grapheme_index),
    {
        let g = grapheme_offsets(self.text.as_str());
        proof {
            encode_utf8_decode_utf8(self.text@);
            encode_utf8_valid_utf8(self.text@);
        }
        let n = grapheme_index as usize;
        if n >= g.len() {
            return ;
        }
        let cut = g[n];
        let ghost runs = self.runs@;
        let ghost bytes = self.bytes();
        let kept = slice(self.text.as_str(), 0, cut).to_owned();
        let count = self.runs.len();
        let mut m: usize = 0;
        while m < count && self.runs[m].start <= cut
            invariant
                self.runs@ == runs,
                count == runs.len(),
                m <= count,
                forall|i: int| 0 <= i < m ==> (#[trigger] runs[i]).start <= cut,
            decreases count - m,
        {
            m = m + 1;
        }
        proof {
            lemma_runs_before(runs, cut as int + 1);
            let mm = runs_before(runs, cut as int + 1);
            if mm < m {
                assert(runs[mm].start <= cut);
            }
            if m < mm {
                assert(runs[m as int].start < cut as int + 1);
            }
        }
        self.runs.truncate(m);
        self.text = kept;
        proof {
            assert(self.runs@ == runs.take(m as int));
            assert(self.runs@[0] == runs[0]);
            assert forall|i: int, j: int| 0 <= i < j < self.runs@.len() implies self.runs@[i].start
                < self.runs@[j].start by {
                assert(self.runs@[i] == runs[i] && self.runs@[j] == runs[j]);
            }
            if runs_cover(runs, bytes) {
                assert forall|i: int| 0 <= i < self.runs@.len() implies is_boundary(
                    self.bytes(),
                    #[trigger] self.runs@[i].start as int,
                ) by {
                    assert(self.runs@[i] == runs[i]);
                    lemma_boundary_subrange(bytes, 0, cut as int, runs[i].start as int);
                }
            }
        }
    }
}

/// An offset beyond the end of the text is no character boundary.
pub proof fn lemma_off_boundary(bytes: Seq<u8>, i: int)
    requires
        valid_utf8(bytes),
    ensures
        is_char_boundary(bytes, i) ==> 0 <= i <= bytes.len(),
    decreases bytes.len(),
{
    if i != 0 && 0 <= i <= bytes.len() {
    } else if i != 0 {
        reveal_with_fuel(is_char_boundary, 1);
    }
}

/// The walk over the byte ranges of a row's runs.
pub struct RowIterRunRanges<'a, T> where T: PartialEq {
    pub row: &'a Row<T>,
    pub cur: usize,
}

impl<'a, T> RowIterRunRanges<'a, T> where T: PartialEq {
    /// The byte range of the next run, or `None` after the last.
    pub fn next(&mut self) -> (item: Option<Range<usize>>)
        ensures
            final(self).row == old(self).row,
            match item {
                Some(r) => {
                    &&& old(self).cur < old(self).row.runs@.len()
                    &&& final(self).cur == old(self).cur + 1
                    &&& r.start == old(self).row.run_range(old(self).cur as int).0
                    &&& r.end == old(self).row.run_range(old(self).cur as int).1
                },
                None => old(self).cur >= old(self).row.runs@.len() && final(self).cur == old(
                    self,
                ).cur,
            },
    {
        let l = self.row.runs.len();
        let i = self.cur;
        if i >= l {
            return None;
        }
        let end = if i + 1 >= l {
            byte_len(self.row.text.as_str())
        } else {
            self.row.runs[i + 1].start
        };
        self.cur = i + 1;
        Some(self.row.runs[i].start..end)
    }
}

/// The walk over the text of a row's runs, cut off at a width.
pub struct RowIter<'a, T> where T: PartialEq {
    pub row: &'a Row<T>,
    pub width: usize,
    pub graphemes: usize,
    pub cur: usize,
}

/// Where the text of a run is cut that may show `room` more clusters: after
/// `room` clusters of the run's own text `run`, or at its end where it has
/// no more than that.
pub open spec fn cut_length(run: Seq<u8>, room: int) -> int {
    let g = clusters(run);
    if room < g.len() {
        g[room] as int
    } else {
        run.len() as int
    }
}

impl<'a, T> RowIter<'a, T> where T: PartialEq {
    /// The row is well formed and the clusters counted so far lie in the
    /// runs already passed.
    pub open spec fn inv(&self) -> bool {
        &&& self.row.wf()
        &&& self.cur <= self.row.runs@.len()
        &&& self.cur < self.row.runs@.len() ==> self.graphemes <= self.row.runs@[self.cur as int].start
    }

    /// The text and style of the next run, or `None` after the last run or
    /// once `width` clusters have been handed out. The text of a run that
    /// would pass the width is cut after the clusters that still fit.
    pub fn next(&mut self) -> (item: Option<(&'a str, &'a T)>)
        requires
            old(self).inv(),
        ensures
            final(self).inv(),
            final(self).row == old(self).row,
            final(self).width == old(self).width,
            match item {
                Some((text, style)) => {
                    let range = old(self).row.run_range(old(self).cur as int);
                    let run = old(self).row.bytes().subrange(range.0, range.1);
                    let cut = cut_length(run, old(self).width - old(self).graphemes);
                    &&& old(self).graphemes < old(self).width
                    &&& old(self).cur < old(self).row.runs@.len()
                    &&& text.spec_bytes() == run.subrange(0, cut)
                    &&& *style == old(self).row.runs@[old(self).cur as int].style
                    &&& final(self).cur == old(self).cur + 1
                    &&& final(self).graphemes == old(self).graphemes + clusters(
                        run.subrange(0, cut),
                    ).len()
                },
                None => {
                    &&& old(self).graphemes >= old(self).width || old(self).cur >= old(
                        self,
                    ).row.runs@.len()
                    &&& final(self).cur == old(self).cur
                    &&& final(self).graphemes == old(self).graphemes
                },
            },
    {
        if self.graphemes >= self.width {
            return None;
        }
        let row = self.row;
        let l = row.runs.len();
        let i = self.cur;
        if i >= l {
            return None;
        }
        let text = row.text.as_str();
        let start = row.runs[i].start;
        let end = if i + 1 >= l {
            byte_len(text)
        } else {
            row.runs[i + 1].start
        };
        proof {
            encode_utf8_valid_utf8(row.text@);
            is_char_boundary_start_end_of_seq(row.bytes());
            if i + 1 < l {
                assert(row.runs@[i as int].start < row.runs@[i + 1].start);
            }
        }
        let run_text = slice(text, start, end);
        let g = grapheme_offsets(run_text);
        let room = self.width - self.graphemes;
        let ghost run = row.bytes().subrange(start as int, end as int);
        proof {
            lemma_subrange_valid(row.bytes(), start as int, end as int);
        }
        let cut = if room < g.len() {
            g[room]
        } else {
            end - start
        };
        proof {
            is_char_boundary_start_end_of_seq(run);
        }
        let shown = slice(run_text, 0, cut);
        let seen = count_graphemes(shown);
        proof {
            assert(shown.spec_bytes() == run.subrange(0, cut as int));
            encode_utf8_decode_utf8(shown@);
        }
        self.graphemes = self.graphemes + seen;
        self.cur = i + 1;
        Some((shown, &row.runs[i].style))
    }
}
} // verus!
