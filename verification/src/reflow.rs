//! Rows cut out of a line of text for showing it wrapped.

use crate::chgrid::{restyled, Row, Run};
use crate::text::{byte_len, is_boundary, lemma_boundary_subrange, slice};
use crate::wrap::{segments, tiled, wrap_spans, Piece};
use vstd::prelude::*;
use vstd::std_specs::cmp::PartialEqSpec;
use vstd::string::*;
use vstd::utf8::*;

verus! {

/// The offset nearest to `at` in the range from `start` to `end`.
pub open spec fn clamped(at: int, start: int, end: int) -> int {
    if at < start {
        start
    } else if at > end {
        end
    } else {
        at
    }
}

/// The runs of a row that shows the bytes from `start` to `end` of `line`:
/// `runs` restyled with each run of the line from run `i` on in turn, over
/// the part of the run that lies in the range.
pub open spec fn cut_runs<T: PartialEq>(
    runs: Seq<Run<T>>,
    line: Row<T>,
    start: int,
    end: int,
    i: int,
) -> Seq<Run<T>>
    decreases line.runs@.len() - i,
{
    if i < 0 || i >= line.runs@.len() {
        runs
    } else {
        let range = line.run_range(i);
        let lo = clamped(range.0, start, end) - start;
        let hi = clamped(range.1, start, end) - start;
        cut_runs(
            restyled(runs, end - start, lo as usize, hi as usize, line.runs@[i].style),
            line,
            start,
            end,
            i + 1,
        )
    }
}

/// `row` shows the segment `piece` of `line`: it is well formed, its text
/// is that of the segment, and its runs are those of a fresh row restyled
/// with the runs of the line.
pub open spec fn cut_of<T: PartialEq + Default>(line: Row<T>, piece: Piece, row: Row<T>) -> bool {
    &&& row.wf()
    &&& row.bytes() == line.bytes().subrange(piece.start, piece.end)
    &&& exists|base: Row<T>| #[trigger]
        base.fresh() && (T::obeys_eq_spec() ==> row.runs@ == cut_runs(
            base.runs@,
            line,
            piece.start,
            piece.end,
            0,
        ))
}

/// The row that shows the text `text`, which `line` has at offset `start`,
/// in the styles that it has in the line.
pub fn cut_row<T>(line: &Row<T>, start: usize, text: &str) -> (row: Row<T>) where
    T: PartialEq + Default + Copy,

    requires
        line.wf(),
        start + text.spec_bytes().len() <= line.bytes().len(),
        is_boundary(line.bytes(), start as int),
        is_boundary(line.bytes(), start + text.spec_bytes().len()),
        text.spec_bytes() == line.bytes().subrange(
            start as int,
            start + text.spec_bytes().len(),
        ),
    ensures
        row.wf(),
        row.bytes() == text.spec_bytes(),
        exists|base: Row<T>| #[trigger]
            base.fresh() && (T::obeys_eq_spec() ==> row.runs@ == cut_runs(
                base.runs@,
                *line,
                start as int,
                start + text.spec_bytes().len(),
                0,
            )),
{
    let mut row: Row<T> = Row::new();
    let ghost base = row;
    row.text = text.to_owned();
    let len = byte_len(text);
    let line_len = byte_len(line.text.as_str());
    let end = start + len;
    let n = line.runs.len();
    let ghost lb = line.bytes();
    proof {
        encode_utf8_valid_utf8(text@);
        encode_utf8_valid_utf8(line.text@);
        is_char_boundary_start_end_of_seq(text.spec_bytes());
        is_char_boundary_start_end_of_seq(lb);
        assert(row.wf());
    }
    let mut i: usize = 0;
    while i < n
        invariant
            i <= n,
            n == line.runs@.len(),
            line.wf(),
            lb == line.bytes(),
            valid_utf8(lb),
            line_len == lb.len(),
            end == start + len,
            end <= lb.len(),
            len == text.spec_bytes().len(),
            is_boundary(lb, start as int),
            is_boundary(lb, end as int),
            row.bytes() == text.spec_bytes(),
            row.bytes() == lb.subrange(start as int, end as int),
            row.wf(),
            T::obeys_eq_spec() ==> cut_runs(base.runs@, *line, start as int, end as int, 0)
                == cut_runs(row.runs@, *line, start as int, end as int, i as int),
        decreases n - i,
    {
        let from = line.runs[i].start;
        let to = if i + 1 < n {
            line.runs[i + 1].start
        } else {
            line_len
        };
        proof {
            if i + 1 < n {
                assert(line.runs@[i as int].start < line.runs@[i + 1].start);
            }
        }
        let lo = if from < start {
            start
        } else if from > end {
            end
        } else {
            from
        };
        let hi = if to < start {
            start
        } else if to > end {
            end
        } else {
            to
        };
        proof {
            lemma_boundary_subrange(lb, start as int, end as int, lo as int);
            lemma_boundary_subrange(lb, start as int, end as int, hi as int);
        }
        row.apply_style(lo - start, hi - start, &line.runs[i].style);
        i = i + 1;
    }
    row
}

/// Adds to `rows` a row for each segment of `line` at the width `width`.
pub fn wrap_line<T>(line: &Row<T>, width: usize, rows: &mut Vec<Row<T>>) where
    T: PartialEq + Default + Copy,

    requires
        line.wf(),
    ensures
        final(rows)@.len() == old(rows)@.len() + segments(line.bytes(), width as int, 0).len(),
        forall|i: int| 0 <= i < old(rows)@.len() ==> #[trigger] final(rows)@[i] == old(rows)@[i],
        forall|k: int|
            0 <= k < segments(line.bytes(), width as int, 0).len() ==> cut_of(
                *line,
                segments(line.bytes(), width as int, 0)[k],
                #[trigger] final(rows)@[old(rows)@.len() + k],
            ),
{
    let text = line.text.as_str();
    let spans = wrap_spans(text, width, 0);
    let n = spans.len();
    let ghost all = segments(line.bytes(), width as int, 0);
    let mut k: usize = 0;
    while k < n
        invariant
            line.wf(),
            text@ == line.text@,
            all == segments(line.bytes(), width as int, 0),
            n == spans@.len(),
            n == all.len(),
            k <= n,
            forall|i: int|
                0 <= i < n ==> {
                    &&& (#[trigger] spans@[i]).0 == all[i].start
                    &&& spans@[i].1 == all[i].end
                    &&& is_boundary(line.bytes(), all[i].start)
                    &&& is_boundary(line.bytes(), all[i].end)
                },
            tiled(line.bytes(), spans@),
            rows@.len() == old(rows)@.len() + k,
            forall|i: int| 0 <= i < old(rows)@.len() ==> #[trigger] rows@[i] == old(rows)@[i],
            forall|j: int|
                0 <= j < k ==> cut_of(*line, all[j], #[trigger] rows@[old(rows)@.len() + j]),
        decreases n - k,
    {
        let (start, end) = spans[k];
        let piece = slice(text, start, end);
        let row = cut_row(line, start, piece);
        let ghost before = rows@;
        rows.push(row);
        proof {
            assert forall|j: int| 0 <= j < k + 1 implies cut_of(
                *line,
                all[j],
                #[trigger] rows@[old(rows)@.len() + j],
            ) by {
                if j < k {
                    assert(rows@[old(rows)@.len() + j] == before[old(rows)@.len() + j]);
                }
            }
        }
        k = k + 1;
    }
}

/// `rows` are the rows that show the lines `lines` wrapped at `width`: for
/// each line in turn, a row for each of its segments.
pub open spec fn reflowed<T: PartialEq + Default>(
    lines: Seq<Row<T>>,
    width: int,
    rows: Seq<Row<T>>,
) -> bool
    decreases lines.len(),
{
    if lines.len() == 0 {
        rows.len() == 0
    } else {
        let line = lines.last();
        let parts = segments(line.bytes(), width, 0);
        let above = rows.len() - parts.len();
        &&& above >= 0
        &&& reflowed(lines.drop_last(), width, rows.take(above))
        &&& forall|k: int| 0 <= k < parts.len() ==> cut_of(line, parts[k], #[trigger] rows[above + k])
    }
}

} // verus!
