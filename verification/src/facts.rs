//! What holds of restyled run lists and of text written into a row.

use crate::chgrid::{
    ascending, cluster_offset, lemma_restyled_covers, lemma_runs_before, overwritten,
    replaced_end, restyled, restyled_with, runs_before, runs_ordered, Run,
};
use crate::segment::{clusters, is_segmentation};
use crate::text::spaces;
use vstd::prelude::*;
use vstd::std_specs::cmp::PartialEqSpec;

verus! {

/// The style in force at byte offset `pos`: that of the last run that starts
/// at or before it.
pub open spec fn style_at<T: PartialEq>(runs: Seq<Run<T>>, pos: int) -> T {
    runs[runs_before(runs, pos + 1) - 1].style
}

/// `eq_spec` on `T` is equality.
pub open spec fn exact_eq<T: PartialEq>() -> bool {
    forall|a: T, b: T| #[trigger] a.eq_spec(&b) <==> a == b
}

/// The number of runs before `pos` is the one index that splits the list
/// there.
pub proof fn lemma_runs_before_is<T: PartialEq>(runs: Seq<Run<T>>, pos: int, j: int)
    requires
        ascending(runs),
        0 <= j <= runs.len(),
        forall|i: int| 0 <= i < j ==> (#[trigger] runs[i]).start < pos,
        forall|i: int| j <= i < runs.len() ==> (#[trigger] runs[i]).start >= pos,
    ensures
        runs_before(runs, pos) == j,
{
    lemma_runs_before(runs, pos);
    let k = runs_before(runs, pos);
    if k < j {
        assert(runs[k].start < pos);
    }
    if j < k {
        assert(runs[j].start >= pos);
    }
}

/// The number of runs that restyling opens the range with: one, unless the
/// run before the range has the style already.
pub open spec fn opened<T: PartialEq>(runs: Seq<Run<T>>, start: usize, differs_before: bool) -> int {
    if runs_before(runs, start as int) == 0 || differs_before {
        1
    } else {
        0
    }
}

/// The number of runs that restyling closes the range with: one where the
/// text goes on in another style, and else none.
pub open spec fn closed<T: PartialEq>(
    runs: Seq<Run<T>>,
    len: int,
    end: usize,
    differs_after: bool,
) -> int {
    if end < len && runs_before(runs, end as int + 1) > 0 && differs_after {
        1
    } else {
        0
    }
}

/// Whether the run in force just before `start` has another style than
/// `style`.
pub open spec fn differs_before<T: PartialEq>(runs: Seq<Run<T>>, start: usize, style: T) -> bool {
    let k = runs_before(runs, start as int);
    k > 0 && !runs[k - 1].style.eq_spec(&style)
}

/// Whether the run in force at `end` has another style than `style`.
pub open spec fn differs_after<T: PartialEq>(runs: Seq<Run<T>>, end: usize, style: T) -> bool {
    let m = runs_before(runs, end as int + 1);
    m > 0 && !runs[m - 1].style.eq_spec(&style)
}

/// `out` is made of the runs of `runs` before `start`, the runs that
/// restyling opens and closes the range with, and the runs of `runs` after
/// `end`.
pub open spec fn shaped<T: PartialEq>(
    out: Seq<Run<T>>,
    runs: Seq<Run<T>>,
    len: int,
    start: usize,
    end: usize,
    style: T,
    before: bool,
    after: bool,
) -> bool {
    let k = runs_before(runs, start as int);
    let m = runs_before(runs, end as int + 1);
    let o = opened(runs, start, before);
    let c = closed(runs, len, end, after);
    &&& 0 <= k <= m <= runs.len()
    &&& 1 <= m
    &&& out.len() == k + o + c + runs.len() - m
    &&& forall|i: int| 0 <= i < k ==> #[trigger] out[i] == runs[i]
    &&& o == 1 ==> out[k] == (Run { start: start, style: style })
    &&& c == 1 ==> out[k + o] == (Run { start: end, style: runs[m - 1].style })
    &&& forall|j: int| k + o + c <= j < out.len() ==> #[trigger] out[j] == runs[j - (k + o + c) + m]
}

/// The number of runs of `out` before `pos` is what it is in a restyled
/// list.
pub open spec fn counted<T: PartialEq>(
    out: Seq<Run<T>>,
    runs: Seq<Run<T>>,
    len: int,
    start: usize,
    end: usize,
    before: bool,
    after: bool,
    pos: int,
) -> bool {
    let k = runs_before(runs, start as int);
    let m = runs_before(runs, end as int + 1);
    let o = opened(runs, start, before);
    let c = closed(runs, len, end, after);
    runs_before(out, pos) == if pos <= start {
        runs_before(runs, pos)
    } else if pos <= end {
        k + o
    } else {
        k + o + c + runs_before(runs, pos) - m
    }
}

/// The runs before `start`, from there to `end`, and after `end` are the
/// first, the middle and the last ones of the list.
pub open spec fn within<T: PartialEq>(runs: Seq<Run<T>>, start: usize, end: usize) -> bool {
    let k = runs_before(runs, start as int);
    let m = runs_before(runs, end as int + 1);
    &&& forall|i: int| 0 <= i < k ==> (#[trigger] runs[i]).start < start
    &&& forall|i: int| k <= i < m ==> start <= (#[trigger] runs[i]).start <= end
    &&& forall|i: int| m <= i < runs.len() ==> (#[trigger] runs[i]).start > end
}

/// A later offset has no fewer runs before it.
pub proof fn lemma_runs_before_grows<T: PartialEq>(runs: Seq<Run<T>>, p: int, q: int)
    requires
        p <= q,
    ensures
        0 <= runs_before(runs, p) <= runs_before(runs, q) <= runs.len(),
    decreases runs.len(),
{
    if runs.len() > 0 {
        lemma_runs_before_grows(runs.drop_last(), p, q);
    }
}

/// The restyled list, element by element.
pub proof fn lemma_restyled_shape<T: PartialEq>(
    runs: Seq<Run<T>>,
    len: int,
    start: usize,
    end: usize,
    style: T,
    differs_before: bool,
    differs_after: bool,
)
    requires
        runs_ordered(runs),
        start < end,
    ensures
        shaped(
            restyled_with(runs, len, start, end, style, differs_before, differs_after),
            runs,
            len,
            start,
            end,
            style,
            differs_before,
            differs_after,
        ),
        runs_ordered(restyled_with(runs, len, start, end, style, differs_before, differs_after)),
        within(runs, start, end),
{
    let out = restyled_with(runs, len, start, end, style, differs_before, differs_after);
    let k = runs_before(runs, start as int);
    let m = runs_before(runs, end as int + 1);
    lemma_runs_before(runs, start as int);
    lemma_runs_before(runs, end as int + 1);
    assert(m >= 1) by {
        assert(runs[0].start < end as int + 1);
    }
    assert(k <= m) by {
        if m < k {
            assert(runs[m].start < start as int);
        }
    }
    // the bytes are irrelevant to the order of the runs
    lemma_restyled_covers(
        runs,
        Seq::new(len as nat, |i: int| 0u8),
        start,
        end,
        style,
        differs_before,
        differs_after,
    );
    assert forall|i: int| k <= i < m implies start <= (#[trigger] runs[i]).start <= end by {
        assert(runs[i].start < end as int + 1);
    }
    let o = opened(runs, start, differs_before);
    let c = closed(runs, len, end, differs_after);
    let opening = if k == 0 || differs_before {
        seq![Run { start: start, style: style }]
    } else {
        seq![]
    };
    let closing = if end < len && m > 0 && differs_after {
        seq![Run { start: end, style: runs[m - 1].style }]
    } else {
        seq![]
    };
    let head = runs.take(k) + opening;
    let mid = head + closing;
    assert(out == mid + runs.skip(m));
    assert(head.len() == k + o);
    assert(mid.len() == k + o + c);
    assert forall|i: int| 0 <= i < k implies #[trigger] out[i] == runs[i] by {
        assert(out[i] == mid[i]);
        assert(mid[i] == head[i]);
    }
    if o == 1 {
        assert(out[k] == mid[k]);
        assert(mid[k] == head[k]);
        assert(head[k] == opening[0]);
    }
    if c == 1 {
        assert(out[k + o] == mid[k + o]);
        assert(mid[k + o] == closing[0]);
    }
    assert forall|j: int| k + o + c <= j < out.len() implies #[trigger] out[j] == runs[j - (k + o
        + c) + m] by {
        assert(out[j] == runs.skip(m)[j - mid.len()]);
    }
}

/// How many runs of the restyled list start before `pos`.
pub proof fn lemma_restyled_before<T: PartialEq>(
    runs: Seq<Run<T>>,
    len: int,
    start: usize,
    end: usize,
    style: T,
    differs_before: bool,
    differs_after: bool,
    pos: int,
)
    requires
        runs_ordered(runs),
        start < end,
    ensures
        counted(
            restyled_with(runs, len, start, end, style, differs_before, differs_after),
            runs,
            len,
            start,
            end,
            differs_before,
            differs_after,
            pos,
        ),
{
    let out = restyled_with(runs, len, start, end, style, differs_before, differs_after);
    let k = runs_before(runs, start as int);
    let m = runs_before(runs, end as int + 1);
    let o = opened(runs, start, differs_before);
    let c = closed(runs, len, end, differs_after);
    lemma_restyled_shape(runs, len, start, end, style, differs_before, differs_after);
    lemma_runs_before(runs, start as int);
    lemma_runs_before(runs, end as int + 1);
    lemma_runs_before(runs, pos);
    let b = runs_before(runs, pos);
    let j = if pos <= start {
        b
    } else if pos <= end {
        k + o
    } else {
        k + o + c + b - m
    };
    if pos <= start {
        assert(b <= k) by {
            if k < b {
                assert(runs[k].start < pos);
            }
        }
    }
    if pos > end {
        assert(b >= m) by {
            if b < m {
                assert(runs[b].start <= end);
            }
        }
    }
    assert forall|i: int| 0 <= i < j implies (#[trigger] out[i]).start < pos by {
        if i < k {
            assert(out[i] == runs[i]);
        } else if i < k + o {
        } else if i < k + o + c {
        } else {
            assert(out[i] == runs[i - (k + o + c) + m]);
        }
    }
    assert forall|i: int| j <= i < out.len() implies (#[trigger] out[i]).start >= pos by {
        if i < k {
            assert(out[i] == runs[i]);
        } else if i < k + o {
        } else if i < k + o + c {
        } else {
            assert(out[i] == runs[i - (k + o + c) + m]);
        }
    }
    lemma_runs_before_is(out, pos, j);
}


/// The smaller of two offsets.
pub open spec fn lower(a: usize, b: usize) -> usize {
    if a <= b {
        a
    } else {
        b
    }
}

/// The larger of two offsets.
pub open spec fn upper(a: usize, b: usize) -> usize {
    if a >= b {
        a
    } else {
        b
    }
}

/// Up to the run that opens the range, restyling twice and restyling the
/// union once give the same runs.
proof fn lemma_twice_front<T: PartialEq>(
    runs: Seq<Run<T>>,
    len: int,
    s1: usize,
    e1: usize,
    s2: usize,
    e2: usize,
    style: T,
    r1: Seq<Run<T>>,
    r2: Seq<Run<T>>,
    c: Seq<Run<T>>,
)
    requires
        runs_ordered(runs),
        s1 < e1,
        s2 < e2,
        s2 <= e1,
        s1 <= e2,
        style.eq_spec(&style),
        shaped(
            r1,
            runs,
            len,
            s1,
            e1,
            style,
            differs_before(runs, s1, style),
            differs_after(runs, e1, style),
        ),
        shaped(
            r2,
            r1,
            len,
            s2,
            e2,
            style,
            differs_before(r1, s2, style),
            differs_after(r1, e2, style),
        ),
        shaped(
            c,
            runs,
            len,
            lower(s1, s2),
            upper(e1, e2),
            style,
            differs_before(runs, lower(s1, s2), style),
            differs_after(runs, upper(e1, e2), style),
        ),
        counted(
            r1,
            runs,
            len,
            s1,
            e1,
            differs_before(runs, s1, style),
            differs_after(runs, e1, style),
            s2 as int,
        ),
        counted(
            r1,
            runs,
            len,
            s1,
            e1,
            differs_before(runs, s1, style),
            differs_after(runs, e1, style),
            e2 as int + 1,
        ),
    ensures
        ({
            let k2 = runs_before(r1, s2 as int);
            let o2 = opened(r1, s2, differs_before(r1, s2, style));
            let kc = runs_before(runs, lower(s1, s2) as int);
            let oc = opened(
                runs,
                lower(s1, s2),
                differs_before(runs, lower(s1, s2), style),
            );
            &&& k2 + o2 == kc + oc
            &&& forall|i: int| 0 <= i < kc + oc ==> #[trigger] r2[i] == c[i]
        }),
{
    let lo = lower(s1, s2);
    let hi = upper(e1, e2);
    let k1 = runs_before(runs, s1 as int);
    let m1 = runs_before(runs, e1 as int + 1);
    let db1 = differs_before(runs, s1, style);
    let da1 = differs_after(runs, e1, style);
    let o1 = opened(runs, s1, db1);
    let c1 = closed(runs, len, e1, da1);
    let k2 = runs_before(r1, s2 as int);
    let m2 = runs_before(r1, e2 as int + 1);
    let db2 = differs_before(r1, s2, style);
    let da2 = differs_after(r1, e2, style);
    let o2 = opened(r1, s2, db2);
    let c2 = closed(r1, len, e2, da2);
    let kc = runs_before(runs, lo as int);
    let mc = runs_before(runs, hi as int + 1);
    let dbc = differs_before(runs, lo, style);
    let dac = differs_after(runs, hi, style);
    let oc = opened(runs, lo, dbc);
    let cc = closed(runs, len, hi, dac);
    lemma_runs_before_grows(runs, lo as int, s1 as int);
    assert(k1 + o1 >= 1);
    assert(r1[k1 + o1 - 1].style.eq_spec(&style)) by {
        if o1 == 1 {
            assert(r1[k1].style == style);
        } else {
            assert(r1[k1 - 1] == runs[k1 - 1]);
        }
    }
    if s1 <= s2 {
        if s1 == s2 {
            assert(k2 == k1 && kc == k1);
            if k1 > 0 {
                assert(r1[k1 - 1] == runs[k1 - 1]);
            }
            assert(o2 == oc);
        } else {
            assert(k2 == k1 + o1 && kc == k1);
            assert(o2 == 0);
        }
    } else {
        assert(k2 == kc);
        assert(kc <= k1);
        if kc > 0 {
            assert(r1[kc - 1] == runs[kc - 1]);
        }
        assert(o2 == oc);
    }
    assert forall|i: int| 0 <= i < kc + oc implies #[trigger] r2[i] == c[i] by {
        if i < k2 {
            assert(r2[i] == r1[i]);
            if i < k1 {
                assert(r1[i] == runs[i]);
            }
        }
    }
}

/// From the run that closes the range on, restyling twice and restyling
/// the union once give the same runs.
proof fn lemma_twice_back<T: PartialEq>(
    runs: Seq<Run<T>>,
    len: int,
    s1: usize,
    e1: usize,
    s2: usize,
    e2: usize,
    style: T,
    r1: Seq<Run<T>>,
    r2: Seq<Run<T>>,
    c: Seq<Run<T>>,
)
    requires
        runs_ordered(runs),
        s1 < e1,
        s2 < e2,
        s2 <= e1,
        s1 <= e2,
        style.eq_spec(&style),
        shaped(
            r1,
            runs,
            len,
            s1,
            e1,
            style,
            differs_before(runs, s1, style),
            differs_after(runs, e1, style),
        ),
        shaped(
            r2,
            r1,
            len,
            s2,
            e2,
            style,
            differs_before(r1, s2, style),
            differs_after(r1, e2, style),
        ),
        shaped(
            c,
            runs,
            len,
            lower(s1, s2),
            upper(e1, e2),
            style,
            differs_before(runs, lower(s1, s2), style),
            differs_after(runs, upper(e1, e2), style),
        ),
        counted(
            r1,
            runs,
            len,
            s1,
            e1,
            differs_before(runs, s1, style),
            differs_after(runs, e1, style),
            s2 as int,
        ),
        counted(
            r1,
            runs,
            len,
            s1,
            e1,
            differs_before(runs, s1, style),
            differs_after(runs, e1, style),
            e2 as int + 1,
        ),
    ensures
        ({
            let k2 = runs_before(r1, s2 as int);
            let o2 = opened(r1, s2, differs_before(r1, s2, style));
            let kc = runs_before(runs, lower(s1, s2) as int);
            let oc = opened(
                runs,
                lower(s1, s2),
                differs_before(runs, lower(s1, s2), style),
            );
            &&& r2.len() - (k2 + o2) == c.len() - (kc + oc)
            &&& forall|j: int|
                kc + oc <= j < c.len() ==> #[trigger] c[j] == r2[j - (kc + oc) + (k2 + o2)]
        }),
{
    let lo = lower(s1, s2);
    let hi = upper(e1, e2);
    let k1 = runs_before(runs, s1 as int);
    let m1 = runs_before(runs, e1 as int + 1);
    let db1 = differs_before(runs, s1, style);
    let da1 = differs_after(runs, e1, style);
    let o1 = opened(runs, s1, db1);
    let c1 = closed(runs, len, e1, da1);
    let k2 = runs_before(r1, s2 as int);
    let m2 = runs_before(r1, e2 as int + 1);
    let db2 = differs_before(r1, s2, style);
    let da2 = differs_after(r1, e2, style);
    let o2 = opened(r1, s2, db2);
    let c2 = closed(r1, len, e2, da2);
    let kc = runs_before(runs, lo as int);
    let mc = runs_before(runs, hi as int + 1);
    let dbc = differs_before(runs, lo, style);
    let dac = differs_after(runs, hi, style);
    let oc = opened(runs, lo, dbc);
    let cc = closed(runs, len, hi, dac);
    lemma_runs_before_grows(runs, e1 as int + 1, hi as int + 1);
    assert(k1 + o1 >= 1);
    assert(r1[k1 + o1 - 1].style.eq_spec(&style)) by {
        if o1 == 1 {
            assert(r1[k1].style == style);
        } else {
            assert(r1[k1 - 1] == runs[k1 - 1]);
        }
    }
    if e2 >= e1 {
        assert(mc >= m1);
        assert(m2 == k1 + o1 + c1 + mc - m1);
        if mc > m1 {
            assert(r1[m2 - 1] == runs[mc - 1]);
            assert(da2 == dac);
        } else {
            if c1 == 1 {
                assert(r1[m2 - 1].style == runs[m1 - 1].style);
                assert(da2 && dac);
            } else {
                assert(m2 - 1 == k1 + o1 - 1);
                assert(!da2);
                if e1 < len {
                    assert(!da1);
                    assert(!dac);
                }
            }
        }
        assert(c2 == cc);
        assert(r1[m2 - 1].style == runs[mc - 1].style || cc == 0);
        assert forall|j: int| kc + oc <= j < c.len() implies #[trigger] c[j] == r2[j - (kc + oc)
            + (k2 + o2)] by {
            let j2 = j - (kc + oc) + (k2 + o2);
            if j < kc + oc + cc {
            } else {
                assert(c[j] == runs[j - (kc + oc + cc) + mc]);
                assert(r2[j2] == r1[j2 - (k2 + o2 + c2) + m2]);
                assert(r1[j2 - (k2 + o2 + c2) + m2] == runs[j2 - (k2 + o2 + c2) + m2 - (k1 + o1
                    + c1) + m1]);
            }
        }
    } else {
        assert(m2 == k1 + o1);
        assert(!da2);
        assert(c2 == 0);
        assert(mc == m1 && cc == c1);
        assert forall|j: int| kc + oc <= j < c.len() implies #[trigger] c[j] == r2[j - (kc + oc)
            + (k2 + o2)] by {
            let j2 = j - (kc + oc) + (k2 + o2);
            assert(r2[j2] == r1[j2 - (k2 + o2 + c2) + m2]);
            if j < kc + oc + cc {
            } else {
                assert(c[j] == runs[j - (kc + oc + cc) + mc]);
                assert(r1[j2 - (k2 + o2 + c2) + m2] == runs[j2 - (k2 + o2 + c2) + m2 - (k1 + o1
                    + c1) + m1]);
            }
        }
    }
}

/// Lists that are made as restyling twice and restyling the union once
/// make them are the same list.
proof fn lemma_twice_shaped<T: PartialEq>(
    runs: Seq<Run<T>>,
    len: int,
    s1: usize,
    e1: usize,
    s2: usize,
    e2: usize,
    style: T,
    r1: Seq<Run<T>>,
    r2: Seq<Run<T>>,
    c: Seq<Run<T>>,
)
    requires
        runs_ordered(runs),
        s1 < e1,
        s2 < e2,
        s2 <= e1,
        s1 <= e2,
        style.eq_spec(&style),
        shaped(
            r1,
            runs,
            len,
            s1,
            e1,
            style,
            differs_before(runs, s1, style),
            differs_after(runs, e1, style),
        ),
        shaped(
            r2,
            r1,
            len,
            s2,
            e2,
            style,
            differs_before(r1, s2, style),
            differs_after(r1, e2, style),
        ),
        shaped(
            c,
            runs,
            len,
            lower(s1, s2),
            upper(e1, e2),
            style,
            differs_before(runs, lower(s1, s2), style),
            differs_after(runs, upper(e1, e2), style),
        ),
        counted(
            r1,
            runs,
            len,
            s1,
            e1,
            differs_before(runs, s1, style),
            differs_after(runs, e1, style),
            s2 as int,
        ),
        counted(
            r1,
            runs,
            len,
            s1,
            e1,
            differs_before(runs, s1, style),
            differs_after(runs, e1, style),
            e2 as int + 1,
        ),
    ensures
        r2 == c,
{
    lemma_twice_front(runs, len, s1, e1, s2, e2, style, r1, r2, c);
    lemma_twice_back(runs, len, s1, e1, s2, e2, style, r1, r2, c);
    assert(r2 =~= c);
}

/// Giving one style to two ranges that overlap or touch, one after the
/// other, leaves exactly the runs that giving it to their union in one step
/// leaves. So the second step never leaves more runs than the single step
/// would.
pub proof fn lemma_restyle_twice<T: PartialEq>(
    runs: Seq<Run<T>>,
    len: int,
    s1: usize,
    e1: usize,
    s2: usize,
    e2: usize,
    style: T,
)
    requires
        runs_ordered(runs),
        s1 < e1,
        s2 < e2,
        s2 <= e1,
        s1 <= e2,
        style.eq_spec(&style),
    ensures
        restyled(restyled(runs, len, s1, e1, style), len, s2, e2, style) == restyled(
            runs,
            len,
            lower(s1, s2),
            upper(e1, e2),
            style,
        ),
        restyled(restyled(runs, len, s1, e1, style), len, s2, e2, style).len() <= restyled(
            runs,
            len,
            lower(s1, s2),
            upper(e1, e2),
            style,
        ).len(),
{
    let lo = lower(s1, s2);
    let hi = upper(e1, e2);
    let r1 = restyled(runs, len, s1, e1, style);
    lemma_restyled_shape(
        runs,
        len,
        s1,
        e1,
        style,
        differs_before(runs, s1, style),
        differs_after(runs, e1, style),
    );
    lemma_restyled_before(
        runs,
        len,
        s1,
        e1,
        style,
        differs_before(runs, s1, style),
        differs_after(runs, e1, style),
        s2 as int,
    );
    lemma_restyled_before(
        runs,
        len,
        s1,
        e1,
        style,
        differs_before(runs, s1, style),
        differs_after(runs, e1, style),
        e2 as int + 1,
    );
    let r2 = restyled(r1, len, s2, e2, style);
    lemma_restyled_shape(
        r1,
        len,
        s2,
        e2,
        style,
        differs_before(r1, s2, style),
        differs_after(r1, e2, style),
    );
    let c = restyled(runs, len, lo, hi, style);
    lemma_restyled_shape(
        runs,
        len,
        lo,
        hi,
        style,
        differs_before(runs, lo, style),
        differs_after(runs, hi, style),
    );
    lemma_twice_shaped(runs, len, s1, e1, s2, e2, style, r1, r2, c);
}


/// Restyling gives the range its style and leaves every other byte of the
/// text the style it had, where styles are compared by equality.
pub proof fn lemma_restyled_style_at<T: PartialEq>(
    runs: Seq<Run<T>>,
    len: int,
    start: usize,
    end: usize,
    style: T,
    pos: int,
)
    requires
        runs_ordered(runs),
        exact_eq::<T>(),
        0 <= pos < len,
    ensures
        style_at(restyled(runs, len, start, end, style), pos) == if start <= pos < end {
            style
        } else {
            style_at(runs, pos)
        },
{
    if start < end {
        let before = differs_before(runs, start, style);
        let after = differs_after(runs, end, style);
        let out = restyled_with(runs, len, start, end, style, before, after);
        assert(out == restyled(runs, len, start, end, style));
        let k = runs_before(runs, start as int);
        let m = runs_before(runs, end as int + 1);
        let o = opened(runs, start, before);
        let c = closed(runs, len, end, after);
        let b = runs_before(runs, pos + 1);
        lemma_restyled_shape(runs, len, start, end, style, before, after);
        lemma_restyled_before(runs, len, start, end, style, before, after, pos + 1);
        lemma_runs_before_grows(runs, 1, pos + 1);
        assert(runs_before(runs, 1) >= 1) by {
            lemma_runs_before(runs, 1);
            assert(runs[0].start < 1);
        }
        assert(k + o >= 1);
        assert(out[k + o - 1].style == style) by {
            if o == 1 {
                assert(out[k].style == style);
            } else {
                assert(out[k - 1] == runs[k - 1]);
                assert(runs[k - 1].style.eq_spec(&style));
            }
        }
        if pos < start {
            lemma_runs_before_grows(runs, pos + 1, start as int);
            assert(out[b - 1] == runs[b - 1]);
        } else if pos < end {
        } else {
            lemma_runs_before_grows(runs, end as int + 1, pos + 1);
            let at = k + o + c + b - m;
            if b > m {
                assert(out[at - 1] == runs[at - 1 - (k + o + c) + m]);
            } else if c == 1 {
            } else {
                assert(runs[m - 1].style.eq_spec(&style));
            }
        }
    }
}

/// The offsets `starts` as integers, each moved up by `by`.
pub open spec fn moved_up(starts: Seq<usize>, by: int) -> Seq<int> {
    Seq::new(starts.len(), |i: int| starts[i] + by)
}

/// What comes before the text written at cluster `n`: the text up to that
/// cluster, or all of it and the spaces up to that cluster.
pub open spec fn written_head(bytes: Seq<u8>, n: int) -> Seq<u8> {
    let g = clusters(bytes);
    if n < g.len() {
        bytes.subrange(0, g[n] as int)
    } else {
        bytes + spaces((n - g.len()) as nat)
    }
}

/// What comes behind the text `s` written at cluster `n`.
pub open spec fn written_tail(bytes: Seq<u8>, n: int, s: Seq<u8>) -> Seq<u8> {
    if n < clusters(bytes).len() {
        bytes.subrange(replaced_end(bytes, n, clusters(s).len() as int), bytes.len() as int)
    } else {
        seq![]
    }
}

/// The clusters of the three parts put together are the clusters of the
/// parts: the first part has `n` of them, and no cluster of the whole
/// reaches across a seam.
pub open spec fn clusters_kept(head: Seq<u8>, s: Seq<u8>, tail: Seq<u8>, n: int) -> bool {
    &&& clusters(head).len() == n
    &&& is_segmentation(s, clusters(s))
    &&& is_segmentation(tail, clusters(tail))
    &&& moved_up(clusters(head + s + tail), 0) == moved_up(clusters(head), 0) + moved_up(
        clusters(s),
        head.len() as int,
    ) + moved_up(clusters(tail), (head.len() + s.len()) as int)
}

/// The bytes of the clusters from cluster `from` up to cluster `to`.
pub open spec fn cluster_range(bytes: Seq<u8>, from: int, to: int) -> Seq<u8> {
    bytes.subrange(cluster_offset(bytes, from).0, cluster_offset(bytes, to).0)
}

/// Text written at cluster `n` is read back from the clusters that it was
/// written to, where writing it neither joined nor split a cluster: where
/// the clusters of the new text are those of what comes before the text
/// written, of that text, and of what comes behind it.
pub proof fn lemma_written_reads_back(bytes: Seq<u8>, n: int, s: Seq<u8>)
    requires
        0 <= n,
        s.len() > 0,
    ensures
        overwritten(bytes, n, s) == written_head(bytes, n) + s + written_tail(bytes, n, s),
        clusters_kept(written_head(bytes, n), s, written_tail(bytes, n, s), n) ==> cluster_range(
            overwritten(bytes, n, s),
            n,
            n + clusters(s).len(),
        ) == s,
{
    let head = written_head(bytes, n);
    let tail = written_tail(bytes, n, s);
    let after = overwritten(bytes, n, s);
    assert(after =~= head + s + tail);
    if clusters_kept(head, s, tail, n) {
        let whole = moved_up(clusters(after), 0);
        let first = moved_up(clusters(head), 0);
        let second = moved_up(clusters(s), head.len() as int);
        let third = moved_up(clusters(tail), (head.len() + s.len()) as int);
        let count = clusters(s).len() as int;
        assert(whole.len() == clusters(after).len());
        assert(count >= 1);
        assert(whole[n] == second[0]);
        assert(clusters(after)[n] == head.len());
        if tail.len() > 0 {
            assert(whole[n + count] == third[0]);
            assert(clusters(after)[n + count] == head.len() + s.len());
        } else {
            assert(whole.len() == n + count);
        }
        assert(cluster_range(after, n, n + count) =~= s);
    }
}

} // verus!
