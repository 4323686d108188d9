//! Columns of solid spans: the voxelized volume of a tile, one column per
//! grid cell, each an ordered list of separated vertical intervals.
use vstd::prelude::*;

verus! {

/// A filled vertical interval `[min, max]` in cell heights, with the area id
/// of the geometry that filled it (`None`: filled, not walkable).
#[derive(Clone, Copy, Debug, PartialEq, Eq, Structural)]
pub struct SolidSpan {
    pub min: u16,
    pub max: u16,
    pub area: Option<u16>,
}

/// The higher of two area ids; any area id is above "not walkable".
pub open spec fn higher_area(a: Option<u16>, b: Option<u16>) -> Option<u16> {
    match (a, b) {
        (None, _) => b,
        (_, None) => a,
        (Some(p), Some(q)) => if p >= q {
            a
        } else {
            b
        },
    }
}

/// The two spans overlap or meet with no cell between them.
pub open spec fn touches(s: SolidSpan, t: SolidSpan) -> bool {
    s.min <= t.max + 1 && t.min <= s.max + 1
}

/// One span covering both, carrying the higher area.
pub open spec fn combine(s: SolidSpan, t: SolidSpan) -> SolidSpan {
    SolidSpan {
        min: if s.min <= t.min {
            s.min
        } else {
            t.min
        },
        max: if s.max >= t.max {
            s.max
        } else {
            t.max
        },
        area: higher_area(s.area, t.area),
    }
}

/// `span` merged with each of `spans` in turn.
pub open spec fn merge_all(spans: Seq<SolidSpan>, span: SolidSpan) -> SolidSpan
    decreases spans.len(),
{
    if spans.len() == 0 {
        span
    } else {
        combine(merge_all(spans.drop_last(), span), spans.last())
    }
}

/// Spans are non-empty, in ascending order, and no two touch.
pub open spec fn column_wf(col: Seq<SolidSpan>) -> bool {
    &&& forall|i: int| 0 <= i < col.len() ==> (#[trigger] col[i]).min <= col[i].max
    &&& forall|i: int, j: int|
        0 <= i < j < col.len() ==> (#[trigger] col[i]).max + 1 < (#[trigger] col[j]).min
}

/// The column after inserting `span` where the spans before index `a` lie
/// below it, those from `b` on lie above it, and those between touch it and
/// are merged into it.
pub open spec fn inserted(col: Seq<SolidSpan>, span: SolidSpan, a: int, b: int) -> Seq<SolidSpan> {
    col.subrange(0, a).push(merge_all(col.subrange(a, b), span)) + col.subrange(b, col.len() as int)
}

proof fn lemma_merge_bounds(spans: Seq<SolidSpan>, span: SolidSpan)
    ensures
        merge_all(spans, span).min <= span.min,
        merge_all(spans, span).max >= span.max,
        merge_all(spans, span).min == span.min || exists|j: int|
            0 <= j < spans.len() && merge_all(spans, span).min == (#[trigger] spans[j]).min,
        merge_all(spans, span).max == span.max || exists|j: int|
            0 <= j < spans.len() && merge_all(spans, span).max == (#[trigger] spans[j]).max,
    decreases spans.len(),
{
    if spans.len() > 0 {
        let init = spans.drop_last();
        lemma_merge_bounds(init, span);
        if merge_all(init, span).min != span.min && merge_all(spans, span).min == merge_all(
            init,
            span,
        ).min {
            let j = choose|j: int| 0 <= j < init.len() && merge_all(init, span).min == init[j].min;
            assert(spans[j] == init[j]);
        }
        if merge_all(init, span).max != span.max && merge_all(spans, span).max == merge_all(
            init,
            span,
        ).max {
            let j = choose|j: int| 0 <= j < init.len() && merge_all(init, span).max == init[j].max;
            assert(spans[j] == init[j]);
        }
        assert(merge_all(spans, span).min == merge_all(init, span).min || merge_all(
            spans,
            span,
        ).min == spans[spans.len() - 1].min);
        assert(merge_all(spans, span).max == merge_all(init, span).max || merge_all(
            spans,
            span,
        ).max == spans[spans.len() - 1].max);
    }
}

/// Inserts `span` into a column, merging it with every span it overlaps or
/// meets; the merged span carries the highest area among them.
pub fn add_span(column: &mut Vec<SolidSpan>, span: SolidSpan)
    requires
        column_wf(old(column)@),
        span.min <= span.max,
    ensures
        column_wf(final(column)@),
        exists|a: int, b: int|
            {
                &&& 0 <= a <= b <= old(column)@.len()
                &&& forall|i: int| 0 <= i < a ==> (#[trigger] old(column)@[i]).max + 1 < span.min
                &&& forall|i: int| a <= i < b ==> touches(#[trigger] old(column)@[i], span)
                &&& forall|i: int|
                    b <= i < old(column)@.len() ==> span.max + 1 < (#[trigger] old(column)@[i]).min
                &&& final(column)@ == inserted(old(column)@, span, a, b)
            },
{
    let ghost col = column@;
    let n = column.len();
    let mut out: Vec<SolidSpan> = Vec::new();
    let mut i: usize = 0;
    while i < n && (column[i].max as u32) + 1 < span.min as u32
        invariant
            0 <= i <= n == col.len(),
            column@ == col,
            out@ == col.subrange(0, i as int),
            forall|k: int| 0 <= k < i ==> (#[trigger] col[k]).max + 1 < span.min,
        decreases n - i,
    {
        out.push(column[i]);
        i = i + 1;
        assert(out@ =~= col.subrange(0, i as int));
    }
    let a = i;
    let mut merged = span;
    while i < n && (column[i].min as u32) <= (span.max as u32) + 1
        invariant
            a <= i <= n == col.len(),
            column@ == col,
            column_wf(col),
            a == n || col[a as int].max + 1 >= span.min,
            merged == merge_all(col.subrange(a as int, i as int), span),
            forall|k: int| a <= k < i ==> touches(#[trigger] col[k], span),
        decreases n - i,
    {
        let s = column[i];
        assert(s.max + 1 >= span.min) by {
            if i > a {
                assert(col[a as int].max + 1 < col[i as int].min);
            }
        }
        proof {
            assert(col.subrange(a as int, i + 1).drop_last() =~= col.subrange(a as int, i as int));
        }
        let lo = if merged.min <= s.min {
            merged.min
        } else {
            s.min
        };
        let hi = if merged.max >= s.max {
            merged.max
        } else {
            s.max
        };
        let area = match (merged.area, s.area) {
            (None, _) => s.area,
            (_, None) => merged.area,
            (Some(p), Some(q)) => if p >= q {
                merged.area
            } else {
                s.area
            },
        };
        merged = SolidSpan { min: lo, max: hi, area };
        i = i + 1;
    }
    let b = i;
    proof {
        lemma_merge_bounds(col.subrange(a as int, b as int), span);
    }
    out.push(merged);
    while i < n
        invariant
            b <= i <= n == col.len(),
            column@ == col,
            out@ == col.subrange(0, a as int).push(merged) + col.subrange(b as int, i as int),
        decreases n - i,
    {
        out.push(column[i]);
        i = i + 1;
        assert(out@ =~= col.subrange(0, a as int).push(merged) + col.subrange(b as int, i as int));
    }
    proof {
        let res = out@;
        let ts = col.subrange(a as int, b as int);
        assert forall|k: int| b <= k < n implies span.max + 1 < (#[trigger] col[k]).min by {
            if k > b {
                assert(col[b as int].max + 1 < col[k].min);
            }
        }
        assert(res.len() == n - (b - a) + 1);
        assert forall|k: int| 0 <= k < res.len() implies (#[trigger] res[k]).min <= res[k].max by {
            if k < a {
                assert(res[k] == col[k]);
            } else if k > a {
                assert(res[k] == col[k - a - 1 + b]);
            }
        }
        assert forall|j: int, k: int| 0 <= j < k < res.len() implies (#[trigger] res[j]).max + 1
            < (#[trigger] res[k]).min by {
            if j < a {
                assert(res[j] == col[j]);
                if k < a {
                    assert(res[k] == col[k]);
                } else if k == a {
                    if merged.min != span.min {
                        let t = choose|t: int| 0 <= t < ts.len() && merged.min == (#[trigger] ts[t]).min;
                        assert(ts[t] == col[a + t]);
                    }
                } else {
                    assert(res[k] == col[k - a - 1 + b]);
                }
            } else if j == a {
                assert(res[k] == col[k - a - 1 + b]);
                if merged.max != span.max {
                    let t = choose|t: int| 0 <= t < ts.len() && merged.max == (#[trigger] ts[t]).max;
                    assert(ts[t] == col[a + t]);
                }
            } else {
                assert(res[j] == col[j - a - 1 + b]);
                assert(res[k] == col[k - a - 1 + b]);
            }
        }
        assert(res == inserted(col, span, a as int, b as int));
    }
    *column = out;
}

} // verus!
