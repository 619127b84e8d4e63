//! What cutting a table short can change: a query of a prefix of a table either answers as
//! the whole table does or fails with `UnexpectedEndOfData`.
use vstd::prelude::*;

use crate::charmap::{concat, prepend, CodepointRange, Run};
use crate::error::FontError;
use crate::model::{
    cmap_lookup, end_code, find_group, find_segment, id_delta, id_range_offset,
    indirect_runs, lemma_find_segment_holds, range_runs, ranges_runs,
    segment_mapping_runs, segmented_coverage_runs, select_record,
    select_subtable, start_code, subtable_at, Subtable,
};

verus! {

/// `short` is `full`, or the failure to read past the end.
pub open spec fn same_or_short<T>(short: Result<T, FontError>, full: Result<T, FontError>) -> bool {
    short == full || short == Err::<T, FontError>(FontError::UnexpectedEndOfData)
}

/// Truncation: a query of any prefix of a table gives the same outcome as the whole table,
/// or `UnexpectedEndOfData`.
pub proof fn lemma_truncated_table(b: Seq<u8>, n: int, ranges: Seq<CodepointRange>)
    requires
        0 <= n <= b.len(),
    ensures
        same_or_short(cmap_lookup(b.take(n), ranges), cmap_lookup(b, ranges)),
{
    let p = b.take(n);
    assert(prefix_of(p, b));
    lemma_select_subtable_prefix(b, p);
    if select_subtable(p) == select_subtable(b) {
        if let Ok(t) = select_subtable(p) {
            lemma_selected_fits(p);
            lemma_ranges_runs_prefix(b, p, t, ranges);
        }
    }
}

/// `p` is a prefix of `b`.
pub open spec fn prefix_of(p: Seq<u8>, b: Seq<u8>) -> bool {
    &&& p.len() <= b.len()
    &&& forall|i: int| 0 <= i < p.len() ==> #[trigger] p[i] == b[i]
}

/// The arrays that a query reads without a bounds check lie inside `b`.
pub open spec fn fits(b: Seq<u8>, t: Subtable) -> bool {
    match t {
        Subtable::SegmentMapping { ends, seg_count } => ends + 8 * seg_count + 2 <= b.len(),
        Subtable::SegmentedCoverage { .. } => true,
    }
}

proof fn lemma_selected_fits(b: Seq<u8>)
    requires
        select_subtable(b) is Ok,
    ensures
        fits(b, select_subtable(b)->Ok_0),
{
}

proof fn lemma_select_record_prefix(b: Seq<u8>, p: Seq<u8>, k: int, m: int)
    requires
        prefix_of(p, b),
        0 <= k,
    ensures
        same_or_short(select_record(p, k, m), select_record(b, k, m)),
    decreases m - k,
{
    if k < m && 4 + 8 * k + 8 <= p.len() {
        lemma_select_record_prefix(b, p, k + 1, m);
    }
}

proof fn lemma_select_subtable_prefix(b: Seq<u8>, p: Seq<u8>)
    requires
        prefix_of(p, b),
    ensures
        same_or_short(select_subtable(p), select_subtable(b)),
{
    if p.len() >= 4 {
        let m = crate::reader::be_u16(b, 2);
        lemma_select_record_prefix(b, p, 0, m);
        if let Ok(Some(offset)) = select_record(p, 0, m) {
            if offset + 2 <= p.len() {
                assert(same_or_short(subtable_at(p, offset as int), subtable_at(b, offset as int)));
            }
        }
    }
}

proof fn lemma_find_segment_prefix(b: Seq<u8>, p: Seq<u8>, e: int, n: int, cp: int, low: int, high: int)
    requires
        prefix_of(p, b),
        0 <= e,
        0 <= n,
        e + 8 * n + 2 <= p.len(),
        0 <= low,
        high <= n,
    ensures
        find_segment(p, e, n, cp, low, high) == find_segment(b, e, n, cp, low, high),
    decreases high - low,
{
    if low < high {
        let mid = (low + high) / 2;
        assert(end_code(p, e, n, mid) == end_code(b, e, n, mid));
        assert(start_code(p, e, n, mid) == start_code(b, e, n, mid));
        lemma_find_segment_prefix(b, p, e, n, cp, mid + 1, high);
        lemma_find_segment_prefix(b, p, e, n, cp, low, mid);
    }
}

proof fn lemma_indirect_prefix(b: Seq<u8>, p: Seq<u8>, e: int, n: int, i: int, c: int, stop: int)
    requires
        prefix_of(p, b),
        0 <= e,
        0 <= i < n,
        e + 8 * n + 2 <= p.len(),
        start_code(b, e, n, i) <= c,
    ensures
        same_or_short(indirect_runs(p, e, n, i, c, stop), indirect_runs(b, e, n, i, c, stop)),
    decreases stop + 1 - c,
{
    assert(start_code(p, e, n, i) == start_code(b, e, n, i));
    assert(id_range_offset(p, e, n, i) == id_range_offset(b, e, n, i));
    assert(id_delta(p, e, n, i) == id_delta(b, e, n, i));
    if c <= stop {
        lemma_indirect_prefix(b, p, e, n, i, c + 1, stop);
    }
}

proof fn lemma_prepend_prefix(x: Run, short: Result<Seq<Run>, FontError>, full: Result<Seq<Run>, FontError>)
    requires
        same_or_short(short, full),
    ensures
        same_or_short(prepend(x, short), prepend(x, full)),
{
}

proof fn lemma_concat_prefix(
    a: Result<Seq<Run>, FontError>,
    b: Result<Seq<Run>, FontError>,
    c: Result<Seq<Run>, FontError>,
    d: Result<Seq<Run>, FontError>,
)
    requires
        same_or_short(a, b),
        same_or_short(c, d),
    ensures
        same_or_short(concat(a, c), concat(b, d)),
{
}

proof fn lemma_segment_mapping_prefix(b: Seq<u8>, p: Seq<u8>, e: int, n: int, cp: int, last: int)
    requires
        prefix_of(p, b),
        0 <= e,
        0 <= n,
        e + 8 * n + 2 <= p.len(),
    ensures
        same_or_short(segment_mapping_runs(p, e, n, cp, last), segment_mapping_runs(b, e, n, cp, last)),
    decreases last + 1 - cp,
{
    if cp <= last {
        lemma_find_segment_prefix(b, p, e, n, cp, 0, n);
        let found = find_segment(b, e, n, cp, 0, n);
        if cp > 0xFFFF || found is None {
            lemma_segment_mapping_prefix(b, p, e, n, cp + 1, last);
        } else {
            let i = found->Some_0;
            lemma_find_segment_holds(b, e, n, cp, 0, n);
            assert(end_code(p, e, n, i) == end_code(b, e, n, i));
            assert(id_range_offset(p, e, n, i) == id_range_offset(b, e, n, i));
            assert(id_delta(p, e, n, i) == id_delta(b, e, n, i));
            let stop = crate::model::min(crate::model::min(last, 0xFFFF), end_code(b, e, n, i));
            if stop >= cp {
                lemma_segment_mapping_prefix(b, p, e, n, stop + 1, last);
                lemma_indirect_prefix(b, p, e, n, i, cp, stop);
            }
        }
    }
}

proof fn lemma_find_group_prefix(b: Seq<u8>, p: Seq<u8>, g: int, cp: int, low: int, high: int)
    requires
        prefix_of(p, b),
        0 <= g,
        0 <= low,
    ensures
        same_or_short(find_group(p, g, cp, low, high), find_group(b, g, cp, low, high)),
    decreases high - low,
{
    if low < high {
        let mid = (low + high) / 2;
        if g + 12 * mid + 12 <= p.len() {
            lemma_find_group_prefix(b, p, g, cp, mid + 1, high);
            lemma_find_group_prefix(b, p, g, cp, low, mid);
        }
    }
}

proof fn lemma_segmented_coverage_prefix(b: Seq<u8>, p: Seq<u8>, g: int, n: int, cp: int, last: int)
    requires
        prefix_of(p, b),
        0 <= g,
    ensures
        same_or_short(
            segmented_coverage_runs(p, g, n, cp, last),
            segmented_coverage_runs(b, g, n, cp, last),
        ),
    decreases last + 1 - cp,
{
    if cp <= last {
        lemma_find_group_prefix(b, p, g, cp, 0, n);
        let found = find_group(p, g, cp, 0, n);
        if found == find_group(b, g, cp, 0, n) {
            if found == Ok::<Option<int>, FontError>(None) {
                lemma_segmented_coverage_prefix(b, p, g, n, cp + 1, last);
            } else if found is Ok {
                let k = found->Ok_0->Some_0;
                crate::model::lemma_find_group_holds(p, g, cp, 0, n);
                lemma_group_prefix(b, p, g, k);
                let stop = crate::model::min(last, crate::model::group_end(b, g, k));
                lemma_segmented_coverage_prefix(b, p, g, n, stop + 1, last);
            }
        }
    }
}

proof fn lemma_group_prefix(b: Seq<u8>, p: Seq<u8>, g: int, k: int)
    requires
        prefix_of(p, b),
        0 <= g,
        0 <= k,
        g + 12 * k + 12 <= p.len(),
    ensures
        crate::model::group_start(p, g, k) == crate::model::group_start(b, g, k),
        crate::model::group_end(p, g, k) == crate::model::group_end(b, g, k),
        crate::model::group_glyph(p, g, k) == crate::model::group_glyph(b, g, k),
{
}

proof fn lemma_ranges_runs_prefix(b: Seq<u8>, p: Seq<u8>, t: Subtable, ranges: Seq<CodepointRange>)
    requires
        prefix_of(p, b),
        fits(p, t),
    ensures
        same_or_short(ranges_runs(p, t, ranges), ranges_runs(b, t, ranges)),
    decreases ranges.len(),
{
    if ranges.len() > 0 {
        lemma_ranges_runs_prefix(b, p, t, ranges.drop_last());
        let r = ranges.last();
        reveal(range_runs);
        match t {
            Subtable::SegmentMapping { ends, seg_count } => {
                lemma_segment_mapping_prefix(
                    b,
                    p,
                    ends as int,
                    seg_count as int,
                    r.start as int,
                    r.end as int,
                );
            },
            Subtable::SegmentedCoverage { groups, num_groups } => {
                lemma_segmented_coverage_prefix(
                    b,
                    p,
                    groups as int,
                    num_groups as int,
                    r.start as int,
                    r.end as int,
                );
            },
        }
        assert(same_or_short(range_runs(p, t, r), range_runs(b, t, r)));
    }
}

} // verus!
