//! Properties of every query, proved over the model that the resolver is held to.
use vstd::prelude::*;

use crate::charmap::{
    concat, glyph_span_matches, missing_run, prepend, run, tiles, wrap16, CodepointRange,
    GlyphMapping, Run,
};
use crate::error::FontError;
use crate::model::{
    cmap_lookup, indirect_runs, outcome_matches, range_runs, ranges_runs, segment_mapping_runs,
    segmented_coverage_runs, select_subtable, Subtable,
};

verus! {

/// The runs of every range of a successful query of `b`.
pub open spec fn query_runs(b: Seq<u8>, ranges: Seq<CodepointRange>) -> Seq<Seq<Run>> {
    cmap_lookup(b, ranges)->Ok_0
}

/// Coverage: each codepoint of each queried range lies in exactly one run of that range.
pub proof fn lemma_each_codepoint_covered_once(b: Seq<u8>, ranges: Seq<CodepointRange>)
    requires
        cmap_lookup(b, ranges) is Ok,
    ensures
        query_runs(b, ranges).len() == ranges.len(),
        forall|k: int, c: int|
            0 <= k < ranges.len() && #[trigger] ranges[k].contains(c) ==> exists|i: int|
                0 <= i < query_runs(b, ranges)[k].len() && #[trigger] query_runs(
                    b,
                    ranges,
                )[k][i].covers(c),
        forall|k: int, i: int, j: int, c: int|
            0 <= k < ranges.len() && 0 <= i < query_runs(b, ranges)[k].len() && 0 <= j
                < query_runs(b, ranges)[k].len() && #[trigger] query_runs(b, ranges)[k][i].covers(c)
                && #[trigger] query_runs(b, ranges)[k][j].covers(c) ==> i == j,
        forall|k: int, i: int, c: int|
            0 <= k < ranges.len() && 0 <= i < query_runs(b, ranges)[k].len() && #[trigger] query_runs(
                b,
                ranges,
            )[k][i].covers(c) ==> ranges[k].contains(c),
{
    lemma_query_tiles(b, ranges);
    let rss = query_runs(b, ranges);
    assert forall|k: int, c: int|
        0 <= k < ranges.len() && #[trigger] ranges[k].contains(c) implies exists|i: int|
            0 <= i < rss[k].len() && #[trigger] rss[k][i].covers(c) by {
        lemma_tiles_cover(rss[k], ranges[k].start as int, ranges[k].end as int, c);
    }
    assert forall|k: int, i: int, j: int, c: int|
        0 <= k < ranges.len() && 0 <= i < rss[k].len() && 0 <= j < rss[k].len()
            && #[trigger] rss[k][i].covers(c) && #[trigger] rss[k][j].covers(c) implies i == j by {
        let (lo, hi) = if i <= j {
            (i, j)
        } else {
            (j, i)
        };
        if lo < hi {
            lemma_tiles_order(rss[k], ranges[k].start as int, ranges[k].end as int, lo, hi);
        }
    }
    assert forall|k: int, i: int, c: int|
        0 <= k < ranges.len() && 0 <= i < rss[k].len() && #[trigger] rss[k][i].covers(c) implies ranges[k].contains(c) by {
        let rs = rss[k];
        if i > 0 {
            lemma_tiles_order(rs, ranges[k].start as int, ranges[k].end as int, 0, i);
        }
        if i < rs.len() - 1 {
            lemma_tiles_order(rs, ranges[k].start as int, ranges[k].end as int, i, rs.len() - 1);
        }
    }
}

/// Order: within each queried range, entries come in ascending codepoint order.
pub proof fn lemma_entries_ascend(b: Seq<u8>, ranges: Seq<CodepointRange>)
    requires
        cmap_lookup(b, ranges) is Ok,
    ensures
        forall|k: int, i: int, j: int|
            0 <= k < ranges.len() && 0 <= i < j < query_runs(b, ranges)[k].len() ==> #[trigger] query_runs(
                b,
                ranges,
            )[k][i].last < #[trigger] query_runs(b, ranges)[k][j].first(),
{
    lemma_query_tiles(b, ranges);
    let rss = query_runs(b, ranges);
    assert forall|k: int, i: int, j: int|
        0 <= k < ranges.len() && 0 <= i < j < rss[k].len() implies #[trigger] rss[k][i].last
            < #[trigger] rss[k][j].first() by {
        lemma_tiles_order(rss[k], ranges[k].start as int, ranges[k].end as int, i, j);
    }
}

/// Length: the glyph range of every entry is as long as the codepoints it covers,
/// modulo 2^16.
pub proof fn lemma_glyph_span_matches_codepoints(b: Seq<u8>, ranges: Seq<CodepointRange>)
    requires
        cmap_lookup(b, ranges) is Ok,
    ensures
        forall|k: int, i: int|
            0 <= k < ranges.len() && 0 <= i < query_runs(b, ranges)[k].len() ==> glyph_span_matches(
                #[trigger] query_runs(b, ranges)[k][i],
            ),
{
    lemma_query_tiles(b, ranges);
}

/// Determinism: two outcomes that both meet the contract of a query of `b` agree, entry for
/// entry or error for error.
pub proof fn lemma_query_deterministic(
    b: Seq<u8>,
    ranges: Seq<CodepointRange>,
    r1: Result<GlyphMapping, FontError>,
    r2: Result<GlyphMapping, FontError>,
)
    requires
        outcome_matches(r1, cmap_lookup(b, ranges)),
        outcome_matches(r2, cmap_lookup(b, ranges)),
    ensures
        match (r1, r2) {
            (Ok(m1), Ok(m2)) => m1@ == m2@,
            (Err(e1), Err(e2)) => e1 == e2,
            _ => false,
        },
{
}

// ---- Shape of the runs ----------------------------------------------------------------

/// Every run is well formed: it tiles its range and its glyph span matches.
pub open spec fn runs_shaped(rs: Seq<Run>, first: int, last: int) -> bool {
    &&& tiles(rs, first, last)
    &&& forall|i: int| 0 <= i < rs.len() ==> glyph_span_matches(#[trigger] rs[i])
}

proof fn lemma_query_tiles(b: Seq<u8>, ranges: Seq<CodepointRange>)
    requires
        cmap_lookup(b, ranges) is Ok,
    ensures
        query_runs(b, ranges).len() == ranges.len(),
        forall|k: int|
            0 <= k < ranges.len() ==> runs_shaped(
                #[trigger] query_runs(b, ranges)[k],
                ranges[k].start as int,
                ranges[k].end as int,
            ),
{
    let t = select_subtable(b)->Ok_0;
    lemma_ranges_runs_shaped(b, t, ranges);
}

proof fn lemma_ranges_runs_shaped(b: Seq<u8>, t: Subtable, ranges: Seq<CodepointRange>)
    requires
        ranges_runs(b, t, ranges) is Ok,
    ensures
        ranges_runs(b, t, ranges)->Ok_0.len() == ranges.len(),
        forall|k: int|
            0 <= k < ranges.len() ==> runs_shaped(
                #[trigger] ranges_runs(b, t, ranges)->Ok_0[k],
                ranges[k].start as int,
                ranges[k].end as int,
            ),
    decreases ranges.len(),
{
    if ranges.len() > 0 {
        let init = ranges.drop_last();
        lemma_ranges_runs_shaped(b, t, init);
        let r = ranges.last();
        lemma_range_runs_shaped(b, t, r);
        let rss = ranges_runs(b, t, init)->Ok_0;
        let rs = range_runs(b, t, r)->Ok_0;
        assert forall|k: int| 0 <= k < ranges.len() implies runs_shaped(
            #[trigger] ranges_runs(b, t, ranges)->Ok_0[k],
            ranges[k].start as int,
            ranges[k].end as int,
        ) by {
            if k < ranges.len() - 1 {
                assert(ranges[k] == init[k]);
                assert(rss.push(rs)[k] == rss[k]);
            }
        }
    }
}

proof fn lemma_range_runs_shaped(b: Seq<u8>, t: Subtable, r: CodepointRange)
    requires
        range_runs(b, t, r) is Ok,
    ensures
        runs_shaped(range_runs(b, t, r)->Ok_0, r.start as int, r.end as int),
{
    reveal(range_runs);
    match t {
        Subtable::SegmentMapping { ends, seg_count } => {
            lemma_segment_mapping_shaped(b, ends as int, seg_count as int, r.start as int, r.end as int);
        },
        Subtable::SegmentedCoverage { groups, num_groups } => {
            lemma_segmented_coverage_shaped(
                b,
                groups as int,
                num_groups as int,
                r.start as int,
                r.end as int,
            );
        },
    }
}

proof fn lemma_span_wraps(first: int, last: int, base: int)
    ensures
        wrap16(wrap16(base + last) - wrap16(base + first)) == wrap16(last - first),
{
    vstd::arithmetic::div_mod::lemma_sub_mod_noop(base + last, base + first, 0x10000);
}

proof fn lemma_shaped_prepend(x: Run, rest: Seq<Run>, last: int)
    requires
        x.first() <= x.last <= last,
        glyph_span_matches(x),
        runs_shaped(rest, x.last + 1, last),
    ensures
        runs_shaped(seq![x] + rest, x.first(), last),
{
    let rs = seq![x] + rest;
    assert forall|i: int| 0 <= i < rs.len() implies glyph_span_matches(#[trigger] rs[i]) by {
        if i > 0 {
            assert(rs[i] == rest[i - 1]);
        }
    }
    assert forall|i: int| 0 <= i < rs.len() implies #[trigger] rs[i].first() <= rs[i].last by {
        if i > 0 {
            assert(rs[i] == rest[i - 1]);
        }
    }
    assert forall|i: int| 0 <= i < rs.len() - 1 implies #[trigger] rs[i + 1].first() == rs[i].last + 1 by {
        assert(rs[i + 1] == rest[i]);
        if i > 0 {
            assert(rs[i] == rest[i - 1]);
            assert(rest[(i - 1) + 1].first() == rest[i - 1].last + 1);
        } else {
            assert(rs[0] == x);
            assert(rest.len() > 0);
            assert(x.last + 1 <= last);
        }
    }
    if rest.len() > 0 {
        assert(rs.last() == rest.last());
    }
}

proof fn lemma_shaped_concat(a: Seq<Run>, c: Seq<Run>, first: int, mid: int, last: int)
    requires
        first <= mid <= last,
        runs_shaped(a, first, mid),
        runs_shaped(c, mid + 1, last),
    ensures
        runs_shaped(a + c, first, last),
    decreases a.len(),
{
    if a.len() == 1 {
        assert(a =~= seq![a[0]]);
        lemma_shaped_prepend(a[0], c, last);
    } else {
        let tail = a.subrange(1, a.len() as int);
        assert(tail[0] == a[1]);
        assert forall|i: int| 0 <= i < tail.len() implies #[trigger] tail[i].first() <= tail[i].last
            && glyph_span_matches(tail[i]) by {
            assert(tail[i] == a[i + 1]);
        }
        assert forall|i: int| 0 <= i < tail.len() - 1 implies #[trigger] tail[i + 1].first() == tail[i].last
            + 1 by {
            assert(tail[i] == a[i + 1]);
            assert(tail[i + 1] == a[i + 2]);
        }
        if a.len() == 2 {
            assert(a[1] == a.last());
        } else {
            lemma_tiles_order(a, first, mid, 1, a.len() - 1);
        }
        assert(tail.last() == a.last());
        lemma_shaped_concat(tail, c, a[0].last + 1, mid, last);
        assert(a + c =~= seq![a[0]] + (tail + c));
        lemma_shaped_prepend(a[0], tail + c, last);
    }
}

proof fn lemma_indirect_shaped(b: Seq<u8>, e: int, n: int, i: int, c: int, stop: int)
    requires
        0 <= c <= stop + 1,
        stop <= 0xFFFF,
        indirect_runs(b, e, n, i, c, stop) is Ok,
    ensures
        runs_shaped(indirect_runs(b, e, n, i, c, stop)->Ok_0, c, stop),
    decreases stop + 1 - c,
{
    if c <= stop {
        lemma_indirect_shaped(b, e, n, i, c + 1, stop);
        let rs = indirect_runs(b, e, n, i, c, stop)->Ok_0;
        let x = rs[0];
        assert(rs =~= seq![x] + indirect_runs(b, e, n, i, c + 1, stop)->Ok_0);
        assert(glyph_span_matches(x));
        lemma_shaped_prepend(x, indirect_runs(b, e, n, i, c + 1, stop)->Ok_0, stop);
    }
}

proof fn lemma_segment_mapping_shaped(b: Seq<u8>, e: int, n: int, cp: int, last: int)
    requires
        0 <= cp,
        last <= 0xFFFF_FFFF,
        segment_mapping_runs(b, e, n, cp, last) is Ok,
    ensures
        runs_shaped(segment_mapping_runs(b, e, n, cp, last)->Ok_0, cp, last),
    decreases last + 1 - cp,
{
    if cp <= last {
        let found = crate::model::find_segment(b, e, n, cp, 0, n);
        if cp > 0xFFFF || found is None {
            let rest = segment_mapping_runs(b, e, n, cp + 1, last);
            assert(segment_mapping_runs(b, e, n, cp, last) == prepend(missing_run(cp), rest));
            lemma_segment_mapping_shaped(b, e, n, cp + 1, last);
            lemma_missing_run_shaped(cp);
            lemma_shaped_prepend(missing_run(cp), rest->Ok_0, last);
        } else {
            let i = found->Some_0;
            crate::model::lemma_find_segment_holds(b, e, n, cp, 0, n);
            let stop = crate::model::min(
                crate::model::min(last, 0xFFFF),
                crate::model::end_code(b, e, n, i),
            );
            let rest = segment_mapping_runs(b, e, n, stop + 1, last);
            lemma_segment_mapping_shaped(b, e, n, stop + 1, last);
            if crate::model::id_range_offset(b, e, n, i) == 0 {
                let d = crate::model::id_delta(b, e, n, i);
                let x = run(cp, stop, wrap16(d + cp), wrap16(d + stop));
                assert(segment_mapping_runs(b, e, n, cp, last) == prepend(x, rest));
                lemma_linear_run_shaped(cp, stop, d);
                lemma_shaped_prepend(x, rest->Ok_0, last);
            } else {
                let part = indirect_runs(b, e, n, i, cp, stop);
                assert(segment_mapping_runs(b, e, n, cp, last) == concat(part, rest));
                lemma_indirect_shaped(b, e, n, i, cp, stop);
                if stop < last {
                    lemma_shaped_concat(part->Ok_0, rest->Ok_0, cp, stop, last);
                } else {
                    assert(part->Ok_0 + rest->Ok_0 =~= part->Ok_0);
                }
            }
        }
    }
}

proof fn lemma_segmented_coverage_shaped(b: Seq<u8>, g: int, n: int, cp: int, last: int)
    requires
        0 <= cp,
        last <= 0xFFFF_FFFF,
        segmented_coverage_runs(b, g, n, cp, last) is Ok,
    ensures
        runs_shaped(segmented_coverage_runs(b, g, n, cp, last)->Ok_0, cp, last),
    decreases last + 1 - cp,
{
    if cp <= last {
        let found = crate::model::find_group(b, g, cp, 0, n);
        if found == Ok::<Option<int>, FontError>(None) {
            let rest = segmented_coverage_runs(b, g, n, cp + 1, last);
            assert(segmented_coverage_runs(b, g, n, cp, last) == prepend(missing_run(cp), rest));
            lemma_segmented_coverage_shaped(b, g, n, cp + 1, last);
            lemma_missing_run_shaped(cp);
            lemma_shaped_prepend(missing_run(cp), rest->Ok_0, last);
        } else if found is Ok {
            let k = found->Ok_0->Some_0;
            crate::model::lemma_find_group_holds(b, g, cp, 0, n);
            let stop = crate::model::min(last, crate::model::group_end(b, g, k));
            if stop >= cp {
                let rest = segmented_coverage_runs(b, g, n, stop + 1, last);
                let base = crate::model::group_glyph(b, g, k) - crate::model::group_start(b, g, k);
                let x = run(cp, stop, wrap16(base + cp), wrap16(base + stop));
                assert(segmented_coverage_runs(b, g, n, cp, last) == prepend(x, rest));
                lemma_segmented_coverage_shaped(b, g, n, stop + 1, last);
                lemma_linear_run_shaped(cp, stop, base);
                lemma_shaped_prepend(x, rest->Ok_0, last);
            }
        }
    }
}

proof fn lemma_missing_run_shaped(c: int)
    requires
        0 <= c <= 0xFFFF_FFFF,
    ensures
        missing_run(c).first() == c,
        missing_run(c).last == c,
        glyph_span_matches(missing_run(c)),
{
}

proof fn lemma_linear_run_shaped(first: int, last: int, base: int)
    requires
        0 <= first <= last <= 0xFFFF_FFFF,
    ensures
        run(first, last, wrap16(base + first), wrap16(base + last)).first() == first,
        run(first, last, wrap16(base + first), wrap16(base + last)).last == last,
        glyph_span_matches(run(first, last, wrap16(base + first), wrap16(base + last))),
{
    lemma_span_wraps(first, last, base);
}

// ---- Tilings --------------------------------------------------------------------------

proof fn lemma_tiles_order(rs: Seq<Run>, first: int, last: int, i: int, j: int)
    requires
        tiles(rs, first, last),
        0 <= i < j < rs.len(),
    ensures
        rs[i].last < rs[j].first(),
    decreases j - i,
{
    assert(rs[j - 1 + 1].first() == rs[j - 1].last + 1);
    if i < j - 1 {
        lemma_tiles_order(rs, first, last, i, j - 1);
        assert(rs[j - 1].first() <= rs[j - 1].last);
    }
}

proof fn lemma_tiles_cover(rs: Seq<Run>, first: int, last: int, c: int)
    requires
        tiles(rs, first, last),
        first <= c <= last,
    ensures
        exists|i: int| 0 <= i < rs.len() && #[trigger] rs[i].covers(c),
    decreases rs.len(),
{
    if c <= rs[0].last {
        assert(rs[0].covers(c));
    } else {
        let tail = rs.subrange(1, rs.len() as int);
        if rs.len() == 1 {
            assert(rs.last() == rs[0]);
        } else {
            assert(tail[0] == rs[1]);
            assert(tail.last() == rs.last());
            assert forall|i: int| 0 <= i < tail.len() implies #[trigger] tail[i].first() <= tail[i].last by {
                assert(tail[i] == rs[i + 1]);
            }
            assert forall|i: int| 0 <= i < tail.len() - 1 implies #[trigger] tail[i + 1].first()
                == tail[i].last + 1 by {
                assert(tail[i] == rs[i + 1]);
                assert(tail[i + 1] == rs[i + 2]);
            }
            lemma_tiles_cover(tail, rs[0].last + 1, last, c);
            let i = choose|i: int| 0 <= i < tail.len() && #[trigger] tail[i].covers(c);
            assert(rs[i + 1].covers(c));
        }
    }
}

} // verus!
