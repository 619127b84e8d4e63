//! What a query returns, stated over the bytes of the table.
use vstd::prelude::*;

use crate::charmap::{
    concat, flat_entries, missing_run, prepend, run, wrap16, CodepointRange, GlyphMapping, Run,
};
use crate::error::FontError;
use crate::reader::{be_u16, be_u32, signed16};

verus! {

pub open spec fn min(a: int, b: int) -> int {
    if a <= b {
        a
    } else {
        b
    }
}

/// A subtable that the resolver can answer from, located in the table.
pub enum Subtable {
    /// Format 4: the `end_code` array starts at byte `ends`; `seg_count` segments.
    SegmentMapping { ends: nat, seg_count: nat },
    /// Format 12: the first group starts at byte `groups`; `num_groups` groups.
    SegmentedCoverage { groups: nat, num_groups: nat },
}

/// An encoding record for Unicode: platform 0 with any encoding, or platform 3 with
/// encoding 1 (BMP) or 10 (UCS-4).
pub open spec fn is_unicode_encoding(platform_id: int, encoding_id: int) -> bool {
    platform_id == 0 || (platform_id == 3 && (encoding_id == 1 || encoding_id == 10))
}

/// The subtable offset of the first Unicode record among records `k..n`.
pub open spec fn select_record(b: Seq<u8>, k: int, n: int) -> Result<Option<nat>, FontError>
    decreases n - k,
{
    if k >= n {
        Ok(None)
    } else {
        let p = 4 + 8 * k;
        if p + 8 > b.len() {
            Err(FontError::UnexpectedEndOfData)
        } else if is_unicode_encoding(be_u16(b, p), be_u16(b, p + 2)) {
            Ok(Some(be_u32(b, p + 4) as nat))
        } else {
            select_record(b, k + 1, n)
        }
    }
}

/// The Format 4 subtable whose header, after the format word, starts at `h`.
pub open spec fn segment_mapping_at(b: Seq<u8>, h: int) -> Result<Subtable, FontError> {
    if h + 12 > b.len() {
        Err(FontError::UnexpectedEndOfData)
    } else {
        let seg_count = be_u16(b, h + 4) / 2;
        if h + 12 + 8 * seg_count + 2 > b.len() {
            Err(FontError::UnexpectedEndOfData)
        } else {
            Ok(Subtable::SegmentMapping { ends: (h + 12) as nat, seg_count: seg_count as nat })
        }
    }
}

/// The Format 12 subtable whose header, after the format word, starts at `h`.
pub open spec fn segmented_coverage_at(b: Seq<u8>, h: int) -> Result<Subtable, FontError> {
    if h + 14 > b.len() {
        Err(FontError::UnexpectedEndOfData)
    } else {
        Ok(Subtable::SegmentedCoverage { groups: (h + 14) as nat, num_groups: be_u32(b, h + 10) as nat })
    }
}

/// The subtable that a query of the table `b` is answered from.
pub open spec fn select_subtable(b: Seq<u8>) -> Result<Subtable, FontError> {
    if b.len() < 2 {
        Err(FontError::UnexpectedEndOfData)
    } else if be_u16(b, 0) != 0 {
        Err(FontError::UnsupportedCmapVersion)
    } else if b.len() < 4 {
        Err(FontError::UnexpectedEndOfData)
    } else {
        match select_record(b, 0, be_u16(b, 2)) {
            Err(e) => Err(e),
            Ok(None) => Err(FontError::UnsupportedCmapEncoding),
            Ok(Some(offset)) => subtable_at(b, offset as int),
        }
    }
}

/// The subtable at byte `offset`, by its format word.
pub open spec fn subtable_at(b: Seq<u8>, offset: int) -> Result<Subtable, FontError> {
    if offset + 2 > b.len() {
        Err(FontError::UnexpectedEndOfData)
    } else if be_u16(b, offset) == 4 {
        segment_mapping_at(b, offset + 2)
    } else if be_u16(b, offset) == 12 {
        segmented_coverage_at(b, offset + 2)
    } else {
        Err(FontError::UnsupportedCmapFormat)
    }
}

// ---- Format 4 -------------------------------------------------------------------------

pub open spec fn end_code(b: Seq<u8>, e: int, n: int, i: int) -> int {
    be_u16(b, e + 2 * i)
}

pub open spec fn start_code(b: Seq<u8>, e: int, n: int, i: int) -> int {
    be_u16(b, e + 2 * n + 2 + 2 * i)
}

pub open spec fn id_delta(b: Seq<u8>, e: int, n: int, i: int) -> int {
    signed16(be_u16(b, e + 4 * n + 2 + 2 * i))
}

/// Where the `id_range_offset` array starts.
pub open spec fn id_range_offsets(e: int, n: int) -> int {
    e + 6 * n + 2
}

pub open spec fn id_range_offset(b: Seq<u8>, e: int, n: int, i: int) -> int {
    be_u16(b, id_range_offsets(e, n) + 2 * i)
}

/// Where the glyph id of codepoint `c` lies for segment `i`: `id_range_offset[i]` bytes
/// past that entry's own slot, advanced by the code's offset within the segment.
pub open spec fn glyph_id_slot(b: Seq<u8>, e: int, n: int, i: int, c: int) -> int {
    id_range_offsets(e, n) + 2 * i + 2 * (c - start_code(b, e, n, i)) + id_range_offset(
        b,
        e,
        n,
        i,
    )
}

/// Binary search over segments `low..high` for the one holding `cp`.
pub open spec fn find_segment(b: Seq<u8>, e: int, n: int, cp: int, low: int, high: int) -> Option<
    int,
>
    decreases high - low,
{
    if low >= high {
        None
    } else {
        let mid = (low + high) / 2;
        if cp > end_code(b, e, n, mid) {
            find_segment(b, e, n, cp, mid + 1, high)
        } else if cp < start_code(b, e, n, mid) {
            find_segment(b, e, n, cp, low, mid)
        } else {
            Some(mid)
        }
    }
}

/// A segment that the search returns holds `cp`.
pub proof fn lemma_find_segment_holds(b: Seq<u8>, e: int, n: int, cp: int, low: int, high: int)
    requires
        find_segment(b, e, n, cp, low, high) is Some,
    ensures
        low <= find_segment(b, e, n, cp, low, high)->Some_0 < high,
        start_code(b, e, n, find_segment(b, e, n, cp, low, high)->Some_0) <= cp <= end_code(
            b,
            e,
            n,
            find_segment(b, e, n, cp, low, high)->Some_0,
        ),
    decreases high - low,
{
    let mid = (low + high) / 2;
    if cp > end_code(b, e, n, mid) {
        lemma_find_segment_holds(b, e, n, cp, mid + 1, high);
    } else if cp < start_code(b, e, n, mid) {
        lemma_find_segment_holds(b, e, n, cp, low, mid);
    }
}

/// The one-codepoint runs of `c..=stop` looked up through the glyph id array of segment `i`.
pub open spec fn indirect_runs(b: Seq<u8>, e: int, n: int, i: int, c: int, stop: int) -> Result<
    Seq<Run>,
    FontError,
>
    decreases stop + 1 - c,
{
    if c > stop {
        Ok(Seq::empty())
    } else {
        let slot = glyph_id_slot(b, e, n, i, c);
        if slot + 2 > b.len() {
            Err(FontError::UnexpectedEndOfData)
        } else {
            let raw = be_u16(b, slot);
            let g = if raw == 0 {
                0
            } else {
                wrap16(raw + id_delta(b, e, n, i))
            };
            prepend(run(c, c, g, g), indirect_runs(b, e, n, i, c + 1, stop))
        }
    }
}

/// The runs that a Format 4 subtable gives for the codepoints `cp..=last`.
pub open spec fn segment_mapping_runs(b: Seq<u8>, e: int, n: int, cp: int, last: int) -> Result<
    Seq<Run>,
    FontError,
>
    decreases last + 1 - cp,
{
    if cp > last {
        Ok(Seq::empty())
    } else if cp > 0xFFFF {
        prepend(missing_run(cp), segment_mapping_runs(b, e, n, cp + 1, last))
    } else {
        match find_segment(b, e, n, cp, 0, n) {
            None => prepend(missing_run(cp), segment_mapping_runs(b, e, n, cp + 1, last)),
            Some(i) => {
                let stop = min(min(last, 0xFFFF), end_code(b, e, n, i));
                // The search only returns a segment that holds `cp`.
                if stop < cp {
                    Ok(Seq::empty())
                } else if id_range_offset(b, e, n, i) == 0 {
                    let delta = id_delta(b, e, n, i);
                    prepend(
                        run(cp, stop, wrap16(cp + delta), wrap16(stop + delta)),
                        segment_mapping_runs(b, e, n, stop + 1, last),
                    )
                } else {
                    concat(
                        indirect_runs(b, e, n, i, cp, stop),
                        segment_mapping_runs(b, e, n, stop + 1, last),
                    )
                }
            },
        }
    }
}

// ---- Format 12 ------------------------------------------------------------------------

pub open spec fn group_start(b: Seq<u8>, g: int, k: int) -> int {
    be_u32(b, g + 12 * k)
}

pub open spec fn group_end(b: Seq<u8>, g: int, k: int) -> int {
    be_u32(b, g + 12 * k + 4)
}

pub open spec fn group_glyph(b: Seq<u8>, g: int, k: int) -> int {
    be_u32(b, g + 12 * k + 8)
}

/// Binary search over groups `low..high` for the one holding `cp`; each probe reads a
/// whole group.
pub open spec fn find_group(b: Seq<u8>, g: int, cp: int, low: int, high: int) -> Result<
    Option<int>,
    FontError,
>
    decreases high - low,
{
    if low >= high {
        Ok(None)
    } else {
        let mid = (low + high) / 2;
        if g + 12 * mid + 12 > b.len() {
            Err(FontError::UnexpectedEndOfData)
        } else if cp < group_start(b, g, mid) {
            find_group(b, g, cp, low, mid)
        } else if cp > group_end(b, g, mid) {
            find_group(b, g, cp, mid + 1, high)
        } else {
            Ok(Some(mid))
        }
    }
}

/// A group that the search returns holds `cp`.
pub proof fn lemma_find_group_holds(b: Seq<u8>, g: int, cp: int, low: int, high: int)
    requires
        find_group(b, g, cp, low, high) matches Ok(Some(_)),
    ensures
        low <= find_group(b, g, cp, low, high)->Ok_0->Some_0 < high,
        g + 12 * find_group(b, g, cp, low, high)->Ok_0->Some_0 + 12 <= b.len(),
        group_start(b, g, find_group(b, g, cp, low, high)->Ok_0->Some_0) <= cp <= group_end(
            b,
            g,
            find_group(b, g, cp, low, high)->Ok_0->Some_0,
        ),
    decreases high - low,
{
    let mid = (low + high) / 2;
    if cp < group_start(b, g, mid) {
        lemma_find_group_holds(b, g, cp, low, mid);
    } else if cp > group_end(b, g, mid) {
        lemma_find_group_holds(b, g, cp, mid + 1, high);
    }
}

/// The runs that a Format 12 subtable gives for the codepoints `cp..=last`.
pub open spec fn segmented_coverage_runs(b: Seq<u8>, g: int, n: int, cp: int, last: int) -> Result<
    Seq<Run>,
    FontError,
>
    decreases last + 1 - cp,
{
    if cp > last {
        Ok(Seq::empty())
    } else {
        match find_group(b, g, cp, 0, n) {
            Err(e) => Err(e),
            Ok(None) => prepend(missing_run(cp), segmented_coverage_runs(b, g, n, cp + 1, last)),
            Ok(Some(k)) => {
                let stop = min(last, group_end(b, g, k));
                // The search only returns a group that holds `cp`.
                if stop < cp {
                    Ok(Seq::empty())
                } else {
                    let first_glyph = group_glyph(b, g, k) - group_start(b, g, k);
                    prepend(
                        run(cp, stop, wrap16(first_glyph + cp), wrap16(first_glyph + stop)),
                        segmented_coverage_runs(b, g, n, stop + 1, last),
                    )
                }
            },
        }
    }
}

// ---- Queries --------------------------------------------------------------------------

/// The runs that subtable `t` gives for the codepoints of `r`.
#[verifier::opaque]
pub open spec fn range_runs(b: Seq<u8>, t: Subtable, r: CodepointRange) -> Result<
    Seq<Run>,
    FontError,
> {
    match t {
        Subtable::SegmentMapping { ends, seg_count } => segment_mapping_runs(
            b,
            ends as int,
            seg_count as int,
            r.start as int,
            r.end as int,
        ),
        Subtable::SegmentedCoverage { groups, num_groups } => segmented_coverage_runs(
            b,
            groups as int,
            num_groups as int,
            r.start as int,
            r.end as int,
        ),
    }
}

pub proof fn lemma_range_runs_segment_mapping(b: Seq<u8>, e: nat, n: nat, r: CodepointRange)
    ensures
        range_runs(b, Subtable::SegmentMapping { ends: e, seg_count: n }, r)
            == segment_mapping_runs(b, e as int, n as int, r.start as int, r.end as int),
{
    reveal(range_runs);
}

pub proof fn lemma_range_runs_segmented_coverage(b: Seq<u8>, g: nat, n: nat, r: CodepointRange)
    ensures
        range_runs(b, Subtable::SegmentedCoverage { groups: g, num_groups: n }, r)
            == segmented_coverage_runs(b, g as int, n as int, r.start as int, r.end as int),
{
    reveal(range_runs);
}

/// The runs of each range in turn; the first error ends the query.
pub open spec fn ranges_runs(b: Seq<u8>, t: Subtable, ranges: Seq<CodepointRange>) -> Result<
    Seq<Seq<Run>>,
    FontError,
>
    decreases ranges.len(),
{
    if ranges.len() == 0 {
        Ok(Seq::empty())
    } else {
        match ranges_runs(b, t, ranges.drop_last()) {
            Err(e) => Err(e),
            Ok(rss) => match range_runs(b, t, ranges.last()) {
                Err(e) => Err(e),
                Ok(rs) => Ok(rss.push(rs)),
            },
        }
    }
}

/// The runs of each range, answered from the subtable `t` if there is one.
pub open spec fn lookup_in(
    b: Seq<u8>,
    t: Result<Subtable, FontError>,
    ranges: Seq<CodepointRange>,
) -> Result<Seq<Seq<Run>>, FontError> {
    match t {
        Ok(t) => ranges_runs(b, t, ranges),
        Err(e) => Err(e),
    }
}

/// The runs of each range of a query of the `cmap` table `b`.
pub open spec fn cmap_lookup(b: Seq<u8>, ranges: Seq<CodepointRange>) -> Result<
    Seq<Seq<Run>>,
    FontError,
> {
    lookup_in(b, select_subtable(b), ranges)
}

/// Once a prefix of the ranges fails, the whole query fails with the same error.
pub proof fn lemma_ranges_runs_stops(b: Seq<u8>, t: Subtable, ranges: Seq<CodepointRange>, k: int)
    requires
        0 <= k <= ranges.len(),
        ranges_runs(b, t, ranges.take(k)) is Err,
    ensures
        ranges_runs(b, t, ranges) == ranges_runs(b, t, ranges.take(k)),
    decreases ranges.len(),
{
    if k < ranges.len() {
        assert(ranges.drop_last().take(k) =~= ranges.take(k));
        lemma_ranges_runs_stops(b, t, ranges.drop_last(), k);
    } else {
        assert(ranges.take(k) =~= ranges);
    }
}

/// One more range: its runs join those of the ranges before it, or its error ends the query.
pub proof fn lemma_ranges_runs_step(b: Seq<u8>, t: Subtable, ranges: Seq<CodepointRange>, k: int)
    requires
        0 <= k < ranges.len(),
        ranges_runs(b, t, ranges.take(k)) is Ok,
    ensures
        ranges_runs(b, t, ranges.take(k + 1)) == match range_runs(b, t, ranges[k]) {
            Ok(rs) => Ok(ranges_runs(b, t, ranges.take(k))->Ok_0.push(rs)),
            Err(e) => Err(e),
        },
        range_runs(b, t, ranges[k]) is Err ==> ranges_runs(b, t, ranges) == Err::<
            Seq<Seq<Run>>,
            FontError,
        >(range_runs(b, t, ranges[k])->Err_0),
{
    assert(ranges.take(k + 1).drop_last() =~= ranges.take(k));
    if range_runs(b, t, ranges[k]) is Err {
        lemma_ranges_runs_stops(b, t, ranges, k + 1);
    }
}

/// `acc` followed by the runs of `rest`, or the error of `rest`.
pub open spec fn concat_ok(acc: Seq<Run>, rest: Result<Seq<Run>, FontError>) -> Result<
    Seq<Run>,
    FontError,
> {
    concat(Ok(acc), rest)
}

/// `r` is what the model `m` gives: its entries when `m` succeeds, else `m`'s error.
pub open spec fn outcome_matches(
    r: Result<GlyphMapping, FontError>,
    m: Result<Seq<Seq<Run>>, FontError>,
) -> bool {
    match r {
        Ok(mapping) => m is Ok && mapping@ == flat_entries(m->Ok_0),
        Err(e) => m == Err::<Seq<Seq<Run>>, FontError>(e),
    }
}

} // verus!
