//! Resolution of codepoint ranges to glyph ranges through a `cmap` table.
use vstd::prelude::*;

use crate::charmap::{
    entries, flat_entries, lemma_concat_assoc, lemma_concat_prepend, lemma_entries_concat,
    lemma_entries_push, lemma_flat_entries_push, missing_run, run, wrap16, CodepointRange, GlyphMapping, GlyphRange,
    MappedGlyphRange, Run, MISSING_GLYPH,
};
use crate::error::FontError;
use crate::model::{
    cmap_lookup, concat_ok, end_code, find_group, find_segment, group_end, group_glyph,
    group_start, id_delta, id_range_offset, id_range_offsets, indirect_runs, lemma_ranges_runs_step, lemma_range_runs_segment_mapping, lemma_range_runs_segmented_coverage,
    lookup_in, min, outcome_matches, range_runs, ranges_runs, segment_mapping_at,
    segment_mapping_runs, segmented_coverage_at, segmented_coverage_runs, select_record,
    start_code, subtable_at, Subtable,
};
use crate::reader::{be_u16, Cursor};

verus! {

/// The table tag `cmap`.
pub const TAG: u32 = 0x636D_6170;

const PLATFORM_ID_UNICODE: u16 = 0;

const PLATFORM_ID_MICROSOFT: u16 = 3;

const MICROSOFT_ENCODING_ID_UNICODE_BMP: u16 = 1;

const MICROSOFT_ENCODING_ID_UNICODE_UCS4: u16 = 10;

const FORMAT_SEGMENT_MAPPING_TO_DELTA_VALUES: u16 = 4;

const FORMAT_SEGMENTED_COVERAGE: u16 = 12;

/// The bytes of one table of a font.
#[derive(Clone, Copy)]
pub struct FontTable<'a> {
    pub bytes: &'a [u8],
}

/// The `cmap` table of a font.
#[derive(Clone, Copy)]
pub struct CmapTable<'a> {
    table: FontTable<'a>,
}

impl<'a> View for CmapTable<'a> {
    type V = Seq<u8>;

    closed spec fn view(&self) -> Seq<u8> {
        self.table.bytes@
    }
}

/// A Format 12 group.
#[derive(Clone, Copy)]
struct Segment {
    start_char_code: u32,
    end_char_code: u32,
    start_glyph_id: u32,
}

/// Cursors at the starts of the four parallel arrays of a Format 4 subtable.
struct SegmentArrays<'a> {
    end_codes: Cursor<'a>,
    start_codes: Cursor<'a>,
    id_deltas: Cursor<'a>,
    id_range_offsets: Cursor<'a>,
    seg_count: u16,
}

impl<'a> SegmentArrays<'a> {
    spec fn data(&self) -> Seq<u8> {
        self.end_codes.data()
    }

    spec fn ends(&self) -> int {
        self.end_codes.position()
    }

    spec fn count(&self) -> int {
        self.seg_count as int
    }

    spec fn wf(&self) -> bool {
        let e = self.ends();
        let n = self.count();
        &&& self.end_codes.wf()
        &&& self.start_codes.wf()
        &&& self.id_deltas.wf()
        &&& self.id_range_offsets.wf()
        &&& self.start_codes.data() == self.data()
        &&& self.id_deltas.data() == self.data()
        &&& self.id_range_offsets.data() == self.data()
        &&& self.start_codes.position() == e + 2 * n + 2
        &&& self.id_deltas.position() == e + 4 * n + 2
        &&& self.id_range_offsets.position() == id_range_offsets(e, n)
        &&& e + 8 * n + 2 <= self.data().len()
        &&& n < 0x8000
    }

    /// The subtable these arrays belong to.
    spec fn subtable(&self) -> Subtable {
        Subtable::SegmentMapping { ends: self.ends() as nat, seg_count: self.count() as nat }
    }
}

/// Reads the big-endian `u16` at entry `index` of the array that starts at `base`.
fn read_u16_at(base: &Cursor, index: u16) -> (r: Result<u16, FontError>)
    requires
        base.wf(),
        base.position() + 2 * index + 2 <= base.data().len(),
    ensures
        r == Ok::<u16, FontError>(be_u16(base.data(), base.position() + 2 * index) as u16),
{
    let mut reader = *base;
    reader.jump(index as u64 * 2)?;
    reader.read_u16()
}

/// Adds a signed delta to a 16-bit value, modulo 2^16.
fn add_delta(value: u16, delta: i16) -> (r: u16)
    ensures
        r == wrap16(value + delta),
{
    let sum: i32 = value as i32 + delta as i32 + 0x10000;
    assert(sum % 0x10000 == wrap16(value + delta)) by (nonlinear_arith)
        requires
            sum == value + delta + 0x10000,
            0 <= sum,
    {
    }
    (sum % 0x10000) as u16
}

/// Binary search for the Format 4 segment holding `cp`.
fn search_segments(arrays: &SegmentArrays, cp: u16) -> (r: Result<Option<u16>, FontError>)
    requires
        arrays.wf(),
    ensures
        match find_segment(arrays.data(), arrays.ends(), arrays.count(), cp as int, 0, arrays.count()) {
            Some(i) => r == Ok::<Option<u16>, FontError>(Some(i as u16)) && 0 <= i < arrays.count()
                && start_code(arrays.data(), arrays.ends(), arrays.count(), i) <= cp
                && cp <= end_code(arrays.data(), arrays.ends(), arrays.count(), i),
            None => r == Ok::<Option<u16>, FontError>(None),
        },
{
    let ghost b = arrays.data();
    let ghost e = arrays.ends();
    let ghost n = arrays.count();
    let mut low: u16 = 0;
    let mut high: u16 = arrays.seg_count;
    while low < high
        invariant
            arrays.wf(),
            b == arrays.data(),
            e == arrays.ends(),
            n == arrays.count(),
            low <= high <= n,
            find_segment(b, e, n, cp as int, low as int, high as int) == find_segment(
                b,
                e,
                n,
                cp as int,
                0,
                n,
            ),
        decreases high - low,
    {
        let mid = (low + high) / 2;
        let end_code = read_u16_at(&arrays.end_codes, mid)?;
        if cp > end_code {
            low = mid + 1;
            continue ;
        }
        let start_code = read_u16_at(&arrays.start_codes, mid)?;
        if cp < start_code {
            high = mid;
            continue ;
        }
        return Ok(Some(mid));
    }
    Ok(None)
}

/// Appends the one-codepoint entries of `first..=stop`, looked up through the glyph id
/// array of segment `i`.
fn push_indirect_glyphs(
    arrays: &SegmentArrays,
    i: u16,
    seg_start: u16,
    delta: i16,
    range_offset: u16,
    first: u16,
    stop: u16,
    glyph_mapping: &mut GlyphMapping,
) -> (r: Result<(), FontError>)
    requires
        arrays.wf(),
        i < arrays.count(),
        seg_start == start_code(arrays.data(), arrays.ends(), arrays.count(), i as int),
        delta == id_delta(arrays.data(), arrays.ends(), arrays.count(), i as int),
        range_offset == id_range_offset(arrays.data(), arrays.ends(), arrays.count(), i as int),
        seg_start <= first <= stop,
    ensures
        match indirect_runs(arrays.data(), arrays.ends(), arrays.count(), i as int, first as int, stop as int) {
            Ok(rs) => r is Ok && final(glyph_mapping)@ == old(glyph_mapping)@ + entries(rs),
            Err(x) => r == Err::<(), FontError>(x),
        },
{
    let ghost b = arrays.data();
    let ghost e = arrays.ends();
    let ghost n = arrays.count();
    let ghost mut acc: Seq<Run> = Seq::empty();
    let mut c: u32 = first as u32;
    while c <= stop as u32
        invariant
            arrays.wf(),
            b == arrays.data(),
            e == arrays.ends(),
            n == arrays.count(),
            i < n,
            seg_start == start_code(b, e, n, i as int),
            delta == id_delta(b, e, n, i as int),
            range_offset == id_range_offset(b, e, n, i as int),
            seg_start <= first <= c <= stop + 1,
            concat_ok(acc, indirect_runs(b, e, n, i as int, c as int, stop as int))
                == indirect_runs(b, e, n, i as int, first as int, stop as int),
            glyph_mapping@ == old(glyph_mapping)@ + entries(acc),
        decreases stop + 1 - c,
    {
        let mut reader = arrays.id_range_offsets;
        reader.jump(i as u64 * 2 + (c - seg_start as u32) as u64 * 2 + range_offset as u64)?;
        let glyph_id = reader.read_u16()?;
        let g = if glyph_id == 0 {
            MISSING_GLYPH
        } else {
            add_delta(glyph_id, delta)
        };
        let entry = MappedGlyphRange { codepoint_start: c, glyphs: GlyphRange { start: g, end: g } };
        proof {
            let x = run(c as int, c as int, g as int, g as int);
            assert(x.entry == entry);
            lemma_concat_prepend(acc, x, indirect_runs(b, e, n, i as int, c + 1, stop as int));
            lemma_entries_push(acc, x);
            acc = acc.push(x);
        }
        glyph_mapping.push(entry);
        c = c + 1;
    }
    proof {
        assert(acc + Seq::<Run>::empty() =~= acc);
        assert(old(glyph_mapping)@ + entries(acc) == glyph_mapping@);
    }
    Ok(())
}

/// Reads the `i16` at entry `index` of the array that starts at `base`.
fn read_i16_at(base: &Cursor, index: u16) -> (r: Result<i16, FontError>)
    requires
        base.wf(),
        base.position() + 2 * index + 2 <= base.data().len(),
    ensures
        r == Ok::<i16, FontError>(
            crate::reader::signed16(be_u16(base.data(), base.position() + 2 * index)) as i16,
        ),
{
    let mut reader = *base;
    reader.jump(index as u64 * 2)?;
    reader.read_i16()
}

/// Appends the entries that a Format 4 subtable gives for `range`.
fn push_segment_mapping_range(
    arrays: &SegmentArrays,
    range: CodepointRange,
    glyph_mapping: &mut GlyphMapping,
) -> (r: Result<(), FontError>)
    requires
        arrays.wf(),
    ensures
        match range_runs(arrays.data(), arrays.subtable(), range) {
            Ok(rs) => r is Ok && final(glyph_mapping)@ == old(glyph_mapping)@ + entries(rs),
            Err(x) => r == Err::<(), FontError>(x),
        },
{
    let ghost b = arrays.data();
    let ghost e = arrays.ends();
    let ghost n = arrays.count();
    let ghost first = range.start as int;
    let ghost t = arrays.subtable();
    proof {
        lemma_range_runs_segment_mapping(b, e as nat, n as nat, range);
    }
    let last: u64 = range.end as u64;
    if range.start > range.end {
        assert(old(glyph_mapping)@ + entries(Seq::empty()) =~= glyph_mapping@);
        return Ok(());
    }
    let mut cp: u64 = range.start as u64;
    let ghost mut acc: Seq<Run> = Seq::empty();
    assert(concat_ok(acc, segment_mapping_runs(b, e, n, cp as int, last as int))
        =~= segment_mapping_runs(b, e, n, first, last as int)) by {
        match segment_mapping_runs(b, e, n, first, last as int) {
            Ok(rs) => assert(acc + rs =~= rs),
            Err(_) => {},
        }
    }
    while cp <= last
        invariant
            arrays.wf(),
            b == arrays.data(),
            e == arrays.ends(),
            n == arrays.count(),
            last == range.end,
            first == range.start,
            first <= cp <= last + 1,
            t == arrays.subtable(),
            range_runs(b, t, range) == segment_mapping_runs(b, e, n, first, last as int),
            concat_ok(acc, segment_mapping_runs(b, e, n, cp as int, last as int))
                == segment_mapping_runs(b, e, n, first, last as int),
            glyph_mapping@ == old(glyph_mapping)@ + entries(acc),
        decreases last + 1 - cp,
    {
        if cp > 0xFFFF {
            let entry = MappedGlyphRange {
                codepoint_start: cp as u32,
                glyphs: GlyphRange { start: MISSING_GLYPH, end: MISSING_GLYPH },
            };
            proof {
                let x = missing_run(cp as int);
                assert(x.entry == entry);
                lemma_concat_prepend(acc, x, segment_mapping_runs(b, e, n, cp + 1, last as int));
                lemma_entries_push(acc, x);
                acc = acc.push(x);
            }
            glyph_mapping.push(entry);
            cp = cp + 1;
            continue ;
        }
        let cp16 = cp as u16;
        match search_segments(arrays, cp16)? {
            None => {
                let entry = MappedGlyphRange {
                    codepoint_start: cp as u32,
                    glyphs: GlyphRange { start: MISSING_GLYPH, end: MISSING_GLYPH },
                };
                proof {
                    let x = missing_run(cp as int);
                    assert(x.entry == entry);
                    lemma_concat_prepend(acc, x, segment_mapping_runs(b, e, n, cp + 1, last as int));
                    lemma_entries_push(acc, x);
                    acc = acc.push(x);
                }
                glyph_mapping.push(entry);
                cp = cp + 1;
            },
            Some(i) => {
                let seg_start = read_u16_at(&arrays.start_codes, i)?;
                let seg_end = read_u16_at(&arrays.end_codes, i)?;
                let range_offset = read_u16_at(&arrays.id_range_offsets, i)?;
                let delta = read_i16_at(&arrays.id_deltas, i)?;
                let last16: u16 = if last > 0xFFFF {
                    0xFFFF
                } else {
                    last as u16
                };
                let stop: u16 = if last16 < seg_end {
                    last16
                } else {
                    seg_end
                };
                assert(stop == min(min(last as int, 0xFFFF), end_code(b, e, n, i as int)));
                let ghost rest = segment_mapping_runs(b, e, n, stop + 1, last as int);
                if range_offset == 0 {
                    let entry = MappedGlyphRange {
                        codepoint_start: cp16 as u32,
                        glyphs: GlyphRange { start: add_delta(cp16, delta), end: add_delta(stop, delta) },
                    };
                    proof {
                        let x = run(
                            cp as int,
                            stop as int,
                            wrap16(cp + delta),
                            wrap16(stop + delta),
                        );
                        assert(x.entry == entry);
                        lemma_concat_prepend(acc, x, rest);
                        lemma_entries_push(acc, x);
                        acc = acc.push(x);
                    }
                    glyph_mapping.push(entry);
                } else {
                    let ghost before = glyph_mapping@;
                    push_indirect_glyphs(
                        arrays,
                        i,
                        seg_start,
                        delta,
                        range_offset,
                        cp16,
                        stop,
                        glyph_mapping,
                    )?;
                    proof {
                        let part = indirect_runs(b, e, n, i as int, cp as int, stop as int);
                        lemma_concat_assoc(Ok(acc), part, rest);
                        let rs = part->Ok_0;
                        lemma_entries_concat(acc, rs);
                        assert(before + entries(rs) == old(glyph_mapping)@ + entries(acc) + entries(rs));
                        assert(old(glyph_mapping)@ + entries(acc) + entries(rs) =~= old(glyph_mapping)@ + (entries(acc) + entries(rs)));
                        acc = acc + rs;
                    }
                }
                cp = stop as u64 + 1;
            },
        }
    }
    proof {
        assert(acc + Seq::<Run>::empty() =~= acc);
    }
    Ok(())
}

/// Reads the Format 12 group `k` of the array that starts at `groups`.
fn read_group(groups: &Cursor, k: u32) -> (r: Result<Segment, FontError>)
    requires
        groups.wf(),
    ensures
        groups.position() + 12 * k + 12 <= groups.data().len() ==> (r matches Ok(s)
            && s.start_char_code == group_start(groups.data(), groups.position(), k as int)
            && s.end_char_code == group_end(groups.data(), groups.position(), k as int)
            && s.start_glyph_id == group_glyph(groups.data(), groups.position(), k as int)),
        groups.position() + 12 * k + 12 > groups.data().len() ==> r == Err::<Segment, FontError>(
            FontError::UnexpectedEndOfData,
        ),
{
    let mut reader = *groups;
    reader.jump(k as u64 * 12)?;
    let start_char_code = reader.read_u32()?;
    let end_char_code = reader.read_u32()?;
    let start_glyph_id = reader.read_u32()?;
    Ok(Segment { start_char_code, end_char_code, start_glyph_id })
}

/// Binary search for the Format 12 group holding `cp`.
fn search_groups(groups: &Cursor, num_groups: u32, cp: u32) -> (r: Result<Option<Segment>, FontError>)
    requires
        groups.wf(),
    ensures
        match find_group(groups.data(), groups.position(), cp as int, 0, num_groups as int) {
            Ok(Some(k)) => r matches Ok(Some(s)) && s.start_char_code == group_start(
                groups.data(),
                groups.position(),
                k,
            ) && s.end_char_code == group_end(groups.data(), groups.position(), k)
                && s.start_glyph_id == group_glyph(groups.data(), groups.position(), k)
                && s.start_char_code <= cp <= s.end_char_code,
            Ok(None) => r matches Ok(None),
            Err(x) => r == Err::<Option<Segment>, FontError>(x),
        },
{
    let ghost b = groups.data();
    let ghost g = groups.position();
    let mut low: u32 = 0;
    let mut high: u32 = num_groups;
    while low < high
        invariant
            groups.wf(),
            b == groups.data(),
            g == groups.position(),
            low <= high <= num_groups,
            find_group(b, g, cp as int, low as int, high as int) == find_group(
                b,
                g,
                cp as int,
                0,
                num_groups as int,
            ),
        decreases high - low,
    {
        let mid = low + (high - low) / 2;
        assert(mid == (low + high) / 2);
        let segment = read_group(groups, mid)?;
        if cp < segment.start_char_code {
            high = mid;
        } else if cp > segment.end_char_code {
            low = mid + 1;
        } else {
            return Ok(Some(segment));
        }
    }
    Ok(None)
}

/// Appends the entries that a Format 12 subtable gives for `range`.
fn push_segmented_coverage_range(
    groups: &Cursor,
    num_groups: u32,
    range: CodepointRange,
    glyph_mapping: &mut GlyphMapping,
) -> (r: Result<(), FontError>)
    requires
        groups.wf(),
    ensures
        match range_runs(
            groups.data(),
            Subtable::SegmentedCoverage {
                groups: groups.position() as nat,
                num_groups: num_groups as nat,
            },
            range,
        ) {
            Ok(rs) => r is Ok && final(glyph_mapping)@ == old(glyph_mapping)@ + entries(rs),
            Err(x) => r == Err::<(), FontError>(x),
        },
{
    let ghost b = groups.data();
    let ghost g = groups.position();
    let ghost n = num_groups as int;
    let ghost first = range.start as int;
    let ghost t = Subtable::SegmentedCoverage { groups: g as nat, num_groups: n as nat };
    proof {
        lemma_range_runs_segmented_coverage(b, g as nat, n as nat, range);
    }
    let last: u64 = range.end as u64;
    if range.start > range.end {
        assert(old(glyph_mapping)@ + entries(Seq::empty()) =~= glyph_mapping@);
        return Ok(());
    }
    let mut cp: u64 = range.start as u64;
    let ghost mut acc: Seq<Run> = Seq::empty();
    assert(concat_ok(acc, segmented_coverage_runs(b, g, n, cp as int, last as int))
        =~= segmented_coverage_runs(b, g, n, first, last as int)) by {
        match segmented_coverage_runs(b, g, n, first, last as int) {
            Ok(rs) => assert(acc + rs =~= rs),
            Err(_) => {},
        }
    }
    while cp <= last
        invariant
            groups.wf(),
            b == groups.data(),
            g == groups.position(),
            n == num_groups,
            last == range.end,
            first == range.start,
            first <= cp <= last + 1,
            t == (Subtable::SegmentedCoverage { groups: g as nat, num_groups: n as nat }),
            range_runs(b, t, range) == segmented_coverage_runs(b, g, n, first, last as int),
            concat_ok(acc, segmented_coverage_runs(b, g, n, cp as int, last as int))
                == segmented_coverage_runs(b, g, n, first, last as int),
            glyph_mapping@ == old(glyph_mapping)@ + entries(acc),
        decreases last + 1 - cp,
    {
        let cp32 = cp as u32;
        assert(cp32 == cp);
        match search_groups(groups, num_groups, cp32)? {
            None => {
                let entry = MappedGlyphRange {
                    codepoint_start: cp as u32,
                    glyphs: GlyphRange { start: MISSING_GLYPH, end: MISSING_GLYPH },
                };
                proof {
                    let x = missing_run(cp as int);
                    assert(x.entry == entry);
                    lemma_concat_prepend(acc, x, segmented_coverage_runs(b, g, n, cp + 1, last as int));
                    lemma_entries_push(acc, x);
                    acc = acc.push(x);
                }
                glyph_mapping.push(entry);
                cp = cp + 1;
            },
            Some(segment) => {
                let stop: u64 = if last < segment.end_char_code as u64 {
                    last
                } else {
                    segment.end_char_code as u64
                };
                let base: u64 = segment.start_glyph_id as u64;
                let first_glyph = ((base + (cp - segment.start_char_code as u64)) % 0x10000) as u16;
                let last_glyph = ((base + (stop - segment.start_char_code as u64)) % 0x10000) as u16;
                let entry = MappedGlyphRange {
                    codepoint_start: cp as u32,
                    glyphs: GlyphRange { start: first_glyph, end: last_glyph },
                };
                proof {
                    let k = find_group(b, g, cp as int, 0, n)->Ok_0->Some_0;
                    let offset = group_glyph(b, g, k) - group_start(b, g, k);
                    let x = run(cp as int, stop as int, wrap16(offset + cp), wrap16(offset + stop));
                    assert(x.entry == entry);
                    lemma_concat_prepend(acc, x, segmented_coverage_runs(b, g, n, stop + 1, last as int));
                    lemma_entries_push(acc, x);
                    acc = acc.push(x);
                }
                glyph_mapping.push(entry);
                cp = stop + 1;
            },
        }
    }
    proof {
        assert(acc + Seq::<Run>::empty() =~= acc);
    }
    Ok(())
}

impl<'a> CmapTable<'a> {
    pub fn new(table: FontTable<'a>) -> (r: CmapTable<'a>)
        ensures
            r@ == table.bytes@,
    {
        CmapTable { table: table }
    }

    /// Maps each of `codepoint_ranges`, in order, to glyph ranges.
    ///
    /// The first Unicode encoding record of the table selects the subtable; a codepoint
    /// without a glyph gets a one-codepoint entry for the missing glyph.
    pub fn glyph_mapping_for_codepoint_ranges(&self, codepoint_ranges: &[CodepointRange]) -> (r:
        Result<GlyphMapping, FontError>)
        ensures
            outcome_matches(r, cmap_lookup(self@, codepoint_ranges@)),
    {
        let bytes = self.table.bytes;
        let mut cmap_reader = Cursor::new(bytes);
        if cmap_reader.read_u16()? != 0 {
            return Err(FontError::UnsupportedCmapVersion);
        }
        let num_tables = cmap_reader.read_u16()?;
        let mut k: u16 = 0;
        while k < num_tables
            invariant
                cmap_reader.wf(),
                cmap_reader.data() == bytes@,
                bytes@ == self@,
                cmap_reader.position() == 4 + 8 * k,
                bytes@.len() >= 4,
                be_u16(bytes@, 0) == 0,
                num_tables == be_u16(bytes@, 2),
                k <= num_tables,
                select_record(bytes@, k as int, num_tables as int) == select_record(
                    bytes@,
                    0,
                    num_tables as int,
                ),
            decreases num_tables - k,
        {
            let platform_id = cmap_reader.read_u16()?;
            let encoding_id = cmap_reader.read_u16()?;
            let offset = cmap_reader.read_u32()?;
            if platform_id == PLATFORM_ID_UNICODE || (platform_id == PLATFORM_ID_MICROSOFT && (
            encoding_id == MICROSOFT_ENCODING_ID_UNICODE_BMP || encoding_id
                == MICROSOFT_ENCODING_ID_UNICODE_UCS4)) {
                // Move to the mapping table.
                let mut subtable_reader = Cursor::new(bytes);
                subtable_reader.jump(offset as u64)?;
                return self.glyph_mapping_for_subtable(subtable_reader, codepoint_ranges);
            }
            k = k + 1;
        }
        Err(FontError::UnsupportedCmapEncoding)
    }

    /// Dispatches on the format word of the subtable that `cmap_reader` points at.
    fn glyph_mapping_for_subtable(&self, cmap_reader: Cursor<'a>, codepoint_ranges: &[CodepointRange]) -> (r:
        Result<GlyphMapping, FontError>)
        requires
            cmap_reader.wf(),
        ensures
            outcome_matches(
                r,
                lookup_in(
                    cmap_reader.data(),
                    subtable_at(cmap_reader.data(), cmap_reader.position()),
                    codepoint_ranges@,
                ),
            ),
    {
        let mut cmap_reader = cmap_reader;
        let format = cmap_reader.read_u16()?;
        if format == FORMAT_SEGMENT_MAPPING_TO_DELTA_VALUES {
            self.glyph_mapping_for_codepoint_ranges_segment_mapping_format(cmap_reader, codepoint_ranges)
        } else if format == FORMAT_SEGMENTED_COVERAGE {
            self.glyph_mapping_for_codepoint_ranges_segmented_coverage(cmap_reader, codepoint_ranges)
        } else {
            Err(FontError::UnsupportedCmapFormat)
        }
    }

    fn glyph_mapping_for_codepoint_ranges_segment_mapping_format(
        &self,
        subtable: Cursor<'a>,
        codepoint_ranges: &[CodepointRange],
    ) -> (r: Result<GlyphMapping, FontError>)
        requires
            subtable.wf(),
        ensures
            outcome_matches(
                r,
                lookup_in(
                    subtable.data(),
                    segment_mapping_at(subtable.data(), subtable.position()),
                    codepoint_ranges@,
                ),
            ),
    {
        let ghost b = subtable.data();
        let ghost h = subtable.position();
        let mut cmap_reader = subtable;
        // Read the mapping table header.
        let _length = cmap_reader.read_u16()?;
        let _language = cmap_reader.read_u16()?;
        let seg_count = cmap_reader.read_u16()? / 2;
        let _search_range = cmap_reader.read_u16()?;
        let _entry_selector = cmap_reader.read_u16()?;
        let _range_shift = cmap_reader.read_u16()?;

        // Set up parallel array pointers; the end codes are followed by one reserved word.
        let end_codes = cmap_reader;
        let mut start_codes = cmap_reader;
        start_codes.jump((seg_count as u64 + 1) * 2)?;
        let mut id_deltas = start_codes;
        id_deltas.jump(seg_count as u64 * 2)?;
        let mut id_range_offsets = id_deltas;
        id_range_offsets.jump(seg_count as u64 * 2)?;
        let mut glyph_ids = id_range_offsets;
        glyph_ids.jump(seg_count as u64 * 2)?;
        let arrays = SegmentArrays { end_codes, start_codes, id_deltas, id_range_offsets, seg_count };
        assert(segment_mapping_at(b, h) == Ok::<Subtable, FontError>(arrays.subtable()));

        let mut glyph_mapping = GlyphMapping::new();
        let ghost mut rss: Seq<Seq<Run>> = Seq::empty();
        let mut k: usize = 0;
        while k < codepoint_ranges.len()
            invariant
                arrays.wf(),
                arrays.data() == b,
                b == subtable.data(),
                h == subtable.position(),
                segment_mapping_at(b, h) == Ok::<Subtable, FontError>(arrays.subtable()),
                k <= codepoint_ranges.len(),
                ranges_runs(b, arrays.subtable(), codepoint_ranges@.take(k as int)) == Ok::<
                    Seq<Seq<Run>>,
                    FontError,
                >(rss),
                glyph_mapping@ == flat_entries(rss),
            decreases codepoint_ranges.len() - k,
        {
            let range = codepoint_ranges[k];
            let ghost before = glyph_mapping@;
            let pushed = push_segment_mapping_range(&arrays, range, &mut glyph_mapping);
            proof {
                lemma_ranges_runs_step(b, arrays.subtable(), codepoint_ranges@, k as int);
            }
            if let Err(x) = pushed {
                return Err(x);
            }
            proof {
                let rs = range_runs(b, arrays.subtable(), range)->Ok_0;
                lemma_flat_entries_push(rss, rs);
                rss = rss.push(rs);
            }
            k = k + 1;
        }
        assert(codepoint_ranges@.take(k as int) =~= codepoint_ranges@);
        Ok(glyph_mapping)
    }

    fn glyph_mapping_for_codepoint_ranges_segmented_coverage(
        &self,
        subtable: Cursor<'a>,
        codepoint_ranges: &[CodepointRange],
    ) -> (r: Result<GlyphMapping, FontError>)
        requires
            subtable.wf(),
        ensures
            outcome_matches(
                r,
                lookup_in(
                    subtable.data(),
                    segmented_coverage_at(subtable.data(), subtable.position()),
                    codepoint_ranges@,
                ),
            ),
    {
        let ghost b = subtable.data();
        let ghost h = subtable.position();
        let mut cmap_reader = subtable;
        let _reserved = cmap_reader.read_u16()?;
        let _length = cmap_reader.read_u32()?;
        let _language = cmap_reader.read_u32()?;
        let num_groups = cmap_reader.read_u32()?;
        let groups = cmap_reader;
        let ghost t = Subtable::SegmentedCoverage {
            groups: groups.position() as nat,
            num_groups: num_groups as nat,
        };
        assert(segmented_coverage_at(b, h) == Ok::<Subtable, FontError>(t));

        let mut glyph_mapping = GlyphMapping::new();
        let ghost mut rss: Seq<Seq<Run>> = Seq::empty();
        let mut k: usize = 0;
        while k < codepoint_ranges.len()
            invariant
                groups.wf(),
                groups.data() == b,
                b == subtable.data(),
                h == subtable.position(),
                t == (Subtable::SegmentedCoverage {
                    groups: groups.position() as nat,
                    num_groups: num_groups as nat,
                }),
                segmented_coverage_at(b, h) == Ok::<Subtable, FontError>(t),
                k <= codepoint_ranges.len(),
                ranges_runs(b, t, codepoint_ranges@.take(k as int)) == Ok::<
                    Seq<Seq<Run>>,
                    FontError,
                >(rss),
                glyph_mapping@ == flat_entries(rss),
            decreases codepoint_ranges.len() - k,
        {
            let range = codepoint_ranges[k];
            let ghost before = glyph_mapping@;
            let pushed = push_segmented_coverage_range(&groups, num_groups, range, &mut glyph_mapping);
            proof {
                lemma_ranges_runs_step(b, t, codepoint_ranges@, k as int);
            }
            if let Err(x) = pushed {
                return Err(x);
            }
            proof {
                let rs = range_runs(b, t, range)->Ok_0;
                lemma_flat_entries_push(rss, rs);
                rss = rss.push(rs);
            }
            k = k + 1;
        }
        assert(codepoint_ranges@.take(k as int) =~= codepoint_ranges@);
        Ok(glyph_mapping)
    }
}

} // verus!
