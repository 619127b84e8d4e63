use pathfinder::{
    CmapTable, CodepointRange, FontError, FontTable, GlyphMapping, GlyphRange, MappedGlyphRange,
};

fn put16(out: &mut Vec<u8>, v: u16) {
    out.extend_from_slice(&v.to_be_bytes());
}

fn put32(out: &mut Vec<u8>, v: u32) {
    out.extend_from_slice(&v.to_be_bytes());
}

/// A `cmap` table with one encoding record pointing at `subtable`.
fn table_with(platform_id: u16, encoding_id: u16, subtable: &[u8]) -> Vec<u8> {
    let mut out = Vec::new();
    put16(&mut out, 0);
    put16(&mut out, 1);
    put16(&mut out, platform_id);
    put16(&mut out, encoding_id);
    put32(&mut out, 12);
    out.extend_from_slice(subtable);
    out
}

/// A Format 4 subtable: segments `(start, end, delta, id_range_offset)` and a glyph id array.
fn format4(segments: &[(u16, u16, u16, u16)], glyph_ids: &[u16]) -> Vec<u8> {
    let seg_count = segments.len() as u16;
    let mut out = Vec::new();
    put16(&mut out, 4);
    put16(&mut out, 0);
    put16(&mut out, 0);
    put16(&mut out, seg_count * 2);
    put16(&mut out, 0);
    put16(&mut out, 0);
    put16(&mut out, 0);
    for s in segments {
        put16(&mut out, s.1);
    }
    put16(&mut out, 0);
    for s in segments {
        put16(&mut out, s.0);
    }
    for s in segments {
        put16(&mut out, s.2);
    }
    for s in segments {
        put16(&mut out, s.3);
    }
    for g in glyph_ids {
        put16(&mut out, *g);
    }
    out
}

/// A Format 12 subtable of groups `(start, end, start_glyph)`.
fn format12(groups: &[(u32, u32, u32)]) -> Vec<u8> {
    let mut out = Vec::new();
    put16(&mut out, 12);
    put16(&mut out, 0);
    put32(&mut out, 16 + 12 * groups.len() as u32);
    put32(&mut out, 0);
    put32(&mut out, groups.len() as u32);
    for g in groups {
        put32(&mut out, g.0);
        put32(&mut out, g.1);
        put32(&mut out, g.2);
    }
    out
}

/// Digits 0-2 through the glyph id array, A-Z by delta -32, and the closing 0xFFFF segment.
fn sample_format4_table() -> Vec<u8> {
    let subtable = format4(
        &[(0x30, 0x32, 0, 6), (0x41, 0x5A, 0xFFE0, 0), (0xFFFF, 0xFFFF, 1, 0)],
        &[5, 0, 7],
    );
    table_with(3, 1, &subtable)
}

fn sample_format12_table() -> Vec<u8> {
    table_with(3, 10, &format12(&[(0x20, 0x7E, 100), (0xA0, 0xFF, 200), (0x1F600, 0x1F64F, 1000)]))
}

fn query(bytes: &[u8], ranges: &[CodepointRange]) -> Result<GlyphMapping, FontError> {
    CmapTable::new(FontTable { bytes }).glyph_mapping_for_codepoint_ranges(ranges)
}

fn range(start: u32, end: u32) -> CodepointRange {
    CodepointRange { start, end }
}

fn entry(codepoint_start: u32, start: u16, end: u16) -> MappedGlyphRange {
    MappedGlyphRange { codepoint_start, glyphs: GlyphRange { start, end } }
}

#[test]
fn format4_direct_segment() {
    let m = query(&sample_format4_table(), &[range(0x41, 0x5A)]).unwrap();
    assert_eq!(m.ranges, vec![entry(0x41, 0x21, 0x3A)]);
}

#[test]
fn format4_unmapped_bmp_codepoint() {
    let m = query(&sample_format4_table(), &[range(0x0378, 0x0378)]).unwrap();
    assert_eq!(m.ranges, vec![entry(0x0378, 0, 0)]);
}

#[test]
fn format4_query_above_bmp() {
    let m = query(&sample_format4_table(), &[range(0x10000, 0x10001)]).unwrap();
    assert_eq!(m.ranges, vec![entry(0x10000, 0, 0), entry(0x10001, 0, 0)]);
}

#[test]
fn format4_indirect_segment() {
    let m = query(&sample_format4_table(), &[range(0x30, 0x32)]).unwrap();
    assert_eq!(m.ranges, vec![entry(0x30, 5, 5), entry(0x31, 0, 0), entry(0x32, 7, 7)]);
}

#[test]
fn format4_indirect_glyph_gets_delta() {
    let subtable = format4(&[(0x30, 0x31, 3, 4), (0xFFFF, 0xFFFF, 1, 0)], &[5, 0]);
    let m = query(&table_with(0, 3, &subtable), &[range(0x30, 0x31)]).unwrap();
    assert_eq!(m.ranges, vec![entry(0x30, 8, 8), entry(0x31, 0, 0)]);
}

#[test]
fn format4_range_across_segments() {
    let m = query(&sample_format4_table(), &[range(0x32, 0x42)]).unwrap();
    let mut expected = vec![entry(0x32, 7, 7)];
    for c in 0x33..0x41 {
        expected.push(entry(c, 0, 0));
    }
    expected.push(entry(0x41, 0x21, 0x22));
    assert_eq!(m.ranges, expected);
}

#[test]
fn format4_last_bmp_codepoint_then_beyond() {
    let m = query(&sample_format4_table(), &[range(0xFFFF, 0x10000)]).unwrap();
    assert_eq!(m.ranges, vec![entry(0xFFFF, 0, 0), entry(0x10000, 0, 0)]);
}

#[test]
fn format12_spanning_segment() {
    let m = query(&sample_format12_table(), &[range(0x1F610, 0x1F620)]).unwrap();
    assert_eq!(m.ranges, vec![entry(0x1F610, 1016, 1032)]);
}

#[test]
fn format12_query_straddling_a_gap() {
    let m = query(&sample_format12_table(), &[range(0x7E, 0xA0)]).unwrap();
    let mut expected = vec![entry(0x7E, 194, 194)];
    for c in 0x7F..0xA0 {
        expected.push(entry(c, 0, 0));
    }
    expected.push(entry(0xA0, 200, 200));
    assert_eq!(expected.len(), 35);
    assert_eq!(m.ranges, expected);
}

#[test]
fn format12_glyph_ids_truncate_to_16_bits() {
    let table = table_with(0, 4, &format12(&[(0x100, 0x1FF, 0x1_FFFF)]));
    let m = query(&table, &[range(0x100, 0x102)]).unwrap();
    assert_eq!(m.ranges, vec![entry(0x100, 0xFFFF, 0x0001)]);
}

#[test]
fn format12_top_of_codepoint_space() {
    let m = query(&sample_format12_table(), &[range(0xFFFF_FFFE, 0xFFFF_FFFF)]).unwrap();
    assert_eq!(m.ranges, vec![entry(0xFFFF_FFFE, 0, 0), entry(0xFFFF_FFFF, 0, 0)]);
}

#[test]
fn ranges_answered_in_order() {
    let m = query(&sample_format4_table(), &[range(0x42, 0x43), range(0x30, 0x30)]).unwrap();
    assert_eq!(m.ranges, vec![entry(0x42, 0x22, 0x23), entry(0x30, 5, 5)]);
}

#[test]
fn empty_query_and_empty_range() {
    let m = query(&sample_format4_table(), &[]).unwrap();
    assert!(m.ranges.is_empty());
    let m = query(&sample_format12_table(), &[range(5, 4)]).unwrap();
    assert!(m.ranges.is_empty());
}

#[test]
fn each_codepoint_covered_once() {
    let queried = [range(0x2E, 0x45), range(0x7A, 0xA3)];
    for table in [sample_format4_table(), sample_format12_table()] {
        let m = query(&table, &queried).unwrap();
        let mut covered = Vec::new();
        for e in &m.ranges {
            let span = e.glyphs.end.wrapping_sub(e.glyphs.start) as u32 + 1;
            for c in e.codepoint_start..e.codepoint_start + span {
                covered.push(c);
            }
        }
        let mut expected = Vec::new();
        for r in &queried {
            for c in r.start..=r.end {
                expected.push(c);
            }
        }
        assert_eq!(covered, expected);
    }
}

#[test]
fn glyph_span_matches_codepoint_span() {
    let m = query(&sample_format12_table(), &[range(0x20, 0x7E)]).unwrap();
    assert_eq!(m.ranges, vec![entry(0x20, 100, 194)]);
    let m = query(&sample_format4_table(), &[range(0x41, 0x5A)]).unwrap();
    let e = m.ranges[0];
    assert_eq!(e.glyphs.end.wrapping_sub(e.glyphs.start), 0x5A - 0x41);
}

#[test]
fn entries_ascend_within_a_range() {
    let m = query(&sample_format4_table(), &[range(0x2F, 0x5B)]).unwrap();
    for pair in m.ranges.windows(2) {
        assert!(pair[0].codepoint_start < pair[1].codepoint_start);
    }
}

#[test]
fn same_query_twice_gives_same_mapping() {
    let table = sample_format4_table();
    let ranges = [range(0x20, 0x60), range(0xFFF0, 0x10002)];
    let a = query(&table, &ranges).unwrap();
    let b = query(&table, &ranges).unwrap();
    assert_eq!(a.ranges, b.ranges);
}

#[test]
fn truncated_table_fails_at_end_of_data() {
    for table in [sample_format4_table(), sample_format12_table()] {
        let ranges = [range(0x30, 0x32), range(0x7E, 0xA0), range(0x1F600, 0x1F600)];
        let full = query(&table, &ranges).unwrap();
        for n in 0..table.len() {
            match query(&table[..n], &ranges) {
                Ok(m) => assert_eq!(m.ranges, full.ranges),
                Err(e) => assert_eq!(e, FontError::UnexpectedEndOfData),
            }
        }
        assert_eq!(query(&table[..table.len() - 2], &ranges).unwrap_err(), FontError::UnexpectedEndOfData);
    }
}

#[test]
fn empty_table_fails_at_end_of_data() {
    assert_eq!(query(&[], &[range(0x41, 0x41)]).unwrap_err(), FontError::UnexpectedEndOfData);
}

#[test]
fn glyph_id_array_out_of_table() {
    let subtable = format4(&[(0x30, 0x30, 0, 0x4000), (0xFFFF, 0xFFFF, 1, 0)], &[]);
    let table = table_with(3, 1, &subtable);
    assert_eq!(query(&table, &[range(0x30, 0x30)]).unwrap_err(), FontError::UnexpectedEndOfData);
    assert_eq!(query(&table, &[range(0x31, 0x31)]).unwrap().ranges, vec![entry(0x31, 0, 0)]);
}

#[test]
fn nonzero_version_is_unsupported() {
    let mut table = sample_format4_table();
    table[1] = 1;
    assert_eq!(query(&table, &[range(0x41, 0x41)]).unwrap_err(), FontError::UnsupportedCmapVersion);
}

#[test]
fn non_unicode_encoding_is_unsupported() {
    let subtable = format4(&[(0xFFFF, 0xFFFF, 1, 0)], &[]);
    for (platform_id, encoding_id) in [(1, 0), (3, 0), (3, 2)] {
        let table = table_with(platform_id, encoding_id, &subtable);
        assert_eq!(
            query(&table, &[range(0x41, 0x41)]).unwrap_err(),
            FontError::UnsupportedCmapEncoding
        );
    }
}

#[test]
fn first_unicode_record_wins() {
    let f4 = format4(&[(0x41, 0x41, 1, 0), (0xFFFF, 0xFFFF, 1, 0)], &[]);
    let f12 = format12(&[(0x41, 0x41, 9)]);
    let mut table = Vec::new();
    put16(&mut table, 0);
    put16(&mut table, 3);
    for (platform_id, encoding_id, offset) in [(1u16, 0u16, 28u32), (3, 10, 28 + f4.len() as u32), (0, 3, 28)] {
        put16(&mut table, platform_id);
        put16(&mut table, encoding_id);
        put32(&mut table, offset);
    }
    table.extend_from_slice(&f4);
    table.extend_from_slice(&f12);
    assert_eq!(query(&table, &[range(0x41, 0x41)]).unwrap().ranges, vec![entry(0x41, 9, 9)]);
}

#[test]
fn other_format_is_unsupported() {
    let mut subtable = Vec::new();
    put16(&mut subtable, 6);
    put16(&mut subtable, 0);
    let table = table_with(0, 3, &subtable);
    assert_eq!(query(&table, &[range(0x41, 0x41)]).unwrap_err(), FontError::UnsupportedCmapFormat);
}

#[test]
fn record_offset_past_the_end() {
    let mut table = Vec::new();
    put16(&mut table, 0);
    put16(&mut table, 1);
    put16(&mut table, 0);
    put16(&mut table, 3);
    put32(&mut table, 1000);
    assert_eq!(query(&table, &[range(0x41, 0x41)]).unwrap_err(), FontError::UnexpectedEndOfData);
}
