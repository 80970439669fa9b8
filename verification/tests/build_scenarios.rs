use dpx::font::{LongMetric, SourceFont};
use dpx::registry::tt_glyphs;
use dpx::SubsetError;

fn push16(v: &mut Vec<u8>, x: u16) {
    v.push((x >> 8) as u8);
    v.push(x as u8);
}

fn simple_record(extra: usize) -> Vec<u8> {
    let mut r = Vec::new();
    push16(&mut r, 1); // one contour
    push16(&mut r, 10); // llx
    push16(&mut r, 20); // lly
    push16(&mut r, 30); // urx
    push16(&mut r, 40); // ury
    for _ in 0..extra {
        r.push(0xAA);
    }
    r
}

fn composite_record(components: &[(u16, u16)]) -> Vec<u8> {
    let mut r = Vec::new();
    push16(&mut r, 0xFFFF); // contour count -1: composite
    push16(&mut r, 10);
    push16(&mut r, 20);
    push16(&mut r, 30);
    push16(&mut r, 40);
    for (flags, gid) in components {
        push16(&mut r, *flags);
        push16(&mut r, *gid);
        push16(&mut r, 0); // argument pair (bytes)
    }
    r
}

fn short_loca(offsets: &[u32]) -> Vec<u8> {
    let mut v = Vec::new();
    for off in offsets {
        assert!(off % 2 == 0);
        push16(&mut v, (off / 2) as u16);
    }
    v
}

fn metrics(widths: &[(u16, i16)]) -> Vec<LongMetric> {
    widths.iter().map(|&(advance, side_bearing)| LongMetric { advance, side_bearing }).collect()
}

/// A 5-glyph font where glyph 3 is composite referencing glyphs 1 and 4.
fn five_glyph_font() -> SourceFont {
    let mut glyf = Vec::new();
    let records = vec![
        Vec::new(),
        simple_record(2),
        simple_record(2),
        composite_record(&[(0x0020, 1), (0x0000, 4)]),
        simple_record(2),
    ];
    let mut offsets = vec![0u32];
    for r in &records {
        let last = *offsets.last().unwrap();
        glyf.extend_from_slice(r);
        offsets.push(last + r.len() as u32);
    }
    SourceFont {
        num_glyphs: 5,
        units_per_em: 1000,
        index_to_loc_format: 0,
        metric_data_format: 0,
        hmtx: metrics(&[(500, 11), (500, 12), (500, 13), (500, 14), (500, 15)]),
        vmtx: None,
        os2: None,
        loca_data: short_loca(&offsets),
        glyf_data: glyf,
    }
}

#[test]
fn composite_closure_pulls_components() {
    let font = five_glyph_font();
    let mut g = tt_glyphs::tt_build_init();
    assert_eq!(g.add_glyph(2).unwrap(), 1);
    assert_eq!(g.add_glyph(3).unwrap(), 2);
    let t = dpx::tt_build_tables(&font, &mut g).unwrap();

    // The closure is exactly {0, 2, 3, 1, 4}: five slots.
    assert_eq!(g.gd.len(), 5);
    assert_eq!(g.find_glyph(0), Some(0));
    assert_eq!(g.find_glyph(2), Some(1));
    assert_eq!(g.find_glyph(3), Some(2));
    assert_eq!(g.find_glyph(1), Some(3));
    assert_eq!(g.find_glyph(4), Some(4));
    assert!(g.closed);
    assert_eq!(t.num_glyphs, 5);
    assert_eq!(t.check_sum_adjustment, 0);

    // All advance widths equal: a single long metric.
    assert_eq!(t.num_hmetrics, 1);
    assert_eq!(t.hmtx, vec![1, 244, 0, 11, 0, 13, 0, 14, 0, 12, 0, 15]);

    // Padded record sizes 0, 12, 24, 12, 12: short-format offsets.
    assert_eq!(t.index_to_loc_format, 0);
    assert_eq!(t.loca, short_loca(&[0, 0, 12, 36, 48, 60]));
    assert_eq!(t.glyf.len(), 60);

    // New glyph id 1 carries source glyph 2's record, untouched.
    assert_eq!(&t.glyf[0..12], &simple_record(2)[..]);

    // New glyph id 2 carries source glyph 3's record with its component
    // glyph ids rewritten to the new id space: 1 -> 3 and 4 -> 4.
    let rewritten = composite_record(&[(0x0020, 3), (0x0000, 4)]);
    assert_eq!(&t.glyf[12..34], &rewritten[..]);
    // Its two padding bytes are explicit zeros.
    assert_eq!(&t.glyf[34..36], &[0, 0]);

    // Slot buffers were released at emission.
    for slot in &g.gd {
        assert_eq!(slot.data.len(), 0);
    }
}

/// Three glyphs sharing width 500 except glyph 1 with width 600.
fn three_glyph_font() -> SourceFont {
    let mut glyf = Vec::new();
    for _ in 0..3 {
        glyf.extend_from_slice(&simple_record(0));
    }
    SourceFont {
        num_glyphs: 3,
        units_per_em: 1000,
        index_to_loc_format: 0,
        metric_data_format: 0,
        hmtx: metrics(&[(500, 1), (600, 2), (500, 3)]),
        vmtx: None,
        os2: None,
        loca_data: short_loca(&[0, 10, 20, 30]),
        glyf_data: glyf,
    }
}

#[test]
fn long_metrics_cutoff_after_last_differing_width() {
    let font = three_glyph_font();
    let mut g = tt_glyphs::tt_build_init();
    g.add_glyph(1).unwrap();
    g.add_glyph(2).unwrap();
    let t = dpx::tt_build_tables(&font, &mut g).unwrap();
    // The 600-width glyph got new id 1, not last in id order: the cutoff
    // is that id plus two.
    assert_eq!(t.num_hmetrics, 3);
    assert_eq!(t.num_glyphs, 3);
    assert_eq!(t.hmtx.len(), 12);
    assert_eq!(t.hmtx, vec![1, 244, 0, 1, 2, 88, 0, 2, 1, 244, 0, 3]);
}

#[test]
fn undersized_record_aborts_with_format_error() {
    // A glyph record of 5 bytes (between 1 and 9) is malformed.
    let font = SourceFont {
        num_glyphs: 2,
        units_per_em: 1000,
        index_to_loc_format: 1,
        metric_data_format: 0,
        hmtx: metrics(&[(500, 1), (500, 2)]),
        vmtx: None,
        os2: None,
        loca_data: vec![0, 0, 0, 0, 0, 0, 0, 0, 0, 0, 0, 5],
        glyf_data: vec![1, 2, 3, 4, 5],
    };
    let mut g = tt_glyphs::tt_build_init();
    g.add_glyph(1).unwrap();
    assert!(matches!(dpx::tt_build_tables(&font, &mut g), Err(SubsetError::FormatError)));

    let mut g2 = tt_glyphs::tt_build_init();
    g2.add_glyph(1).unwrap();
    assert!(matches!(dpx::tt_get_metrics(&font, &mut g2), Err(SubsetError::FormatError)));
}

#[test]
fn gaps_get_zero_entries_and_repeated_offsets() {
    // Source glyph 0 is empty with width 300; source glyph 2 is simple
    // with width 500 and is requested under new id 3, leaving ids 1 and 2
    // unassigned.
    let mut glyf = Vec::new();
    glyf.extend_from_slice(&simple_record(0));
    glyf.extend_from_slice(&simple_record(0));
    let font = SourceFont {
        num_glyphs: 3,
        units_per_em: 1000,
        index_to_loc_format: 0,
        metric_data_format: 0,
        hmtx: metrics(&[(300, 7), (400, 8), (500, 9)]),
        vmtx: None,
        os2: None,
        loca_data: short_loca(&[0, 0, 10, 20]),
        glyf_data: glyf,
    };
    let mut g = tt_glyphs::tt_build_init();
    g.tt_add_glyph(2, 3).unwrap();
    let t = dpx::tt_build_tables(&font, &mut g).unwrap();
    assert_eq!(t.num_glyphs, 4);
    // Widths 300 (id 0) and 500 (id 3) differ: the cutoff is 0 + 2.
    assert_eq!(t.num_hmetrics, 2);
    // id 0: (300, 7); id 1: the position just before the cutoff repeats
    // the final width 500 with a zero bearing; ids 2 and 3: bearings only.
    assert_eq!(t.hmtx, vec![1, 44, 0, 7, 1, 244, 0, 0, 0, 0, 0, 9]);
    // The empty glyph and both gaps all share offset 0; the total is the
    // padded 12 bytes of the one real record.
    assert_eq!(t.loca, short_loca(&[0, 0, 0, 0, 12]));
    assert_eq!(t.glyf.len(), 12);
    assert_eq!(&t.glyf[0..10], &simple_record(0)[..]);
    assert_eq!(&t.glyf[10..12], &[0, 0]);
}

#[test]
fn metrics_pass_reads_widths_and_boxes() {
    let font = three_glyph_font();
    let mut g = tt_glyphs::tt_build_init();
    g.add_glyph(1).unwrap();
    g.add_glyph(2).unwrap();
    dpx::tt_get_metrics(&font, &mut g).unwrap();
    assert_eq!(g.emsize, 1000);
    // 500 appears twice, 600 once.
    assert_eq!(g.dw, 500);
    assert_eq!(g.gd.len(), 3);
    let slot = &g.gd[1];
    assert_eq!(slot.ogid, 1);
    assert_eq!(slot.advw, 600);
    assert_eq!(slot.lsb, 2);
    assert_eq!(slot.llx, 10);
    assert_eq!(slot.lly, 20);
    assert_eq!(slot.urx, 30);
    assert_eq!(slot.ury, 40);
    // No vertical metrics table: the top bearing falls back to the
    // font-wide defaults (zero without an OS/2 table) fixed up by the
    // bounding box top.
    assert_eq!(slot.tsb, -40);
    // The metrics-only pass keeps no record buffers.
    assert_eq!(slot.data.len(), 0);
    assert!(!g.closed);
}

#[test]
fn widths_beyond_em_size_share_the_overflow_bucket() {
    let mut font = three_glyph_font();
    font.units_per_em = 100;
    font.hmtx = metrics(&[(500, 1), (600, 2), (500, 3)]);
    let mut g = tt_glyphs::tt_build_init();
    g.add_glyph(1).unwrap();
    g.add_glyph(2).unwrap();
    dpx::tt_get_metrics(&font, &mut g).unwrap();
    // Every width exceeds the em size, so no width at or below it ever
    // scores; the first bucket wins.
    assert_eq!(g.dw, 0);
}

#[test]
fn unknown_metric_format_is_format_error() {
    let mut font = three_glyph_font();
    font.metric_data_format = 1;
    let mut g = tt_glyphs::tt_build_init();
    assert!(matches!(dpx::tt_build_tables(&font, &mut g), Err(SubsetError::FormatError)));
}

#[test]
fn unknown_loca_format_is_format_error() {
    let mut font = three_glyph_font();
    font.index_to_loc_format = 2;
    let mut g = tt_glyphs::tt_build_init();
    assert!(matches!(dpx::tt_build_tables(&font, &mut g), Err(SubsetError::FormatError)));
}

#[test]
fn component_reference_out_of_range_is_range_error() {
    let mut glyf = Vec::new();
    glyf.extend_from_slice(&simple_record(0));
    glyf.extend_from_slice(&composite_record(&[(0x0000, 9)]));
    let font = SourceFont {
        num_glyphs: 2,
        units_per_em: 1000,
        index_to_loc_format: 0,
        metric_data_format: 0,
        hmtx: metrics(&[(500, 1), (500, 2)]),
        vmtx: None,
        os2: None,
        loca_data: short_loca(&[0, 10, 26]),
        glyf_data: glyf,
    };
    let mut g = tt_glyphs::tt_build_init();
    g.add_glyph(1).unwrap();
    assert!(matches!(dpx::tt_build_tables(&font, &mut g), Err(SubsetError::RangeError)));
}

#[test]
fn truncated_component_chain_is_format_error() {
    // The single component keeps the more-components flag set, but the
    // record ends right after it.
    let mut glyf = Vec::new();
    glyf.extend_from_slice(&simple_record(0));
    glyf.extend_from_slice(&composite_record(&[(0x0020, 0)]));
    let font = SourceFont {
        num_glyphs: 2,
        units_per_em: 1000,
        index_to_loc_format: 0,
        metric_data_format: 0,
        hmtx: metrics(&[(500, 1), (500, 2)]),
        vmtx: None,
        os2: None,
        loca_data: short_loca(&[0, 10, 26]),
        glyf_data: glyf,
    };
    let mut g = tt_glyphs::tt_build_init();
    g.add_glyph(1).unwrap();
    assert!(matches!(dpx::tt_build_tables(&font, &mut g), Err(SubsetError::FormatError)));
}

#[test]
fn requested_glyph_beyond_font_is_format_error() {
    let font = three_glyph_font();
    let mut g = tt_glyphs::tt_build_init();
    g.add_glyph(7).unwrap();
    assert!(matches!(dpx::tt_build_tables(&font, &mut g), Err(SubsetError::FormatError)));
}

#[test]
fn inverted_record_range_is_format_error() {
    let mut font = three_glyph_font();
    // Entries 20, 10: the second record's range is inverted.
    font.loca_data = short_loca(&[0, 20, 10, 30]);
    let mut g = tt_glyphs::tt_build_init();
    g.add_glyph(1).unwrap();
    assert!(matches!(dpx::tt_build_tables(&font, &mut g), Err(SubsetError::FormatError)));
}

#[test]
fn vertical_metrics_are_taken_from_vmtx() {
    let mut font = three_glyph_font();
    font.vmtx = Some(metrics(&[(900, 10), (901, 11), (902, 12)]));
    let mut g = tt_glyphs::tt_build_init();
    g.add_glyph(1).unwrap();
    dpx::tt_get_metrics(&font, &mut g).unwrap();
    let slot = &g.gd[1];
    assert_eq!(slot.advh, 901);
    assert_eq!(slot.tsb, 11);
}

#[test]
fn os2_defaults_feed_vertical_fallback() {
    let mut font = three_glyph_font();
    font.os2 = Some(dpx::Os2Defaults { s_typo_ascender: 800, s_typo_descender: -200 });
    let mut g = tt_glyphs::tt_build_init();
    g.add_glyph(1).unwrap();
    dpx::tt_get_metrics(&font, &mut g).unwrap();
    assert_eq!(g.default_advh, 1000);
    assert_eq!(g.default_tsb, 200);
    let slot = &g.gd[1];
    assert_eq!(slot.advh, 1000);
    // vertOriginY fixup: advance height minus default bearing minus the
    // box top.
    assert_eq!(slot.tsb, 1000 - 200 - 40);
}
