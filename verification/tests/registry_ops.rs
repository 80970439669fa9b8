use dpx::registry::tt_glyphs;
use dpx::SubsetError;

#[test]
fn init_registers_notdef() {
    let g = tt_glyphs::tt_build_init();
    assert_eq!(g.gd.len(), 1);
    assert_eq!(g.gd[0].gid, 0);
    assert_eq!(g.gd[0].ogid, 0);
    assert_eq!(g.last_gid, 0);
    assert_eq!(g.emsize, 1);
    assert!(!g.closed);
}

#[test]
fn add_glyph_zero_always_yields_zero() {
    let mut g = tt_glyphs::tt_build_init();
    assert_eq!(g.add_glyph(0).unwrap(), 0);
    assert_eq!(g.add_glyph(7).unwrap(), 1);
    assert_eq!(g.add_glyph(0).unwrap(), 0);
    assert_eq!(g.add_glyph(3).unwrap(), 2);
    assert_eq!(g.add_glyph(0).unwrap(), 0);
}

#[test]
fn add_glyph_twice_returns_same_id_and_no_second_slot() {
    let mut g = tt_glyphs::tt_build_init();
    let first = g.add_glyph(42).unwrap();
    let len_after_first = g.gd.len();
    let second = g.add_glyph(42).unwrap();
    assert_eq!(first, second);
    assert_eq!(g.gd.len(), len_after_first);
}

#[test]
fn add_glyph_allocates_lowest_free_id() {
    let mut g = tt_glyphs::tt_build_init();
    assert_eq!(g.add_glyph(10).unwrap(), 1);
    assert_eq!(g.add_glyph(20).unwrap(), 2);
    assert_eq!(g.add_glyph(30).unwrap(), 3);
}

#[test]
fn find_glyph_reports_mapping() {
    let mut g = tt_glyphs::tt_build_init();
    g.add_glyph(10).unwrap();
    assert_eq!(g.find_glyph(10), Some(1));
    assert_eq!(g.find_glyph(11), None);
    assert_eq!(g.tt_find_glyph(10), 1);
    // Legacy convention: 0 both for the notdef hit and for a miss.
    assert_eq!(g.tt_find_glyph(0), 0);
    assert_eq!(g.tt_find_glyph(11), 0);
}

#[test]
fn index_lookups() {
    let mut g = tt_glyphs::tt_build_init();
    g.add_glyph(10).unwrap();
    g.add_glyph(20).unwrap();
    assert_eq!(g.tt_get_index(1), 1);
    assert_eq!(g.tt_get_index(2), 2);
    // Legacy fallback: position 0 when the id is absent.
    assert_eq!(g.tt_get_index(9), 0);
    assert_eq!(g.index_of(2), Some(2));
    assert_eq!(g.index_of(9), None);
}

#[test]
fn duplicate_slot_request_is_recoverable() {
    let mut g = tt_glyphs::tt_build_init();
    assert_eq!(g.tt_add_glyph(5, 1).unwrap(), 1);
    let len = g.gd.len();
    // Requesting the same new id again leaves the mapping untouched and
    // returns the requested id anyway.
    assert_eq!(g.tt_add_glyph(5, 1).unwrap(), 1);
    assert_eq!(g.gd.len(), len);
}

#[test]
fn add_beyond_ceiling_is_range_error() {
    let mut g = tt_glyphs::tt_build_init();
    assert_eq!(g.tt_add_glyph(1, 65534), Err(SubsetError::RangeError));
    assert_eq!(g.tt_add_glyph(1, 65535), Err(SubsetError::RangeError));
}

#[test]
fn registry_full_is_range_error() {
    let mut g = tt_glyphs::tt_build_init();
    // Fill the registry up to its ceiling of 65533 slots.
    for old_id in 1..65533u16 {
        g.tt_add_glyph(old_id, old_id).unwrap();
    }
    assert_eq!(g.gd.len(), 65533);
    assert_eq!(g.tt_add_glyph(65533, 65533), Err(SubsetError::RangeError));
}

#[test]
fn find_empty_slot_skips_used_ids() {
    let mut g = tt_glyphs::tt_build_init();
    g.tt_add_glyph(10, 1).unwrap();
    g.tt_add_glyph(20, 2).unwrap();
    g.tt_add_glyph(30, 5).unwrap();
    assert_eq!(g.find_empty_slot().unwrap(), 3);
}

#[test]
fn build_finish_consumes_registry() {
    let g = tt_glyphs::tt_build_init();
    g.tt_build_finish();
}

#[test]
fn error_names() {
    assert_eq!(SubsetError::FormatError.name(), "format error");
    assert_eq!(SubsetError::RangeError.name(), "range error");
    assert_eq!(SubsetError::ResourceError.name(), "resource error");
    assert_eq!(SubsetError::UsageError.name(), "usage error");
}
