//! Dependency closure over composite glyphs.
//!
//! The walk over a composite record's component chain resolves each
//! referenced glyph through the registry, registering components that are
//! not present yet — the closure step — and rewrites each component's
//! glyph-id field in place, inside the record's owned buffer, to the
//! reassigned new glyph id.
use vstd::prelude::*;

use crate::bytes::{
    be16, get_u16, set_u16, sub_bytes, sval16, to_i16, wrap16, wrap_i16_of_i32, wrap_u16_of_i32,
};
use crate::err::SubsetError;
use crate::font::{parse_loca, SourceFont};
use crate::glyfrec::{
    comp_positions, comp_skip, components_registered, in_gid_window, is_component_ref,
    lemma_comp_positions_bounds, rec_contours, rec_is_composite, ref_at, rewritten_ok,
    ARGS_ARE_WORDS, MORE_COMPONENTS, WE_HAVE_AN_X_AND_Y_SCALE, WE_HAVE_A_SCALE,
    WE_HAVE_A_TWO_BY_TWO,
};
use crate::registry::{
    bucket, in_seq, lemma_distinct_ogids_bound, lemma_free_slot_exists, lemma_lookup_extend,
    lemma_lookup_perm, lemma_width_count_le_len, lemma_width_count_step, reg_extends,
    slots_contained, spec_has_old, spec_new_of, spec_pos_of_old, tt_glyph_desc, tt_glyphs,
    width_count, GID_CEILING,
};

verus! {

/// The conditions under which a component walk is bound to succeed: the
/// chain parses, every referenced glyph id is below the source font's
/// declared glyph count, that count leaves room below the new-id ceiling,
/// and the registry holds only original ids below that count.
pub open spec fn closure_feasible(rec: Seq<u8>, num_glyphs: u16, g0: Seq<tt_glyph_desc>) -> bool {
    &&& num_glyphs < GID_CEILING
    &&& (comp_positions(rec, 10) matches Some(ps) && forall|i: int|
        0 <= i < ps.len() ==> ref_at(rec, #[trigger] ps[i]) < num_glyphs)
    &&& forall|i: int| 0 <= i < g0.len() ==> (#[trigger] g0[i].ogid) < num_glyphs
}

/// The default advance height after the extraction prologue: derived from
/// the OS/2 typographic ascender and descender when that table exists.
pub open spec fn spec_default_advh(font: SourceFont, g0: tt_glyphs) -> u16 {
    match font.os2 {
        Some(o) => ((o.s_typo_ascender - o.s_typo_descender) % 0x10000) as u16,
        None => g0.default_advh,
    }
}

/// The default top side bearing after the extraction prologue.
pub open spec fn spec_default_tsb(font: SourceFont, g0: tt_glyphs) -> i16 {
    match font.os2 {
        Some(o) => wrap16(spec_default_advh(font, g0) - o.s_typo_ascender) as i16,
        None => g0.default_tsb,
    }
}

/// What extraction establishes of one slot: its original glyph id is in
/// range, its metrics come from the source metrics tables (or the
/// font-wide defaults), its bounding box from the record, and its outline
/// buffer — kept only by the full build pass — is the source record with
/// composite glyph-id fields rewritten.
pub open spec fn slot_ok(
    font: SourceFont,
    s: Seq<tt_glyph_desc>,
    i: int,
    keep: bool,
    advh0: u16,
    tsb0: i16,
) -> bool {
    let d = s[i];
    let og = d.ogid as int;
    let len = font.rec_len(og);
    let rec = font.record(og);
    &&& d.ogid < font.num_glyphs
    &&& font.range_ok(og)
    &&& d.advw == font.hmtx@[og].advance
    &&& d.lsb == font.hmtx@[og].side_bearing
    &&& match font.vmtx {
        Some(vm) => d.advh == vm@[og].advance && d.tsb == vm@[og].side_bearing,
        None => d.advh == advh0 && (len == 0 ==> d.tsb == tsb0) && (len != 0 ==> d.tsb as int
            == wrap16(advh0 - tsb0 - sval16(be16(rec[8], rec[9])))),
    }
    &&& (len == 0 ==> d.data@.len() == 0)
    &&& (len != 0 ==> {
        &&& len >= 10
        &&& d.llx as int == sval16(be16(rec[2], rec[3]))
        &&& d.lly as int == sval16(be16(rec[4], rec[5]))
        &&& d.urx as int == sval16(be16(rec[6], rec[7]))
        &&& d.ury as int == sval16(be16(rec[8], rec[9]))
        &&& (rec_contours(rec) >= 0 ==> (keep ==> d.data@ == rec) && (!keep ==> d.data@.len()
            == 0))
        &&& (rec_contours(rec) < 0 ==> {
            &&& components_registered(rec, font.num_glyphs, s)
            &&& (keep ==> rewritten_ok(rec, d.data@, s))
            &&& (!keep ==> d.data@.len() == 0)
        })
    })
}

/// Whether glyph `og` of the source font has a readable record: its byte
/// range lies within `glyf`, a non-empty record has the 10-byte header,
/// and a composite record's component chain parses with every referenced
/// glyph id below the declared glyph count.
pub open spec fn glyph_ok(font: SourceFont, og: int) -> bool {
    &&& font.range_ok(og)
    &&& (font.rec_len(og) == 0 || font.rec_len(og) >= 10)
    &&& (font.rec_len(og) >= 10 && rec_contours(font.record(og)) < 0 ==> (comp_positions(
        font.record(og),
        10,
    ) matches Some(ps) && forall|k: int|
        0 <= k < ps.len() ==> ref_at(font.record(og), #[trigger] ps[k]) < font.num_glyphs))
}

/// A glyph whose record cannot be read: its id is outside the font's
/// declared count, its byte range is inverted or beyond `glyf`, a
/// non-empty record is shorter than the 10-byte header, or a composite
/// chain runs off the record's end. Extraction aborts on such a glyph with
/// `FormatError`.
#[verifier::opaque]
pub open spec fn glyph_malformed(font: SourceFont, og: int) -> bool {
    ||| og >= font.num_glyphs as int
    ||| !font.range_ok(og)
    ||| (0 < font.rec_len(og) < 10)
    ||| (font.rec_len(og) >= 10 && rec_contours(font.record(og)) < 0 && comp_positions(
        font.record(og),
        10,
    ) is None)
}

/// A composite glyph whose chain parses but references a glyph id at or
/// beyond the font's declared count. Extraction aborts on such a glyph
/// with `RangeError`.
#[verifier::opaque]
pub open spec fn glyph_bad_ref(font: SourceFont, og: int) -> bool {
    &&& font.rec_len(og) >= 10
    &&& rec_contours(font.record(og)) < 0
    &&& (comp_positions(font.record(og), 10) matches Some(ps) && exists|k: int|
        0 <= k < ps.len() && ref_at(font.record(og), #[trigger] ps[k]) >= font.num_glyphs)
}

/// A source font on which extraction is bound to succeed: well-shaped
/// tables, a known metric format, every glyph record readable, room below
/// the new-id ceiling, and a registry holding only ids the font declares.
pub open spec fn source_clean(font: SourceFont, g0: tt_glyphs) -> bool {
    &&& font.wf()
    &&& font.loca_ok()
    &&& font.metric_data_format == 0
    &&& font.num_glyphs < GID_CEILING
    &&& forall|og: int| 0 <= og < font.num_glyphs ==> glyph_ok(font, og)
    &&& forall|i: int| 0 <= i < g0.gd@.len() ==> (#[trigger] g0.gd@[i]).ogid < font.num_glyphs
}

/// Whether slot `m` of `s` is referenced as a component by some slot's
/// source record — the provenance of every slot that closure discovery
/// appends.
pub open spec fn discovered_from(font: SourceFont, s: Seq<tt_glyph_desc>, m: int) -> bool {
    exists|j: int|
        0 <= j < s.len() && is_component_ref(font.record((#[trigger] s[j]).ogid as int), s[m].ogid as int)
}

/// Everything the shared extraction pass establishes: the registry grew
/// into the closure of the requested set (existing mappings untouched,
/// every appended slot discovered as some composite's component), every
/// slot's metrics and record were read as `slot_ok` states, and the most
/// frequent advance width was chosen as the implied default `dw`.
pub open spec fn extract_post(font: SourceFont, g0: tt_glyphs, g1: tt_glyphs, keep: bool) -> bool {
    &&& g1.wf()
    &&& g1.closed == g0.closed
    &&& g1.gd@.len() >= g0.gd@.len()
    &&& forall|i: int|
        0 <= i < g0.gd@.len() ==> (#[trigger] g1.gd@[i]).ogid == g0.gd@[i].ogid && g1.gd@[i].gid
            == g0.gd@[i].gid
    &&& g1.emsize == font.units_per_em
    &&& g1.default_advh == spec_default_advh(font, g0)
    &&& g1.default_tsb == spec_default_tsb(font, g0)
    &&& forall|i: int|
        0 <= i < g1.gd@.len() ==> slot_ok(font, g1.gd@, i, keep, g1.default_advh, g1.default_tsb)
    &&& forall|m: int| g0.gd@.len() <= m < g1.gd@.len() ==> discovered_from(font, g1.gd@, m)
    &&& g1.dw <= g1.emsize
    &&& forall|w: int|
        0 <= w <= g1.emsize as int ==> #[trigger] width_count(g1.gd@, g1.emsize, w)
            <= width_count(g1.gd@, g1.emsize, g1.dw as int)
    &&& forall|w: int|
        0 <= w < g1.dw ==> #[trigger] width_count(g1.gd@, g1.emsize, w) < width_count(
            g1.gd@,
            g1.emsize,
            g1.dw as int,
        )
}

/// A sequence of slots with pairwise distinct original glyph ids below
/// `bound`, one id below `bound` still missing, leaves the count strictly
/// below `bound`.
proof fn lemma_distinct_ogids_bound_missing(s: Seq<tt_glyph_desc>, bound: int, c: int)
    requires
        0 <= c < bound,
        forall|i: int, j: int|
            #![trigger s[i].ogid, s[j].ogid]
            0 <= i < j < s.len() ==> s[i].ogid != s[j].ogid,
        forall|i: int| 0 <= i < s.len() ==> (#[trigger] s[i].ogid) < bound,
        !spec_has_old(s, c),
    ensures
        s.len() < bound,
{
    lemma_distinct_ogids_bound(s, bound);
    if s.len() == bound {
        let positions = vstd::set_lib::set_int_range(0, s.len() as int);
        let ids = vstd::set_lib::set_int_range(0, bound);
        vstd::set_lib::lemma_int_range(0, s.len() as int);
        vstd::set_lib::lemma_int_range(0, bound);
        let f = |i: int| s[i].ogid as int;
        assert(vstd::relations::injective_on(f, positions)) by {
            assert forall|x: int, y: int|
                positions.contains(x) && positions.contains(y) && #[trigger] f(x) == #[trigger] f(
                    y,
                ) implies x == y by {
                if x < y {
                    assert(s[x].ogid != s[y].ogid);
                }
                if y < x {
                    assert(s[y].ogid != s[x].ogid);
                }
            }
        }
        let image = positions.map(f);
        vstd::set_lib::lemma_map_size(positions, image, f);
        assert(image.subset_of(ids)) by {
            assert forall|p: int| image.contains(p) implies ids.contains(p) by {
                let k = choose|k: int| positions.contains(k) && f(k) == p;
                assert(s[k].ogid < bound);
            }
        }
        // The image misses `c`, so it fits inside the ids with `c` removed.
        assert(!image.contains(c)) by {
            if image.contains(c) {
                let k = choose|k: int| positions.contains(k) && f(k) == c;
                assert(s[k].ogid as int == c);
            }
        }
        assert(ids.contains(c));
        let ids_minus = ids.remove(c);
        assert(image.subset_of(ids_minus));
        vstd::set_lib::lemma_len_subset(image, ids_minus);
        assert(ids_minus.len() == bound - 1);
        assert(false);
    }
}

/// Parses the component chain of the composite record in `buf` and returns
/// the byte positions of the component glyph-id words, in chain order.
/// Fails with `FormatError` exactly when the chain runs off the record's
/// end.
fn parse_chain(buf: &Vec<u8>) -> (r: Result<Vec<usize>, SubsetError>)
    requires
        10 <= buf@.len() <= 0xFFFF_FF00,
    ensures
        match r {
            Ok(ps) => comp_positions(buf@, 10) == Some(ps@.map_values(|p: usize| p as int)),
            Err(e) => e == SubsetError::FormatError && comp_positions(buf@, 10) is None,
        },
{
    let ghost rec = buf@;
    let mut pos: usize = 10;
    let mut out: Vec<usize> = Vec::new();
    loop
        invariant
            rec == buf@,
            10 <= rec.len() <= 0xFFFF_FF00,
            10 <= pos,
            pos <= rec.len() + 12,
            (comp_positions(rec, pos as int) matches Some(tail) ==> comp_positions(rec, 10)
                == Some(out@.map_values(|p: usize| p as int) + tail)),
            (comp_positions(rec, pos as int) is None ==> comp_positions(rec, 10) is None),
        decreases rec.len() + 16 - pos,
    {
        if pos + 4 > buf.len() {
            proof {
                assert(comp_positions(rec, pos as int) is None);
            }
            return Err(SubsetError::FormatError);
        }
        let flags = get_u16(buf, pos);
        let ghost out_before = out@;
        out.push(pos + 2);
        proof {
            assert(out@.map_values(|p: usize| p as int) =~= out_before.map_values(
                |p: usize| p as int,
            ) + seq![pos as int + 2]);
        }
        if flags & MORE_COMPONENTS == 0 {
            proof {
                assert(comp_positions(rec, pos as int) == Some(seq![pos as int + 2]));
                assert(out_before.map_values(|p: usize| p as int) + seq![pos as int + 2]
                    =~= out@.map_values(|p: usize| p as int));
            }
            return Ok(out);
        }
        let skip_args: usize = if flags & ARGS_ARE_WORDS != 0 {
            4
        } else {
            2
        };
        let skip_scale: usize = if flags & WE_HAVE_A_SCALE != 0 {
            2
        } else if flags & WE_HAVE_AN_X_AND_Y_SCALE != 0 {
            4
        } else if flags & WE_HAVE_A_TWO_BY_TWO != 0 {
            8
        } else {
            0
        };
        let next = pos + 4 + skip_args + skip_scale;
        proof {
            assert(skip_args + skip_scale == comp_skip(flags));
            let tail_next = comp_positions(rec, next as int);
            if next + 4 > rec.len() {
                assert(comp_positions(rec, pos as int) is None);
            } else if tail_next is None {
                assert(comp_positions(rec, pos as int) is None);
            } else {
                let t = tail_next->Some_0;
                assert(comp_positions(rec, pos as int) == Some(seq![pos as int + 2] + t));
                if comp_positions(rec, 10) is Some {
                    assert(out_before.map_values(|p: usize| p as int) + (seq![pos as int + 2] + t)
                        =~= out@.map_values(|p: usize| p as int) + t);
                }
            }
        }
        pos = next;
    }
}

/// Walks the component chain of the composite record held in `buf`,
/// registering each referenced glyph that the registry does not know yet
/// and rewriting each component glyph-id field in place to the component's
/// new glyph id.
#[verifier::rlimit(100)]
pub fn walk_components(num_glyphs: u16, g: &mut tt_glyphs, buf: &mut Vec<u8>) -> (r: Result<
    (),
    SubsetError,
>)
    requires
        old(g).wf(),
        !old(g).closed,
        10 <= old(buf)@.len() <= 0xFFFF_FF00,
        rec_is_composite(old(buf)@),
    ensures
        final(g).wf(),
        final(g).closed == old(g).closed,
        final(g).emsize == old(g).emsize,
        final(g).dw == old(g).dw,
        final(g).default_advh == old(g).default_advh,
        final(g).default_tsb == old(g).default_tsb,
        reg_extends(old(g).gd@, final(g).gd@),
        final(buf)@.len() == old(buf)@.len(),
        forall|i: int|
            old(g).gd@.len() <= i < final(g).gd@.len() ==> (#[trigger] final(g).gd@[i]).ogid
                < num_glyphs,
        match r {
            Ok(()) => {
                &&& comp_positions(old(buf)@, 10) is Some
                &&& components_registered(old(buf)@, num_glyphs, final(g).gd@)
                &&& rewritten_ok(old(buf)@, final(buf)@, final(g).gd@)
                &&& forall|i: int|
                    old(g).gd@.len() <= i < final(g).gd@.len() ==> is_component_ref(
                        old(buf)@,
                        (#[trigger] final(g).gd@[i]).ogid as int,
                    )
            },
            Err(e) => {
                &&& (e == SubsetError::FormatError || e == SubsetError::RangeError
                    || e == SubsetError::ResourceError)
                &&& (e == SubsetError::FormatError ==> comp_positions(old(buf)@, 10) is None)
                &&& (e == SubsetError::RangeError ==> (comp_positions(old(buf)@, 10) matches Some(
                    ps,
                ) && exists|k: int|
                    0 <= k < ps.len() && ref_at(old(buf)@, #[trigger] ps[k]) >= num_glyphs)
                    || final(g).gd@.len() + 1 >= GID_CEILING)
                &&& (e == SubsetError::ResourceError ==> forall|k: int|
                    0 <= k < GID_CEILING ==> #[trigger] final(g).used_slot@[k])
            },
        },
        closure_feasible(old(buf)@, num_glyphs, old(g).gd@) ==> r is Ok,
{
    let ghost rec = old(buf)@;
    let ghost g0 = old(g).gd@;
    let ghost feasible = closure_feasible(rec, num_glyphs, g0);
    let ps = match parse_chain(buf) {
        Ok(ps) => ps,
        Err(e) => {
            return Err(e);
        },
    };
    let ghost psi = comp_positions(rec, 10)->Some_0;
    proof {
        lemma_comp_positions_bounds(rec, 10);
    }
    let n = ps.len();
    let mut i: usize = 0;
    while i < n
        invariant
            g.wf(),
            !g.closed,
            g.closed == old(g).closed,
            g.emsize == old(g).emsize,
            g.dw == old(g).dw,
            g.default_advh == old(g).default_advh,
            g.default_tsb == old(g).default_tsb,
            g0 == old(g).gd@,
            rec == old(buf)@,
            feasible == closure_feasible(rec, num_glyphs, g0),
            reg_extends(g0, g.gd@),
            10 <= rec.len() <= 0xFFFF_FF00,
            buf@.len() == rec.len(),
            comp_positions(rec, 10) == Some(psi),
            psi == ps@.map_values(|p: usize| p as int),
            n == ps@.len(),
            i <= n,
            forall|k: int|
                0 <= k < psi.len() ==> 12 <= #[trigger] psi[k] && psi[k] + 2 <= rec.len(),
            forall|k: int, l: int|
                0 <= k < l < psi.len() ==> #[trigger] psi[k] + 6 <= #[trigger] psi[l],
            forall|j: int|
                0 <= j < rec.len() && !in_gid_window(psi.take(i as int), j) ==> #[trigger] buf@[j]
                    == rec[j],
            forall|k: int|
                0 <= k < i ==> {
                    let p = #[trigger] psi[k];
                    &&& ref_at(rec, p) < num_glyphs
                    &&& spec_has_old(g.gd@, ref_at(rec, p) as int)
                    &&& be16(buf@[p], buf@[p + 1]) == spec_new_of(g.gd@, ref_at(rec, p) as int)
                },
            forall|m: int|
                g0.len() <= m < g.gd@.len() ==> exists|k: int|
                    0 <= k < i && ref_at(rec, psi[k]) as int == (#[trigger] g.gd@[m]).ogid as int,
            forall|m: int| g0.len() <= m < g.gd@.len() ==> (#[trigger] g.gd@[m]).ogid < num_glyphs,
        decreases n - i,
    {
        let p = ps[i];
        proof {
            assert(psi[i as int] == p as int);
            assert(!in_gid_window(psi.take(i as int), p as int)) by {
                if in_gid_window(psi.take(i as int), p as int) {
                    let k = choose|k: int|
                        0 <= k < psi.take(i as int).len() && (p as int == psi.take(i as int)[k]
                            || p as int == psi.take(i as int)[k] + 1);
                    assert(psi[k] + 6 <= psi[i as int]);
                }
            }
            assert(!in_gid_window(psi.take(i as int), p as int + 1)) by {
                if in_gid_window(psi.take(i as int), p as int + 1) {
                    let k = choose|k: int|
                        0 <= k < psi.take(i as int).len() && (p as int + 1 == psi.take(i as int)[k]
                            || p as int + 1 == psi.take(i as int)[k] + 1);
                    assert(psi[k] + 6 <= psi[i as int]);
                }
            }
        }
        let cgid = get_u16(buf, p);
        proof {
            assert(cgid == ref_at(rec, p as int));
        }
        if cgid >= num_glyphs {
            proof {
                if feasible {
                    let psf = comp_positions(rec, 10)->Some_0;
                    assert(psf == psi);
                    assert(ref_at(rec, psf[i as int]) < num_glyphs);
                    assert(false);
                }
                let psf = comp_positions(rec, 10)->Some_0;
                assert(psf == psi);
                assert(0 <= (i as int) && (i as int) < psf.len() && ref_at(rec, psf[i as int]) >= num_glyphs);
            }
            return Err(SubsetError::RangeError);
        }
        let found = g.find_glyph(cgid);
        let ghost g_before = g.gd@;
        let new_gid: u16;
        match found {
            Some(fg) => {
                new_gid = fg;
            },
            None => {
                proof {
                    if feasible {
                        lemma_distinct_ogids_bound_missing(g.gd@, num_glyphs as int, cgid as int);
                        lemma_free_slot_exists(*g);
                    }
                }
                let slot = match g.find_empty_slot() {
                    Ok(s) => s,
                    Err(e) => {
                        proof {
                            if feasible {
                                assert(false);
                            }
                        }
                        return Err(e);
                    },
                };
                match g.tt_add_glyph(cgid, slot) {
                    Ok(fg) => {
                        new_gid = fg;
                    },
                    Err(e) => {
                        proof {
                            if feasible {
                                assert(false);
                            }
                        }
                        return Err(e);
                    },
                }
                proof {
                    // The fresh slot is the appended last element.
                    let nn = g.gd@.len() - 1;
                    assert(g.gd@[nn].ogid == cgid);
                    assert(spec_has_old(g.gd@, cgid as int));
                    let w = spec_pos_of_old(g.gd@, cgid as int);
                    if w != nn {
                        assert(g.gd@[w].ogid == g.gd@[nn].ogid);
                    }
                    assert(spec_new_of(g.gd@, cgid as int) == new_gid);
                }
            },
        }
        proof {
            // Lookups established against the registry before this step
            // survive the possible append.
            assert(spec_has_old(g.gd@, cgid as int) && spec_new_of(g.gd@, cgid as int) == new_gid);
            assert forall|k: int| 0 <= k < i implies {
                let q = #[trigger] psi[k];
                spec_has_old(g.gd@, ref_at(rec, q) as int) && spec_new_of(
                    g.gd@,
                    ref_at(rec, q) as int,
                ) == spec_new_of(g_before, ref_at(rec, q) as int)
            } by {
                lemma_lookup_extend(g_before, g.gd@, ref_at(rec, psi[k]) as int);
            }
        }
        let ghost buf_mid = buf@;
        set_u16(buf, p, new_gid);
        proof {
            let take_next = psi.take(i as int + 1);
            assert(take_next =~= psi.take(i as int) + seq![p as int]);
            assert forall|j: int| 0 <= j < rec.len() && !in_gid_window(take_next, j) implies buf@[j]
                == rec[j] by {
                if in_gid_window(psi.take(i as int), j) {
                    let k = choose|k: int|
                        0 <= k < psi.take(i as int).len() && (j == psi.take(i as int)[k] || j
                            == psi.take(i as int)[k] + 1);
                    assert(take_next[k] == psi.take(i as int)[k]);
                    assert(in_gid_window(take_next, j));
                }
                if j == p as int || j == p as int + 1 {
                    assert(take_next[i as int] == p as int);
                    assert(in_gid_window(take_next, j));
                }
                assert(buf@[j] == buf_mid[j]);
            }
            assert forall|k: int| 0 <= k < i + 1 implies {
                let q = #[trigger] psi[k];
                &&& ref_at(rec, q) < num_glyphs
                &&& spec_has_old(g.gd@, ref_at(rec, q) as int)
                &&& be16(buf@[q], buf@[q + 1]) == spec_new_of(g.gd@, ref_at(rec, q) as int)
            } by {
                if k < i {
                    let q = psi[k];
                    assert(q + 6 <= psi[i as int]);
                    assert(buf@[q] == buf_mid[q]);
                    assert(buf@[q + 1] == buf_mid[q + 1]);
                } else {
                    assert(psi[k] == p as int);
                }
            }
            assert forall|m: int| g0.len() <= m < g.gd@.len() implies exists|k: int|
                0 <= k < i + 1 && ref_at(rec, psi[k]) as int == (#[trigger] g.gd@[m]).ogid as int by {
                if m < g_before.len() {
                    let k = choose|k: int|
                        0 <= k < i && ref_at(rec, psi[k]) as int == g_before[m].ogid as int;
                    assert(ref_at(rec, psi[k]) as int == g.gd@[m].ogid as int);
                } else {
                    assert(g.gd@[m].ogid == cgid);
                    assert(ref_at(rec, psi[i as int]) as int == g.gd@[m].ogid as int);
                }
            }
        }
        i = i + 1;
    }
    proof {
        assert(psi.take(n as int) =~= psi);
        assert(components_registered(rec, num_glyphs, g.gd@));
        assert(rewritten_ok(rec, buf@, g.gd@));
        assert forall|m: int| g0.len() <= m < g.gd@.len() implies is_component_ref(
            rec,
            (#[trigger] g.gd@[m]).ogid as int,
        ) by {
            let k = choose|k: int| 0 <= k < n && ref_at(rec, psi[k]) as int == g.gd@[m].ogid as int;
            assert(ref_at(rec, psi[k]) as int == g.gd@[m].ogid as int);
        }
    }
    Ok(())
}


/// A slot's established shape survives registry growth and payload
/// replacement elsewhere, as long as every existing glyph-id mapping is
/// kept and the slot itself is untouched.
proof fn lemma_slot_ok_extend(
    font: SourceFont,
    s: Seq<tt_glyph_desc>,
    s2: Seq<tt_glyph_desc>,
    j: int,
    keep: bool,
    advh0: u16,
    tsb0: i16,
)
    requires
        0 <= j < s.len(),
        slot_ok(font, s, j, keep, advh0, tsb0),
        s2.len() >= s.len(),
        s2[j] == s[j],
        forall|m: int|
            0 <= m < s.len() ==> (#[trigger] s2[m]).ogid == s[m].ogid && s2[m].gid == s[m].gid,
        forall|i: int, jj: int|
            #![trigger s2[i].ogid, s2[jj].ogid]
            0 <= i < jj < s2.len() ==> s2[i].ogid != s2[jj].ogid,
    ensures
        slot_ok(font, s2, j, keep, advh0, tsb0),
{
    let d = s[j];
    let og = d.ogid as int;
    let len = font.rec_len(og);
    let rec = font.record(og);
    if len != 0 && rec_contours(rec) < 0 {
        let ps = comp_positions(rec, 10)->Some_0;
        assert forall|k: int| 0 <= k < ps.len() implies {
            &&& ref_at(rec, #[trigger] ps[k]) < font.num_glyphs
            &&& spec_has_old(s2, ref_at(rec, ps[k]) as int)
            &&& spec_new_of(s2, ref_at(rec, ps[k]) as int) == spec_new_of(
                s,
                ref_at(rec, ps[k]) as int,
            )
        } by {
            lemma_lookup_extend(s, s2, ref_at(rec, ps[k]) as int);
        }
        assert(components_registered(rec, font.num_glyphs, s2));
        if keep {
            assert(rewritten_ok(rec, d.data@, s2));
        }
    }
}



/// Component registration and the rewritten-buffer relation survive
/// registry changes that keep every glyph-id mapping.
pub proof fn lemma_comp_reg_rewrite_transport(
    rec: Seq<u8>,
    n: u16,
    out: Seq<u8>,
    s: Seq<tt_glyph_desc>,
    s2: Seq<tt_glyph_desc>,
    keep: bool,
)
    requires
        components_registered(rec, n, s),
        keep ==> rewritten_ok(rec, out, s),
        s2.len() >= s.len(),
        forall|m: int|
            0 <= m < s.len() ==> (#[trigger] s2[m]).ogid == s[m].ogid && s2[m].gid == s[m].gid,
        forall|i: int, jj: int|
            #![trigger s2[i].ogid, s2[jj].ogid]
            0 <= i < jj < s2.len() ==> s2[i].ogid != s2[jj].ogid,
    ensures
        components_registered(rec, n, s2),
        keep ==> rewritten_ok(rec, out, s2),
{
    let ps = comp_positions(rec, 10)->Some_0;
    assert forall|k: int| 0 <= k < ps.len() implies {
        &&& ref_at(rec, #[trigger] ps[k]) < n
        &&& spec_has_old(s2, ref_at(rec, ps[k]) as int)
        &&& spec_new_of(s2, ref_at(rec, ps[k]) as int) == spec_new_of(s, ref_at(rec, ps[k]) as int)
    } by {
        lemma_lookup_extend(s, s2, ref_at(rec, ps[k]) as int);
    }
}



/// Maps a failed component walk on a composite record to the glyph-level
/// failure cause.
proof fn lemma_walk_err_cause(font: SourceFont, og: int, e: SubsetError, ceiling_hit: bool)
    requires
        font.rec_len(og) >= 10,
        rec_contours(font.record(og)) < 0,
        e == SubsetError::FormatError ==> comp_positions(font.record(og), 10) is None,
        e == SubsetError::RangeError ==> (comp_positions(font.record(og), 10) matches Some(ps)
            && exists|k: int|
            0 <= k < ps.len() && ref_at(font.record(og), #[trigger] ps[k]) >= font.num_glyphs)
            || ceiling_hit,
    ensures
        e == SubsetError::FormatError ==> glyph_malformed(font, og),
        e == SubsetError::RangeError ==> glyph_bad_ref(font, og) || ceiling_hit,
{
    reveal(glyph_malformed);
    reveal(glyph_bad_ref);
}

/// Reads one slot's record, resolves composite components, and stores the
/// slot's payload: the metrics passed in, the bounding box read from the
/// record header, and — for the full build pass — the rewritten outline
/// buffer.
#[verifier::rlimit(100)]
fn store_slot(
    font: &SourceFont,
    g: &mut tt_glyphs,
    i: usize,
    lo32: u32,
    hi32: u32,
    advw: u16,
    advh: u16,
    lsb: i16,
    tsb_in: i16,
    has_vmtx: bool,
    keep_data: bool,
    Ghost(g0): Ghost<tt_glyphs>,
    Ghost(advh0): Ghost<u16>,
    Ghost(tsb0): Ghost<i16>,
) -> (r: Result<(), SubsetError>)
    requires
        font.wf(),
        old(g).wf(),
        !old(g).closed,
        old(g).default_advh == advh0,
        old(g).default_tsb == tsb0,
        i < old(g).gd@.len(),
        old(g).gd@.len() >= g0.gd@.len(),
        forall|m: int|
            0 <= m < g0.gd@.len() ==> (#[trigger] old(g).gd@[m]).ogid == g0.gd@[m].ogid
                && old(g).gd@[m].gid == g0.gd@[m].gid,
        old(g).gd@[i as int].ogid < font.num_glyphs,
        lo32 == font.loca_val(old(g).gd@[i as int].ogid as int),
        hi32 == font.loca_val(old(g).gd@[i as int].ogid as int + 1),
        lo32 <= hi32,
        hi32 as int <= font.glyf_data@.len(),
        advw == font.hmtx@[old(g).gd@[i as int].ogid as int].advance,
        lsb == font.hmtx@[old(g).gd@[i as int].ogid as int].side_bearing,
        has_vmtx == (font.vmtx is Some),
        (font.vmtx matches Some(vm) ==> advh == vm@[old(g).gd@[i as int].ogid as int].advance
            && tsb_in == vm@[old(g).gd@[i as int].ogid as int].side_bearing),
        (font.vmtx is None ==> advh == advh0 && tsb_in == tsb0),
        forall|j: int| 0 <= j < i ==> slot_ok(*font, old(g).gd@, j, keep_data, advh0, tsb0),
        forall|m: int|
            g0.gd@.len() <= m < old(g).gd@.len() ==> discovered_from(*font, old(g).gd@, m),
        source_clean(*font, g0) ==> forall|m: int|
            0 <= m < old(g).gd@.len() ==> (#[trigger] old(g).gd@[m]).ogid < font.num_glyphs,
    ensures
        final(g).wf(),
        final(g).closed == old(g).closed,
        final(g).emsize == old(g).emsize,
        final(g).default_advh == advh0,
        final(g).default_tsb == tsb0,
        final(g).dw == old(g).dw,
        final(g).gd@.len() >= old(g).gd@.len(),
        forall|m: int|
            0 <= m < g0.gd@.len() ==> (#[trigger] final(g).gd@[m]).ogid == g0.gd@[m].ogid
                && final(g).gd@[m].gid == g0.gd@[m].gid,
        forall|m: int| 0 <= m < i ==> #[trigger] final(g).gd@[m] == old(g).gd@[m],
        final(g).gd@[i as int].ogid == old(g).gd@[i as int].ogid,
        final(g).gd@[i as int].gid == old(g).gd@[i as int].gid,
        match r {
            Ok(()) => {
                &&& final(g).gd@[i as int].advw == advw
                &&& forall|j: int|
                    0 <= j <= i ==> slot_ok(*font, final(g).gd@, j, keep_data, advh0, tsb0)
                &&& forall|m: int|
                    g0.gd@.len() <= m < final(g).gd@.len() ==> discovered_from(
                        *font,
                        final(g).gd@,
                        m,
                    )
                &&& (source_clean(*font, g0) ==> forall|m: int|
                    0 <= m < final(g).gd@.len() ==> (#[trigger] final(g).gd@[m]).ogid
                        < font.num_glyphs)
            },
            Err(e) => {
                &&& (e == SubsetError::FormatError || e == SubsetError::RangeError
                    || e == SubsetError::ResourceError)
                &&& (e == SubsetError::FormatError ==> glyph_malformed(
                    *font,
                    final(g).gd@[i as int].ogid as int,
                ))
                &&& (e == SubsetError::RangeError ==> glyph_bad_ref(
                    *font,
                    final(g).gd@[i as int].ogid as int,
                ) || final(g).gd@.len() + 1 >= GID_CEILING)
                &&& (e == SubsetError::ResourceError ==> forall|k: int|
                    0 <= k < GID_CEILING ==> #[trigger] final(g).used_slot@[k])
            },
        },
        source_clean(*font, g0) ==> r is Ok,
{
    let ghost clean = source_clean(*font, g0);
    let ogid = g.gd[i].ogid;
    let mut tsb: i16 = tsb_in;
    let len32 = hi32 - lo32;
    let gid_keep = g.gd[i].gid;
    let llx: i16;
    let lly: i16;
    let urx: i16;
    let ury: i16;
    let data: Vec<u8>;
    if len32 == 0 {
        llx = g.gd[i].llx;
        lly = g.gd[i].lly;
        urx = g.gd[i].urx;
        ury = g.gd[i].ury;
        data = Vec::new();
    } else if len32 < 10 {
        proof {
            if clean {
                assert(glyph_ok(*font, ogid as int));
                assert(false);
            }
            reveal(glyph_malformed);
        }
        return Err(SubsetError::FormatError);
    } else {
        let lo = lo32 as usize;
        let hi = hi32 as usize;
        let mut buf = sub_bytes(&font.glyf_data, lo, hi);
        proof {
            assert(buf@ =~= font.record(ogid as int));
        }
        let contours_u = get_u16(&buf, 0);
        llx = to_i16(get_u16(&buf, 2));
        lly = to_i16(get_u16(&buf, 4));
        urx = to_i16(get_u16(&buf, 6));
        ury = to_i16(get_u16(&buf, 8));
        if !has_vmtx {
            tsb = wrap_i16_of_i32(
                g.default_advh as i32 - g.default_tsb as i32 - ury as i32,
            );
        }
        if contours_u >= 0x8000 {
            let ghost gd_before_walk = g.gd@;
            proof {
                assert(rec_is_composite(buf@));
                if clean {
                    assert(glyph_ok(*font, ogid as int));
                    assert(closure_feasible(buf@, font.num_glyphs, g.gd@));
                }
            }
            match walk_components(font.num_glyphs, g, &mut buf) {
                Ok(()) => {},
                Err(e) => {
                    proof {
                        if clean {
                            assert(false);
                        }
                        assert(g.gd@[i as int].ogid == ogid);
                        lemma_walk_err_cause(
                            *font,
                            ogid as int,
                            e,
                            g.gd@.len() + 1 >= GID_CEILING,
                        );
                    }
                    return Err(e);
                },
            }
            proof {
                assert(g.gd@.take(i as int) =~= gd_before_walk.take(i as int));
                assert forall|j: int| 0 <= j < i implies slot_ok(
                    *font,
                    g.gd@,
                    j,
                    keep_data,
                    advh0,
                    tsb0,
                ) by {
                    lemma_slot_ok_extend(
                        *font,
                        gd_before_walk,
                        g.gd@,
                        j,
                        keep_data,
                        advh0,
                        tsb0,
                    );
                }
                assert forall|m: int|
                    g0.gd@.len() <= m < g.gd@.len() implies discovered_from(
                    *font,
                    g.gd@,
                    m,
                ) by {
                    if m < gd_before_walk.len() {
                        assert(discovered_from(*font, gd_before_walk, m));
                        let j = choose|j: int|
                            0 <= j < gd_before_walk.len() && is_component_ref(
                                font.record((#[trigger] gd_before_walk[j]).ogid as int),
                                gd_before_walk[m].ogid as int,
                            );
                        assert(g.gd@[j] == gd_before_walk[j]);
                        assert(is_component_ref(
                            font.record(g.gd@[j].ogid as int),
                            g.gd@[m].ogid as int,
                        ));
                    } else {
                        assert(is_component_ref(
                            font.record(g.gd@[i as int].ogid as int),
                            g.gd@[m].ogid as int,
                        ));
                    }
                }
            }
        }
        data = if keep_data {
            buf
        } else {
            Vec::new()
        };
    }
    let ghost gd_after = g.gd@;
    g.replace_slot(
        i,
        tt_glyph_desc { gid: gid_keep, ogid, advw, advh, lsb, tsb, llx, lly, urx, ury, data },
    );
    proof {
        // Slots already processed keep their shape across the payload
        // replacement, which preserves every glyph-id mapping.
        assert forall|j: int| 0 <= j < i implies slot_ok(
            *font,
            g.gd@,
            j,
            keep_data,
            advh0,
            tsb0,
        ) by {
            lemma_slot_ok_extend(*font, gd_after, g.gd@, j, keep_data, advh0, tsb0);
        }
        // The freshly written slot meets its shape.
        let d = g.gd@[i as int];
        let og = d.ogid as int;
        let rec = font.record(og);
        if font.rec_len(og) != 0 && rec_contours(rec) < 0 {
            lemma_comp_reg_rewrite_transport(rec, font.num_glyphs, d.data@, gd_after, g.gd@, keep_data);
        }
        assert(slot_ok(*font, g.gd@, i as int, keep_data, advh0, tsb0));
        // Provenance of appended slots persists.
        assert forall|m: int| g0.gd@.len() <= m < g.gd@.len() implies discovered_from(
            *font,
            g.gd@,
            m,
        ) by {
            assert(discovered_from(*font, gd_after, m));
            let j = choose|j: int|
                0 <= j < gd_after.len() && is_component_ref(
                    font.record((#[trigger] gd_after[j]).ogid as int),
                    gd_after[m].ogid as int,
                );
            assert(g.gd@[j].ogid == gd_after[j].ogid);
            assert(is_component_ref(
                font.record(g.gd@[j].ogid as int),
                g.gd@[m].ogid as int,
            ));
        }
    }
    Ok(())
}

/// Processes one registry slot of the extraction worklist: validates the
/// original glyph id, resolves its record range through `loca`, fetches
/// the metrics, tallies the advance width, and hands the record over to
/// `store_slot`.
#[verifier::rlimit(100)]
fn process_slot(
    font: &SourceFont,
    g: &mut tt_glyphs,
    loca: &Vec<u32>,
    w_stat: &mut Vec<u16>,
    i: usize,
    keep_data: bool,
    Ghost(g0): Ghost<tt_glyphs>,
    Ghost(advh0): Ghost<u16>,
    Ghost(tsb0): Ghost<i16>,
) -> (r: Result<(), SubsetError>)
    requires
        font.wf(),
        old(g).wf(),
        !old(g).closed,
        old(g).emsize == font.units_per_em,
        old(g).default_advh == advh0,
        old(g).default_tsb == tsb0,
        old(g).gd@.len() >= g0.gd@.len(),
        forall|m: int|
            0 <= m < g0.gd@.len() ==> (#[trigger] old(g).gd@[m]).ogid == g0.gd@[m].ogid && old(g).gd@[m].gid
                == g0.gd@[m].gid,
        i < old(g).gd@.len(),
        loca@.len() == font.num_glyphs as int + 1,
        forall|k: int| 0 <= k <= font.num_glyphs as int ==> #[trigger] loca@[k] == font.loca_val(k),
        old(w_stat)@.len() == old(g).emsize as int + 2,
        forall|w: int|
            0 <= w < old(w_stat)@.len() ==> (#[trigger] old(w_stat)@[w]) as int == width_count(
                old(g).gd@.take(i as int),
                old(g).emsize,
                w,
            ),
        forall|j: int| 0 <= j < i ==> slot_ok(*font, old(g).gd@, j, keep_data, advh0, tsb0),
        forall|m: int|
            g0.gd@.len() <= m < old(g).gd@.len() ==> discovered_from(*font, old(g).gd@, m),
        source_clean(*font, g0) ==> forall|m: int|
            0 <= m < old(g).gd@.len() ==> (#[trigger] old(g).gd@[m]).ogid < font.num_glyphs,
    ensures
        final(g).wf(),
        final(g).closed == old(g).closed,
        final(g).emsize == old(g).emsize,
        final(g).default_advh == advh0,
        final(g).default_tsb == tsb0,
        final(g).dw == old(g).dw,
        final(g).gd@.len() >= old(g).gd@.len(),
        forall|m: int|
            0 <= m < g0.gd@.len() ==> (#[trigger] final(g).gd@[m]).ogid == g0.gd@[m].ogid && final(g).gd@[m].gid
                == g0.gd@[m].gid,
        final(w_stat)@.len() == old(w_stat)@.len(),
        match r {
            Ok(()) => {
                &&& forall|w: int|
                    0 <= w < final(w_stat)@.len() ==> (#[trigger] final(w_stat)@[w]) as int
                        == width_count(final(g).gd@.take(i as int + 1), final(g).emsize, w)
                &&& forall|j: int|
                    0 <= j <= i ==> slot_ok(*font, final(g).gd@, j, keep_data, advh0, tsb0)
                &&& forall|m: int|
                    g0.gd@.len() <= m < final(g).gd@.len() ==> discovered_from(
                        *font,
                        final(g).gd@,
                        m,
                    )
                &&& (source_clean(*font, g0) ==> forall|m: int|
                    0 <= m < final(g).gd@.len() ==> (#[trigger] final(g).gd@[m]).ogid
                        < font.num_glyphs)
            },
            Err(e) => {
                &&& (e == SubsetError::FormatError || e == SubsetError::RangeError
                    || e == SubsetError::ResourceError)
                &&& (e == SubsetError::FormatError ==> glyph_malformed(
                    *font,
                    final(g).gd@[i as int].ogid as int,
                ))
                &&& (e == SubsetError::RangeError ==> glyph_bad_ref(
                    *font,
                    final(g).gd@[i as int].ogid as int,
                ) || final(g).gd@.len() + 1 >= GID_CEILING)
                &&& (e == SubsetError::ResourceError ==> forall|k: int|
                    0 <= k < GID_CEILING ==> #[trigger] final(g).used_slot@[k])
            },
        },
        source_clean(*font, g0) ==> r is Ok,
{
    let ghost clean = source_clean(*font, g0);
    let emsize = g.emsize;

    let ogid = g.gd[i].ogid;
    if ogid >= font.num_glyphs {
        proof {
            if clean {
                assert(false);
            }
            reveal(glyph_malformed);
        }
        return Err(SubsetError::FormatError);
    }
    let oi = ogid as usize;
    let lo32 = loca[oi];
    let hi32 = loca[oi + 1];
    if hi32 < lo32 || hi32 as usize > font.glyf_data.len() {
        proof {
            if clean {
                assert(glyph_ok(*font, ogid as int));
                assert(false);
            }
            assert(!font.range_ok(ogid as int));
            reveal(glyph_malformed);
        }
        return Err(SubsetError::FormatError);
    }
    let advw = font.hmtx[oi].advance;
    let lsb = font.hmtx[oi].side_bearing;
    let advh: u16;
    let mut tsb: i16;
    let has_vmtx: bool;
    match &font.vmtx {
        Some(vm) => {
            advh = vm[oi].advance;
            tsb = vm[oi].side_bearing;
            has_vmtx = true;
        },
        None => {
            advh = g.default_advh;
            tsb = g.default_tsb;
            has_vmtx = false;
        },
    }
    let ghost gd_pre = g.gd@;
    if advw <= emsize {
        let c = w_stat[advw as usize];
        proof {
            lemma_width_count_le_len(g.gd@.take(i as int), emsize, advw as int);
        }
        w_stat.set(advw as usize, c + 1);
    } else {
        let c = w_stat[emsize as usize + 1];
        proof {
            lemma_width_count_le_len(g.gd@.take(i as int), emsize, emsize as int + 1);
        }
        w_stat.set(emsize as usize + 1, c + 1);
    }
    match store_slot(
        font,
        g,
        i,
        lo32,
        hi32,
        advw,
        advh,
        lsb,
        tsb,
        has_vmtx,
        keep_data,
        Ghost(g0),
        Ghost(advh0),
        Ghost(tsb0),
    ) {
        Ok(()) => {},
        Err(e) => {
            return Err(e);
        },
    }
    proof {
        assert forall|w: int| 0 <= w < w_stat@.len() implies (#[trigger] w_stat@[w]) as int
            == width_count(g.gd@.take(i as int + 1), emsize, w) by {
            lemma_width_count_step(g.gd@, i as int, emsize, w);
            assert(g.gd@.take(i as int) =~= gd_pre.take(i as int));
        }
    }
    Ok(())
}

/// The shared extraction pass: walks the registry in discovery order with
/// a cursor that re-reads the current length, so it tolerates the registry
/// growing mid-walk as composite components are discovered and appended.
/// For each slot it validates the original glyph id, resolves the record's
/// byte range through `loca`, fetches the metrics, reads the bounding box,
/// resolves composite components, and tallies the advance width; at the
/// end it picks the most frequent width as the implied default. The full
/// build pass keeps each rewritten record buffer (`keep_data`); the
/// metrics-only pass discards it.
#[verifier::rlimit(100)]
pub fn extract_glyphs(font: &SourceFont, g: &mut tt_glyphs, keep_data: bool) -> (r: Result<
    (),
    SubsetError,
>)
    requires
        font.wf(),
        old(g).wf(),
        !old(g).closed,
    ensures
        final(g).wf(),
        final(g).closed == old(g).closed,
        r matches Err(e) ==> {
            &&& (e == SubsetError::FormatError || e == SubsetError::RangeError
                || e == SubsetError::ResourceError)
            &&& (e == SubsetError::FormatError ==> font.metric_data_format != 0
                || !font.loca_ok() || exists|m: int|
                0 <= m < final(g).gd@.len() && glyph_malformed(
                    *font,
                    (#[trigger] final(g).gd@[m]).ogid as int,
                ))
            &&& (e == SubsetError::RangeError ==> (exists|m: int|
                0 <= m < final(g).gd@.len() && glyph_bad_ref(
                    *font,
                    (#[trigger] final(g).gd@[m]).ogid as int,
                )) || final(g).gd@.len() + 1 >= GID_CEILING)
            &&& (e == SubsetError::ResourceError ==> forall|k: int|
                0 <= k < GID_CEILING ==> #[trigger] final(g).used_slot@[k])
        },
        r is Ok ==> font.metric_data_format == 0 && font.loca_ok(),
        r is Ok ==> extract_post(*font, *old(g), *final(g), keep_data),
        source_clean(*font, *old(g)) ==> r is Ok,
{
    let ghost g0 = *old(g);
    let ghost clean = source_clean(*font, g0);
    if font.metric_data_format != 0 {
        return Err(SubsetError::FormatError);
    }
    g.emsize = font.units_per_em;
    match &font.os2 {
        Some(o) => {
            let advh = wrap_u16_of_i32(o.s_typo_ascender as i32 - o.s_typo_descender as i32);
            g.default_advh = advh;
            g.default_tsb = wrap_i16_of_i32(advh as i32 - o.s_typo_ascender as i32);
        },
        None => {},
    }
    let ghost advh0 = g.default_advh;
    let ghost tsb0 = g.default_tsb;
    proof {
        assert(advh0 == spec_default_advh(*font, g0));
        assert(tsb0 == spec_default_tsb(*font, g0));
    }
    let loca = match parse_loca(&font.loca_data, font.index_to_loc_format, font.num_glyphs) {
        Ok(v) => v,
        Err(e) => {
            proof {
                if clean {
                    assert(false);
                }
            }
            return Err(e);
        },
    };
    let emsize = g.emsize;
    let mut w_stat: Vec<u16> = Vec::new();
    let mut z: usize = 0;
    while z < emsize as usize + 2
        invariant
            z <= emsize as int + 2,
            w_stat@.len() == z,
            forall|k: int| 0 <= k < z ==> (#[trigger] w_stat@[k]) == 0,
        decreases emsize + 2 - z,
    {
        w_stat.push(0);
        z = z + 1;
    }
    let mut i: usize = 0;
    while i < g.gd.len()
        invariant
            g0 == *old(g),
            font.wf(),
            g.wf(),
            !g.closed,
            g.closed == g0.closed,
            clean == source_clean(*font, g0),
            g.emsize == font.units_per_em,
            emsize == g.emsize,
            g.default_advh == advh0,
            g.default_tsb == tsb0,
            g.dw == g0.dw,
            g.gd@.len() >= g0.gd@.len(),
            forall|m: int|
                0 <= m < g0.gd@.len() ==> (#[trigger] g.gd@[m]).ogid == g0.gd@[m].ogid
                    && g.gd@[m].gid == g0.gd@[m].gid,
            i <= g.gd@.len(),
            loca@.len() == font.num_glyphs as int + 1,
            forall|k: int| 0 <= k <= font.num_glyphs as int ==> #[trigger] loca@[k] == font.loca_val(k),
            w_stat@.len() == emsize as int + 2,
            forall|w: int|
                0 <= w < w_stat@.len() ==> (#[trigger] w_stat@[w]) as int == width_count(
                    g.gd@.take(i as int),
                    emsize,
                    w,
                ),
            forall|j: int| 0 <= j < i ==> slot_ok(*font, g.gd@, j, keep_data, advh0, tsb0),
            forall|m: int|
                g0.gd@.len() <= m < g.gd@.len() ==> discovered_from(*font, g.gd@, m),
            clean ==> forall|m: int|
                0 <= m < g.gd@.len() ==> (#[trigger] g.gd@[m]).ogid < font.num_glyphs,
        decreases GID_CEILING - i,
    {
        match process_slot(
            font,
            g,
            &loca,
            &mut w_stat,
            i,
            keep_data,
            Ghost(g0),
            Ghost(advh0),
            Ghost(tsb0),
        ) {
            Ok(()) => {},
            Err(e) => {
                proof {
                    if clean {
                        assert(false);
                    }
                }
                return Err(e);
            },
        }
        i = i + 1;
    }
    proof {
        assert(g.gd@.take(i as int) =~= g.gd@);
    }
    let mut max_count: i32 = -1;
    let mut dw: u16 = g.gd[0].advw;
    let mut w: usize = 0;
    while w < emsize as usize + 1
        invariant
            w <= emsize as int + 1,
            w_stat@.len() == emsize as int + 2,
            forall|k: int|
                0 <= k < w_stat@.len() ==> (#[trigger] w_stat@[k]) as int == width_count(
                    g.gd@,
                    emsize,
                    k,
                ),
            w == 0 ==> max_count == -1,
            w > 0 ==> {
                &&& (dw as int) < w
                &&& max_count == width_count(g.gd@, emsize, dw as int)
                &&& forall|k: int|
                    0 <= k < w ==> #[trigger] width_count(g.gd@, emsize, k) <= max_count
                &&& forall|k: int|
                    0 <= k < dw ==> #[trigger] width_count(g.gd@, emsize, k) < max_count
            },
        decreases emsize + 1 - w,
    {
        let c = w_stat[w];
        if (c as i32) > max_count {
            max_count = c as i32;
            dw = w as u16;
        }
        w = w + 1;
    }
    g.dw = dw;
    Ok(())
}

/// The metrics-only extraction entry point: runs the shared pass without
/// keeping any record buffer. The registry still grows into the closure of
/// the requested set, and the implied default advance width is chosen.
pub fn tt_get_metrics(font: &SourceFont, g: &mut tt_glyphs) -> (r: Result<(), SubsetError>)
    requires
        font.wf(),
        old(g).wf(),
        !old(g).closed,
    ensures
        final(g).wf(),
        final(g).closed == old(g).closed,
        r matches Err(e) ==> {
            &&& (e == SubsetError::FormatError || e == SubsetError::RangeError
                || e == SubsetError::ResourceError)
            &&& (e == SubsetError::FormatError ==> font.metric_data_format != 0
                || !font.loca_ok() || exists|m: int|
                0 <= m < final(g).gd@.len() && glyph_malformed(
                    *font,
                    (#[trigger] final(g).gd@[m]).ogid as int,
                ))
            &&& (e == SubsetError::RangeError ==> (exists|m: int|
                0 <= m < final(g).gd@.len() && glyph_bad_ref(
                    *font,
                    (#[trigger] final(g).gd@[m]).ogid as int,
                )) || final(g).gd@.len() + 1 >= GID_CEILING)
            &&& (e == SubsetError::ResourceError ==> forall|k: int|
                0 <= k < GID_CEILING ==> #[trigger] final(g).used_slot@[k])
        },
        r is Ok ==> font.metric_data_format == 0 && font.loca_ok(),
        r is Ok ==> extract_post(*font, *old(g), *final(g), false),
        source_clean(*font, *old(g)) ==> r is Ok,
{
    extract_glyphs(font, g, false)
}


/// A slot's established shape survives any rearrangement of the registry
/// that keeps the slots themselves.
pub proof fn lemma_slot_ok_perm(
    font: SourceFont,
    s: Seq<tt_glyph_desc>,
    s2: Seq<tt_glyph_desc>,
    i: int,
    j: int,
    keep: bool,
    advh0: u16,
    tsb0: i16,
)
    requires
        0 <= i < s.len(),
        0 <= j < s2.len(),
        slot_ok(font, s, i, keep, advh0, tsb0),
        s2[j] == s[i],
        slots_contained(s, s2),
        forall|a: int, b: int|
            #![trigger s2[a].ogid, s2[b].ogid]
            0 <= a < b < s2.len() ==> s2[a].ogid != s2[b].ogid,
    ensures
        slot_ok(font, s2, j, keep, advh0, tsb0),
{
    let d = s[i];
    let og = d.ogid as int;
    let len = font.rec_len(og);
    let rec = font.record(og);
    if len != 0 && rec_contours(rec) < 0 {
        let ps = comp_positions(rec, 10)->Some_0;
        assert forall|k: int| 0 <= k < ps.len() implies {
            &&& ref_at(rec, #[trigger] ps[k]) < font.num_glyphs
            &&& spec_has_old(s2, ref_at(rec, ps[k]) as int)
            &&& spec_new_of(s2, ref_at(rec, ps[k]) as int) == spec_new_of(
                s,
                ref_at(rec, ps[k]) as int,
            )
        } by {
            lemma_lookup_perm(s, s2, ref_at(rec, ps[k]) as int);
        }
        assert(components_registered(rec, font.num_glyphs, s2));
        if keep {
            assert(rewritten_ok(rec, d.data@, s2));
        }
    }
}

/// Releasing a slot's outline buffer while keeping its mapping and metrics
/// turns a fully extracted slot into a metrics-only one.
pub proof fn lemma_slot_ok_cleared(
    font: SourceFont,
    s: Seq<tt_glyph_desc>,
    s2: Seq<tt_glyph_desc>,
    j: int,
    advh0: u16,
    tsb0: i16,
)
    requires
        0 <= j < s.len(),
        s2.len() == s.len(),
        slot_ok(font, s, j, true, advh0, tsb0),
        forall|m: int|
            0 <= m < s.len() ==> (#[trigger] s2[m]).ogid == s[m].ogid && s2[m].gid == s[m].gid,
        s2[j].advw == s[j].advw,
        s2[j].advh == s[j].advh,
        s2[j].lsb == s[j].lsb,
        s2[j].tsb == s[j].tsb,
        s2[j].llx == s[j].llx,
        s2[j].lly == s[j].lly,
        s2[j].urx == s[j].urx,
        s2[j].ury == s[j].ury,
        s2[j].data@.len() == 0,
        forall|a: int, b: int|
            #![trigger s2[a].ogid, s2[b].ogid]
            0 <= a < b < s2.len() ==> s2[a].ogid != s2[b].ogid,
    ensures
        slot_ok(font, s2, j, false, advh0, tsb0),
{
    let d = s[j];
    let og = d.ogid as int;
    let len = font.rec_len(og);
    let rec = font.record(og);
    if len != 0 && rec_contours(rec) < 0 {
        lemma_comp_reg_rewrite_transport(rec, font.num_glyphs, d.data@, s, s2, false);
    }
}

} // verus!
