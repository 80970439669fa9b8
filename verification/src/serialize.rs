//! Table serialization: `hmtx`, `loca` and `glyf` emission and the header
//! patches.
//!
//! The registry is ordered by new glyph id, the long-metrics count and the
//! `loca` entry width are chosen, and the three tables are packed with each
//! glyph record padded to a 4-byte boundary with explicit zero bytes. Gaps
//! in the glyph-id sequence receive zero metrics — except the position just
//! before the long-metrics cutoff, which repeats the final glyph's advance
//! width so the tail-compression rule holds — and `loca` entries that
//! repeat the following glyph's offset.
use vstd::prelude::*;

use crate::bytes::{
    be16, be32, pad4, padlen4, push_bytes, push_u16, push_u32, push_zeros, to_u16, uval16,
};
use crate::err::SubsetError;
use crate::extract::{
    discovered_from, extract_glyphs, extract_post, glyph_bad_ref, glyph_malformed,
    lemma_comp_reg_rewrite_transport, lemma_slot_ok_cleared, lemma_slot_ok_perm, slot_ok,
    source_clean, spec_default_advh, spec_default_tsb,
};
use crate::font::{loca_entry, SourceFont};
use crate::glyfrec::{comp_positions, is_component_ref, rec_contours, ref_at, rewritten_ok};
use crate::registry::{
    in_seq, lemma_lookup_extend, lemma_lookup_perm, scan_gid, spec_has_new, spec_has_old,
    spec_new_of, spec_pos_of_new, spec_pos_of_old, tt_glyph_desc, tt_glyphs, width_count,
    GID_CEILING,
};

verus! {

/// The six finished pieces of a full table build: the packed `hmtx`,
/// `loca` and `glyf` tables, and the patches for the `head`, `maxp` and
/// `hhea` headers.
pub struct BuiltTables {
    /// The packed horizontal metrics table.
    pub hmtx: Vec<u8>,
    /// The packed glyph location table.
    pub loca: Vec<u8>,
    /// The packed glyph data table.
    pub glyf: Vec<u8>,
    /// Patch for `head.indexToLocFormat`: the chosen `loca` entry width.
    pub index_to_loc_format: i16,
    /// Patch for `head.checkSumAdjustment`: zeroed; the global checksum
    /// pass is the output writer's responsibility.
    pub check_sum_adjustment: u32,
    /// Patch for `maxp.numGlyphs`: the highest new glyph id plus one.
    pub num_glyphs: u16,
    /// Patch for `hhea.numOfLongHorMetrics`.
    pub num_hmetrics: u16,
}

/// The byte offset of slot `i`'s record inside the emitted `glyf` table:
/// the padded sizes of the records before it, measured on the slots'
/// owned buffers.
pub open spec fn glyf_off(s: Seq<tt_glyph_desc>, i: int) -> int
    decreases i,
{
    if i <= 0 {
        0
    } else {
        glyf_off(s, i - 1) + pad4(s[i - 1].data@.len() as int)
    }
}

/// The total emitted `glyf` size.
pub open spec fn glyf_total(s: Seq<tt_glyph_desc>) -> int {
    glyf_off(s, s.len() as int)
}

/// The byte offset of slot `i`'s record, measured on the source font's
/// record lengths — the form the emitted tables are described in once the
/// slot buffers have been released.
pub open spec fn out_off(font: SourceFont, s: Seq<tt_glyph_desc>, i: int) -> int
    decreases i,
{
    if i <= 0 {
        0
    } else {
        out_off(font, s, i - 1) + pad4(font.rec_len(s[i - 1].ogid as int))
    }
}

/// The long-metrics count over the sorted slots, scanning from the highest
/// new glyph id backward: two more than the highest id whose advance width
/// differs from the very last glyph's, or 1 when every width is the same.
pub open spec fn nlhm_rec(s: Seq<tt_glyph_desc>, i: int) -> int
    decreases i + 1,
{
    if i < 0 {
        1
    } else if s[i].advw != s[s.len() - 1].advw {
        s[i].gid + 2
    } else {
        nlhm_rec(s, i - 1)
    }
}

/// The long-metrics count of the sorted slot sequence.
pub open spec fn nlhm_spec(s: Seq<tt_glyph_desc>) -> int {
    nlhm_rec(s, s.len() - 1)
}

/// The `hmtx` byte length once the entries for glyph ids below `p` are
/// written: 4 bytes per long entry, 2 per bare side bearing.
pub open spec fn hm_bytes(p: int, nlhm: int) -> int {
    if p <= nlhm {
        4 * p
    } else {
        4 * nlhm + 2 * (p - nlhm)
    }
}

/// The advance width decoded from `hmtx` for glyph id `k` (defined for
/// `k` below the long-metrics count).
pub open spec fn hmtx_adv(b: Seq<u8>, k: int) -> u16 {
    be16(b[4 * k], b[4 * k + 1])
}

/// The byte position of glyph id `k`'s side bearing inside `hmtx`.
pub open spec fn lsb_pos(nlhm: int, k: int) -> int {
    if k < nlhm {
        4 * k + 2
    } else {
        4 * nlhm + 2 * (k - nlhm)
    }
}

/// The side bearing carrier decoded from `hmtx` for glyph id `k`.
pub open spec fn hmtx_lsb(b: Seq<u8>, nlhm: int, k: int) -> u16 {
    be16(b[lsb_pos(nlhm, k)], b[lsb_pos(nlhm, k) + 1])
}

/// The advance width the emitted `hmtx` owes glyph id `k`: the slot's
/// width for an assigned id; for a gap, zero — except just before the
/// long-metrics cutoff, where the final glyph's width repeats.
pub open spec fn exp_adv(s: Seq<tt_glyph_desc>, nlhm: int, k: int) -> u16 {
    if spec_has_new(s, k) {
        s[spec_pos_of_new(s, k)].advw
    } else if k == nlhm - 1 {
        s[s.len() - 1].advw
    } else {
        0
    }
}

/// The side bearing carrier the emitted `hmtx` owes glyph id `k`.
pub open spec fn exp_lsb(s: Seq<tt_glyph_desc>, k: int) -> u16 {
    if spec_has_new(s, k) {
        uval16(s[spec_pos_of_new(s, k)].lsb)
    } else {
        0
    }
}

/// The `loca` entry width in bytes for the chosen format.
pub open spec fn loca_w(fmt: i16) -> int {
    if fmt == 0 {
        2
    } else {
        4
    }
}

/// Appends one `loca` entry in the chosen format; a short entry stores
/// half the (4-byte-aligned) offset.
fn push_loca_entry(loca: &mut Vec<u8>, fmt: i16, off: u32)
    requires
        fmt == 0 || fmt == 1,
        fmt == 0 ==> off < 0x20000 && off % 2 == 0,
        old(loca)@.len() % loca_w(fmt) as nat == 0,
    ensures
        final(loca)@.len() == old(loca)@.len() + loca_w(fmt),
        forall|i: int| 0 <= i < old(loca)@.len() ==> final(loca)@[i] == old(loca)@[i],
        loca_entry(
            final(loca)@,
            fmt,
            old(loca)@.len() as int / loca_w(fmt),
        ) == off,
{
    let ghost k = old(loca)@.len() as int / loca_w(fmt);
    if fmt == 0 {
        proof {
            assert(2 * k == old(loca)@.len() as int);
        }
        push_u16(loca, (off / 2) as u16);
    } else {
        proof {
            assert(4 * k == old(loca)@.len() as int);
        }
        push_u32(loca, off);
    }
}

/// Scans the sorted slots from the highest new glyph id backward and
/// determines the long-metrics count and the total padded `glyf` size.
/// Fails with `FormatError` exactly when that size overflows the 32-bit
/// offset space.
fn scan_widths(g: &tt_glyphs) -> (r: Result<(u16, u32), SubsetError>)
    requires
        g.wf(),
        forall|i: int, j: int|
            #![trigger g.gd@[i].gid, g.gd@[j].gid]
            0 <= i < j < g.gd@.len() ==> g.gd@[i].gid < g.gd@[j].gid,
        forall|i: int| 0 <= i < g.gd@.len() ==> (#[trigger] g.gd@[i].data@.len()) <= 0xFFFF_FF00,
    ensures
        match r {
            Ok(p) => {
                &&& p.0 as int == nlhm_spec(g.gd@)
                &&& 1 <= p.0 <= g.last_gid + 1
                &&& p.1 as int == glyf_total(g.gd@)
            },
            Err(e) => e == SubsetError::FormatError && glyf_total(g.gd@) > u32::MAX,
        },
{
    let ghost s = g.gd@;
    let n = g.gd.len();
    proof {
        // The slot holding the highest id sorts to the end.
        let w = spec_pos_of_new(s, g.last_gid as int);
        if w != n - 1 {
            assert(s[w].gid < s[n - 1].gid);
        }
        assert(s[n - 1].gid == g.last_gid);
    }
    let last_advw = g.gd[n - 1].advw;
    let mut nlhm: u16 = 1;
    let mut known = false;
    let mut total: u32 = 0;
    let mut ii = n;
    while ii > 0
        invariant
            s == g.gd@,
            g.wf(),
            n == s.len(),
            1 <= n,
            ii <= n,
            s[n - 1].gid == g.last_gid,
            last_advw == s[n - 1].advw,
            forall|i: int, j: int|
                #![trigger s[i].gid, s[j].gid]
                0 <= i < j < s.len() ==> s[i].gid < s[j].gid,
            forall|i: int| 0 <= i < s.len() ==> (#[trigger] s[i].data@.len()) <= 0xFFFF_FF00,
            total as int + glyf_off(s, ii as int) == glyf_total(s),
            nlhm_spec(s) == if known {
                nlhm as int
            } else {
                nlhm_rec(s, ii as int - 1)
            },
            known ==> 1 <= nlhm <= g.last_gid + 1,
            !known ==> nlhm == 1,
        decreases ii,
    {
        ii = ii - 1;
        let len = g.gd[ii].data.len();
        let len32 = len as u32;
        let padded = len32 + padlen4(len32);
        if total > u32::MAX - padded {
            proof {
                assert(glyf_off(s, ii as int + 1) == glyf_off(s, ii as int) + pad4(len as int));
                lemma_glyf_off_mono(s, 0, ii as int);
                lemma_glyf_off_mono(s, ii as int + 1, s.len() as int);
            }
            return Err(SubsetError::FormatError);
        }
        total = total + padded;
        if !known && last_advw != g.gd[ii].advw {
            proof {
                if ii == n - 1 {
                    assert(s[n - 1].advw == last_advw);
                }
                assert(ii < n - 1);
                assert(s[ii as int].gid < s[n - 1].gid);
            }
            nlhm = g.gd[ii].gid + 2;
            known = true;
        }
    }
    proof {
        assert(glyf_off(s, 0) == 0);
        if !known {
            assert(nlhm_spec(s) == nlhm_rec(s, -1));
        }
    }
    Ok((nlhm, total))
}

/// `glyf_off` grows with the index.
proof fn lemma_glyf_off_mono(s: Seq<tt_glyph_desc>, i: int, j: int)
    requires
        0 <= i <= j,
    ensures
        glyf_off(s, i) <= glyf_off(s, j),
    decreases j - i,
{
    if i < j {
        lemma_glyf_off_mono(s, i, j - 1);
        assert(pad4(s[j - 1].data@.len() as int) >= 0);
    }
}


/// How many slots carry a new glyph id below `k`.
pub open spec fn count_lt_gid(s: Seq<tt_glyph_desc>, k: int) -> int
    decreases s.len(),
{
    if s.len() == 0 {
        0
    } else {
        count_lt_gid(s.drop_last(), k) + if s.last().gid < k {
            1int
        } else {
            0int
        }
    }
}

/// In a sorted sequence, the first position whose id reaches `k` counts
/// exactly the ids below `k`.
proof fn lemma_count_lt_sorted(s: Seq<tt_glyph_desc>, k: int, r: int)
    requires
        forall|i: int, j: int|
            #![trigger s[i].gid, s[j].gid]
            0 <= i < j < s.len() ==> s[i].gid < s[j].gid,
        0 <= r <= s.len(),
        forall|j: int| 0 <= j < r ==> (#[trigger] s[j].gid) < k,
        r < s.len() ==> s[r].gid >= k,
    ensures
        count_lt_gid(s, k) == r,
    decreases s.len(),
{
    if s.len() == 0 {
    } else {
        let d = s.drop_last();
        if r == s.len() {
            assert(s.last().gid < k);
            lemma_count_lt_sorted(d, k, r - 1);
        } else {
            assert(s[s.len() - 1].gid >= k) by {
                if r < s.len() - 1 {
                    assert(s[r].gid < s[s.len() - 1].gid);
                }
            }
            lemma_count_lt_sorted(d, k, r);
        }
    }
}

/// Counts of ids below a bound never decrease as the bound grows.
proof fn lemma_count_lt_mono(s: Seq<tt_glyph_desc>, k1: int, k2: int)
    requires
        k1 <= k2,
    ensures
        count_lt_gid(s, k1) <= count_lt_gid(s, k2),
    decreases s.len(),
{
    if s.len() > 0 {
        lemma_count_lt_mono(s.drop_last(), k1, k2);
    }
}

/// Counting below a bound that every id is under counts every slot.
proof fn lemma_count_lt_all(s: Seq<tt_glyph_desc>, k: int)
    requires
        forall|i: int| 0 <= i < s.len() ==> (#[trigger] s[i].gid) < k,
    ensures
        count_lt_gid(s, k) == s.len(),
    decreases s.len(),
{
    if s.len() > 0 {
        lemma_count_lt_all(s.drop_last(), k);
    }
}

/// Counts stay within the slot count.
proof fn lemma_count_lt_bounds(s: Seq<tt_glyph_desc>, k: int)
    ensures
        0 <= count_lt_gid(s, k) <= s.len(),
    decreases s.len(),
{
    if s.len() > 0 {
        lemma_count_lt_bounds(s.drop_last(), k);
    }
}

/// Every emitted offset is 4-byte aligned.
proof fn lemma_glyf_off_mod4(s: Seq<tt_glyph_desc>, i: int)
    ensures
        glyf_off(s, i) % 4 == 0,
    decreases i,
{
    if i > 0 {
        lemma_glyf_off_mod4(s, i - 1);
    }
}

/// Finds the first slot whose new glyph id is at least `k`.
fn scan_gid_ge(v: &Vec<tt_glyph_desc>, k: u16) -> (r: usize)
    ensures
        r <= v@.len(),
        forall|j: int| 0 <= j < r ==> (#[trigger] v@[j].gid) < k,
        r < v@.len() ==> v@[r as int].gid >= k,
{
    let n = v.len();
    let mut idx: usize = 0;
    while idx < n
        invariant
            n == v@.len(),
            idx <= n,
            forall|j: int| 0 <= j < idx ==> (#[trigger] v@[j].gid) < k,
        decreases n - idx,
    {
        if v[idx].gid >= k {
            return idx;
        }
        idx = idx + 1;
    }
    n
}

/// Precomputes the emitted `glyf` offset of every slot, plus the trailing
/// total.
fn compute_offsets(g: &tt_glyphs, total: u32) -> (offs: Vec<u32>)
    requires
        forall|i: int| 0 <= i < g.gd@.len() ==> (#[trigger] g.gd@[i].data@.len()) <= 0xFFFF_FF00,
        total as int == glyf_total(g.gd@),
    ensures
        offs@.len() == g.gd@.len() + 1,
        forall|i: int| 0 <= i <= g.gd@.len() ==> (#[trigger] offs@[i]) as int == glyf_off(g.gd@, i),
{
    let ghost s = g.gd@;
    let n = g.gd.len();
    let mut offs: Vec<u32> = Vec::new();
    let mut cur: u32 = 0;
    let mut i: usize = 0;
    while i < n
        invariant
            s == g.gd@,
            n == s.len(),
            i <= n,
            forall|j: int| 0 <= j < s.len() ==> (#[trigger] s[j].data@.len()) <= 0xFFFF_FF00,
            total as int == glyf_total(s),
            offs@.len() == i,
            cur as int == glyf_off(s, i as int),
            forall|j: int| 0 <= j < i ==> (#[trigger] offs@[j]) as int == glyf_off(s, j),
        decreases n - i,
    {
        offs.push(cur);
        let len32 = g.gd[i].data.len() as u32;
        let padded = len32 + padlen4(len32);
        proof {
            lemma_glyf_off_mono(s, i as int + 1, s.len() as int);
            assert(glyf_off(s, i as int + 1) == glyf_off(s, i as int) + pad4(len32 as int));
        }
        cur = cur + padded;
        i = i + 1;
    }
    offs.push(cur);
    offs
}


/// Packs the horizontal metrics: a long (advance, side bearing) entry for
/// every glyph id below the long-metrics count, a bare side bearing above
/// it; gaps receive zero entries, except the position just before the
/// cutoff, which repeats the final glyph's advance width.
#[verifier::rlimit(100)]
fn emit_hmtx(g: &tt_glyphs, nlhm: u16, last_advw: u16) -> (hmtx: Vec<u8>)
    requires
        g.wf(),
        forall|i: int, j: int|
            #![trigger g.gd@[i].gid, g.gd@[j].gid]
            0 <= i < j < g.gd@.len() ==> g.gd@[i].gid < g.gd@[j].gid,
        1 <= nlhm <= g.last_gid + 1,
        last_advw == g.gd@[g.gd@.len() - 1].advw,
    ensures
        hmtx@.len() == hm_bytes(g.last_gid + 1, nlhm as int),
        forall|k: int|
            0 <= k < nlhm ==> #[trigger] hmtx_adv(hmtx@, k) == exp_adv(g.gd@, nlhm as int, k),
        forall|k: int|
            0 <= k <= g.last_gid ==> #[trigger] hmtx_lsb(hmtx@, nlhm as int, k) == exp_lsb(
                g.gd@,
                k,
            ),
{
    let ghost s = g.gd@;
    let mut hmtx: Vec<u8> = Vec::new();
    let mut k: u32 = 0;
    while k <= g.last_gid as u32
        invariant
            s == g.gd@,
            g.wf(),
            1 <= nlhm <= g.last_gid + 1,
            last_advw == s[s.len() - 1].advw,
            k <= g.last_gid + 1,
            hmtx@.len() == hm_bytes(k as int, nlhm as int),
            forall|k2: int|
                0 <= k2 < k && k2 < nlhm ==> #[trigger] hmtx_adv(hmtx@, k2) == exp_adv(
                    s,
                    nlhm as int,
                    k2,
                ),
            forall|k2: int| 0 <= k2 < k ==> #[trigger] hmtx_lsb(hmtx@, nlhm as int, k2) == exp_lsb(
                s,
                k2,
            ),
        decreases g.last_gid + 1 - k,
    {
        let kk = k as u16;
        let adv: u16;
        let lsb: u16;
        match scan_gid(&g.gd, kk) {
            Some(idx) => {
                proof {
                    assert(spec_has_new(s, k as int));
                    let w = spec_pos_of_new(s, k as int);
                    if w != idx as int {
                        assert(s[w].gid != s[idx as int].gid);
                    }
                }
                adv = g.gd[idx].advw;
                lsb = to_u16(g.gd[idx].lsb);
            },
            None => {
                proof {
                    if spec_has_new(s, k as int) {
                        let w = spec_pos_of_new(s, k as int);
                        assert(s[w].gid != kk);
                    }
                }
                adv = if k + 1 == nlhm as u32 {
                    last_advw
                } else {
                    0
                };
                lsb = 0;
            },
        }
        let ghost pre = hmtx@;
        if kk < nlhm {
            push_u16(&mut hmtx, adv);
        }
        let ghost mid = hmtx@;
        push_u16(&mut hmtx, lsb);
        proof {
            assert(adv == exp_adv(s, nlhm as int, k as int));
            assert(lsb == exp_lsb(s, k as int));
            assert forall|k2: int| 0 <= k2 < k + 1 && k2 < nlhm implies #[trigger] hmtx_adv(
                hmtx@,
                k2,
            ) == exp_adv(s, nlhm as int, k2) by {
                if k2 < k {
                    assert(hmtx_adv(pre, k2) == exp_adv(s, nlhm as int, k2));
                    assert(hmtx@[4 * k2] == pre[4 * k2]);
                    assert(hmtx@[4 * k2 + 1] == pre[4 * k2 + 1]);
                } else {
                    assert(4 * k2 == pre.len());
                    assert(hmtx@[4 * k2] == mid[4 * k2]);
                    assert(hmtx@[4 * k2 + 1] == mid[4 * k2 + 1]);
                    assert(be16(mid[4 * k2], mid[4 * k2 + 1]) == adv);
                }
            }
            assert forall|k2: int| 0 <= k2 < k + 1 implies #[trigger] hmtx_lsb(
                hmtx@,
                nlhm as int,
                k2,
            ) == exp_lsb(s, k2) by {
                if k2 < k {
                    assert(hmtx_lsb(pre, nlhm as int, k2) == exp_lsb(s, k2));
                    assert(hmtx@[lsb_pos(nlhm as int, k2)] == pre[lsb_pos(nlhm as int, k2)]);
                    assert(hmtx@[lsb_pos(nlhm as int, k2) + 1] == pre[lsb_pos(nlhm as int, k2)
                        + 1]);
                } else {
                    assert(lsb_pos(nlhm as int, k2) == mid.len());
                    assert(be16(hmtx@[mid.len() as int], hmtx@[mid.len() as int + 1]) == lsb);
                }
            }
        }
        k = k + 1;
    }
    hmtx
}

/// Packs the glyph location table: one entry per glyph id plus the
/// trailing total-size entry; every entry is the padded cumulative offset
/// of the first slot at or past that id.
fn emit_loca(g: &tt_glyphs, offs: &Vec<u32>, total: u32, fmt: i16) -> (loca: Vec<u8>)
    requires
        g.wf(),
        forall|i: int, j: int|
            #![trigger g.gd@[i].gid, g.gd@[j].gid]
            0 <= i < j < g.gd@.len() ==> g.gd@[i].gid < g.gd@[j].gid,
        offs@.len() == g.gd@.len() + 1,
        forall|i: int| 0 <= i <= g.gd@.len() ==> (#[trigger] offs@[i]) as int == glyf_off(g.gd@, i),
        total as int == glyf_total(g.gd@),
        fmt == 0 || fmt == 1,
        fmt == 0 ==> total < 0x20000,
    ensures
        loca@.len() == (g.last_gid + 2) * loca_w(fmt),
        forall|k: int|
            0 <= k <= g.last_gid + 1 ==> (#[trigger] loca_entry(loca@, fmt, k)) as int == glyf_off(
                g.gd@,
                count_lt_gid(g.gd@, k),
            ),
{
    let ghost s = g.gd@;
    let mut loca: Vec<u8> = Vec::new();
    let mut k: u32 = 0;
    while k <= g.last_gid as u32 + 1
        invariant
            s == g.gd@,
            g.wf(),
            forall|i: int, j: int|
                #![trigger s[i].gid, s[j].gid]
                0 <= i < j < s.len() ==> s[i].gid < s[j].gid,
            offs@.len() == s.len() + 1,
            forall|i: int| 0 <= i <= s.len() ==> (#[trigger] offs@[i]) as int == glyf_off(s, i),
            total as int == glyf_total(s),
            fmt == 0 || fmt == 1,
            fmt == 0 ==> total < 0x20000,
            k <= g.last_gid + 2,
            loca@.len() == k * loca_w(fmt),
            forall|k2: int|
                0 <= k2 < k ==> (#[trigger] loca_entry(loca@, fmt, k2)) as int == glyf_off(
                    s,
                    count_lt_gid(s, k2),
                ),
        decreases g.last_gid + 2 - k,
    {
        let r = scan_gid_ge(&g.gd, k as u16);
        let off = offs[r];
        proof {
            lemma_count_lt_sorted(s, k as int, r as int);
            lemma_glyf_off_mono(s, 0, r as int);
            lemma_glyf_off_mono(s, r as int, s.len() as int);
            lemma_glyf_off_mod4(s, r as int);
        }
        let ghost pre = loca@;
        proof {
            if fmt == 0 {
                assert(loca@.len() == 2 * k);
                assert(loca@.len() % 2 == 0);
            } else {
                assert(loca@.len() == 4 * k);
                assert(loca@.len() % 4 == 0);
            }
        }
        push_loca_entry(&mut loca, fmt, off);
        proof {
            assert(pre.len() as int / loca_w(fmt) == k as int) by {
                if fmt == 0 {
                    assert(pre.len() == 2 * k);
                } else {
                    assert(pre.len() == 4 * k);
                }
            }
            assert forall|k2: int| 0 <= k2 < k + 1 implies (#[trigger] loca_entry(
                loca@,
                fmt,
                k2,
            )) as int == glyf_off(s, count_lt_gid(s, k2)) by {
                if k2 < k {
                    assert(loca_entry(pre, fmt, k2) as int == glyf_off(s, count_lt_gid(s, k2)));
                    if fmt == 0 {
                        assert(loca@[2 * k2] == pre[2 * k2]);
                        assert(loca@[2 * k2 + 1] == pre[2 * k2 + 1]);
                    } else {
                        assert(loca@[4 * k2] == pre[4 * k2]);
                        assert(loca@[4 * k2 + 1] == pre[4 * k2 + 1]);
                        assert(loca@[4 * k2 + 2] == pre[4 * k2 + 2]);
                        assert(loca@[4 * k2 + 3] == pre[4 * k2 + 3]);
                    }
                } else {
                    assert(loca_entry(loca@, fmt, k2) == off);
                }
            }
        }
        k = k + 1;
    }
    loca
}

/// Packs the glyph data table: each slot's (already rewritten) record in
/// ascending new-glyph-id order, padded to a 4-byte boundary with explicit
/// zero bytes.
#[verifier::rlimit(100)]
fn emit_glyf(g: &tt_glyphs, total: u32) -> (glyf: Vec<u8>)
    requires
        forall|i: int| 0 <= i < g.gd@.len() ==> (#[trigger] g.gd@[i].data@.len()) <= 0xFFFF_FF00,
        total as int == glyf_total(g.gd@),
    ensures
        glyf@.len() == glyf_total(g.gd@),
        forall|m: int|
            0 <= m < g.gd@.len() ==> #[trigger] glyf@.subrange(
                glyf_off(g.gd@, m),
                glyf_off(g.gd@, m) + g.gd@[m].data@.len(),
            ) == g.gd@[m].data@,
        forall|m: int, p: int|
            0 <= m < g.gd@.len() && g.gd@[m].data@.len() <= p < pad4(
                g.gd@[m].data@.len() as int,
            ) ==> #[trigger] glyf@[glyf_off(g.gd@, m) + p] == 0,
{
    let ghost s = g.gd@;
    let n = g.gd.len();
    let mut glyf: Vec<u8> = Vec::new();
    let mut m: usize = 0;
    while m < n
        invariant
            s == g.gd@,
            n == s.len(),
            m <= n,
            forall|i: int| 0 <= i < s.len() ==> (#[trigger] s[i].data@.len()) <= 0xFFFF_FF00,
            total as int == glyf_total(s),
            glyf@.len() == glyf_off(s, m as int),
            forall|m2: int|
                0 <= m2 < m ==> #[trigger] glyf@.subrange(
                    glyf_off(s, m2),
                    glyf_off(s, m2) + s[m2].data@.len(),
                ) == s[m2].data@,
            forall|m2: int, p: int|
                0 <= m2 < m && s[m2].data@.len() <= p < pad4(s[m2].data@.len() as int)
                    ==> #[trigger] glyf@[glyf_off(s, m2) + p] == 0,
        decreases n - m,
    {
        proof {
            lemma_glyf_off_mono(s, 0, m as int);
            lemma_glyf_off_mono(s, m as int + 1, s.len() as int);
        }
        let len32 = g.gd[m].data.len() as u32;
        let padding = padlen4(len32);
        let ghost pre = glyf@;
        push_bytes(&mut glyf, &g.gd[m].data);
        push_zeros(&mut glyf, padding);
        proof {
            assert(glyf@.len() == glyf_off(s, m as int + 1));
            assert forall|m2: int| 0 <= m2 < m + 1 implies #[trigger] glyf@.subrange(
                glyf_off(s, m2),
                glyf_off(s, m2) + s[m2].data@.len(),
            ) == s[m2].data@ by {
                lemma_glyf_off_mono(s, m2, m as int);
                lemma_glyf_off_mono(s, 0, m2);
                if m2 < m {
                    assert(glyf_off(s, m2) + pad4(s[m2].data@.len() as int) <= glyf_off(
                        s,
                        m as int,
                    )) by {
                        lemma_glyf_off_mono(s, m2 + 1, m as int);
                    }
                    assert(glyf@.subrange(glyf_off(s, m2), glyf_off(s, m2) + s[m2].data@.len())
                        =~= pre.subrange(glyf_off(s, m2), glyf_off(s, m2) + s[m2].data@.len()));
                } else {
                    assert(glyf@.subrange(glyf_off(s, m2), glyf_off(s, m2) + s[m2].data@.len())
                        =~= s[m2].data@);
                }
            }
            assert forall|m2: int, p: int|
                0 <= m2 < m + 1 && s[m2].data@.len() <= p < pad4(s[m2].data@.len() as int)
                    implies #[trigger] glyf@[glyf_off(s, m2) + p] == 0 by {
                lemma_glyf_off_mono(s, 0, m2);
                if m2 < m {
                    lemma_glyf_off_mono(s, m2 + 1, m as int);
                    assert(glyf@[glyf_off(s, m2) + p] == pre[glyf_off(s, m2) + p]);
                }
            }
        }
        m = m + 1;
    }
    glyf
}


/// Counts of ids depend on the ids alone.
proof fn lemma_count_lt_same(s: Seq<tt_glyph_desc>, s2: Seq<tt_glyph_desc>, k: int)
    requires
        s2.len() == s.len(),
        forall|m: int| 0 <= m < s.len() ==> (#[trigger] s2[m]).gid == s[m].gid,
    ensures
        count_lt_gid(s2, k) == count_lt_gid(s, k),
    decreases s.len(),
{
    if s.len() > 0 {
        lemma_count_lt_same(s.drop_last(), s2.drop_last(), k);
    }
}

/// The long-metrics count depends on the ids and advance widths alone.
proof fn lemma_nlhm_same(s: Seq<tt_glyph_desc>, s2: Seq<tt_glyph_desc>, i: int)
    requires
        s2.len() == s.len(),
        1 <= s.len(),
        i < s.len(),
        forall|m: int|
            0 <= m < s.len() ==> (#[trigger] s2[m]).gid == s[m].gid && s2[m].advw == s[m].advw,
    ensures
        nlhm_rec(s2, i) == nlhm_rec(s, i),
    decreases i + 1,
{
    if i >= 0 {
        lemma_nlhm_same(s, s2, i - 1);
    }
}

/// Bucket counts depend on the advance widths alone.
proof fn lemma_width_count_same(s: Seq<tt_glyph_desc>, s2: Seq<tt_glyph_desc>, em: u16, w: int)
    requires
        s2.len() == s.len(),
        forall|m: int| 0 <= m < s.len() ==> (#[trigger] s2[m]).advw == s[m].advw,
    ensures
        width_count(s2, em, w) == width_count(s, em, w),
    decreases s.len(),
{
    if s.len() > 0 {
        lemma_width_count_same(s.drop_last(), s2.drop_last(), em, w);
    }
}

/// The owed `hmtx` entries depend on ids, advance widths and side bearings
/// alone.
proof fn lemma_exp_same(s: Seq<tt_glyph_desc>, s2: Seq<tt_glyph_desc>, nlhm: int, k: int)
    requires
        s2.len() == s.len(),
        1 <= s.len(),
        forall|m: int|
            0 <= m < s.len() ==> (#[trigger] s2[m]).gid == s[m].gid && s2[m].advw == s[m].advw
                && s2[m].lsb == s[m].lsb,
        forall|a: int, b: int|
            #![trigger s[a].gid, s[b].gid]
            0 <= a < b < s.len() ==> s[a].gid != s[b].gid,
    ensures
        spec_has_new(s2, k) == spec_has_new(s, k),
        exp_adv(s2, nlhm, k) == exp_adv(s, nlhm, k),
        exp_lsb(s2, k) == exp_lsb(s, k),
{
    if spec_has_new(s, k) {
        let w = spec_pos_of_new(s, k);
        assert(s2[w].gid as int == k);
        assert(spec_has_new(s2, k));
        let w2 = spec_pos_of_new(s2, k);
        if w2 != w {
            assert(s[w2].gid != s[w].gid);
        }
    }
    if spec_has_new(s2, k) {
        let w2 = spec_pos_of_new(s2, k);
        assert(s[w2].gid as int == k);
        assert(spec_has_new(s, k));
    }
}

/// The emitted offsets measured on the slot buffers coincide with the
/// offsets measured on the source record lengths, once every slot's buffer
/// length equals its record length.
proof fn lemma_off_eq(font: SourceFont, sd: Seq<tt_glyph_desc>, sf: Seq<tt_glyph_desc>, i: int)
    requires
        sf.len() == sd.len(),
        forall|m: int| 0 <= m < sd.len() ==> (#[trigger] sf[m]).ogid == sd[m].ogid,
        forall|m: int|
            0 <= m < sd.len() ==> font.rec_len((#[trigger] sd[m]).ogid as int) == sd[m].data@.len(),
        0 <= i <= sd.len(),
    ensures
        out_off(font, sf, i) == glyf_off(sd, i),
    decreases i,
{
    if i > 0 {
        lemma_off_eq(font, sd, sf, i - 1);
    }
}


/// Releases every slot's outline buffer, keeping the glyph-id mappings,
/// metrics and bounding boxes; the registry is inert afterwards.
fn release_buffers(g: &mut tt_glyphs)
    requires
        old(g).wf(),
    ensures
        final(g).wf(),
        final(g).gd@.len() == old(g).gd@.len(),
        forall|m: int|
            0 <= m < old(g).gd@.len() ==> {
                let d2 = #[trigger] final(g).gd@[m];
                let d = old(g).gd@[m];
                &&& d2.ogid == d.ogid
                &&& d2.gid == d.gid
                &&& d2.advw == d.advw
                &&& d2.advh == d.advh
                &&& d2.lsb == d.lsb
                &&& d2.tsb == d.tsb
                &&& d2.llx == d.llx
                &&& d2.lly == d.lly
                &&& d2.urx == d.urx
                &&& d2.ury == d.ury
                &&& d2.data@.len() == 0
            },
        final(g).used_slot == old(g).used_slot,
        final(g).last_gid == old(g).last_gid,
        final(g).emsize == old(g).emsize,
        final(g).dw == old(g).dw,
        final(g).default_advh == old(g).default_advh,
        final(g).default_tsb == old(g).default_tsb,
        final(g).closed == old(g).closed,
{
    let n = g.gd.len();
    let mut m: usize = 0;
    while m < n
        invariant
            g.wf(),
            n == g.gd@.len(),
            m <= n,
            g.gd@.len() == old(g).gd@.len(),
            forall|j: int|
                0 <= j < m ==> {
                    let d2 = #[trigger] g.gd@[j];
                    let d = old(g).gd@[j];
                    &&& d2.ogid == d.ogid
                    &&& d2.gid == d.gid
                    &&& d2.advw == d.advw
                    &&& d2.advh == d.advh
                    &&& d2.lsb == d.lsb
                    &&& d2.tsb == d.tsb
                    &&& d2.llx == d.llx
                    &&& d2.lly == d.lly
                    &&& d2.urx == d.urx
                    &&& d2.ury == d.ury
                    &&& d2.data@.len() == 0
                },
            forall|j: int| m <= j < n ==> #[trigger] g.gd@[j] == old(g).gd@[j],
            g.used_slot == old(g).used_slot,
            g.last_gid == old(g).last_gid,
            g.emsize == old(g).emsize,
            g.dw == old(g).dw,
            g.default_advh == old(g).default_advh,
            g.default_tsb == old(g).default_tsb,
            g.closed == old(g).closed,
        decreases n - m,
    {
        let cleared = tt_glyph_desc {
            gid: g.gd[m].gid,
            ogid: g.gd[m].ogid,
            advw: g.gd[m].advw,
            advh: g.gd[m].advh,
            lsb: g.gd[m].lsb,
            tsb: g.gd[m].tsb,
            llx: g.gd[m].llx,
            lly: g.gd[m].lly,
            urx: g.gd[m].urx,
            ury: g.gd[m].ury,
            data: Vec::new(),
        };
        g.replace_slot(m, cleared);
        m = m + 1;
    }
}

/// What a completed build leaves of the registry: closed, ordered by new
/// glyph id, every buffer released, every requested mapping kept, every
/// slot's metrics as extraction read them, every appended slot a
/// discovered component, and the implied default width still the most
/// frequent one.
pub open spec fn build_post_registry(font: SourceFont, g0: tt_glyphs, g1: tt_glyphs) -> bool {
    let s = g1.gd@;
    &&& g1.wf()
    &&& g1.closed
    &&& forall|i: int, j: int|
        #![trigger s[i].gid, s[j].gid]
        0 <= i < j < s.len() ==> s[i].gid < s[j].gid
    &&& forall|j: int| 0 <= j < s.len() ==> (#[trigger] s[j]).data@.len() == 0
    &&& forall|m: int|
        0 <= m < g0.gd@.len() ==> spec_has_old(s, (#[trigger] g0.gd@[m]).ogid as int)
            && spec_new_of(s, g0.gd@[m].ogid as int) == g0.gd@[m].gid
    &&& g1.emsize == font.units_per_em
    &&& g1.default_advh == spec_default_advh(font, g0)
    &&& g1.default_tsb == spec_default_tsb(font, g0)
    &&& forall|j: int|
        0 <= j < s.len() ==> slot_ok(font, s, j, false, g1.default_advh, g1.default_tsb)
    &&& forall|j: int|
        0 <= j < s.len() ==> spec_has_old(g0.gd@, (#[trigger] s[j]).ogid as int)
            || discovered_from(font, s, j)
    &&& g1.dw <= g1.emsize
    &&& forall|w: int|
        0 <= w <= g1.emsize as int ==> #[trigger] width_count(s, g1.emsize, w) <= width_count(
            s,
            g1.emsize,
            g1.dw as int,
        )
    &&& forall|w: int|
        0 <= w < g1.dw ==> #[trigger] width_count(s, g1.emsize, w) < width_count(
            s,
            g1.emsize,
            g1.dw as int,
        )
}

/// The emitted record slice of slot `m`: the source record with composite
/// glyph-id fields rewritten to the new id space, padded to a 4-byte
/// boundary with zero bytes.
pub open spec fn glyf_slice_ok(
    font: SourceFont,
    s: Seq<tt_glyph_desc>,
    glyf: Seq<u8>,
    m: int,
) -> bool {
    let og = s[m].ogid as int;
    let rec = font.record(og);
    let ln = font.rec_len(og);
    let base = out_off(font, s, m);
    &&& (ln > 0 && rec_contours(rec) >= 0 ==> glyf.subrange(base, base + ln) == rec)
    &&& (ln > 0 && rec_contours(rec) < 0 ==> rewritten_ok(rec, glyf.subrange(base, base + ln), s))
    &&& forall|p: int| ln <= p < pad4(ln) ==> #[trigger] glyf[base + p] == 0
}

/// What a completed build states of the emitted tables and header
/// patches.
pub open spec fn build_post_tables(font: SourceFont, g1: tt_glyphs, t: BuiltTables) -> bool {
    let s = g1.gd@;
    let nlhm = t.num_hmetrics as int;
    let fmt = t.index_to_loc_format;
    &&& t.check_sum_adjustment == 0
    &&& t.num_glyphs == g1.last_gid + 1
    &&& nlhm == nlhm_spec(s)
    &&& 1 <= nlhm <= g1.last_gid + 1
    &&& (fmt == 0 || fmt == 1)
    &&& (fmt == 0 <==> t.glyf@.len() < 0x20000)
    &&& t.hmtx@.len() == hm_bytes(g1.last_gid + 1, nlhm)
    &&& t.loca@.len() == (g1.last_gid + 2) * loca_w(fmt)
    &&& t.glyf@.len() == out_off(font, s, s.len() as int)
    &&& forall|k: int|
        0 <= k <= g1.last_gid + 1 ==> (#[trigger] loca_entry(t.loca@, fmt, k)) as int == out_off(
            font,
            s,
            count_lt_gid(s, k),
        )
    &&& loca_entry(t.loca@, fmt, g1.last_gid as int + 1) as int == t.glyf@.len()
    &&& forall|m: int| 0 <= m < s.len() ==> #[trigger] glyf_slice_ok(font, s, t.glyf@, m)
    &&& forall|k: int|
        0 <= k < nlhm ==> #[trigger] hmtx_adv(t.hmtx@, k) == exp_adv(s, nlhm, k)
    &&& forall|k: int|
        0 <= k <= g1.last_gid ==> #[trigger] hmtx_lsb(t.hmtx@, nlhm, k) == exp_lsb(s, k)
}

/// Everything a completed full build establishes.
pub open spec fn build_post(font: SourceFont, g0: tt_glyphs, g1: tt_glyphs, t: BuiltTables) -> bool {
    build_post_registry(font, g0, g1) && build_post_tables(font, g1, t)
}


/// Pointwise agreement of the slots' ids, metrics and bounding boxes, with
/// every buffer on the right-hand side released.
pub open spec fn released_from(s: Seq<tt_glyph_desc>, s2: Seq<tt_glyph_desc>) -> bool {
    s2.len() == s.len() && forall|m: int|
        0 <= m < s.len() ==> {
            let d2 = #[trigger] s2[m];
            let d = s[m];
            &&& d2.ogid == d.ogid
            &&& d2.gid == d.gid
            &&& d2.advw == d.advw
            &&& d2.advh == d.advh
            &&& d2.lsb == d.lsb
            &&& d2.tsb == d.tsb
            &&& d2.llx == d.llx
            &&& d2.lly == d.lly
            &&& d2.urx == d.urx
            &&& d2.ury == d.ury
            &&& d2.data@.len() == 0
        }
}

/// Chains the extraction, sort and release steps into the registry half of
/// the build's contract.
#[verifier::rlimit(100)]
proof fn lemma_build_post_registry(
    font: SourceFont,
    g0: tt_glyphs,
    ge: tt_glyphs,
    gs: tt_glyphs,
    gf: tt_glyphs,
)
    requires
        font.wf(),
        g0.wf(),
        extract_post(font, g0, ge, true),
        gs.wf(),
        gs.gd@.len() == ge.gd@.len(),
        forall|i: int, j: int|
            #![trigger gs.gd@[i].gid, gs.gd@[j].gid]
            0 <= i < j < gs.gd@.len() ==> gs.gd@[i].gid < gs.gd@[j].gid,
        crate::registry::slots_contained(ge.gd@, gs.gd@),
        crate::registry::slots_contained(gs.gd@, ge.gd@),
        forall|em: u16, w: int|
            width_count(gs.gd@, em, w) == #[trigger] width_count(ge.gd@, em, w),
        gs.emsize == ge.emsize,
        gs.dw == ge.dw,
        gs.default_advh == ge.default_advh,
        gs.default_tsb == ge.default_tsb,
        gf.wf(),
        released_from(gs.gd@, gf.gd@),
        gf.closed,
        gf.emsize == gs.emsize,
        gf.dw == gs.dw,
        gf.default_advh == gs.default_advh,
        gf.default_tsb == gs.default_tsb,
    ensures
        build_post_registry(font, g0, gf),
{
    let se = ge.gd@;
    let ss = gs.gd@;
    let sf = gf.gd@;
    assert forall|i: int, j: int|
        #![trigger sf[i].gid, sf[j].gid]
        0 <= i < j < sf.len() implies sf[i].gid < sf[j].gid by {
        assert(ss[i].gid < ss[j].gid);
    }
    assert forall|m: int| 0 <= m < g0.gd@.len() implies spec_has_old(
        sf,
        (#[trigger] g0.gd@[m]).ogid as int,
    ) && spec_new_of(sf, g0.gd@[m].ogid as int) == g0.gd@[m].gid by {
        let c = g0.gd@[m].ogid as int;
        assert(se[m].ogid as int == c);
        assert(spec_has_old(se, c));
        let w = spec_pos_of_old(se, c);
        if w != m {
            assert(se[w].ogid != se[m].ogid);
        }
        assert(spec_new_of(se, c) == g0.gd@[m].gid);
        lemma_lookup_perm(se, ss, c);
        lemma_lookup_extend(ss, sf, c);
    }
    assert forall|j: int| 0 <= j < sf.len() implies slot_ok(
        font,
        sf,
        j,
        false,
        gf.default_advh,
        gf.default_tsb,
    ) by {
        assert(in_seq(ss[j], se));
        let i = choose|i: int| 0 <= i < se.len() && se[i] == ss[j];
        assert(slot_ok(font, se, i, true, ge.default_advh, ge.default_tsb));
        lemma_slot_ok_perm(font, se, ss, i, j, true, ge.default_advh, ge.default_tsb);
        lemma_slot_ok_cleared(font, ss, sf, j, gs.default_advh, gs.default_tsb);
    }
    assert forall|j: int| 0 <= j < sf.len() implies spec_has_old(
        g0.gd@,
        (#[trigger] sf[j]).ogid as int,
    ) || discovered_from(font, sf, j) by {
        assert(in_seq(ss[j], se));
        let i = choose|i: int| 0 <= i < se.len() && se[i] == ss[j];
        if i < g0.gd@.len() {
            assert(se[i].ogid == g0.gd@[i].ogid);
            assert(g0.gd@[i].ogid as int == sf[j].ogid as int);
            assert(spec_has_old(g0.gd@, sf[j].ogid as int));
        } else {
            assert(discovered_from(font, se, i));
            let j2 = choose|j2: int|
                0 <= j2 < se.len() && is_component_ref(
                    font.record((#[trigger] se[j2]).ogid as int),
                    se[i].ogid as int,
                );
            assert(in_seq(se[j2], ss));
            let j3 = choose|j3: int| 0 <= j3 < ss.len() && ss[j3] == se[j2];
            assert(sf[j3].ogid == se[j2].ogid);
            assert(is_component_ref(font.record(sf[j3].ogid as int), sf[j].ogid as int));
            assert(discovered_from(font, sf, j));
        }
    }
    assert forall|w: int| 0 <= w <= gf.emsize as int implies #[trigger] width_count(
        sf,
        gf.emsize,
        w,
    ) <= width_count(sf, gf.emsize, gf.dw as int) by {
        lemma_width_count_same(ss, sf, gf.emsize, w);
        lemma_width_count_same(ss, sf, gf.emsize, gf.dw as int);
        assert(width_count(se, ge.emsize, w) <= width_count(se, ge.emsize, ge.dw as int));
    }
    assert forall|w: int| 0 <= w < gf.dw implies #[trigger] width_count(sf, gf.emsize, w)
        < width_count(sf, gf.emsize, gf.dw as int) by {
        lemma_width_count_same(ss, sf, gf.emsize, w);
        lemma_width_count_same(ss, sf, gf.emsize, gf.dw as int);
        assert(width_count(se, ge.emsize, w) < width_count(se, ge.emsize, ge.dw as int));
    }
}

/// Chains the emitted tables' facts from the sorted, still-loaded registry
/// onto the released one.
#[verifier::rlimit(100)]
proof fn lemma_build_post_tables(
    font: SourceFont,
    gs: tt_glyphs,
    gf: tt_glyphs,
    t: BuiltTables,
    total: u32,
)
    requires
        font.wf(),
        gs.wf(),
        forall|i: int, j: int|
            #![trigger gs.gd@[i].gid, gs.gd@[j].gid]
            0 <= i < j < gs.gd@.len() ==> gs.gd@[i].gid < gs.gd@[j].gid,
        forall|j: int|
            0 <= j < gs.gd@.len() ==> slot_ok(
                font,
                gs.gd@,
                j,
                true,
                gs.default_advh,
                gs.default_tsb,
            ),
        forall|m: int|
            0 <= m < gs.gd@.len() ==> font.rec_len((#[trigger] gs.gd@[m]).ogid as int)
                == gs.gd@[m].data@.len(),
        gf.wf(),
        released_from(gs.gd@, gf.gd@),
        gf.last_gid == gs.last_gid,
        t.check_sum_adjustment == 0,
        t.num_glyphs == gs.last_gid + 1,
        t.num_hmetrics as int == nlhm_spec(gs.gd@),
        1 <= t.num_hmetrics <= gs.last_gid + 1,
        t.index_to_loc_format == 0 || t.index_to_loc_format == 1,
        t.index_to_loc_format == 0 <==> total < 0x20000,
        total as int == glyf_total(gs.gd@),
        t.glyf@.len() == glyf_total(gs.gd@),
        t.hmtx@.len() == hm_bytes(gs.last_gid + 1, t.num_hmetrics as int),
        t.loca@.len() == (gs.last_gid + 2) * loca_w(t.index_to_loc_format),
        forall|k: int|
            0 <= k <= gs.last_gid + 1 ==> (#[trigger] loca_entry(
                t.loca@,
                t.index_to_loc_format,
                k,
            )) as int == glyf_off(gs.gd@, count_lt_gid(gs.gd@, k)),
        forall|m: int|
            0 <= m < gs.gd@.len() ==> #[trigger] t.glyf@.subrange(
                glyf_off(gs.gd@, m),
                glyf_off(gs.gd@, m) + gs.gd@[m].data@.len(),
            ) == gs.gd@[m].data@,
        forall|m: int, p: int|
            0 <= m < gs.gd@.len() && gs.gd@[m].data@.len() <= p < pad4(
                gs.gd@[m].data@.len() as int,
            ) ==> #[trigger] t.glyf@[glyf_off(gs.gd@, m) + p] == 0,
        forall|k: int|
            0 <= k < t.num_hmetrics ==> #[trigger] hmtx_adv(t.hmtx@, k) == exp_adv(
                gs.gd@,
                t.num_hmetrics as int,
                k,
            ),
        forall|k: int|
            0 <= k <= gs.last_gid ==> #[trigger] hmtx_lsb(t.hmtx@, t.num_hmetrics as int, k)
                == exp_lsb(gs.gd@, k),
    ensures
        build_post_tables(font, gf, t),
{
    let ss = gs.gd@;
    let sf = gf.gd@;
    let nlhm = t.num_hmetrics as int;
    let fmt = t.index_to_loc_format;
    let n = ss.len() as int;
    assert(nlhm_spec(sf) == nlhm_spec(ss)) by {
        lemma_nlhm_same(ss, sf, n - 1);
    }
    assert(out_off(font, sf, n) == glyf_off(ss, n)) by {
        lemma_off_eq(font, ss, sf, n);
    }
    assert forall|k: int| 0 <= k <= gf.last_gid + 1 implies (#[trigger] loca_entry(
        t.loca@,
        fmt,
        k,
    )) as int == out_off(font, sf, count_lt_gid(sf, k)) by {
        lemma_count_lt_same(ss, sf, k);
        lemma_count_lt_bounds(ss, k);
        lemma_off_eq(font, ss, sf, count_lt_gid(ss, k));
    }
    assert(loca_entry(t.loca@, fmt, gf.last_gid as int + 1) as int == t.glyf@.len()) by {
        assert forall|i: int| 0 <= i < ss.len() implies (#[trigger] ss[i].gid)
            < gs.last_gid as int + 1 by {}
        lemma_count_lt_all(ss, gs.last_gid as int + 1);
    }
    assert forall|m: int| 0 <= m < sf.len() implies #[trigger] glyf_slice_ok(
        font,
        sf,
        t.glyf@,
        m,
    ) by {
        let og = sf[m].ogid as int;
        let rec = font.record(og);
        let ln = font.rec_len(og);
        assert(og == ss[m].ogid as int);
        assert(ln == ss[m].data@.len());
        lemma_off_eq(font, ss, sf, m);
        assert(t.glyf@.subrange(glyf_off(ss, m), glyf_off(ss, m) + ss[m].data@.len())
            == ss[m].data@);
        assert(slot_ok(font, ss, m, true, gs.default_advh, gs.default_tsb));
        if ln > 0 && rec_contours(rec) < 0 {
            lemma_comp_reg_rewrite_transport(rec, font.num_glyphs, ss[m].data@, ss, sf, true);
        }
    }
    assert forall|k: int| 0 <= k < nlhm implies #[trigger] hmtx_adv(t.hmtx@, k) == exp_adv(
        sf,
        nlhm,
        k,
    ) by {
        assert forall|a: int, b: int|
            #![trigger ss[a].gid, ss[b].gid]
            0 <= a < b < ss.len() implies ss[a].gid != ss[b].gid by {}
        lemma_exp_same(ss, sf, nlhm, k);
    }
    assert forall|k: int| 0 <= k <= gf.last_gid implies #[trigger] hmtx_lsb(t.hmtx@, nlhm, k)
        == exp_lsb(sf, k) by {
        assert forall|a: int, b: int|
            #![trigger ss[a].gid, ss[b].gid]
            0 <= a < b < ss.len() implies ss[a].gid != ss[b].gid by {}
        lemma_exp_same(ss, sf, nlhm, k);
    }
}


/// The full build entry point: runs the shared extraction with record
/// buffers kept, sorts the registry by new glyph id, chooses the
/// long-metrics count and the `loca` format, packs `hmtx`, `loca` and
/// `glyf`, releases every slot buffer, closes the session, and returns the
/// finished tables with the header patches.
#[verifier::rlimit(100)]
pub fn tt_build_tables(font: &SourceFont, g: &mut tt_glyphs) -> (r: Result<
    BuiltTables,
    SubsetError,
>)
    requires
        font.wf(),
        old(g).wf(),
        !old(g).closed,
    ensures
        final(g).wf(),
        r matches Err(e) ==> {
            &&& (e == SubsetError::FormatError || e == SubsetError::RangeError
                || e == SubsetError::ResourceError)
            &&& !final(g).closed
            &&& (e == SubsetError::FormatError ==> font.metric_data_format != 0
                || !font.loca_ok() || (exists|m: int|
                0 <= m < final(g).gd@.len() && glyph_malformed(
                    *font,
                    (#[trigger] final(g).gd@[m]).ogid as int,
                )) || out_off(*font, final(g).gd@, final(g).gd@.len() as int) > u32::MAX)
            &&& (e == SubsetError::RangeError ==> (exists|m: int|
                0 <= m < final(g).gd@.len() && glyph_bad_ref(
                    *font,
                    (#[trigger] final(g).gd@[m]).ogid as int,
                )) || final(g).gd@.len() + 1 >= GID_CEILING)
            &&& (e == SubsetError::ResourceError ==> forall|k: int|
                0 <= k < GID_CEILING ==> #[trigger] final(g).used_slot@[k])
        },
        r is Ok ==> final(g).closed,
        r is Ok ==> font.metric_data_format == 0 && font.loca_ok(),
        source_clean(*font, *old(g)) ==> r is Ok || r == Err::<BuiltTables, SubsetError>(
            SubsetError::FormatError,
        ),
        source_clean(*font, *old(g)) ==> (r is Ok <==> out_off(
            *font,
            final(g).gd@,
            final(g).gd@.len() as int,
        ) <= u32::MAX),
        r matches Ok(t) ==> build_post(*font, *old(g), *final(g), t),
{
    let ghost g0 = *old(g);
    match extract_glyphs(font, g, true) {
        Ok(()) => {},
        Err(e) => {
            return Err(e);
        },
    }
    let ghost ge = *g;
    g.sort_by_new_gid();
    let ghost gs = *g;
    proof {
        assert forall|j: int| 0 <= j < gs.gd@.len() implies slot_ok(
            *font,
            gs.gd@,
            j,
            true,
            gs.default_advh,
            gs.default_tsb,
        ) && (#[trigger] gs.gd@[j]).data@.len() <= 0xFFFF_FF00 && font.rec_len(
            gs.gd@[j].ogid as int,
        ) == gs.gd@[j].data@.len() by {
            assert(in_seq(gs.gd@[j], ge.gd@));
            let i = choose|i: int| 0 <= i < ge.gd@.len() && ge.gd@[i] == gs.gd@[j];
            assert(slot_ok(*font, ge.gd@, i, true, ge.default_advh, ge.default_tsb));
            lemma_slot_ok_perm(
                *font,
                ge.gd@,
                gs.gd@,
                i,
                j,
                true,
                ge.default_advh,
                ge.default_tsb,
            );
            let og = gs.gd@[j].ogid as int;
            let ln = font.rec_len(og);
            if ln != 0 {
                if rec_contours(font.record(og)) < 0 {
                    assert(rewritten_ok(
                        font.record(og),
                        gs.gd@[j].data@,
                        gs.gd@,
                    ));
                }
                assert(gs.gd@[j].data@.len() == ln);
            }
        }
    }
    let n = g.gd.len();
    let last_advw = g.gd[n - 1].advw;
    let nlhm: u16;
    let total: u32;
    match scan_widths(g) {
        Ok(p) => {
            nlhm = p.0;
            total = p.1;
        },
        Err(e) => {
            proof {
                // The subset's padded size, measured on the source record
                // lengths, is the size the scan just saw overflow.
                lemma_off_eq(*font, g.gd@, g.gd@, g.gd@.len() as int);
            }
            return Err(e);
        },
    }
    let fmt: i16 = if total < 0x20000 {
        0
    } else {
        1
    };
    let offs = compute_offsets(g, total);
    let hmtx = emit_hmtx(g, nlhm, last_advw);
    let loca = emit_loca(g, &offs, total, fmt);
    let glyf = emit_glyf(g, total);
    release_buffers(g);
    g.closed = true;
    let last_gid = g.last_gid;
    let t = BuiltTables {
        hmtx,
        loca,
        glyf,
        index_to_loc_format: fmt,
        check_sum_adjustment: 0,
        num_glyphs: last_gid + 1,
        num_hmetrics: nlhm,
    };
    proof {
        lemma_build_post_registry(*font, g0, ge, gs, *g);
        lemma_build_post_tables(*font, gs, *g, t, total);
        assert(out_off(*font, g.gd@, g.gd@.len() as int) == t.glyf@.len());
        assert(t.glyf@.len() == total as int);
    }
    Ok(t)
}


/// `out_off` grows with the index.
proof fn lemma_out_off_mono(font: SourceFont, s: Seq<tt_glyph_desc>, i: int, j: int)
    requires
        0 <= i <= j <= s.len(),
        forall|m: int| 0 <= m < s.len() ==> font.rec_len((#[trigger] s[m]).ogid as int) >= 0,
    ensures
        out_off(font, s, i) <= out_off(font, s, j),
    decreases j - i,
{
    if i < j {
        lemma_out_off_mono(font, s, i, j - 1);
        assert(pad4(font.rec_len(s[j - 1].ogid as int)) >= 0);
    }
}

/// Every offset measured on the source record lengths is 4-byte aligned.
proof fn lemma_out_off_mod4(font: SourceFont, s: Seq<tt_glyph_desc>, i: int)
    ensures
        out_off(font, s, i) % 4 == 0,
    decreases i,
{
    if i > 0 {
        lemma_out_off_mod4(font, s, i - 1);
    }
}

/// After a full build, each kept glyph is retrievable by its new glyph id:
/// the `loca` entry at that id addresses the slot's byte range inside
/// `glyf`, and that range holds the source record — identical but for the
/// rewritten composite glyph-id fields.
#[verifier::rlimit(100)]
pub proof fn lemma_subset_retrieval(
    font: SourceFont,
    g0: tt_glyphs,
    g1: tt_glyphs,
    t: BuiltTables,
    m: int,
)
    requires
        build_post(font, g0, g1, t),
        0 <= m < g1.gd@.len(),
    ensures
        ({
            let s = g1.gd@;
            let og = s[m].ogid as int;
            let base = loca_entry(t.loca@, t.index_to_loc_format, s[m].gid as int) as int;
            let ln = font.rec_len(og);
            &&& base == out_off(font, s, m)
            &&& 0 <= base && base + ln <= t.glyf@.len()
            &&& (ln > 0 && rec_contours(font.record(og)) >= 0 ==> t.glyf@.subrange(
                base,
                base + ln,
            ) == font.record(og))
            &&& (ln > 0 && rec_contours(font.record(og)) < 0 ==> rewritten_ok(
                font.record(og),
                t.glyf@.subrange(base, base + ln),
                s,
            ))
            &&& hmtx_lsb(t.hmtx@, t.num_hmetrics as int, s[m].gid as int) == uval16(s[m].lsb)
            &&& (s[m].gid < t.num_hmetrics ==> hmtx_adv(t.hmtx@, s[m].gid as int) == s[m].advw)
        }),
{
    let s = g1.gd@;
    let gid = s[m].gid as int;
    assert(count_lt_gid(s, gid) == m) by {
        lemma_count_lt_sorted(s, gid, m);
    }
    assert(spec_has_new(s, gid));
    let w = spec_pos_of_new(s, gid);
    if w != m {
        assert(s[w].gid != s[m].gid);
    }
    assert(exp_lsb(s, gid) == uval16(s[m].lsb));
    assert(exp_adv(s, t.num_hmetrics as int, gid) == s[m].advw);
    assert(s[m].gid <= g1.last_gid);
    assert(loca_entry(t.loca@, t.index_to_loc_format, gid) as int == out_off(
        font,
        s,
        count_lt_gid(s, gid),
    ));
    assert(glyf_slice_ok(font, s, t.glyf@, m));
    assert forall|m2: int| 0 <= m2 < s.len() implies font.rec_len(
        (#[trigger] s[m2]).ogid as int,
    ) >= 0 by {
        assert(slot_ok(font, s, m2, false, g1.default_advh, g1.default_tsb));
    }
    lemma_out_off_mono(font, s, 0, m);
    lemma_out_off_mono(font, s, m + 1, s.len() as int);
    assert(out_off(font, s, m + 1) == out_off(font, s, m) + pad4(font.rec_len(s[m].ogid as int)));
}

/// After a full build, no composite glyph in the output references a
/// glyph id at or beyond the patched glyph count: every rewritten
/// component field holds the new id of a registered slot.
#[verifier::rlimit(100)]
pub proof fn lemma_components_in_range(
    font: SourceFont,
    g0: tt_glyphs,
    g1: tt_glyphs,
    t: BuiltTables,
    m: int,
)
    requires
        build_post(font, g0, g1, t),
        0 <= m < g1.gd@.len(),
        font.rec_len(g1.gd@[m].ogid as int) > 0,
        rec_contours(font.record(g1.gd@[m].ogid as int)) < 0,
    ensures
        ({
            let s = g1.gd@;
            let og = s[m].ogid as int;
            let rec = font.record(og);
            let base = out_off(font, s, m);
            let sl = t.glyf@.subrange(base, base + font.rec_len(og));
            comp_positions(rec, 10) matches Some(ps) && forall|i: int|
                0 <= i < ps.len() ==> be16(sl[#[trigger] ps[i]], sl[ps[i] + 1])
                    < t.num_glyphs
        }),
{
    let s = g1.gd@;
    let og = s[m].ogid as int;
    let rec = font.record(og);
    let base = out_off(font, s, m);
    let sl = t.glyf@.subrange(base, base + font.rec_len(og));
    assert(glyf_slice_ok(font, s, t.glyf@, m));
    assert(slot_ok(font, s, m, false, g1.default_advh, g1.default_tsb));
    let ps = comp_positions(rec, 10)->Some_0;
    assert forall|i: int| 0 <= i < ps.len() implies be16(sl[#[trigger] ps[i]], sl[ps[i] + 1])
        < t.num_glyphs by {
        let c = ref_at(rec, ps[i]) as int;
        assert(spec_has_old(s, c));
        let w = spec_pos_of_old(s, c);
        assert(be16(sl[ps[i]], sl[ps[i] + 1]) == spec_new_of(s, c));
        assert(s[w].gid <= g1.last_gid);
    }
}

/// After a full build, `loca` is monotonically non-decreasing, its final
/// entry equals the total `glyf` byte length, and every glyph's padded
/// slice length is a multiple of 4.
#[verifier::rlimit(100)]
pub proof fn lemma_loca_shape(font: SourceFont, g0: tt_glyphs, g1: tt_glyphs, t: BuiltTables)
    requires
        build_post(font, g0, g1, t),
    ensures
        forall|k1: int, k2: int|
            #![trigger loca_entry(t.loca@, t.index_to_loc_format, k1), loca_entry(t.loca@, t.index_to_loc_format, k2)]
            0 <= k1 <= k2 <= g1.last_gid + 1 ==> loca_entry(t.loca@, t.index_to_loc_format, k1)
                as int <= loca_entry(t.loca@, t.index_to_loc_format, k2) as int,
        loca_entry(t.loca@, t.index_to_loc_format, g1.last_gid as int + 1) as int
            == t.glyf@.len(),
        forall|k: int|
            0 <= k <= g1.last_gid + 1 ==> (#[trigger] loca_entry(
                t.loca@,
                t.index_to_loc_format,
                k,
            )) as int % 4 == 0,
{
    let s = g1.gd@;
    let fmt = t.index_to_loc_format;
    assert forall|m2: int| 0 <= m2 < s.len() implies font.rec_len(
        (#[trigger] s[m2]).ogid as int,
    ) >= 0 by {
        assert(slot_ok(font, s, m2, false, g1.default_advh, g1.default_tsb));
    }
    assert forall|k1: int, k2: int|
        #![trigger loca_entry(t.loca@, fmt, k1), loca_entry(t.loca@, fmt, k2)]
        0 <= k1 <= k2 <= g1.last_gid + 1 implies loca_entry(t.loca@, fmt, k1) as int
        <= loca_entry(t.loca@, fmt, k2) as int by {
        lemma_count_lt_mono(s, k1, k2);
        lemma_count_lt_bounds(s, k1);
        lemma_count_lt_bounds(s, k2);
        lemma_out_off_mono(font, s, count_lt_gid(s, k1), count_lt_gid(s, k2));
    }
    assert forall|k: int| 0 <= k <= g1.last_gid + 1 implies (#[trigger] loca_entry(
        t.loca@,
        fmt,
        k,
    )) as int % 4 == 0 by {
        lemma_out_off_mod4(font, s, count_lt_gid(s, k));
        assert(loca_entry(t.loca@, fmt, k) as int == out_off(font, s, count_lt_gid(s, k)));
    }
}

/// After a full build, the long-metrics count lies between 1 and the
/// patched glyph count, and the `hmtx` byte length is four bytes per long
/// entry plus two per bare side bearing.
pub proof fn lemma_hmtx_shape(font: SourceFont, g0: tt_glyphs, g1: tt_glyphs, t: BuiltTables)
    requires
        build_post(font, g0, g1, t),
    ensures
        1 <= t.num_hmetrics <= t.num_glyphs,
        t.hmtx@.len() == t.num_hmetrics * 4 + (t.num_glyphs - t.num_hmetrics) * 2,
{
    assert(t.hmtx@.len() == hm_bytes(g1.last_gid + 1, t.num_hmetrics as int));
}

} // verus!
