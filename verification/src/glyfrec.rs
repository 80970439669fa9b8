//! The shape of a raw glyph record.
//!
//! A non-empty record is at least 10 bytes: a signed 16-bit contour count
//! followed by four signed 16-bit bounding-box fields. A negative contour
//! count marks a composite glyph, whose body is a chain of component
//! records: a 16-bit flag word, the 16-bit glyph id of the component, then
//! argument and scale fields whose widths the flag bits select. The chain
//! continues while the "more components" flag bit is set.
use vstd::prelude::*;

use crate::bytes::{be16, sval16};
use crate::registry::{spec_has_old, spec_new_of, tt_glyph_desc};

verus! {

/// Flag bit: the component's arguments are 16-bit words.
pub const ARGS_ARE_WORDS: u16 = 0x0001;

/// Flag bit: a single scale field follows.
pub const WE_HAVE_A_SCALE: u16 = 0x0008;

/// Flag bit: the component chain continues.
pub const MORE_COMPONENTS: u16 = 0x0020;

/// Flag bit: separate x and y scale fields follow.
pub const WE_HAVE_AN_X_AND_Y_SCALE: u16 = 0x0040;

/// Flag bit: a full 2x2 transform follows.
pub const WE_HAVE_A_TWO_BY_TWO: u16 = 0x0080;

/// The signed contour count of a non-empty record.
pub open spec fn rec_contours(rec: Seq<u8>) -> int {
    sval16(be16(rec[0], rec[1]))
}

/// Whether a record describes a composite glyph.
pub open spec fn rec_is_composite(rec: Seq<u8>) -> bool {
    rec.len() >= 10 && rec_contours(rec) < 0
}

/// The bytes that follow one component's flag and glyph-id words: the
/// argument pair (2 or 4 bytes) and the optional scale field (0, 2, 4 or 8
/// bytes).
pub open spec fn comp_skip(flags: u16) -> int {
    (if flags & ARGS_ARE_WORDS != 0 {
        4int
    } else {
        2int
    }) + (if flags & WE_HAVE_A_SCALE != 0 {
        2int
    } else if flags & WE_HAVE_AN_X_AND_Y_SCALE != 0 {
        4int
    } else if flags & WE_HAVE_A_TWO_BY_TWO != 0 {
        8int
    } else {
        0int
    })
}

/// The byte positions of the component glyph-id words of the component
/// chain starting at `pos`, or `None` when the chain runs off the end of
/// the record.
pub open spec fn comp_positions(rec: Seq<u8>, pos: int) -> Option<Seq<int>>
    decreases rec.len() - pos,
{
    if pos < 0 || pos + 4 > rec.len() {
        None
    } else {
        let flags = be16(rec[pos], rec[pos + 1]);
        if flags & MORE_COMPONENTS == 0 {
            Some(seq![pos + 2])
        } else {
            let next = pos + 4 + comp_skip(flags);
            if next + 4 > rec.len() {
                None
            } else {
                match comp_positions(rec, next) {
                    Option::None => None,
                    Option::Some(rest) => Some(seq![pos + 2] + rest),
                }
            }
        }
    }
}

/// Every component glyph-id position lies at or after `pos + 2`, two bytes
/// before the record's end at the latest, and successive positions are at
/// least 6 bytes apart.
pub proof fn lemma_comp_positions_bounds(rec: Seq<u8>, pos: int)
    requires
        comp_positions(rec, pos) is Some,
    ensures
        ({
            let ps = comp_positions(rec, pos)->Some_0;
            &&& ps.len() >= 1
            &&& forall|i: int| 0 <= i < ps.len() ==> pos + 2 <= #[trigger] ps[i]
            &&& forall|i: int| 0 <= i < ps.len() ==> #[trigger] ps[i] + 2 <= rec.len()
            &&& forall|i: int, j: int| 0 <= i < j < ps.len() ==> #[trigger] ps[i] + 6 <= #[trigger] ps[j]
        }),
    decreases rec.len() - pos,
{
    let ps = comp_positions(rec, pos)->Some_0;
    let flags = be16(rec[pos], rec[pos + 1]);
    if flags & MORE_COMPONENTS == 0 {
    } else {
        let next = pos + 4 + comp_skip(flags);
        lemma_comp_positions_bounds(rec, next);
    }
}

/// The glyph ids referenced by a composite record body (positions already
/// computed).
pub open spec fn ref_at(rec: Seq<u8>, p: int) -> u16 {
    be16(rec[p], rec[p + 1])
}

/// Whether glyph id `c` is referenced by the composite record `rec`.
pub open spec fn is_component_ref(rec: Seq<u8>, c: int) -> bool {
    rec_is_composite(rec) && (comp_positions(rec, 10) matches Some(ps) && exists|i: int|
        0 <= i < ps.len() && ref_at(rec, ps[i]) as int == c)
}

/// Whether byte `j` lies inside one of the two-byte glyph-id windows at
/// the positions `ps`.
pub open spec fn in_gid_window(ps: Seq<int>, j: int) -> bool {
    exists|i: int| 0 <= i < ps.len() && (j == ps[i] || j == ps[i] + 1)
}

/// The outcome of the in-place glyph-id rewrite of a composite record:
/// `out` equals `rec` except inside the component glyph-id windows, and
/// each window now carries the new glyph id that the registry `reg`
/// assigned to the component's original glyph id.
pub open spec fn rewritten_ok(rec: Seq<u8>, out: Seq<u8>, reg: Seq<tt_glyph_desc>) -> bool {
    comp_positions(rec, 10) matches Some(ps) && {
        &&& out.len() == rec.len()
        &&& forall|j: int| 0 <= j < rec.len() && !in_gid_window(ps, j) ==> out[j] == rec[j]
        &&& forall|i: int|
            0 <= i < ps.len() ==> be16(out[#[trigger] ps[i]], out[ps[i] + 1]) == spec_new_of(
                reg,
                ref_at(rec, ps[i]) as int,
            )
    }
}

/// Whether every component referenced by the composite record is below the
/// source font's glyph count and registered in `reg`.
pub open spec fn components_registered(rec: Seq<u8>, num_glyphs: u16, reg: Seq<tt_glyph_desc>) -> bool {
    comp_positions(rec, 10) matches Some(ps) && forall|i: int|
        0 <= i < ps.len() ==> ref_at(rec, #[trigger] ps[i]) < num_glyphs && spec_has_old(
            reg,
            ref_at(rec, ps[i]) as int,
        )
}

} // verus!
