//! Plain-value model of the tables read from the source font.
//!
//! The surrounding reader collaborator locates the tables inside the opened
//! font and hands their contents over as plain values: the header fields the
//! engine consumes, the expanded horizontal (and optional vertical) long
//! metrics, and the raw bytes of the `loca` and `glyf` tables. The engine
//! itself decodes `loca` and the individual glyph records.
use vstd::prelude::*;

use crate::bytes::{be16, be32, get_u16, get_u32};
use crate::err::SubsetError;

verus! {

/// One expanded long-metrics entry: advance and side bearing of one glyph.
pub struct LongMetric {
    /// Advance width (or height) in font units.
    pub advance: u16,
    /// Left (or top) side bearing in font units.
    pub side_bearing: i16,
}

/// Font-wide defaults taken from the source font's OS/2 table.
pub struct Os2Defaults {
    /// The typographic ascender.
    pub s_typo_ascender: i16,
    /// The typographic descender.
    pub s_typo_descender: i16,
}

/// The source font's tables, as plain values.
pub struct SourceFont {
    /// Declared glyph count (`maxp.numGlyphs`).
    pub num_glyphs: u16,
    /// Units per em (`head.unitsPerEm`).
    pub units_per_em: u16,
    /// The `loca` entry width (`head.indexToLocFormat`): 0 for short
    /// (16-bit, halved) entries, 1 for long (32-bit) entries.
    pub index_to_loc_format: i16,
    /// The metric data format (`hhea.metricDataFormat`); only format 0 is
    /// understood.
    pub metric_data_format: i16,
    /// Expanded horizontal metrics, one entry per glyph.
    pub hmtx: Vec<LongMetric>,
    /// Expanded vertical metrics, one entry per glyph, when the font has a
    /// `vmtx` table.
    pub vmtx: Option<Vec<LongMetric>>,
    /// Typographic defaults, when the font has an OS/2 table.
    pub os2: Option<Os2Defaults>,
    /// Raw bytes of the `loca` table.
    pub loca_data: Vec<u8>,
    /// Raw bytes of the `glyf` table.
    pub glyf_data: Vec<u8>,
}

/// The decoded `loca` entry `k`: a byte offset into `glyf`.
pub open spec fn loca_entry(data: Seq<u8>, format: i16, k: int) -> u32 {
    if format == 0 {
        (2 * be16(data[2 * k], data[2 * k + 1])) as u32
    } else {
        be32(data[4 * k], data[4 * k + 1], data[4 * k + 2], data[4 * k + 3])
    }
}

impl SourceFont {
    /// Structural well-formedness of the handed-over tables: the metrics
    /// arrays cover every declared glyph, and the `glyf` table is small
    /// enough that offset arithmetic stays within the machine's bounds.
    pub open spec fn wf(self) -> bool {
        &&& self.hmtx@.len() == self.num_glyphs as int
        &&& (self.vmtx matches Some(vm) ==> vm@.len() == self.num_glyphs as int)
        &&& self.glyf_data@.len() <= 0xFFFF_FF00
    }

    /// The decoded `loca` entry for glyph `k`.
    pub open spec fn loca_val(self, k: int) -> u32 {
        loca_entry(self.loca_data@, self.index_to_loc_format, k)
    }

    /// Whether the `loca` table is long enough and in a known format.
    pub open spec fn loca_ok(self) -> bool {
        &&& (self.index_to_loc_format == 0 || self.index_to_loc_format == 1)
        &&& (self.index_to_loc_format == 0 ==> self.loca_data@.len() >= 2 * (
        self.num_glyphs as int + 1))
        &&& (self.index_to_loc_format == 1 ==> self.loca_data@.len() >= 4 * (
        self.num_glyphs as int + 1))
    }

    /// The source byte range of glyph `g` lies within `glyf` and is not
    /// inverted.
    pub open spec fn range_ok(self, g: int) -> bool {
        self.loca_val(g) <= self.loca_val(g + 1) <= self.glyf_data@.len()
    }

    /// The raw record of glyph `g` inside `glyf`.
    pub open spec fn record(self, g: int) -> Seq<u8> {
        self.glyf_data@.subrange(self.loca_val(g) as int, self.loca_val(g + 1) as int)
    }

    /// The record length of glyph `g`.
    pub open spec fn rec_len(self, g: int) -> int {
        self.loca_val(g + 1) - self.loca_val(g)
    }
}

/// Decodes the `loca` table: one entry per glyph plus the trailing
/// total-size entry. Short entries are doubled, as the format prescribes.
/// Fails with `FormatError` exactly when the format is unknown or the table
/// is too short for the declared glyph count.
pub fn parse_loca(data: &Vec<u8>, format: i16, num_glyphs: u16) -> (r: Result<
    Vec<u32>,
    SubsetError,
>)
    ensures
        match r {
            Ok(v) => {
                &&& (format == 0 || format == 1)
                &&& (format == 0 ==> data@.len() >= 2 * (num_glyphs as int + 1))
                &&& (format == 1 ==> data@.len() >= 4 * (num_glyphs as int + 1))
                &&& v@.len() == num_glyphs as int + 1
                &&& forall|k: int|
                    0 <= k <= num_glyphs as int ==> #[trigger] v@[k] == loca_entry(
                        data@,
                        format,
                        k,
                    )
            },
            Err(e) => {
                &&& e == SubsetError::FormatError
                &&& !(format == 0 && data@.len() >= 2 * (num_glyphs as int + 1) || format == 1
                    && data@.len() >= 4 * (num_glyphs as int + 1))
            },
        },
{
    let n = num_glyphs as usize;
    let mut out: Vec<u32> = Vec::new();
    if format == 0 {
        if data.len() < 2 * (n + 1) {
            return Err(SubsetError::FormatError);
        }
        let mut k: usize = 0;
        while k <= n
            invariant
                n == num_glyphs as int,
                data@.len() >= 2 * (n + 1),
                k <= n + 1,
                out@.len() == k,
                forall|j: int| 0 <= j < k ==> #[trigger] out@[j] == loca_entry(data@, 0i16, j),
            decreases n + 1 - k,
        {
            let half = get_u16(data, 2 * k);
            out.push(2 * (half as u32));
            k = k + 1;
        }
        Ok(out)
    } else if format == 1 {
        if data.len() < 4 * (n + 1) {
            return Err(SubsetError::FormatError);
        }
        let mut k: usize = 0;
        while k <= n
            invariant
                n == num_glyphs as int,
                data@.len() >= 4 * (n + 1),
                k <= n + 1,
                out@.len() == k,
                forall|j: int| 0 <= j < k ==> #[trigger] out@[j] == loca_entry(data@, 1i16, j),
            decreases n + 1 - k,
        {
            let word = get_u32(data, 4 * k);
            out.push(word);
            k = k + 1;
        }
        Ok(out)
    } else {
        Err(SubsetError::FormatError)
    }
}

} // verus!
