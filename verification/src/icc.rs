//! Plain data records of the ICC color-profile handling in the
//! surrounding document-production pipeline, with the small pure checks
//! that operate on them. Profile I/O and stream emission stay with the
//! pipeline's writer.
use vstd::prelude::*;

verus! {

/// A four-byte ICC signature packed big-endian into one word.
pub type iccSig = u32;

/// An ICC XYZ number: three fixed-point coordinates.
#[derive(Clone, Copy, Debug, PartialEq, Eq, Structural)]
pub struct iccXYZNumber {
    /// The X coordinate.
    pub X: i32,
    /// The Y coordinate.
    pub Y: i32,
    /// The Z coordinate.
    pub Z: i32,
}

/// An ICC profile version, split into its major and minor part.
#[derive(Clone, Copy, Debug, PartialEq, Eq, Structural)]
pub struct IccVersion {
    /// The major version.
    pub major: i32,
    /// The minor version (both nibbles of the second header byte).
    pub minor: i32,
}

impl IccVersion {
    /// Builds a version from its two parts.
    pub fn new(major: i32, minor: i32) -> (r: IccVersion)
        ensures
            r.major == major,
            r.minor == minor,
    {
        IccVersion { major, minor }
    }

    /// Whether a profile carrying version `major.minor` is within this
    /// supported ceiling.
    pub fn supports(&self, major: i32, minor: i32) -> (r: bool)
        ensures
            r == (major < self.major || (major == self.major && minor <= self.minor)),
    {
        major < self.major || (major == self.major && minor <= self.minor)
    }
}

/// The fixed-size header fields of an ICC profile.
pub struct iccHeader {
    /// Profile size in bytes.
    pub size: i32,
    /// Preferred color-management-module signature.
    pub CMMType: iccSig,
    /// Packed profile version.
    pub version: i32,
    /// Profile/device class signature.
    pub devClass: iccSig,
    /// Data color space signature.
    pub colorSpace: iccSig,
    /// Profile connection space signature.
    pub PCS: iccSig,
    /// Creation date-time, as the twelve raw header bytes.
    pub creationDate: [i8; 12],
    /// The mandatory profile file signature.
    pub acsp: iccSig,
    /// Primary platform signature.
    pub platform: iccSig,
    /// Profile flag bytes.
    pub flags: [i8; 4],
    /// Device manufacturer signature.
    pub devMnfct: iccSig,
    /// Device model signature.
    pub devModel: iccSig,
    /// Device attribute bytes.
    pub devAttr: [i8; 8],
    /// Rendering intent.
    pub intent: i32,
    /// The illuminant tristimulus value.
    pub illuminant: iccXYZNumber,
    /// Profile creator signature.
    pub creator: iccSig,
    /// The profile's MD5 identifier bytes.
    pub ID: [u8; 16],
}

/// The packed signature of the four bytes `b`.
pub fn str2iccSig(b: &[u8; 4]) -> (r: iccSig)
    ensures
        r == crate::bytes::be32(b@[0], b@[1], b@[2], b@[3]),
{
    (b[0] as u32) * 0x1000000 + (b[1] as u32) * 0x10000 + (b[2] as u32) * 0x100 + (b[3] as u32)
}

/// Resets a header to the empty state the profile reader starts from: all
/// fields zero but for the version marker and the mandatory `acsp` file
/// signature.
pub fn iccp_init_iccHeader(icch: &mut iccHeader)
    ensures
        final(icch).size == 0,
        final(icch).CMMType == 0,
        final(icch).version == 0xffffff,
        final(icch).devClass == 0,
        final(icch).colorSpace == 0,
        final(icch).PCS == 0,
        forall|i: int| 0 <= i < 12 ==> final(icch).creationDate@[i] == 0,
        final(icch).acsp == 0x61637370,
        final(icch).platform == 0,
        forall|i: int| 0 <= i < 4 ==> final(icch).flags@[i] == 0,
        final(icch).devMnfct == 0,
        final(icch).devModel == 0,
        forall|i: int| 0 <= i < 8 ==> final(icch).devAttr@[i] == 0,
        final(icch).intent == 0,
        final(icch).illuminant == (iccXYZNumber { X: 0, Y: 0, Z: 0 }),
        final(icch).creator == 0,
        forall|i: int| 0 <= i < 16 ==> final(icch).ID@[i] == 0,
{
    icch.size = 0;
    icch.CMMType = 0;
    icch.version = 0xffffff;
    icch.devClass = 0;
    icch.colorSpace = 0;
    icch.PCS = 0;
    icch.creationDate = [0; 12];
    icch.acsp = str2iccSig(&[0x61, 0x63, 0x73, 0x70]);
    icch.platform = 0;
    icch.flags = [0; 4];
    icch.devMnfct = 0;
    icch.devModel = 0;
    icch.devAttr = [0; 8];
    icch.intent = 0;
    icch.illuminant = iccXYZNumber { X: 0, Y: 0, Z: 0 };
    icch.creator = 0;
    icch.ID = [0; 16];
}

/// The data carried for one ICC-based color space resource.
#[derive(Clone, Copy, Debug)]
pub struct iccbased_cdata {
    /// A sanity marker set by the resource initializer.
    pub sig: i32,
    /// The profile's MD5 checksum, all zero while unknown.
    pub checksum: [u8; 16],
    /// The color space class, encoded as the pipeline's color type.
    pub colorspace: i32,
    /// Alternate color space id (unused).
    pub alternate: i32,
}

/// The number of components of the color space a resource carries: 3 for
/// RGB (and for the calibrated fallback class), 4 for CMYK, 1 for gray,
/// and 0 for anything unrecognized.
pub fn get_num_components_iccbased(cdata: &iccbased_cdata) -> (r: i32)
    ensures
        r == match cdata.colorspace {
            -3 => 3int,
            -4 => 4int,
            -1 => 1int,
            2 => 3int,
            _ => 0int,
        },
{
    match cdata.colorspace {
        -3 => 3,
        -4 => 4,
        -1 => 1,
        2 => 3,
        _ => 0,
    }
}


/// What the color-space check decides: 0 when the profile's data color
/// space signature matches the pipeline's color type, -1 for a short
/// profile, an unknown type, or a mismatch.
pub open spec fn spec_check_colorspace(colortype: i32, b: Seq<u8>) -> i32 {
    if b.len() < 128 {
        -1i32
    } else {
        let sig = crate::bytes::be32(b[16], b[17], b[18], b[19]);
        if colortype == 3 || colortype == -3 {
            if sig == 0x52474220 {
                0i32
            } else {
                -1i32
            }
        } else if colortype == 1 || colortype == -1 {
            if sig == 0x47524159 {
                0i32
            } else {
                -1i32
            }
        } else if colortype == -4 {
            if sig == 0x434D594B {
                0i32
            } else {
                -1i32
            }
        } else {
            -1i32
        }
    }
}

/// Checks that an ICC profile's data color space signature agrees with the
/// pipeline's color type: `RGB ` for RGB types, `GRAY` for gray types,
/// `CMYK` for CMYK.
pub fn iccp_check_colorspace(colortype: i32, profile: &Vec<u8>) -> (r: i32)
    ensures
        r == spec_check_colorspace(colortype, profile@),
{
    if profile.len() < 128 {
        return -1;
    }
    let sig = crate::bytes::get_u32(profile, 16);
    if colortype == 3 || colortype == -3 {
        if sig == 0x52474220 {
            0
        } else {
            -1
        }
    } else if colortype == 1 || colortype == -1 {
        if sig == 0x47524159 {
            0
        } else {
            -1
        }
    } else if colortype == -4 {
        if sig == 0x434D594B {
            0
        } else {
            -1
        }
    } else {
        -1
    }
}

} // verus!
