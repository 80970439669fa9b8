use dpx::bytes::{get_u16, get_u32, sub_bytes, to_i16, to_u16};
use dpx::font::parse_loca;
use dpx::icc::{
    get_num_components_iccbased, iccbased_cdata, iccp_init_iccHeader, iccHeader, iccXYZNumber,
    str2iccSig, IccVersion,
};
use dpx::pages::page_range;
use dpx::SubsetError;

#[test]
fn big_endian_reads() {
    let data = vec![0x12, 0x34, 0x56, 0x78];
    assert_eq!(get_u16(&data, 0), 0x1234);
    assert_eq!(get_u16(&data, 2), 0x5678);
    assert_eq!(get_u32(&data, 0), 0x12345678);
}

#[test]
fn twos_complement_conversions() {
    assert_eq!(to_i16(0xFFFF), -1);
    assert_eq!(to_i16(0x8000), -32768);
    assert_eq!(to_i16(0x7FFF), 32767);
    assert_eq!(to_u16(-1), 0xFFFF);
    assert_eq!(to_u16(-32768), 0x8000);
    assert_eq!(to_u16(12), 12);
}

#[test]
fn sub_bytes_copies_range() {
    let data = vec![1u8, 2, 3, 4, 5];
    assert_eq!(sub_bytes(&data, 1, 4), vec![2, 3, 4]);
    assert_eq!(sub_bytes(&data, 2, 2), Vec::<u8>::new());
}

#[test]
fn parse_loca_short_doubles_entries() {
    // Two glyphs: three halved entries 0, 6, 9.
    let data = vec![0, 0, 0, 6, 0, 9];
    let v = parse_loca(&data, 0, 2).unwrap();
    assert_eq!(v, vec![0, 12, 18]);
}

#[test]
fn parse_loca_long_reads_words() {
    let data = vec![0, 0, 0, 0, 0, 0, 0, 5, 0, 1, 0, 0];
    let v = parse_loca(&data, 1, 2).unwrap();
    assert_eq!(v, vec![0, 5, 0x10000]);
}

#[test]
fn parse_loca_unknown_format_is_format_error() {
    let data = vec![0, 0, 0, 0];
    assert_eq!(parse_loca(&data, 2, 0), Err(SubsetError::FormatError));
}

#[test]
fn parse_loca_truncated_is_format_error() {
    let data = vec![0, 0, 0, 6];
    assert_eq!(parse_loca(&data, 0, 2), Err(SubsetError::FormatError));
}

#[test]
fn icc_version_parts() {
    let v = IccVersion::new(2, 0x40);
    assert_eq!(v.major, 2);
    assert_eq!(v.minor, 0x40);
    assert!(v.supports(2, 0x40));
    assert!(v.supports(1, 0xFF));
    assert!(!v.supports(2, 0x41));
    assert!(!v.supports(3, 0));
}

#[test]
fn icc_signature_packing() {
    assert_eq!(str2iccSig(b"acsp"), 0x61637370);
    assert_eq!(str2iccSig(b"RGB "), 0x52474220);
}

#[test]
fn icc_header_init() {
    let mut h = iccHeader {
        size: 7,
        CMMType: 1,
        version: 1,
        devClass: 1,
        colorSpace: 1,
        PCS: 1,
        creationDate: [1; 12],
        acsp: 0,
        platform: 1,
        flags: [1; 4],
        devMnfct: 1,
        devModel: 1,
        devAttr: [1; 8],
        intent: 1,
        illuminant: iccXYZNumber { X: 1, Y: 1, Z: 1 },
        creator: 1,
        ID: [1; 16],
    };
    iccp_init_iccHeader(&mut h);
    assert_eq!(h.size, 0);
    assert_eq!(h.version, 0xffffff);
    assert_eq!(h.acsp, str2iccSig(b"acsp"));
    assert_eq!(h.creationDate, [0; 12]);
    assert_eq!(h.ID, [0; 16]);
    assert_eq!(h.illuminant, iccXYZNumber { X: 0, Y: 0, Z: 0 });
}

#[test]
fn icc_component_counts() {
    let mut c = iccbased_cdata { sig: 0, checksum: [0; 16], colorspace: -3, alternate: -1 };
    assert_eq!(get_num_components_iccbased(&c), 3);
    c.colorspace = -4;
    assert_eq!(get_num_components_iccbased(&c), 4);
    c.colorspace = -1;
    assert_eq!(get_num_components_iccbased(&c), 1);
    c.colorspace = 2;
    assert_eq!(get_num_components_iccbased(&c), 3);
    c.colorspace = 0;
    assert_eq!(get_num_components_iccbased(&c), 0);
}

#[test]
fn page_range_parts() {
    let r = page_range::new(2, -1);
    assert_eq!(r.first, 2);
    assert_eq!(r.last, -1);
}

#[test]
fn icc_colorspace_check() {
    let mut profile = vec![0u8; 128];
    profile[16..20].copy_from_slice(b"RGB ");
    assert_eq!(dpx::icc::iccp_check_colorspace(3, &profile), 0);
    assert_eq!(dpx::icc::iccp_check_colorspace(-3, &profile), 0);
    assert_eq!(dpx::icc::iccp_check_colorspace(1, &profile), -1);
    profile[16..20].copy_from_slice(b"GRAY");
    assert_eq!(dpx::icc::iccp_check_colorspace(-1, &profile), 0);
    profile[16..20].copy_from_slice(b"CMYK");
    assert_eq!(dpx::icc::iccp_check_colorspace(-4, &profile), 0);
    assert_eq!(dpx::icc::iccp_check_colorspace(7, &profile), -1);
    let short = vec![0u8; 64];
    assert_eq!(dpx::icc::iccp_check_colorspace(3, &short), -1);
}
