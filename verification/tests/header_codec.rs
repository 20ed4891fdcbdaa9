use kcacheext::header::parse_header;

#[test]
fn parses_big_endian_fields_at_offset() {
    let mut b = vec![0u8; 32];
    let header: [u8; 24] = [
        0x63, 0x6F, 0x6D, 0x70, 0x6C, 0x7A, 0x73, 0x73, // "complzss"
        0x00, 0x00, 0x00, 0x01, // reserved
        0x00, 0x01, 0x02, 0x03, // uncompressed size
        0xAA, 0xBB, 0xCC, 0xDD, // compressed size
        0xFF, 0x00, 0xFF, 0x00, // reserved
    ];
    b[5..29].copy_from_slice(&header);
    let h = parse_header(&b, 5);
    assert_eq!(h.compzlss_str, 0x636F6D706C7A7373);
    assert_eq!(h.unknown, 1);
    assert_eq!(h.uncompressed_size, 0x00010203);
    assert_eq!(h.compressed_size, 0xAABBCCDD);
    assert_eq!(h.unknown1, 0xFF00FF00);
}

#[test]
fn parses_extreme_field_values() {
    let mut b = vec![0xFFu8; 24];
    b[8..12].copy_from_slice(&[0, 0, 0, 0]);
    let h = parse_header(&b, 0);
    assert_eq!(h.compzlss_str, u64::MAX);
    assert_eq!(h.unknown, 0);
    assert_eq!(h.uncompressed_size, u32::MAX);
    assert_eq!(h.compressed_size, u32::MAX);
    assert_eq!(h.unknown1, u32::MAX);
}
