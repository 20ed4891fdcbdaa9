use kcacheext::{extract_from_buf, ExtractError};

fn header_bytes(uncompressed: u32, compressed: u32) -> Vec<u8> {
    let mut v = Vec::new();
    v.extend_from_slice(b"complzss");
    v.extend_from_slice(&0u32.to_be_bytes());
    v.extend_from_slice(&uncompressed.to_be_bytes());
    v.extend_from_slice(&compressed.to_be_bytes());
    v.extend_from_slice(&0u32.to_be_bytes());
    v
}

/// A 24-byte header followed by a nine-byte stream of eight literals,
/// which begin with the executable magic as a real image's would.
fn small_image(uncompressed: u32) -> Vec<u8> {
    let mut buf = header_bytes(uncompressed, 9);
    buf.push(0xFF);
    buf.extend_from_slice(&[0xCF, 0xFA, 0xED, 0xFE, b'k', b'e', b'r', b'n']);
    buf
}

#[test]
fn no_magic_fails_with_no_compression_magic() {
    let buf = vec![0u8; 64];
    assert!(matches!(extract_from_buf(&buf), Err(ExtractError::NoCompressionMagic)));
}

#[test]
fn empty_buffer_fails_with_no_compression_magic() {
    let buf: Vec<u8> = Vec::new();
    assert!(matches!(extract_from_buf(&buf), Err(ExtractError::NoCompressionMagic)));
}

#[test]
fn short_header_fails_with_image_too_small() {
    let mut buf = b"complzss".to_vec();
    buf.extend_from_slice(&[0u8; 10]);
    assert!(matches!(extract_from_buf(&buf), Err(ExtractError::ImageTooSmallForHeader)));
}

#[test]
fn sliding_window_image_extracts() {
    let out = extract_from_buf(&small_image(8)).unwrap();
    assert_eq!(out.kernelcache, vec![0xCF, 0xFA, 0xED, 0xFE, b'k', b'e', b'r', b'n']);
    assert!(!out.kpp_present);
    assert!(out.kpp.is_empty());
}

#[test]
fn size_mismatch_is_fatal_and_discards_output() {
    // The payload decodes to 8 bytes while the header declares 7.
    let r = extract_from_buf(&small_image(7));
    assert!(matches!(r, Err(ExtractError::UncompressedSizeMismatch)));
}

#[test]
fn missing_executable_magic_fails() {
    let buf = header_bytes(8, 9);
    assert!(matches!(extract_from_buf(&buf), Err(ExtractError::NoKernelcacheMacho)));
}

#[test]
fn executable_magic_at_offset_zero_fails() {
    let mut buf = vec![0xCF, 0xFA, 0xED, 0xFE];
    buf.extend_from_slice(&header_bytes(8, 9));
    assert!(matches!(extract_from_buf(&buf), Err(ExtractError::NoKernelcacheMacho)));
}

#[test]
fn truncated_payload_fails() {
    // The header declares 64 compressed bytes but the stream ends early.
    let mut buf = header_bytes(8, 64);
    buf.push(0xFF);
    buf.extend_from_slice(&[0xCF, 0xFA, 0xED, 0xFE]);
    assert!(matches!(extract_from_buf(&buf), Err(ExtractError::TruncatedCompressedStream)));
}

#[test]
fn secondary_payload_is_detected() {
    let mut buf = vec![0u8; 0x3200];
    buf[..24].copy_from_slice(&header_bytes(8, 9));
    // primary payload: flag byte at 0x40, executable magic at 0x41
    buf[0x40] = 0xFF;
    buf[0x41..0x49].copy_from_slice(&[0xCF, 0xFA, 0xED, 0xFE, b'k', b'e', b'r', b'n']);
    // secondary payload starts at 0x2F00
    buf[0x2F00..0x2F04].copy_from_slice(&[0xCF, 0xFA, 0xED, 0xFE]);
    buf[0x2F04] = 0x7E;
    // end-of-image marker at relative offset 0x1100 past the 0x2000 base
    buf[0x3100..0x310A].copy_from_slice(b"__IMAGEEND");
    let out = extract_from_buf(&buf).unwrap();
    assert_eq!(out.kernelcache, vec![0xCF, 0xFA, 0xED, 0xFE, b'k', b'e', b'r', b'n']);
    assert!(out.kpp_present);
    assert_eq!(out.kpp, buf[0x2F00..].to_vec());
}

#[test]
fn secondary_payload_window_starts_past_the_base() {
    // An executable magic in the 0x2000-byte gap before the window, at
    // absolute 0x500, must be ignored: the window starts at
    // 0x2000 + (e - 0x1000) = 0x2100, so the payload starts at 0x2F00.
    let mut buf = vec![0u8; 0x3200];
    buf[..24].copy_from_slice(&header_bytes(8, 9));
    buf[0x40] = 0xFF;
    buf[0x41..0x49].copy_from_slice(&[0xCF, 0xFA, 0xED, 0xFE, b'k', b'e', b'r', b'n']);
    buf[0x500..0x504].copy_from_slice(&[0xCF, 0xFA, 0xED, 0xFE]);
    buf[0x2F00..0x2F04].copy_from_slice(&[0xCF, 0xFA, 0xED, 0xFE]);
    buf[0x3100..0x310A].copy_from_slice(b"__IMAGEEND");
    let out = extract_from_buf(&buf).unwrap();
    assert!(out.kpp_present);
    assert_eq!(out.kpp, buf[0x2F00..].to_vec());
}

#[test]
fn magic_only_before_the_window_means_no_secondary_payload() {
    // The only candidate magic sits before the window start 0x2100, so
    // no secondary payload is reported.
    let mut buf = vec![0u8; 0x3200];
    buf[..24].copy_from_slice(&header_bytes(8, 9));
    buf[0x40] = 0xFF;
    buf[0x41..0x49].copy_from_slice(&[0xCF, 0xFA, 0xED, 0xFE, b'k', b'e', b'r', b'n']);
    buf[0x500..0x504].copy_from_slice(&[0xCF, 0xFA, 0xED, 0xFE]);
    buf[0x3100..0x310A].copy_from_slice(b"__IMAGEEND");
    let out = extract_from_buf(&buf).unwrap();
    assert!(!out.kpp_present);
    assert!(out.kpp.is_empty());
}

#[test]
fn marker_too_close_to_base_means_no_secondary_payload() {
    let mut buf = vec![0u8; 0x3200];
    buf[..24].copy_from_slice(&header_bytes(8, 9));
    buf[0x40] = 0xFF;
    buf[0x41..0x49].copy_from_slice(&[0xCF, 0xFA, 0xED, 0xFE, b'k', b'e', b'r', b'n']);
    // relative offset 0x800 is not past the 0x1000 threshold
    buf[0x2800..0x280A].copy_from_slice(b"__IMAGEEND");
    let out = extract_from_buf(&buf).unwrap();
    assert!(!out.kpp_present);
    assert!(out.kpp.is_empty());
}

#[test]
fn absent_marker_means_no_secondary_payload() {
    let mut buf = vec![0u8; 0x3200];
    buf[..24].copy_from_slice(&header_bytes(8, 9));
    buf[0x40] = 0xFF;
    buf[0x41..0x49].copy_from_slice(&[0xCF, 0xFA, 0xED, 0xFE, b'k', b'e', b'r', b'n']);
    let out = extract_from_buf(&buf).unwrap();
    assert!(!out.kpp_present);
    assert!(out.kpp.is_empty());
}
