use kcacheext::lzss::decode_block_content;
use kcacheext::ExtractError;

#[test]
fn literal_stream_round_trip() {
    // One flag byte of eight set bits: eight literals follow.
    let stream: Vec<u8> = vec![0xFF, b'a', b'b', b'c', b'd', b'e', b'f', b'g', b'h'];
    let mut out: Vec<u8> = Vec::new();
    let n = decode_block_content(&stream, 9, &mut out).unwrap();
    assert_eq!(n, 8);
    assert_eq!(out, b"abcdefgh".to_vec());
}

#[test]
fn literal_and_back_reference_round_trip() {
    // Flag bits: literal 'a', then a back-reference of length 3 to the
    // ring cell the literal was just written to, giving "aaaa".
    let stream: Vec<u8> = vec![0x01, 0x61, 0xEE, 0xF0];
    let mut out: Vec<u8> = Vec::new();
    let n = decode_block_content(&stream, 4, &mut out).unwrap();
    assert_eq!(n, 4);
    assert_eq!(out, b"aaaa".to_vec());
}

#[test]
fn multi_chunk_literal_round_trip() {
    // Literal encoding of 20 bytes: a flag byte of eight set bits before
    // each run of up to eight literals.
    let data: Vec<u8> = (0..20u8).collect();
    let mut stream: Vec<u8> = Vec::new();
    for chunk in data.chunks(8) {
        stream.push(0xFF);
        stream.extend_from_slice(chunk);
    }
    let mut out: Vec<u8> = Vec::new();
    let n = decode_block_content(&stream, stream.len() as u64, &mut out).unwrap();
    assert_eq!(n, 20);
    assert_eq!(out, data);
}

#[test]
fn budget_stops_mid_token() {
    // One byte less budget than the pending back-reference needs: the
    // partially read token is discarded.
    let stream: Vec<u8> = vec![0x01, 0x61, 0xEE, 0xF0];
    let mut out: Vec<u8> = Vec::new();
    let n = decode_block_content(&stream, 3, &mut out).unwrap();
    assert_eq!(n, 1);
    assert_eq!(out, b"a".to_vec());
}

#[test]
fn budget_stops_mid_token_with_short_input() {
    // The byte past the budget is never read, so it need not exist.
    let stream: Vec<u8> = vec![0x01, 0x61, 0xEE];
    let mut out: Vec<u8> = Vec::new();
    let n = decode_block_content(&stream, 3, &mut out).unwrap();
    assert_eq!(n, 1);
    assert_eq!(out, b"a".to_vec());
}

#[test]
fn truncated_stream_is_reported() {
    let stream: Vec<u8> = vec![0x01, 0x61];
    let mut out: Vec<u8> = Vec::new();
    let r = decode_block_content(&stream, 10, &mut out);
    assert!(matches!(r, Err(ExtractError::TruncatedCompressedStream)));
    assert!(out.is_empty());
}

#[test]
fn zero_budget_decodes_nothing() {
    let stream: Vec<u8> = vec![0xFF, 1, 2, 3];
    let mut out: Vec<u8> = Vec::new();
    let n = decode_block_content(&stream, 0, &mut out).unwrap();
    assert_eq!(n, 0);
    assert!(out.is_empty());
}

#[test]
fn back_reference_into_fresh_history_yields_padding() {
    // A back-reference to never-written ring cells decodes to the 0x20
    // padding the ring is pre-filled with.
    let stream: Vec<u8> = vec![0x00, 0x00, 0x00];
    let mut out: Vec<u8> = Vec::new();
    let n = decode_block_content(&stream, 3, &mut out).unwrap();
    assert_eq!(n, 3);
    assert_eq!(out, b"   ".to_vec());
}

#[test]
fn decoder_appends_to_existing_output() {
    let stream: Vec<u8> = vec![0xFF, b'x'];
    let mut out: Vec<u8> = vec![b'0'];
    let n = decode_block_content(&stream, 2, &mut out).unwrap();
    assert_eq!(n, 1);
    assert_eq!(out, b"0x".to_vec());
}
