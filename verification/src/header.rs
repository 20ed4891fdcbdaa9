use vstd::prelude::*;

verus! {

/// The big-endian 32-bit integer held by `b` at offsets `off .. off + 4`.
pub open spec fn be_u32_at(b: Seq<u8>, off: int) -> int {
    b[off] * 0x100_0000 + b[off + 1] * 0x1_0000 + b[off + 2] * 0x100 + b[off + 3]
}

/// The big-endian 64-bit integer held by `b` at offsets `off .. off + 8`.
pub open spec fn be_u64_at(b: Seq<u8>, off: int) -> int {
    b[off] * 0x100_0000_0000_0000
        + b[off + 1] * 0x1_0000_0000_0000
        + b[off + 2] * 0x100_0000_0000
        + b[off + 3] * 0x1_0000_0000
        + b[off + 4] * 0x100_0000
        + b[off + 5] * 0x1_0000
        + b[off + 6] * 0x100
        + b[off + 7]
}

/// The fixed 24-byte record that precedes a sliding-window compressed
/// image: an 8-byte ASCII magic tag and four big-endian 32-bit fields.
pub struct CompressionHeader {
    pub compzlss_str: u64,
    pub unknown: u32,
    pub uncompressed_size: u32,
    pub compressed_size: u32,
    pub unknown1: u32,
}

/// The `CompressionHeader` whose serialized form `b` holds at offset `off`.
pub open spec fn header_matches(h: CompressionHeader, b: Seq<u8>, off: int) -> bool {
    &&& h.compzlss_str == be_u64_at(b, off)
    &&& h.unknown == be_u32_at(b, off + 8)
    &&& h.uncompressed_size == be_u32_at(b, off + 12)
    &&& h.compressed_size == be_u32_at(b, off + 16)
    &&& h.unknown1 == be_u32_at(b, off + 20)
}

fn read_be_u32(b: &[u8], off: usize) -> (r: u32)
    requires
        off + 4 <= b@.len(),
    ensures
        r == be_u32_at(b@, off as int),
{
    (b[off] as u32) * 0x100_0000
        + (b[off + 1] as u32) * 0x1_0000
        + (b[off + 2] as u32) * 0x100
        + (b[off + 3] as u32)
}

fn read_be_u64(b: &[u8], off: usize) -> (r: u64)
    requires
        off + 8 <= b@.len(),
    ensures
        r == be_u64_at(b@, off as int),
{
    (b[off] as u64) * 0x100_0000_0000_0000
        + (b[off + 1] as u64) * 0x1_0000_0000_0000
        + (b[off + 2] as u64) * 0x100_0000_0000
        + (b[off + 3] as u64) * 0x1_0000_0000
        + (b[off + 4] as u64) * 0x100_0000
        + (b[off + 5] as u64) * 0x1_0000
        + (b[off + 6] as u64) * 0x100
        + (b[off + 7] as u64)
}

/// Deserialize the 24-byte header that `b` holds at offset `off`. The
/// caller must have checked the bounds; a short slice is a contract
/// violation, not a data error.
pub fn parse_header(b: &[u8], off: usize) -> (h: CompressionHeader)
    requires
        off + 24 <= b@.len(),
    ensures
        header_matches(h, b@, off as int),
{
    let bl = b.len();
    assert(off + 24 <= bl);
    CompressionHeader {
        compzlss_str: read_be_u64(b, off),
        unknown: read_be_u32(b, off + 8),
        uncompressed_size: read_be_u32(b, off + 12),
        compressed_size: read_be_u32(b, off + 16),
        unknown1: read_be_u32(b, off + 20),
    }
}

} // verus!
