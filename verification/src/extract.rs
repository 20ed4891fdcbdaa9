use vstd::prelude::*;

use crate::errors::ExtractError;
use crate::header::{be_u32_at, parse_header};
use crate::lzss::{decode_block_content, lzss_decode};
use crate::scan::{find_subsequence, first_idx, has_first, has_match, lemma_first_idx_is};
use vstd::slice::{slice_subrange, slice_to_vec};

verus! {

/// The 8-byte ASCII tag "complzss" that announces a sliding-window
/// compressed image.
pub open spec fn sliding_window_magic() -> Seq<u8> {
    seq![0x63u8, 0x6fu8, 0x6du8, 0x70u8, 0x6cu8, 0x7au8, 0x73u8, 0x73u8]
}

/// The 4-byte ASCII tag "bvx2" that announces a block-format compressed
/// image.
pub open spec fn block_format_magic() -> Seq<u8> {
    seq![0x62u8, 0x76u8, 0x78u8, 0x32u8]
}

/// The 4-byte magic of the embedded executable image.
pub open spec fn executable_magic() -> Seq<u8> {
    seq![0xcfu8, 0xfau8, 0xedu8, 0xfeu8]
}

/// The ASCII marker "__IMAGEEND" near which a secondary payload may sit.
pub open spec fn image_end_magic() -> Seq<u8> {
    seq![0x5fu8, 0x5fu8, 0x49u8, 0x4du8, 0x41u8, 0x47u8, 0x45u8, 0x45u8, 0x4eu8, 0x44u8]
}

fn sliding_window_magic_bytes() -> (v: Vec<u8>)
    ensures
        v@ == sliding_window_magic(),
{
    let mut v: Vec<u8> = Vec::new();
    v.push(0x63);
    v.push(0x6f);
    v.push(0x6d);
    v.push(0x70);
    v.push(0x6c);
    v.push(0x7a);
    v.push(0x73);
    v.push(0x73);
    proof {
        assert(v@ =~= sliding_window_magic());
    }
    v
}

fn block_format_magic_bytes() -> (v: Vec<u8>)
    ensures
        v@ == block_format_magic(),
{
    let mut v: Vec<u8> = Vec::new();
    v.push(0x62);
    v.push(0x76);
    v.push(0x78);
    v.push(0x32);
    proof {
        assert(v@ =~= block_format_magic());
    }
    v
}

fn executable_magic_bytes() -> (v: Vec<u8>)
    ensures
        v@ == executable_magic(),
{
    let mut v: Vec<u8> = Vec::new();
    v.push(0xcf);
    v.push(0xfa);
    v.push(0xed);
    v.push(0xfe);
    proof {
        assert(v@ =~= executable_magic());
    }
    v
}

fn image_end_magic_bytes() -> (v: Vec<u8>)
    ensures
        v@ == image_end_magic(),
{
    let mut v: Vec<u8> = Vec::new();
    v.push(0x5f);
    v.push(0x5f);
    v.push(0x49);
    v.push(0x4d);
    v.push(0x41);
    v.push(0x47);
    v.push(0x45);
    v.push(0x45);
    v.push(0x4e);
    v.push(0x44);
    proof {
        assert(v@ =~= image_end_magic());
    }
    v
}

/// What extraction hands back: the decoded primary image, and the raw
/// secondary payload when one was located.
#[derive(Debug)]
pub struct ExtractionOutput {
    pub kernelcache: Vec<u8>,
    pub kpp_present: bool,
    pub kpp: Vec<u8>,
}

/// Destination size handed to the block-format decoder; the true
/// uncompressed size is not recorded in that path, so a generous upper
/// bound is used.
pub const BLOCK_DECODE_CAPACITY: usize = 1024 * 1024 * 200 + 1;

/// What `lzfse::decode_buffer` makes of the stream `src` when handed a
/// destination of `cap` bytes: the decoded bytes, or `None` when it
/// reports an error. The call is deterministic in `src` and `cap`.
pub uninterp spec fn lzfse_decoded(src: Seq<u8>, cap: nat) -> Option<Seq<u8>>;

/// Relies on lzfse::decode_buffer: it fills the destination with the
/// decoded stream and returns how many bytes it wrote, reporting an error
/// (a full destination, which it signals by returning the destination
/// length) instead. The outcome is a function of the stream and the
/// destination size alone.
#[verifier::external_body]
fn lzfse_decode_with_capacity(src: &[u8], cap: usize) -> (r: Option<Vec<u8>>)
    ensures
        match r {
            Some(v) => lzfse_decoded(src@, cap as nat) == Some(v@) && v@.len() < cap,
            None => lzfse_decoded(src@, cap as nat) is None,
        },
{
    let mut dst = vec![0u8; cap];
    match lzfse::decode_buffer(src, &mut dst) {
        Ok(n) => {
            dst.truncate(n);
            Some(dst)
        }
        Err(_) => None,
    }
}

/// The compressed payload of the sliding-window path: everything from one
/// byte before the first occurrence of the executable magic.
pub open spec fn payload(buf: Seq<u8>) -> Seq<u8> {
    buf.skip(first_idx(buf, executable_magic()) - 1)
}

/// The compressed size the header found at the first sliding-window magic
/// declares.
pub open spec fn declared_compressed_size(buf: Seq<u8>) -> int {
    be_u32_at(buf, first_idx(buf, sliding_window_magic()) + 16)
}

/// The uncompressed size the header found at the first sliding-window
/// magic declares.
pub open spec fn declared_uncompressed_size(buf: Seq<u8>) -> int {
    be_u32_at(buf, first_idx(buf, sliding_window_magic()) + 12)
}

/// Where the secondary payload sits, if anywhere: the end-of-image marker
/// is sought from the fixed base 0x2000 on; when it sits at a relative
/// offset `e` greater than 0x1000, the executable magic is sought from
/// `e - 0x1000` on, still relative to that base (absolute offset
/// `0x2000 + (e - 0x1000)`), and everything from that magic to the end of
/// the buffer is the payload.
pub open spec fn kpp_expected(buf: Seq<u8>) -> Option<Seq<u8>> {
    if buf.len() < 0x2000 {
        None
    } else {
        let tail = buf.skip(0x2000);
        if !has_first(tail, image_end_magic()) {
            None
        } else {
            let e = first_idx(tail, image_end_magic());
            if e <= 0x1000 {
                None
            } else {
                let w = 0x2000 + (e - 0x1000);
                let wtail = buf.skip(w);
                if !has_first(wtail, executable_magic()) {
                    None
                } else {
                    Some(buf.skip(w + first_idx(wtail, executable_magic())))
                }
            }
        }
    }
}

/// Locate the secondary payload as `kpp_expected` describes, returning
/// its raw bytes.
fn find_kpp(input_buf: &[u8]) -> (r: Option<Vec<u8>>)
    ensures
        match r {
            Some(v) => kpp_expected(input_buf@) == Some(v@),
            None => kpp_expected(input_buf@) is None,
        },
{
    let len = input_buf.len();
    if len < 0x2000 {
        return None;
    }
    let tail = slice_subrange(input_buf, 0x2000, len);
    proof {
        assert(tail@ =~= input_buf@.skip(0x2000));
    }
    let marker = image_end_magic_bytes();
    let e = match find_subsequence(tail, marker.as_slice()) {
        Some(e) => e,
        None => {
            return None;
        },
    };
    proof {
        lemma_first_idx_is(tail@, image_end_magic(), e as int);
    }
    if e <= 0x1000 {
        return None;
    }
    let w = 0x2000 + (e - 0x1000);
    proof {
        assert(e + image_end_magic().len() <= tail@.len());
        assert(w < len);
    }
    let wtail = slice_subrange(input_buf, w, len);
    proof {
        assert(wtail@ =~= input_buf@.skip(w as int));
    }
    let exe = executable_magic_bytes();
    let m = match find_subsequence(wtail, exe.as_slice()) {
        Some(m) => m,
        None => {
            return None;
        },
    };
    proof {
        lemma_first_idx_is(wtail@, executable_magic(), m as int);
        assert(m + executable_magic().len() <= wtail@.len());
    }
    let kpp_loc = w + m;
    let kpp = slice_to_vec(slice_subrange(input_buf, kpp_loc, len));
    proof {
        assert(kpp@ =~= input_buf@.skip(kpp_loc as int));
    }
    Some(kpp)
}

/// Extract the kernelcache from a compressed buffer.
///
/// The first sliding-window magic selects the sliding-window path: a
/// 24-byte header must fit after it, the compressed payload starts one
/// byte before the first executable magic, the payload must decode to
/// exactly the declared uncompressed size within the declared compressed
/// budget, and a secondary payload is picked up when present. Without a
/// sliding-window magic, the first block-format magic selects the
/// block-format path, whose stream the external block decoder expands.
/// Without either magic, nothing is extracted. Each error names the one
/// condition under which it is returned.
pub fn extract_from_buf(input_buf: &[u8]) -> (r: Result<ExtractionOutput, ExtractError>)
    ensures
        ({
            let buf = input_buf@;
            match r {
                Ok(out) => ({
                    ||| ({
                        &&& has_first(buf, sliding_window_magic())
                        &&& first_idx(buf, sliding_window_magic()) + 24 <= buf.len()
                        &&& has_first(buf, executable_magic())
                        &&& first_idx(buf, executable_magic()) >= 1
                        &&& lzss_decode(payload(buf), declared_compressed_size(buf))
                            == Some(out.kernelcache@)
                        &&& out.kernelcache@.len() == declared_uncompressed_size(buf)
                        &&& (match kpp_expected(buf) {
                            Some(k) => out.kpp_present && out.kpp@ == k,
                            None => !out.kpp_present && out.kpp@ == Seq::<u8>::empty(),
                        })
                    })
                    ||| ({
                        &&& !has_match(buf, sliding_window_magic())
                        &&& has_first(buf, block_format_magic())
                        &&& lzfse_decoded(
                            buf.skip(first_idx(buf, block_format_magic())),
                            BLOCK_DECODE_CAPACITY as nat,
                        ) == Some(out.kernelcache@)
                        &&& !out.kpp_present
                        &&& out.kpp@ == Seq::<u8>::empty()
                    })
                }),
                Err(e) => match e {
                    ExtractError::NoCompressionMagic => {
                        &&& !has_match(buf, sliding_window_magic())
                        &&& !has_match(buf, block_format_magic())
                    },
                    ExtractError::ImageTooSmallForHeader => {
                        &&& has_first(buf, sliding_window_magic())
                        &&& first_idx(buf, sliding_window_magic()) + 24 > buf.len()
                    },
                    ExtractError::NoKernelcacheMacho => {
                        &&& has_first(buf, sliding_window_magic())
                        &&& first_idx(buf, sliding_window_magic()) + 24 <= buf.len()
                        &&& (!has_match(buf, executable_magic()) || (
                            has_first(buf, executable_magic())
                            && first_idx(buf, executable_magic()) == 0
                        ))
                    },
                    ExtractError::TruncatedCompressedStream => {
                        &&& has_first(buf, sliding_window_magic())
                        &&& first_idx(buf, sliding_window_magic()) + 24 <= buf.len()
                        &&& has_first(buf, executable_magic())
                        &&& first_idx(buf, executable_magic()) >= 1
                        &&& lzss_decode(payload(buf), declared_compressed_size(buf)) is None
                    },
                    ExtractError::UncompressedSizeMismatch => {
                        &&& has_first(buf, sliding_window_magic())
                        &&& first_idx(buf, sliding_window_magic()) + 24 <= buf.len()
                        &&& has_first(buf, executable_magic())
                        &&& first_idx(buf, executable_magic()) >= 1
                        &&& (lzss_decode(payload(buf), declared_compressed_size(buf))
                            matches Some(d) && d.len() != declared_uncompressed_size(buf))
                    },
                    ExtractError::LzfseDecodeFailed => {
                        &&& !has_match(buf, sliding_window_magic())
                        &&& has_first(buf, block_format_magic())
                        &&& lzfse_decoded(
                            buf.skip(first_idx(buf, block_format_magic())),
                            BLOCK_DECODE_CAPACITY as nat,
                        ) is None
                    },
                    ExtractError::MachoParseFailed => false,
                },
            }
        }),
{
    let len = input_buf.len();
    let sw_magic = sliding_window_magic_bytes();
    if let Some(lzss_location) = find_subsequence(input_buf, sw_magic.as_slice()) {
        proof {
            lemma_first_idx_is(input_buf@, sliding_window_magic(), lzss_location as int);
            assert(lzss_location + sliding_window_magic().len() <= len);
        }
        if len - lzss_location < 24 {
            return Err(ExtractError::ImageTooSmallForHeader);
        }
        let comp_header = parse_header(input_buf, lzss_location);
        let kpp_found = find_kpp(input_buf);
        let exe = executable_magic_bytes();
        let macho_loc = match find_subsequence(input_buf, exe.as_slice()) {
            Some(m) => m,
            None => {
                return Err(ExtractError::NoKernelcacheMacho);
            },
        };
        proof {
            lemma_first_idx_is(input_buf@, executable_magic(), macho_loc as int);
        }
        if macho_loc == 0 {
            return Err(ExtractError::NoKernelcacheMacho);
        }
        let payload_slice = slice_subrange(input_buf, macho_loc - 1, len);
        proof {
            assert(payload_slice@ =~= payload(input_buf@));
        }
        let mut decoded: Vec<u8> = Vec::new();
        let written = match decode_block_content(
            payload_slice,
            comp_header.compressed_size as u64,
            &mut decoded,
        ) {
            Ok(n) => n,
            Err(_) => {
                return Err(ExtractError::TruncatedCompressedStream);
            },
        };
        if written != comp_header.uncompressed_size as u64 {
            return Err(ExtractError::UncompressedSizeMismatch);
        }
        let (kpp_present, kpp) = match kpp_found {
            Some(v) => (true, v),
            None => (false, Vec::new()),
        };
        Ok(ExtractionOutput { kernelcache: decoded, kpp_present, kpp })
    } else if let Some(lzfse_location) = find_subsequence(input_buf, block_format_magic_bytes().as_slice()) {
        proof {
            lemma_first_idx_is(input_buf@, block_format_magic(), lzfse_location as int);
        }
        let stream = slice_subrange(input_buf, lzfse_location, len);
        proof {
            assert(stream@ =~= input_buf@.skip(lzfse_location as int));
        }
        match lzfse_decode_with_capacity(stream, BLOCK_DECODE_CAPACITY) {
            Some(v) => Ok(ExtractionOutput { kernelcache: v, kpp_present: false, kpp: Vec::new() }),
            None => Err(ExtractError::LzfseDecodeFailed),
        }
    } else {
        Err(ExtractError::NoCompressionMagic)
    }
}

} // verus!
