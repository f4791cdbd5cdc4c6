//! The header of a BGZF block.
//!
//! A BGZF block is a gzip member whose extra field holds a subfield `BC`
//! with the length of the whole block, less one.  A header may carry other
//! subfields, a file name, a comment and a header checksum, as any gzip
//! header may; the blocks that this library writes carry none of them.

use crate::bytes::{le_u16, le_u32, push_le_u16, read_le_u16, read_le_u32, u16_le_bytes};
use crate::error::BGZFError;
use vstd::prelude::*;
use vstd::slice::slice_subrange;

verus! {

/// The flag of a header checksum of two bytes.
pub const FLAG_HCRC: u8 = 0x02;

/// The flag of an extra field, which every BGZF block has.
pub const FLAG_EXTRA: u8 = 0x04;

/// The flag of a file name that ends with a NUL byte.
pub const FLAG_NAME: u8 = 0x08;

/// The flag of a comment that ends with a NUL byte.
pub const FLAG_COMMENT: u8 = 0x10;

/// The number of bytes of a header before its extra field.
pub const FIXED_LENGTH: usize = 12;

/// The number of bytes of a header that holds the `BC` subfield alone.
pub const PLAIN_HEADER_LENGTH: usize = 18;

/// The number of bytes after the compressed data: checksum and size.
pub const TRAILER_LENGTH: usize = 8;

/// The most bytes of compressed data that a block with a plain header
/// holds, so that the length of the block fits its field.
pub const MAX_COMPRESSED_LENGTH: usize = 65510;

/// The most bytes that a block holds when decompressed.
pub const MAX_PAYLOAD_LENGTH: usize = 65536;

/// What the header of a BGZF block says.
#[derive(Debug, Clone, Copy, PartialEq, Eq, Structural)]
pub struct BGZFHeader {
    /// The gzip flags.
    pub flags: u8,
    /// The modification time, in seconds since 1970.
    pub modified_time: u32,
    /// The flags of the compression method.
    pub extra_flags: u8,
    /// The operating system that wrote the block.
    pub operation_system: u8,
    /// The length of the extra field.
    pub xlen: u16,
    /// The length of the whole block, less one.
    pub block_size: u16,
    /// The length of the header with all that it carries.
    pub header_size: usize,
}

/// The block length that the first `BC` subfield of two bytes holds, looking
/// at the subfields of `extra` from `at` on; nothing if there is no such
/// subfield or a subfield is cut short.
pub open spec fn extra_block_size(extra: Seq<u8>, at: int) -> Option<u16>
    decreases extra.len() - at,
{
    if at < 0 || at + 4 > extra.len() {
        None
    } else if extra[at] == 0x42 && extra[at + 1] == 0x43 && le_u16(extra, at + 2) == 2 {
        if at + 6 <= extra.len() {
            Some(le_u16(extra, at + 4))
        } else {
            None
        }
    } else if at + 4 + le_u16(extra, at + 2) > extra.len() {
        None
    } else {
        extra_block_size(extra, at + 4 + le_u16(extra, at + 2))
    }
}

/// The place after the first NUL byte at or after `at`, or nothing if no
/// NUL byte follows.
pub open spec fn nul_end(s: Seq<u8>, at: int) -> Option<int>
    decreases s.len() - at,
{
    if at < 0 || at >= s.len() {
        None
    } else if s[at] == 0 {
        Some(at + 1)
    } else {
        nul_end(s, at + 1)
    }
}

/// The place after a field that ends with a NUL byte and starts at `at`,
/// if the header has the field, and `at` if it has not.
pub open spec fn skip_text(s: Seq<u8>, at: int, present: bool) -> Option<int> {
    if present {
        nul_end(s, at)
    } else {
        Some(at)
    }
}

/// The header of the BGZF block that `s` starts with, or nothing if `s`
/// does not start with one: if the magic number or the compression method
/// differs, the flag of the extra field is not set, there is no `BC`
/// subfield, or `s` ends before the header does.
pub open spec fn header_of(s: Seq<u8>) -> Option<BGZFHeader> {
    if s.len() < FIXED_LENGTH {
        None
    } else if !(s[0] == 0x1f && s[1] == 0x8b && s[2] == 0x08 && s[3] & FLAG_EXTRA != 0) {
        None
    } else {
        let flags = s[3];
        let xlen = le_u16(s, 10);
        let extra_end = FIXED_LENGTH + xlen;
        if s.len() < extra_end {
            None
        } else {
            match extra_block_size(s.subrange(FIXED_LENGTH as int, extra_end), 0) {
                Some(block_size) => match skip_text(s, extra_end, flags & FLAG_NAME != 0) {
                    Some(name_end) => match skip_text(s, name_end, flags & FLAG_COMMENT != 0) {
                        Some(comment_end) => {
                            let end = if flags & FLAG_HCRC != 0 {
                                comment_end + 2
                            } else {
                                comment_end
                            };
                            if end > s.len() {
                                None
                            } else {
                                Some(
                                    BGZFHeader {
                                        flags,
                                        modified_time: le_u32(s, 4),
                                        extra_flags: s[8],
                                        operation_system: s[9],
                                        xlen,
                                        block_size,
                                        header_size: end as usize,
                                    },
                                )
                            }
                        },
                        None => None,
                    },
                    None => None,
                },
                None => None,
            }
        }
    }
}

/// The header that this library writes before `compressed_len` bytes of
/// compressed data: no modification time, no extra flags, an unknown
/// operating system, and the `BC` subfield alone.
pub open spec fn plain_header(compressed_len: int) -> Seq<u8> {
    seq![
        0x1fu8,
        0x8bu8,
        0x08u8,
        0x04u8,
        0u8,
        0u8,
        0u8,
        0u8,
        0u8,
        0xffu8,
        6u8,
        0u8,
        0x42u8,
        0x43u8,
        2u8,
        0u8,
    ] + u16_le_bytes((compressed_len + 25) as u16)
}

/// Looks for the `BC` subfield in an extra field.
fn find_block_size(extra: &[u8]) -> (r: Option<u16>)
    ensures
        r == extra_block_size(extra@, 0),
{
    let mut at: usize = 0;
    loop
        invariant
            at <= extra.len(),
            extra_block_size(extra@, 0) == extra_block_size(extra@, at as int),
        decreases extra.len() - at,
    {
        if extra.len() - at < 4 {
            return None;
        }
        let slen = read_le_u16(extra, at + 2);
        if extra[at] == 0x42 && extra[at + 1] == 0x43 && slen == 2 {
            if extra.len() - at >= 6 {
                return Some(read_le_u16(extra, at + 4));
            } else {
                return None;
            }
        }
        if slen as usize > extra.len() - at - 4 {
            return None;
        }
        at = at + 4 + slen as usize;
    }
}

/// Looks for the end of a field that ends with a NUL byte.
fn find_nul_end(block: &[u8], at: usize) -> (r: Option<usize>)
    requires
        at <= block.len(),
    ensures
        match r {
            Some(end) => nul_end(block@, at as int) == Some(end as int) && at < end <= block.len(),
            None => nul_end(block@, at as int) is None,
        },
{
    let mut i: usize = at;
    while i < block.len()
        invariant
            at <= i <= block.len(),
            nul_end(block@, at as int) == nul_end(block@, i as int),
        decreases block.len() - i,
    {
        if block[i] == 0 {
            return Some(i + 1);
        }
        i += 1;
    }
    None
}

impl BGZFHeader {
    /// Reads the header of the BGZF block that `block` starts with.
    pub fn parse(block: &[u8]) -> (r: Result<BGZFHeader, BGZFError>)
        ensures
            match r {
                Ok(header) => header_of(block@) == Some(header) && FIXED_LENGTH + 6
                    <= header.header_size <= block.len(),
                Err(e) => e == BGZFError::MalformedBlock && header_of(block@) is None,
            },
    {
        if block.len() < FIXED_LENGTH {
            return Err(BGZFError::MalformedBlock);
        }
        if !(block[0] == 0x1f && block[1] == 0x8b && block[2] == 0x08 && block[3] & FLAG_EXTRA
            != 0) {
            return Err(BGZFError::MalformedBlock);
        }
        let flags = block[3];
        let modified_time = read_le_u32(block, 4);
        let xlen = read_le_u16(block, 10);
        if block.len() - FIXED_LENGTH < xlen as usize {
            return Err(BGZFError::MalformedBlock);
        }
        let extra_end: usize = FIXED_LENGTH + xlen as usize;
        let block_size = match find_block_size(slice_subrange(block, FIXED_LENGTH, extra_end)) {
            Some(block_size) => block_size,
            None => {
                return Err(BGZFError::MalformedBlock);
            },
        };
        proof {
            lemma_extra_block_size_needs_six(block@.subrange(FIXED_LENGTH as int, extra_end as int), 0);
        }
        let mut end: usize = extra_end;
        if flags & FLAG_NAME != 0 {
            match find_nul_end(block, end) {
                Some(name_end) => {
                    end = name_end;
                },
                None => {
                    return Err(BGZFError::MalformedBlock);
                },
            }
        }
        if flags & FLAG_COMMENT != 0 {
            match find_nul_end(block, end) {
                Some(comment_end) => {
                    end = comment_end;
                },
                None => {
                    return Err(BGZFError::MalformedBlock);
                },
            }
        }
        if flags & FLAG_HCRC != 0 {
            if block.len() - end < 2 {
                return Err(BGZFError::MalformedBlock);
            }
            end = end + 2;
        }
        Ok(
            BGZFHeader {
                flags,
                modified_time,
                extra_flags: block[8],
                operation_system: block[9],
                xlen,
                block_size,
                header_size: end,
            },
        )
    }
}

/// An extra field in which a `BC` subfield is found has at least the six
/// bytes of that subfield.
pub proof fn lemma_extra_block_size_needs_six(extra: Seq<u8>, at: int)
    requires
        extra_block_size(extra, at) is Some,
    ensures
        at + 6 <= extra.len(),
    decreases extra.len() - at,
{
    if !(extra[at] == 0x42 && extra[at + 1] == 0x43 && le_u16(extra, at + 2) == 2) {
        lemma_extra_block_size_needs_six(extra, at + 4 + le_u16(extra, at + 2));
    }
}

/// Appends the header of a block with `compressed_len` bytes of compressed
/// data.
pub fn write_header(out: &mut Vec<u8>, compressed_len: u16)
    requires
        compressed_len <= MAX_COMPRESSED_LENGTH,
    ensures
        final(out)@ == old(out)@ + plain_header(compressed_len as int),
{
    out.push(0x1f);
    out.push(0x8b);
    out.push(0x08);
    out.push(FLAG_EXTRA);
    out.push(0);
    out.push(0);
    out.push(0);
    out.push(0);
    out.push(0);
    out.push(0xff);
    out.push(6);
    out.push(0);
    out.push(0x42);
    out.push(0x43);
    out.push(2);
    out.push(0);
    push_le_u16(out, compressed_len + 25);
    assert(out@ =~= old(out)@ + plain_header(compressed_len as int));
}

/// The header that this library writes is read back as it was written:
/// with the length of its block, and eighteen bytes long.
pub proof fn lemma_plain_header_parses(compressed_len: int, rest: Seq<u8>)
    requires
        0 <= compressed_len <= MAX_COMPRESSED_LENGTH,
    ensures
        header_of(plain_header(compressed_len) + rest) == Some(
            BGZFHeader {
                flags: FLAG_EXTRA,
                modified_time: 0,
                extra_flags: 0,
                operation_system: 0xff,
                xlen: 6,
                block_size: (compressed_len + 25) as u16,
                header_size: PLAIN_HEADER_LENGTH,
            },
        ),
{
    let header = plain_header(compressed_len);
    let s = header + rest;
    let size = (compressed_len + 25) as u16;
    assert(header.len() == 18);
    assert(forall|i: int| 0 <= i < 18 ==> s[i] == header[i]);
    assert(4u8 & 4u8 != 0 && 4u8 & 8u8 == 0 && 4u8 & 16u8 == 0 && 4u8 & 2u8 == 0) by (bit_vector);
    let extra = s.subrange(12, 18);
    assert(extra[0] == 0x42 && extra[1] == 0x43 && extra[2] == 2 && extra[3] == 0);
    assert(extra[4] == u16_le_bytes(size)[0] && extra[5] == u16_le_bytes(size)[1]);
    assert(le_u16(extra, 2) == 2);
    assert(le_u16(extra, 4) == size);
    assert(extra_block_size(extra, 0) == Some(size));
    assert(le_u16(s, 10) == 6);
    assert(le_u32(s, 4) == 0);
}

/// Looking for the end of a field finds the same place in the first `n`
/// bytes as in all of them, as long as that place lies within the first
/// `n` bytes.
proof fn lemma_nul_end_prefix(s: Seq<u8>, at: int, n: int)
    requires
        0 <= at,
        nul_end(s, at) is Some,
        nul_end(s, at).unwrap() <= n <= s.len(),
    ensures
        nul_end(s.take(n), at) == nul_end(s, at),
    decreases s.len() - at,
{
    lemma_nul_end_bounds(s, at);
    assert(s.take(n)[at] == s[at]);
    if s[at] != 0 {
        lemma_nul_end_prefix(s, at + 1, n);
    }
}

/// The end of a field lies after its start and within the bytes.
proof fn lemma_nul_end_bounds(s: Seq<u8>, at: int)
    requires
        nul_end(s, at) is Some,
    ensures
        at < nul_end(s, at).unwrap() <= s.len(),
    decreases s.len() - at,
{
    if s[at] != 0 {
        lemma_nul_end_bounds(s, at + 1);
    }
}

/// A header is read from its own bytes alone: cutting the bytes off
/// anywhere after the header leaves the header as it was.
pub proof fn lemma_header_prefix(s: Seq<u8>, n: int)
    requires
        s.len() <= usize::MAX,
        header_of(s) is Some,
        header_of(s).unwrap().header_size <= n <= s.len(),
    ensures
        header_of(s.take(n)) == header_of(s),
{
    let header = header_of(s).unwrap();
    let t = s.take(n);
    let flags = s[3];
    let xlen = le_u16(s, 10);
    let extra_end = FIXED_LENGTH + xlen;
    let has_name = flags & FLAG_NAME != 0;
    let has_comment = flags & FLAG_COMMENT != 0;
    assert(extra_block_size(s.subrange(FIXED_LENGTH as int, extra_end), 0) is Some);
    assert(skip_text(s, extra_end, has_name) is Some);
    let name_end = skip_text(s, extra_end, has_name).unwrap();
    assert(skip_text(s, name_end, has_comment) is Some);
    let comment_end = skip_text(s, name_end, has_comment).unwrap();
    if has_name {
        lemma_nul_end_bounds(s, extra_end);
    }
    if has_comment {
        lemma_nul_end_bounds(s, name_end);
    }
    let end = if flags & FLAG_HCRC != 0 {
        comment_end + 2
    } else {
        comment_end
    };
    assert(0 <= end <= s.len());
    assert(header.header_size == end);
    assert(extra_end <= name_end <= comment_end <= header.header_size);
    assert(forall|i: int| 0 <= i < n ==> t[i] == s[i]);
    assert(t.subrange(FIXED_LENGTH as int, extra_end) =~= s.subrange(FIXED_LENGTH as int, extra_end));
    if has_name {
        lemma_nul_end_prefix(s, extra_end, n);
    }
    if has_comment {
        lemma_nul_end_prefix(s, name_end, n);
    }
    assert(le_u16(t, 10) == xlen);
    assert(le_u32(t, 4) == le_u32(s, 4));
}

} // verus!
