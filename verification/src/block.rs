//! One BGZF block: a header, raw DEFLATE data, and a trailer with the
//! CRC-32 checksum and the size of the decompressed data.

use crate::bytes::{le_u32, push_le_u32, push_range, read_le_u32, u32_le_bytes};
use crate::bytes::{lemma_le_u32_of_bytes, u16_le_bytes};
use crate::deflate::{checksum, crc32, deflate, deflated, inflate, inflated, MAX_LEVEL};
use crate::error::BGZFError;
use crate::header::{
    header_of, lemma_header_prefix, lemma_plain_header_parses, plain_header, write_header,
    BGZFHeader,
    MAX_COMPRESSED_LENGTH, MAX_PAYLOAD_LENGTH, PLAIN_HEADER_LENGTH, TRAILER_LENGTH,
};
use vstd::prelude::*;
use vstd::slice::slice_subrange;

verus! {

/// The length of the end-of-file marker.
pub const EOF_MARKER_LENGTH: usize = 28;

/// The end-of-file marker: a block with no data, which a writer puts last.
pub open spec fn eof_marker() -> Seq<u8> {
    seq![
        0x1fu8,
        0x8bu8,
        0x08u8,
        0x04u8,
        0x00u8,
        0x00u8,
        0x00u8,
        0x00u8,
        0x00u8,
        0xffu8,
        0x06u8,
        0x00u8,
        0x42u8,
        0x43u8,
        0x02u8,
        0x00u8,
        0x1bu8,
        0x00u8,
        0x03u8,
        0x00u8,
        0x00u8,
        0x00u8,
        0x00u8,
        0x00u8,
        0x00u8,
        0x00u8,
        0x00u8,
        0x00u8,
    ]
}

/// Whether `s` starts with the end-of-file marker.
pub open spec fn starts_with_eof(s: Seq<u8>) -> bool {
    s.len() >= EOF_MARKER_LENGTH && s.take(EOF_MARKER_LENGTH as int) == eof_marker()
}

/// The length of the block that `s` starts with, going by its header alone;
/// nothing if `s` starts with no header of a block, the length is too short
/// for header and trailer, or `s` ends before the block does.
pub open spec fn frame_length(s: Seq<u8>) -> Option<int> {
    if starts_with_eof(s) {
        Some(EOF_MARKER_LENGTH as int)
    } else {
        match header_of(s) {
            Some(header) => {
                let total = header.block_size + 1;
                if total < header.header_size + TRAILER_LENGTH || s.len() < total {
                    None
                } else {
                    Some(total)
                }
            },
            None => None,
        }
    }
}

/// The decompressed data of the block that `s` starts with, and the length
/// of that block; nothing if `s` does not start with a whole block, the
/// data cannot be decompressed or is longer than a block may hold, or the
/// checksum or the size in the trailer differs from that of the data.  The
/// end-of-file marker is known by its bytes and holds no data.
#[verifier::opaque]
pub open spec fn block_of(s: Seq<u8>) -> Option<(Seq<u8>, int)> {
    if starts_with_eof(s) {
        Some((Seq::empty(), EOF_MARKER_LENGTH as int))
    } else {
        match frame_length(s) {
            Some(total) => {
                let header = header_of(s).unwrap();
                match inflated(s.subrange(header.header_size as int, total - TRAILER_LENGTH)) {
                    Some(payload) => if payload.len() <= MAX_PAYLOAD_LENGTH && le_u32(
                        s,
                        total - 8,
                    ) == crc32(payload) && le_u32(s, total - 4) == payload.len() {
                        Some((payload, total))
                    } else {
                        None
                    },
                    None => None,
                }
            },
            None => None,
        }
    }
}

/// The block that holds `payload_len` bytes of data which compress to
/// `stream` and have the checksum `crc`.
pub open spec fn block_bytes(payload_len: int, stream: Seq<u8>, crc: u32) -> Seq<u8> {
    plain_header(stream.len() as int) + stream + u32_le_bytes(crc) + u32_le_bytes(
        payload_len as u32,
    )
}

/// The block that `data` is written as at `level`; an error if the
/// compressor fails or its output is too long for one block.
#[verifier::opaque]
pub open spec fn compressed_block(data: Seq<u8>, level: u32) -> Result<Seq<u8>, BGZFError> {
    match deflated(data, level) {
        Some(stream) => if stream.len() <= MAX_COMPRESSED_LENGTH {
            Ok(block_bytes(data.len() as int, stream, crc32(data)))
        } else {
            Err(BGZFError::MalformedBlock)
        },
        None => Err(BGZFError::Io),
    }
}

/// Whether the compressed form of `data` at `level`, where there is one,
/// decompresses to `data` again.
pub open spec fn restores(data: Seq<u8>, level: u32) -> bool {
    deflated(data, level) matches Some(stream) ==> inflated(stream) == Some(data)
}

/// Whether `block` starts with the end-of-file marker.
pub fn is_eof_marker(block: &[u8]) -> (is_eof: bool)
    ensures
        is_eof == starts_with_eof(block@),
{
    if block.len() < EOF_MARKER_LENGTH {
        return false;
    }
    let is_eof = block[0] == 0x1f && block[1] == 0x8b && block[2] == 0x08 && block[3] == 0x04
        && block[4] == 0x00 && block[5] == 0x00 && block[6] == 0x00 && block[7] == 0x00 && block[8]
        == 0x00 && block[9] == 0xff && block[10] == 0x06 && block[11] == 0x00 && block[12] == 0x42
        && block[13] == 0x43 && block[14] == 0x02 && block[15] == 0x00 && block[16] == 0x1b
        && block[17] == 0x00 && block[18] == 0x03 && block[19] == 0x00 && block[20] == 0x00
        && block[21] == 0x00 && block[22] == 0x00 && block[23] == 0x00 && block[24] == 0x00
        && block[25] == 0x00 && block[26] == 0x00 && block[27] == 0x00;
    proof {
        let head = block@.take(EOF_MARKER_LENGTH as int);
        let marker = eof_marker();
        if is_eof {
            assert(head =~= marker);
        } else {
            assert(exists|i: int| 0 <= i < 28 && head[i] != marker[i]);
        }
    }
    is_eof
}

/// Appends the end-of-file marker.
pub fn write_eof_marker(out: &mut Vec<u8>)
    ensures
        final(out)@ == old(out)@ + eof_marker(),
{
    out.push(0x1f);
    out.push(0x8b);
    out.push(0x08);
    out.push(0x04);
    out.push(0x00);
    out.push(0x00);
    out.push(0x00);
    out.push(0x00);
    out.push(0x00);
    out.push(0xff);
    out.push(0x06);
    out.push(0x00);
    out.push(0x42);
    out.push(0x43);
    out.push(0x02);
    out.push(0x00);
    out.push(0x1b);
    out.push(0x00);
    out.push(0x03);
    out.push(0x00);
    out.push(0x00);
    out.push(0x00);
    out.push(0x00);
    out.push(0x00);
    out.push(0x00);
    out.push(0x00);
    out.push(0x00);
    out.push(0x00);
    assert(out@ =~= old(out)@ + eof_marker());
}

/// Finds the length of the block that `block` starts with, without
/// decompressing it.
pub fn frame_block(block: &[u8]) -> (r: Result<usize, BGZFError>)
    ensures
        match r {
            Ok(total) => frame_length(block@) == Some(total as int) && 0 < total <= block.len(),
            Err(e) => e == BGZFError::MalformedBlock && frame_length(block@) is None,
        },
{
    if is_eof_marker(block) {
        return Ok(EOF_MARKER_LENGTH);
    }
    match BGZFHeader::parse(block) {
        Ok(header) => {
            let total: usize = header.block_size as usize + 1;
            if total < TRAILER_LENGTH || total - TRAILER_LENGTH < header.header_size || block.len()
                < total {
                Err(BGZFError::MalformedBlock)
            } else {
                Ok(total)
            }
        },
        Err(e) => Err(e),
    }
}

/// Reads and decompresses the block that `block` starts with.
pub fn decode_block(block: &[u8]) -> (r: Result<(Vec<u8>, usize), BGZFError>)
    ensures
        match r {
            Ok((payload, total)) => block_of(block@) == Some((payload@, total as int)) && 0 < total
                <= block.len() && payload@.len() <= MAX_PAYLOAD_LENGTH,
            Err(e) => e == BGZFError::MalformedBlock && block_of(block@) is None,
        },
{
    proof {
        reveal(block_of);
    }
    if is_eof_marker(block) {
        return Ok((Vec::new(), EOF_MARKER_LENGTH));
    }
    let total = match frame_block(block) {
        Ok(total) => total,
        Err(e) => {
            return Err(e);
        },
    };
    let header_size = match BGZFHeader::parse(block) {
        Ok(header) => header.header_size,
        Err(e) => {
            return Err(e);
        },
    };
    let payload = match inflate(slice_subrange(block, header_size, total - TRAILER_LENGTH)) {
        Some(payload) => payload,
        None => {
            return Err(BGZFError::MalformedBlock);
        },
    };
    if payload.len() > MAX_PAYLOAD_LENGTH {
        return Err(BGZFError::MalformedBlock);
    }
    let crc = read_le_u32(block, total - 8);
    let size = read_le_u32(block, total - 4);
    if crc != checksum(payload.as_slice()) || size as usize != payload.len() {
        return Err(BGZFError::MalformedBlock);
    }
    Ok((payload, total))
}

/// Appends the block that holds `data`, given the raw DEFLATE stream that
/// `data` compresses to and the checksum of `data`.
pub fn encode_block(out: &mut Vec<u8>, data: &[u8], stream: &[u8], crc: u32)
    requires
        data.len() <= MAX_PAYLOAD_LENGTH,
        stream.len() <= MAX_COMPRESSED_LENGTH,
    ensures
        final(out)@ == old(out)@ + block_bytes(data@.len() as int, stream@, crc),
{
    write_header(out, stream.len() as u16);
    push_range(out, stream, 0, stream.len());
    push_le_u32(out, crc);
    push_le_u32(out, data.len() as u32);
    assert(stream@.subrange(0, stream@.len() as int) =~= stream@);
    assert(out@ =~= old(out)@ + block_bytes(data@.len() as int, stream@, crc));
}

/// Compresses `data` at `level` and appends it as one block.  Nothing is
/// appended if the compressor fails or its output is too long for a block.
pub fn compress_block(out: &mut Vec<u8>, data: &[u8], level: u32) -> (r: Result<(), BGZFError>)
    requires
        level <= MAX_LEVEL,
        data.len() <= MAX_PAYLOAD_LENGTH,
    ensures
        restores(data@, level),
        match compressed_block(data@, level) {
            Ok(bytes) => r is Ok && final(out)@ == old(out)@ + bytes,
            Err(e) => r == Err::<(), BGZFError>(e) && final(out)@ == old(out)@,
        },
{
    proof {
        reveal(compressed_block);
    }
    match deflate(data, level) {
        Some(stream) => {
            if stream.len() > MAX_COMPRESSED_LENGTH {
                return Err(BGZFError::MalformedBlock);
            }
            let crc = checksum(data);
            encode_block(out, data, stream.as_slice(), crc);
            Ok(())
        },
        None => Err(BGZFError::Io),
    }
}

/// A block that this library writes is read back as the data it was
/// written for, whatever follows it, as long as its raw DEFLATE stream
/// decompresses to that data.
pub proof fn lemma_block_roundtrip(payload: Seq<u8>, stream: Seq<u8>, rest: Seq<u8>)
    requires
        0 < payload.len() <= MAX_PAYLOAD_LENGTH,
        stream.len() <= MAX_COMPRESSED_LENGTH,
        inflated(stream) == Some(payload),
    ensures
        block_of(block_bytes(payload.len() as int, stream, crc32(payload)) + rest) == Some(
            (payload, PLAIN_HEADER_LENGTH + stream.len() + TRAILER_LENGTH),
        ),
{
    reveal(block_of);
    let crc = crc32(payload);
    let block = block_bytes(payload.len() as int, stream, crc);
    let s = block + rest;
    let n = stream.len() as int;
    let total = n + 26;
    let header = plain_header(n);
    assert(header.len() == 18);
    assert(s =~= header + (stream + u32_le_bytes(crc) + u32_le_bytes(payload.len() as u32) + rest));
    lemma_plain_header_parses(n, stream + u32_le_bytes(crc) + u32_le_bytes(payload.len() as u32) + rest);
    assert(s.subrange(18, total - 8) =~= stream);
    assert(s =~= (header + stream) + u32_le_bytes(crc) + (u32_le_bytes(payload.len() as u32) + rest));
    lemma_le_u32_of_bytes(header + stream, crc, u32_le_bytes(payload.len() as u32) + rest);
    assert(s =~= (header + stream + u32_le_bytes(crc)) + u32_le_bytes(payload.len() as u32) + rest);
    lemma_le_u32_of_bytes(header + stream + u32_le_bytes(crc), payload.len() as u32, rest);
    assert(!starts_with_eof(s)) by {
        if starts_with_eof(s) {
            let head = s.take(28);
            assert(head[16] == s[16] && head[17] == s[17]);
            assert(s[16] == u16_le_bytes((n + 25) as u16)[0]);
            assert(s[17] == u16_le_bytes((n + 25) as u16)[1]);
            assert(eof_marker()[16] == 0x1b && eof_marker()[17] == 0);
            assert(n == 2);
            assert(head[24] == s[24] && head[25] == s[25] && head[26] == s[26] && head[27] == s[27]);
            assert(le_u32(s, 24) == 0);
        }
    }
}

/// A stream that starts with the end-of-file marker starts with a block
/// without data.
pub proof fn lemma_eof_block(s: Seq<u8>)
    requires
        starts_with_eof(s),
    ensures
        block_of(s) == Some((Seq::<u8>::empty(), EOF_MARKER_LENGTH as int)),
{
    reveal(block_of);
}

/// A block is at least as long as a header and a trailer, it lies within
/// the bytes it was read from, and it holds no more data than a block may.
pub proof fn lemma_block_bounds(s: Seq<u8>)
    requires
        block_of(s) is Some,
    ensures
        0 < block_of(s).unwrap().1 <= s.len(),
        block_of(s).unwrap().0.len() <= MAX_PAYLOAD_LENGTH,
{
    reveal(block_of);
}

/// A block is read from its own bytes alone: the bytes of one frame, taken
/// by themselves, hold the block that the stream holds at that place, and
/// where no frame can be cut off the stream holds no block.
pub proof fn lemma_frame_alone(s: Seq<u8>)
    requires
        s.len() <= usize::MAX,
    ensures
        match frame_length(s) {
            Some(total) => 0 < total <= s.len() && block_of(s.take(total)) == block_of(s) && (
            block_of(s) matches Some((payload, length)) ==> length == total),
            None => block_of(s) is None,
        },
{
    reveal(block_of);
    match frame_length(s) {
        Some(total) => {
            let t = s.take(total);
            if starts_with_eof(s) {
                assert(t.take(EOF_MARKER_LENGTH as int) =~= s.take(EOF_MARKER_LENGTH as int));
            } else {
                let header = header_of(s).unwrap();
                lemma_header_prefix(s, total);
                if t.len() >= EOF_MARKER_LENGTH {
                    assert(t.take(EOF_MARKER_LENGTH as int) =~= s.take(EOF_MARKER_LENGTH as int));
                }
                assert(!starts_with_eof(t));
                assert(t.subrange(header.header_size as int, total - TRAILER_LENGTH) =~= s.subrange(
                    header.header_size as int,
                    total - TRAILER_LENGTH,
                ));
                assert(forall|i: int| 0 <= i < total ==> t[i] == s[i]);
                assert(le_u32(t, total - 8) == le_u32(s, total - 8));
                assert(le_u32(t, total - 4) == le_u32(s, total - 4));
            }
        },
        None => {},
    }
}

} // verus!
