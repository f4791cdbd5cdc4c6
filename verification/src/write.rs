//! Writing BGZF streams: all at once, and piece by piece through a writer
//! that cuts what it is given into blocks.

use crate::block::{
    block_bytes, block_of, compress_block, compressed_block, eof_marker, lemma_block_roundtrip,
    lemma_eof_block, restores, write_eof_marker, EOF_MARKER_LENGTH,
};
use crate::bytes::push_range;
use crate::deflate::{crc32, deflated, MAX_LEVEL};
use crate::error::BGZFError;
use crate::header::MAX_PAYLOAD_LENGTH;
use crate::read::{readable, stream_of};
use vstd::prelude::*;
use vstd::slice::slice_subrange;

verus! {

/// The number of bytes that a block holds unless another number is asked
/// for.
pub const DEFAULT_COMPRESS_BLOCK_UNIT: usize = 65280;

/// The length of the first piece when `data` is cut into pieces of `unit`
/// bytes.
pub open spec fn piece_length(data: Seq<u8>, unit: int) -> int {
    if unit < data.len() {
        unit
    } else {
        data.len() as int
    }
}

/// The blocks that `data` is written as at `level` when it is cut into
/// pieces of `unit` bytes, the last of which may be shorter; the error of
/// the first piece that cannot be written, if there is one.
pub open spec fn compressed_body(data: Seq<u8>, level: u32, unit: int) -> Result<Seq<u8>, BGZFError>
    decreases data.len(),
{
    if data.len() == 0 || unit <= 0 {
        Ok(Seq::empty())
    } else {
        let n = piece_length(data, unit);
        match compressed_block(data.take(n), level) {
            Ok(block) => match compressed_body(data.skip(n), level, unit) {
                Ok(rest) => Ok(block + rest),
                Err(e) => Err(e),
            },
            Err(e) => Err(e),
        }
    }
}

/// The BGZF stream that `data` is written as: its blocks and the
/// end-of-file marker.
pub open spec fn compressed(data: Seq<u8>, level: u32, unit: int) -> Result<Seq<u8>, BGZFError> {
    match compressed_body(data, level, unit) {
        Ok(body) => Ok(body + eof_marker()),
        Err(e) => Err(e),
    }
}

/// The blocks that a writer emits while it holds more than `unit` bytes,
/// and the bytes that it keeps; the error of the first piece that cannot be
/// written, if there is one.
pub open spec fn drained(pending: Seq<u8>, level: u32, unit: int) -> Result<
    (Seq<u8>, Seq<u8>),
    BGZFError,
>
    decreases pending.len(),
{
    if pending.len() <= unit || unit <= 0 {
        Ok((Seq::empty(), pending))
    } else {
        match compressed_block(pending.take(unit), level) {
            Ok(block) => match drained(pending.skip(unit), level, unit) {
                Ok((blocks, rest)) => Ok((block + blocks, rest)),
                Err(e) => Err(e),
            },
            Err(e) => Err(e),
        }
    }
}

/// Whether each piece of `data` decompresses to itself again once it has
/// been compressed.
pub open spec fn all_restore(data: Seq<u8>, level: u32, unit: int) -> bool
    decreases data.len(),
{
    if data.len() == 0 || unit <= 0 {
        true
    } else {
        let n = piece_length(data, unit);
        restores(data.take(n), level) && all_restore(data.skip(n), level, unit)
    }
}

/// Whether each piece that a writer emits while it holds more than `unit`
/// bytes decompresses to itself again once it has been compressed.
pub open spec fn drained_restore(pending: Seq<u8>, level: u32, unit: int) -> bool
    decreases pending.len(),
{
    if pending.len() <= unit || unit <= 0 {
        true
    } else {
        restores(pending.take(unit), level) && drained_restore(pending.skip(unit), level, unit)
    }
}

/// The place in `s` of the first block without data, a broken block or the
/// end of `s`: where reading the blocks of `s` stops.
pub open spec fn end_of_data(s: Seq<u8>) -> int
    decreases s.len(),
{
    if s.len() == 0 {
        0
    } else {
        match block_of(s) {
            Some((payload, total)) => if payload.len() == 0 || !(0 < total <= s.len()) {
                0
            } else {
                total + end_of_data(s.skip(total))
            },
            None => 0,
        }
    }
}

/// `blocks` put before the blocks of a result.
pub open spec fn after_blocks(blocks: Seq<u8>, r: Result<Seq<u8>, BGZFError>) -> Result<
    Seq<u8>,
    BGZFError,
> {
    match r {
        Ok(rest) => Ok(blocks + rest),
        Err(e) => Err(e),
    }
}

/// `blocks` put before the blocks that a writer emits.
pub open spec fn after_emitted(
    blocks: Seq<u8>,
    r: Result<(Seq<u8>, Seq<u8>), BGZFError>,
) -> Result<(Seq<u8>, Seq<u8>), BGZFError> {
    match r {
        Ok((more, rest)) => Ok((blocks + more, rest)),
        Err(e) => Err(e),
    }
}

/// A stream that was written from `data` decompresses to `data`, as long as
/// each of its pieces decompresses to itself.
pub proof fn lemma_compressed_roundtrip(data: Seq<u8>, level: u32, unit: int)
    requires
        0 < unit <= MAX_PAYLOAD_LENGTH,
        all_restore(data, level, unit),
        compressed(data, level, unit) is Ok,
    ensures
        stream_of(compressed(data, level, unit).unwrap()) == Some(data),
        end_of_data(compressed(data, level, unit).unwrap()) == compressed_body(
            data,
            level,
            unit,
        ).unwrap().len(),
    decreases data.len(),
{
    reveal(compressed_block);
    let body = compressed_body(data, level, unit).unwrap();
    let s = body + eof_marker();
    if data.len() == 0 {
        assert(s =~= eof_marker());
        assert(s.take(EOF_MARKER_LENGTH as int) =~= eof_marker());
        lemma_eof_block(s);
        assert(readable(s) =~= data);
    } else {
        let n = piece_length(data, unit);
        let piece = data.take(n);
        let stream = deflated(piece, level).unwrap();
        let block = block_bytes(n, stream, crc32(piece));
        let rest_body = compressed_body(data.skip(n), level, unit).unwrap();
        let rest = rest_body + eof_marker();
        assert(s =~= block + rest);
        lemma_block_roundtrip(piece, stream, rest);
        lemma_compressed_roundtrip(data.skip(n), level, unit);
        assert(s.skip(block.len() as int) =~= rest);
        assert(piece + data.skip(n) =~= data);
    }
}

/// The blocks of a stream that was written from `data` all hold data: the
/// end-of-file marker at its end is the first block without data, so it
/// marks the end once and nowhere else.
pub proof fn lemma_compressed_ends_with_eof(data: Seq<u8>, level: u32, unit: int)
    requires
        0 < unit <= MAX_PAYLOAD_LENGTH,
        all_restore(data, level, unit),
        compressed(data, level, unit) is Ok,
    ensures
        ({
            let stream = compressed(data, level, unit).unwrap();
            &&& stream.len() >= EOF_MARKER_LENGTH
            &&& stream.skip(stream.len() - EOF_MARKER_LENGTH) == eof_marker()
            &&& end_of_data(stream) == stream.len() - EOF_MARKER_LENGTH
        }),
{
    let body = compressed_body(data, level, unit).unwrap();
    let stream = body + eof_marker();
    lemma_compressed_roundtrip(data, level, unit);
    assert(stream.skip(stream.len() - EOF_MARKER_LENGTH) =~= eof_marker());
}

/// What a writer emits while it is given data and what it emits for the
/// bytes it kept are together the blocks of all the data.
pub proof fn lemma_drained_then_body(pending: Seq<u8>, level: u32, unit: int)
    requires
        0 < unit,
    ensures
        compressed_body(pending, level, unit) == match drained(pending, level, unit) {
            Ok((blocks, rest)) => after_blocks(blocks, compressed_body(rest, level, unit)),
            Err(e) => Err(e),
        },
    decreases pending.len(),
{
    if pending.len() > unit {
        lemma_drained_then_body(pending.skip(unit), level, unit);
        match compressed_block(pending.take(unit), level) {
            Ok(block) => match drained(pending.skip(unit), level, unit) {
                Ok((blocks, rest)) => {
                    match compressed_body(rest, level, unit) {
                        Ok(tail) => {
                            assert(block + (blocks + tail) =~= (block + blocks) + tail);
                        },
                        Err(_) => {},
                    }
                },
                Err(_) => {},
            },
            Err(_) => {},
        }
    } else {
        match compressed_body(pending, level, unit) {
            Ok(body) => {
                assert(Seq::<u8>::empty() + body =~= body);
            },
            Err(_) => {},
        }
    }
}

/// If the pieces that a writer emitted while it was given data restore,
/// and so do the pieces of the bytes it kept, then all pieces of the data
/// restore.
pub proof fn lemma_drained_restore(pending: Seq<u8>, level: u32, unit: int)
    requires
        0 < unit,
        drained_restore(pending, level, unit),
        drained(pending, level, unit) matches Ok((blocks, rest)) && all_restore(rest, level, unit),
    ensures
        all_restore(pending, level, unit),
    decreases pending.len(),
{
    if pending.len() > unit {
        lemma_drained_restore(pending.skip(unit), level, unit);
    }
}

/// What a writer has written once it was given `data` and then closed is
/// the stream that `data` is written as at once, and it decompresses to
/// `data`.
pub proof fn lemma_write_then_close(data: Seq<u8>, level: u32, unit: int)
    requires
        0 < unit <= MAX_PAYLOAD_LENGTH,
        drained_restore(data, level, unit),
        drained(data, level, unit) matches Ok((blocks, rest)) && all_restore(rest, level, unit)
            && compressed(rest, level, unit) is Ok,
    ensures
        compressed(data, level, unit) == Ok::<Seq<u8>, BGZFError>(
            drained(data, level, unit).unwrap().0 + compressed(
                drained(data, level, unit).unwrap().1,
                level,
                unit,
            ).unwrap(),
        ),
        stream_of(compressed(data, level, unit).unwrap()) == Some(data),
{
    let (blocks, rest) = drained(data, level, unit).unwrap();
    let tail = compressed_body(rest, level, unit).unwrap();
    lemma_drained_then_body(data, level, unit);
    lemma_drained_restore(data, level, unit);
    assert((blocks + tail) + eof_marker() =~= blocks + (tail + eof_marker()));
    lemma_compressed_roundtrip(data, level, unit);
}

/// Compresses `data` into a BGZF stream: blocks of `block_size` bytes of
/// data each, the last one perhaps shorter, and the end-of-file marker.
///
/// The stream decompresses to `data` again, and the end-of-file marker is
/// its only block without data.
pub fn compress(data: &[u8], level: u32, block_size: usize) -> (r: Result<Vec<u8>, BGZFError>)
    requires
        level <= MAX_LEVEL,
        0 < block_size <= MAX_PAYLOAD_LENGTH,
    ensures
        match r {
            Ok(stream) => {
                &&& compressed(data@, level, block_size as int) == Ok::<Seq<u8>, BGZFError>(
                    stream@,
                )
                &&& stream_of(stream@) == Some(data@)
                &&& stream@.len() >= EOF_MARKER_LENGTH
                &&& stream@.skip(stream@.len() - EOF_MARKER_LENGTH) == eof_marker()
                &&& end_of_data(stream@) == stream@.len() - EOF_MARKER_LENGTH
            },
            Err(e) => compressed(data@, level, block_size as int) == Err::<Seq<u8>, BGZFError>(e),
        },
{
    let mut out: Vec<u8> = Vec::new();
    let mut at: usize = 0;
    let ghost unit = block_size as int;
    assert(data@.skip(0) =~= data@);
    assert(Seq::<u8>::empty() + compressed_body(data@, level, unit).unwrap() =~= compressed_body(
        data@,
        level,
        unit,
    ).unwrap());
    while at < data.len()
        invariant
            at <= data.len(),
            level <= MAX_LEVEL,
            0 < block_size <= MAX_PAYLOAD_LENGTH,
            unit == block_size,
            compressed_body(data@, level, unit) == after_blocks(
                out@,
                compressed_body(data@.skip(at as int), level, unit),
            ),
            all_restore(data@.skip(at as int), level, unit) ==> all_restore(data@, level, unit),
        decreases data.len() - at,
    {
        let n = if block_size < data.len() - at {
            block_size
        } else {
            data.len() - at
        };
        let piece = slice_subrange(data, at, at + n);
        let ghost rest = data@.skip(at as int);
        assert(piece@ =~= rest.take(n as int));
        assert(rest.skip(n as int) =~= data@.skip(at + n));
        let ghost before = out@;
        match compress_block(&mut out, piece, level) {
            Ok(()) => {
                proof {
                    match compressed_body(data@.skip(at + n), level, unit) {
                        Ok(tail) => {
                            let block = compressed_block(piece@, level).unwrap();
                            assert(before + (block + tail) =~= (before + block) + tail);
                        },
                        Err(_) => {},
                    }
                }
            },
            Err(e) => {
                return Err(e);
            },
        }
        at = at + n;
    }
    proof {
        assert(out@ + Seq::<u8>::empty() =~= out@);
        lemma_compressed_ends_with_eof(data@, level, unit);
        lemma_compressed_roundtrip(data@, level, unit);
    }
    write_eof_marker(&mut out);
    Ok(out)
}

/// A writer of a BGZF stream that is collected in memory.
///
/// The writer keeps what it is given until it holds more than a block's
/// worth of bytes, and then writes one block after the other.  Closing it
/// writes what is left and the end-of-file marker.
pub struct BGZFWriter {
    writer: Vec<u8>,
    buffer: Vec<u8>,
    compress_block_unit: usize,
    level: u32,
}

impl BGZFWriter {
    /// The invariant of the writer: a block holds at least one byte and at
    /// most as many as the format allows, and the level is one that the
    /// compressor knows.
    pub closed spec fn wf(&self) -> bool {
        0 < self.compress_block_unit <= MAX_PAYLOAD_LENGTH && self.level <= MAX_LEVEL
    }

    /// The compressed bytes written so far.
    pub closed spec fn output(&self) -> Seq<u8> {
        self.writer@
    }

    /// The bytes that were given to the writer and wait to be compressed.
    pub closed spec fn pending(&self) -> Seq<u8> {
        self.buffer@
    }

    /// The number of bytes that a block holds.
    pub closed spec fn unit(&self) -> int {
        self.compress_block_unit as int
    }

    /// The compression level.
    pub closed spec fn level(&self) -> u32 {
        self.level
    }

    /// Makes a writer that appends to `writer` and compresses at `level`,
    /// with blocks of the default size.
    pub fn new(writer: Vec<u8>, level: u32) -> (w: BGZFWriter)
        requires
            level <= MAX_LEVEL,
        ensures
            w.wf(),
            w.output() == writer@,
            w.pending() == Seq::<u8>::empty(),
            w.unit() == DEFAULT_COMPRESS_BLOCK_UNIT,
            w.level() == level,
    {
        BGZFWriter {
            writer,
            buffer: Vec::new(),
            compress_block_unit: DEFAULT_COMPRESS_BLOCK_UNIT,
            level,
        }
    }

    /// Makes a writer that appends to `writer` and compresses at `level`,
    /// with blocks of `block_size` bytes of data.
    pub fn with_block_size(writer: Vec<u8>, level: u32, block_size: usize) -> (w: BGZFWriter)
        requires
            level <= MAX_LEVEL,
            0 < block_size <= MAX_PAYLOAD_LENGTH,
        ensures
            w.wf(),
            w.output() == writer@,
            w.pending() == Seq::<u8>::empty(),
            w.unit() == block_size,
            w.level() == level,
    {
        BGZFWriter { writer, buffer: Vec::new(), compress_block_unit: block_size, level }
    }

    /// Writes the first piece of the pending bytes as one block.
    fn write_block(&mut self) -> (r: Result<(), BGZFError>)
        requires
            old(self).wf(),
            old(self).buffer@.len() > 0,
        ensures
            final(self).wf(),
            final(self).unit() == old(self).unit(),
            final(self).level() == old(self).level(),
            restores(
                old(self).pending().take(piece_length(old(self).pending(), old(self).unit())),
                old(self).level(),
            ),
            match compressed_block(
                old(self).pending().take(piece_length(old(self).pending(), old(self).unit())),
                old(self).level(),
            ) {
                Ok(block) => r is Ok && final(self).output() == old(self).output() + block
                    && final(self).pending() == old(self).pending().skip(
                    piece_length(old(self).pending(), old(self).unit()),
                ),
                Err(e) => r == Err::<(), BGZFError>(e),
            },
    {
        let uncompressed_block_size = if self.compress_block_unit < self.buffer.len() {
            self.compress_block_unit
        } else {
            self.buffer.len()
        };
        let piece = slice_subrange(self.buffer.as_slice(), 0, uncompressed_block_size);
        assert(piece@ =~= self.buffer@.take(uncompressed_block_size as int));
        match compress_block(&mut self.writer, piece, self.level) {
            Ok(()) => {
                let rest = self.buffer.split_off(uncompressed_block_size);
                assert(rest@ =~= old(self).buffer@.skip(uncompressed_block_size as int));
                self.buffer = rest;
                Ok(())
            },
            Err(e) => Err(e),
        }
    }

    /// Takes `buf` into the stream.  Blocks are written as long as more
    /// than a block's worth of bytes is pending.
    ///
    /// After a failure the writer has written some blocks and not others.
    #[verifier::loop_isolation(false)]
    pub fn write(&mut self, buf: &[u8]) -> (r: Result<usize, BGZFError>)
        requires
            old(self).wf(),
        ensures
            final(self).wf(),
            final(self).unit() == old(self).unit(),
            final(self).level() == old(self).level(),
            r is Ok ==> drained_restore(old(self).pending() + buf@, old(self).level(), old(self).unit()),
            match drained(old(self).pending() + buf@, old(self).level(), old(self).unit()) {
                Ok((blocks, rest)) => r == Ok::<usize, BGZFError>(buf.len()) && final(self).output() == old(self).output() + blocks && final(self).pending() == rest,
                Err(e) => r == Err::<usize, BGZFError>(e),
            },
    {
        push_range(&mut self.buffer, buf, 0, buf.len());
        assert(buf@.subrange(0, buf@.len() as int) =~= buf@);
        let ghost all = self.buffer@;
        let ghost level = self.level;
        let ghost unit = self.compress_block_unit as int;
        proof {
            match drained(all, level, unit) {
                Ok((blocks, rest)) => {
                    assert(Seq::<u8>::empty() + blocks =~= blocks);
                },
                Err(_) => {},
            }
            assert(self.writer@ + Seq::<u8>::empty() =~= self.writer@);
        }
        let ghost mut emitted = Seq::<u8>::empty();
        while self.compress_block_unit < self.buffer.len()
            invariant
                self.wf(),
                self.unit() == unit,
                self.level() == level,
                self.writer@ == old(self).writer@ + emitted,
                drained(all, level, unit) == after_emitted(
                    emitted,
                    drained(self.buffer@, level, unit),
                ),
                drained_restore(self.buffer@, level, unit) ==> drained_restore(all, level, unit),
            decreases self.buffer@.len(),
        {
            let ghost pending = self.buffer@;
            match self.write_block() {
                Ok(()) => {
                    proof {
                        let block = compressed_block(pending.take(unit), level).unwrap();
                        match drained(pending.skip(unit), level, unit) {
                            Ok((blocks, rest)) => {
                                assert(emitted + (block + blocks) =~= (emitted + block) + blocks);
                            },
                            Err(_) => {},
                        }
                        assert(old(self).writer@ + emitted + block =~= old(self).writer@ + (emitted
                            + block));
                        emitted = emitted + block;
                    }
                },
                Err(e) => {
                    return Err(e);
                },
            }
        }
        proof {
            assert(emitted + Seq::<u8>::empty() =~= emitted);
        }
        Ok(buf.len())
    }

    /// Writes all pending bytes as blocks.
    ///
    /// After a failure the writer has written some blocks and not others.
    #[verifier::loop_isolation(false)]
    pub fn flush(&mut self) -> (r: Result<(), BGZFError>)
        requires
            old(self).wf(),
        ensures
            final(self).wf(),
            final(self).unit() == old(self).unit(),
            final(self).level() == old(self).level(),
            r is Ok ==> all_restore(old(self).pending(), old(self).level(), old(self).unit()),
            match compressed_body(old(self).pending(), old(self).level(), old(self).unit()) {
                Ok(body) => r is Ok && final(self).output() == old(self).output() + body && final(self).pending() == Seq::<u8>::empty(),
                Err(e) => r == Err::<(), BGZFError>(e),
            },
    {
        let ghost all = self.buffer@;
        let ghost level = self.level;
        let ghost unit = self.compress_block_unit as int;
        proof {
            match compressed_body(all, level, unit) {
                Ok(body) => {
                    assert(Seq::<u8>::empty() + body =~= body);
                },
                Err(_) => {},
            }
            assert(self.writer@ + Seq::<u8>::empty() =~= self.writer@);
        }
        let ghost mut emitted = Seq::<u8>::empty();
        while self.buffer.len() > 0
            invariant
                self.wf(),
                self.unit() == unit,
                self.level() == level,
                self.writer@ == old(self).writer@ + emitted,
                compressed_body(all, level, unit) == after_blocks(
                    emitted,
                    compressed_body(self.buffer@, level, unit),
                ),
                all_restore(self.buffer@, level, unit) ==> all_restore(all, level, unit),
            decreases self.buffer@.len(),
        {
            let ghost pending = self.buffer@;
            match self.write_block() {
                Ok(()) => {
                    proof {
                        let n = piece_length(pending, unit);
                        let block = compressed_block(pending.take(n), level).unwrap();
                        match compressed_body(pending.skip(n), level, unit) {
                            Ok(rest) => {
                                assert(emitted + (block + rest) =~= (emitted + block) + rest);
                            },
                            Err(_) => {},
                        }
                        assert(old(self).writer@ + emitted + block =~= old(self).writer@ + (emitted
                            + block));
                        emitted = emitted + block;
                    }
                },
                Err(e) => {
                    return Err(e);
                },
            }
        }
        proof {
            assert(emitted + Seq::<u8>::empty() =~= emitted);
            assert(self.buffer@ =~= Seq::<u8>::empty());
        }
        Ok(())
    }

    /// Writes all pending bytes and the end-of-file marker, and hands out
    /// the whole output.
    pub fn close(self) -> (r: Result<Vec<u8>, BGZFError>)
        requires
            self.wf(),
        ensures
            r is Ok ==> all_restore(self.pending(), self.level(), self.unit()),
            match compressed(self.pending(), self.level(), self.unit()) {
                Ok(stream) => r matches Ok(out) && out@ == self.output() + stream,
                Err(e) => r == Err::<Vec<u8>, BGZFError>(e),
            },
    {
        let mut this = self;
        match this.flush() {
            Ok(()) => {
                let mut out = this.writer;
                write_eof_marker(&mut out);
                proof {
                    let blocks = compressed_body(self.pending(), self.level(), self.unit()).unwrap();
                    assert(self.output() + blocks + eof_marker() =~= self.output() + (blocks
                        + eof_marker()));
                }
                Ok(out)
            },
            Err(e) => Err(e),
        }
    }

    /// Hands out the compressed bytes written so far and starts the output
    /// anew, so that a long stream need not be held in memory as a whole.
    pub fn take_output(&mut self) -> (out: Vec<u8>)
        requires
            old(self).wf(),
        ensures
            final(self).wf(),
            out@ == old(self).output(),
            final(self).output() == Seq::<u8>::empty(),
            final(self).pending() == old(self).pending(),
            final(self).unit() == old(self).unit(),
            final(self).level() == old(self).level(),
    {
        let mut out: Vec<u8> = Vec::new();
        std::mem::swap(&mut out, &mut self.writer);
        out
    }
}

} // verus!
