//! Reading BGZF streams: all at once, and step by step with a seek to any
//! virtual file offset.

use crate::block::{block_of, decode_block, lemma_block_bounds};
use crate::bytes::push_range;
use crate::error::BGZFError;
use crate::header::MAX_PAYLOAD_LENGTH;
use crate::vfo::{vfo_coffset, vfo_of, vfo_pack, vfo_unpack, vfo_uoffset};
use vstd::prelude::*;
use vstd::slice::slice_subrange;

verus! {

/// The data of the blocks that `s` starts with, as far as they can be read:
/// up to the end of `s`, a block without data, or a block that is broken.
pub open spec fn readable(s: Seq<u8>) -> Seq<u8>
    decreases s.len(),
{
    if s.len() == 0 {
        Seq::empty()
    } else {
        match block_of(s) {
            Some((payload, total)) => if payload.len() == 0 || !(0 < total <= s.len()) {
                Seq::empty()
            } else {
                payload + readable(s.skip(total))
            },
            None => Seq::empty(),
        }
    }
}

/// Whether reading the blocks of `s` ends at the end of `s` or at a block
/// without data, and not at a broken block.
pub open spec fn intact(s: Seq<u8>) -> bool
    decreases s.len(),
{
    if s.len() == 0 {
        true
    } else {
        match block_of(s) {
            Some((payload, total)) => payload.len() == 0 || (0 < total <= s.len() && intact(
                s.skip(total),
            )),
            None => false,
        }
    }
}

/// The decompressed form of the BGZF stream `s`: the data of its blocks one
/// after the other, up to the end of `s` or the first block without data;
/// nothing if a block before that is broken.
pub open spec fn stream_of(s: Seq<u8>) -> Option<Seq<u8>> {
    if intact(s) {
        Some(readable(s))
    } else {
        None
    }
}

/// Whether the first `n` bytes of `r` are a line: they end with the first
/// `delim` in `r`, or they are all of `r` if `delim` does not occur.
pub open spec fn is_line(r: Seq<u8>, n: int, delim: u8) -> bool {
    &&& 0 <= n <= r.len()
    &&& forall|i: int| 0 <= i < n - 1 ==> r[i] != delim
    &&& if n > 0 && r[n - 1] == delim {
        true
    } else {
        n == r.len()
    }
}

/// Reading on by `n` bytes after `done` bytes without `delim` gives a line
/// if the last of the bytes is the first `delim`, and `done + n` bytes
/// without `delim` otherwise.
proof fn lemma_line_step(all: Seq<u8>, done: int, n: int, delim: u8, found: bool)
    requires
        0 <= done,
        0 < n,
        done + n <= all.len(),
        forall|i: int| 0 <= i < done ==> all[i] != delim,
        forall|i: int| 0 <= i < n - 1 ==> all.skip(done)[i] != delim,
        found == (all.skip(done)[n - 1] == delim),
    ensures
        all.take(done) + all.skip(done).take(n) == all.take(done + n),
        all.skip(done).skip(n) == all.skip(done + n),
        found ==> is_line(all, done + n, delim),
        !found ==> forall|i: int| 0 <= i < done + n ==> all[i] != delim,
{
    assert(all.take(done) + all.skip(done).take(n) =~= all.take(done + n));
    assert(all.skip(done).skip(n) =~= all.skip(done + n));
    assert forall|i: int| 0 <= i < done + n - 1 implies all[i] != delim by {
        if i >= done {
            assert(all.skip(done)[i - done] == all[i]);
        }
    }
    assert(all.skip(done)[n - 1] == all[done + n - 1]);
}

/// Decompresses a whole BGZF stream.
pub fn decompress(data: &[u8]) -> (r: Result<Vec<u8>, BGZFError>)
    ensures
        match r {
            Ok(out) => stream_of(data@) == Some(out@),
            Err(e) => e == BGZFError::MalformedBlock && stream_of(data@) is None,
        },
{
    let mut out: Vec<u8> = Vec::new();
    let mut at: usize = 0;
    assert(data@.skip(0) =~= data@);
    while at < data.len()
        invariant
            at <= data.len(),
            intact(data@) == intact(data@.skip(at as int)),
            readable(data@) == out@ + readable(data@.skip(at as int)),
        decreases data.len() - at,
    {
        let rest = slice_subrange(data, at, data.len());
        assert(rest@ =~= data@.skip(at as int));
        match decode_block(rest) {
            Ok((payload, total)) => {
                if payload.len() == 0 {
                    assert(out@ + Seq::<u8>::empty() =~= out@);
                    return Ok(out);
                }
                assert(rest@.skip(total as int) =~= data@.skip(at + total));
                let ghost before = out@;
                push_range(&mut out, payload.as_slice(), 0, payload.len());
                assert(payload@.subrange(0, payload@.len() as int) =~= payload@);
                assert(before + (payload@ + readable(data@.skip(at + total))) =~= out@ + readable(
                    data@.skip(at + total),
                ));
                at = at + total;
            },
            Err(e) => {
                return Err(e);
            },
        }
    }
    assert(out@ + Seq::<u8>::empty() =~= out@);
    Ok(out)
}

/// The data that is still to be read from the byte at offset `uoffset` of
/// the block at `coffset` on, before the stream ends: at its end, at a
/// block without data or at a broken block.
pub open spec fn data_at(source: Seq<u8>, coffset: int, uoffset: int) -> Seq<u8> {
    if 0 <= coffset <= source.len() && 0 <= uoffset <= readable(source.skip(coffset)).len() {
        readable(source.skip(coffset)).skip(uoffset)
    } else {
        Seq::empty()
    }
}

/// The number of bytes from offset `uoffset` on that the block at
/// `coffset` holds.
pub open spec fn block_rest(source: Seq<u8>, coffset: int, uoffset: int) -> int {
    if 0 <= coffset < source.len() {
        match block_of(source.skip(coffset)) {
            Some((payload, total)) => if uoffset <= payload.len() {
                payload.len() - uoffset
            } else {
                0
            },
            None => 0,
        }
    } else {
        0
    }
}

/// The place that is `n` bytes after offset `uoffset` of the block at
/// `coffset`, as a block offset and an offset inside that block.  The
/// place after the last byte of a block is the start of the next block.
/// No place lies after the end of the stream, after a block without data
/// or after a broken block.
pub open spec fn advance(source: Seq<u8>, coffset: int, uoffset: int, n: int) -> (int, int)
    decreases source.len() - coffset,
{
    if coffset < 0 || coffset >= source.len() {
        (coffset, 0)
    } else {
        match block_of(source.skip(coffset)) {
            Some((payload, total)) => if uoffset + n < payload.len() {
                (coffset, uoffset + n)
            } else if payload.len() == 0 || total <= 0 || coffset + total > source.len() {
                (coffset, 0)
            } else {
                advance(source, coffset + total, 0, uoffset + n - payload.len())
            },
            None => (coffset, 0),
        }
    }
}

/// The place that a virtual file offset names in `source`.  There is no
/// such place if the block offset lies beyond the stream or the block has
/// no byte at the offset inside it, and none if there is no good block at
/// the block offset.
pub open spec fn seek_place(source: Seq<u8>, vfo: u64) -> Result<(int, int), BGZFError> {
    let coffset = vfo_coffset(vfo) as int;
    let uoffset = vfo_uoffset(vfo) as int;
    if coffset >= source.len() {
        Err(BGZFError::InvalidVFO)
    } else {
        match block_of(source.skip(coffset)) {
            Some((payload, total)) => if uoffset >= payload.len() {
                Err(BGZFError::InvalidVFO)
            } else {
                Ok((coffset, uoffset))
            },
            None => Err(BGZFError::MalformedBlock),
        }
    }
}

/// The length of the first line of `r`: up to and with the first `delim`,
/// or all of `r` if `delim` does not occur.
pub open spec fn line_length(r: Seq<u8>, delim: u8) -> int
    decreases r.len(),
{
    if r.len() == 0 {
        0
    } else if r[0] == delim {
        1
    } else {
        1 + line_length(r.skip(1), delim)
    }
}

/// A line is as long as the first line.
pub proof fn lemma_line_length(r: Seq<u8>, n: int, delim: u8)
    requires
        is_line(r, n, delim),
    ensures
        n == line_length(r, delim),
    decreases r.len(),
{
    if r.len() > 0 && r[0] != delim {
        assert(n >= 1);
        assert forall|i: int| 0 <= i < n - 2 implies r.skip(1)[i] != delim by {
            assert(r.skip(1)[i] == r[i + 1]);
        }
        if n - 1 > 0 {
            assert(r.skip(1)[n - 2] == r[n - 1]);
        }
        lemma_line_length(r.skip(1), n - 1, delim);
    }
}

/// The place that is no byte further is the place itself, where it is the
/// start of a block.
pub proof fn lemma_advance_none(source: Seq<u8>, coffset: int)
    ensures
        advance(source, coffset, 0, 0) == (coffset, 0int),
{
}

/// Going on by `a` bytes and then by `b` bytes is going on by `a + b`
/// bytes.
pub proof fn lemma_advance_add(source: Seq<u8>, coffset: int, uoffset: int, a: int, b: int)
    requires
        0 <= uoffset,
        0 <= a,
        0 <= b,
    ensures
        ({
            let (c, u) = advance(source, coffset, uoffset, a);
            advance(source, c, u, b) == advance(source, coffset, uoffset, a + b)
        }),
    decreases source.len() - coffset,
{
    if 0 <= coffset < source.len() {
        match block_of(source.skip(coffset)) {
            Some((payload, total)) => {
                lemma_block_bounds(source.skip(coffset));
                if uoffset + a >= payload.len() && payload.len() > 0 {
                    lemma_advance_add(
                        source,
                        coffset + total,
                        0,
                        uoffset + a - payload.len(),
                        b,
                    );
                }
            },
            None => {},
        }
    }
}

/// The data at the place that is `n` bytes further is the data at the
/// place, less its first `n` bytes.
pub proof fn lemma_advance_data(source: Seq<u8>, coffset: int, uoffset: int, n: int)
    requires
        0 <= coffset <= source.len(),
        0 <= uoffset,
        0 <= n,
        uoffset + n <= readable(source.skip(coffset)).len(),
    ensures
        ({
            let (c, u) = advance(source, coffset, uoffset, n);
            &&& data_at(source, c, u) == data_at(source, coffset, uoffset).skip(n)
            &&& intact(source.skip(c)) == intact(source.skip(coffset))
            &&& 0 <= c <= source.len()
            &&& 0 <= u
        }),
    decreases source.len() - coffset,
{
    let s = source.skip(coffset);
    let all = readable(s);
    if coffset < source.len() {
        match block_of(s) {
            Some((payload, total)) => {
                lemma_block_bounds(s);
                if uoffset + n < payload.len() {
                    assert(all.skip(uoffset).skip(n) =~= all.skip(uoffset + n));
                } else if payload.len() > 0 {
                    let rest = readable(source.skip(coffset + total));
                    assert(s.skip(total) =~= source.skip(coffset + total));
                    assert(all == payload + rest);
                    lemma_advance_data(source, coffset + total, 0, uoffset + n - payload.len());
                    assert(rest.skip(0) =~= rest);
                    assert(all.skip(uoffset).skip(n) =~= rest.skip(uoffset + n - payload.len()));
                } else {
                    assert(all.skip(0) =~= all);
                }
            },
            None => {
                assert(all.skip(0) =~= all);
            },
        }
    } else {
        assert(all.skip(0) =~= all);
    }
}

/// A reader of a BGZF stream that is held in memory.
///
/// The reader holds the decompressed data of one block.  When the last byte
/// of a block has been read it moves on to the next block at once, so that
/// its place is always given as an offset inside a block that has data
/// there, or as offset 0 of the place where the stream ends.
pub struct BGZFReader {
    data: Vec<u8>,
    block_offset: usize,
    next_offset: usize,
    block: Vec<u8>,
    position: usize,
    broken: bool,
}

impl BGZFReader {
    /// The invariant of the reader: the block that it holds is the block
    /// of the stream at its place.
    pub closed spec fn wf(&self) -> bool {
        &&& self.block_offset <= self.next_offset <= self.data@.len()
        &&& self.position <= self.block@.len() <= MAX_PAYLOAD_LENGTH
        &&& if self.block@.len() > 0 {
            &&& self.position < self.block@.len()
            &&& !self.broken
            &&& block_of(self.data@.skip(self.block_offset as int)) == Some(
                (self.block@, self.next_offset - self.block_offset),
            )
        } else if self.broken {
            self.block_offset < self.data@.len() && block_of(
                self.data@.skip(self.block_offset as int),
            ) is None
        } else {
            self.block_offset == self.data@.len() || (block_of(
                self.data@.skip(self.block_offset as int),
            ) matches Some((payload, total)) && payload.len() == 0)
        }
    }

    /// The compressed stream that is read.
    pub closed spec fn source(&self) -> Seq<u8> {
        self.data@
    }

    /// The offset in the compressed stream of the block that the reader is
    /// in.
    pub closed spec fn coffset(&self) -> nat {
        self.block_offset as nat
    }

    /// The offset of the next byte inside the decompressed block.
    pub closed spec fn uoffset(&self) -> nat {
        self.position as nat
    }

    /// The data that is still to be read before the stream ends, at its end,
    /// at a block without data or at a broken block.
    pub open spec fn remaining(&self) -> Seq<u8> {
        data_at(self.source(), self.coffset() as int, self.uoffset() as int)
    }

    /// Whether the stream ends at a broken block, which is reported once all
    /// the data before it has been read.
    pub open spec fn fails(&self) -> bool {
        !intact(self.source().skip(self.coffset() as int))
    }

    /// What is left to read and whether reading fails, in terms of the
    /// block that the reader holds.
    proof fn lemma_view(&self)
        requires
            self.wf(),
        ensures
            self.remaining() == if self.block@.len() == 0 {
                Seq::<u8>::empty()
            } else {
                self.block@.skip(self.position as int) + readable(
                    self.data@.skip(self.next_offset as int),
                )
            },
            self.fails() == (self.broken || (self.block@.len() > 0 && !intact(
                self.data@.skip(self.next_offset as int),
            ))),
            self.block_rest_here() == self.block@.len() - self.position,
    {
        let s = self.data@.skip(self.block_offset as int);
        let all = readable(s);
        if self.block@.len() > 0 {
            lemma_block_bounds(s);
            let total = self.next_offset - self.block_offset;
            assert(s.skip(total) =~= self.data@.skip(self.next_offset as int));
            let rest = readable(self.data@.skip(self.next_offset as int));
            assert(all == self.block@ + rest);
            assert(all.skip(self.position as int) =~= self.block@.skip(self.position as int)
                + rest);
        } else {
            assert(all.skip(0) =~= all);
        }
    }

    /// The number of bytes that are left to read in the block that the
    /// reader is in.
    pub open spec fn block_rest_here(&self) -> int {
        block_rest(self.source(), self.coffset() as int, self.uoffset() as int)
    }

    /// Moves to the block at `at`.
    fn load_block(&mut self, at: usize)
        requires
            at <= old(self).data@.len(),
        ensures
            final(self).wf(),
            final(self).data == old(self).data,
            final(self).block_offset == at,
            final(self).position == 0,
            final(self).broken == (at < old(self).data@.len() && block_of(
                old(self).data@.skip(at as int),
            ) is None),
            !final(self).broken && at < old(self).data@.len() ==> block_of(
                old(self).data@.skip(at as int),
            ) == Some((final(self).block@, final(self).next_offset - at)),
            at == old(self).data@.len() ==> final(self).block@.len() == 0,
    {
        self.block_offset = at;
        self.position = 0;
        if at == self.data.len() {
            self.block = Vec::new();
            self.next_offset = at;
            self.broken = false;
            return ;
        }
        let rest = slice_subrange(self.data.as_slice(), at, self.data.len());
        assert(rest@ =~= self.data@.skip(at as int));
        match decode_block(rest) {
            Ok((payload, total)) => {
                self.block = payload;
                self.next_offset = at + total;
                self.broken = false;
            },
            Err(_) => {
                self.block = Vec::new();
                self.next_offset = at;
                self.broken = true;
            },
        }
    }

    /// Opens a reader on a BGZF stream and reads its first block.
    pub fn new(data: Vec<u8>) -> (r: Result<BGZFReader, BGZFError>)
        ensures
            match r {
                Ok(reader) => reader.wf() && reader.source() == data@ && reader.coffset() == 0
                    && reader.uoffset() == 0 && (data@.len() == 0 || block_of(data@) is Some),
                Err(e) => e == BGZFError::MalformedBlock && data@.len() > 0 && block_of(data@)
                    is None,
            },
    {
        let mut reader = BGZFReader {
            data,
            block_offset: 0,
            next_offset: 0,
            block: Vec::new(),
            position: 0,
            broken: false,
        };
        assert(reader.data@.skip(0) =~= reader.data@);
        reader.load_block(0);
        if reader.broken {
            Err(BGZFError::MalformedBlock)
        } else {
            Ok(reader)
        }
    }

    /// The virtual file offset of the next byte.
    pub fn tell_vfo(&self) -> (vfo: u64)
        requires
            self.wf(),
        ensures
            vfo == vfo_of(self.coffset() as u64, self.uoffset() as u64),
    {
        vfo_pack(self.block_offset as u64, self.position as u64)
    }

    /// Moves to the byte at a virtual file offset: reads the block at its
    /// block offset and goes to its offset inside that block.
    ///
    /// Fails with `MalformedBlock` if there is no good block at the block
    /// offset, and with `InvalidVFO` if the block offset lies beyond the
    /// stream or the block has no byte at the offset inside it.  After a
    /// failure the reader is at the end of its stream.
    pub fn seek_vfo(&mut self, vfo: u64) -> (r: Result<(), BGZFError>)
        requires
            old(self).wf(),
        ensures
            final(self).wf(),
            final(self).source() == old(self).source(),
            match r {
                Ok(()) => seek_place(old(self).source(), vfo) == Ok::<(int, int), BGZFError>(
                    (final(self).coffset() as int, final(self).uoffset() as int),
                ),
                Err(e) => {
                    &&& seek_place(old(self).source(), vfo) == Err::<(int, int), BGZFError>(e)
                    &&& final(self).coffset() == old(self).source().len()
                    &&& final(self).uoffset() == 0
                },
            },
    {
        let (coffset, uoffset) = vfo_unpack(vfo);
        if coffset >= self.data.len() as u64 {
            self.close_stream();
            return Err(BGZFError::InvalidVFO);
        }
        self.load_block(coffset as usize);
        if self.broken {
            self.close_stream();
            return Err(BGZFError::MalformedBlock);
        }
        if uoffset as usize >= self.block.len() {
            self.close_stream();
            return Err(BGZFError::InvalidVFO);
        }
        self.position = uoffset as usize;
        Ok(())
    }

    /// Puts the reader at the end of its stream.
    fn close_stream(&mut self)
        ensures
            final(self).wf(),
            final(self).data == old(self).data,
            final(self).block_offset == old(self).data@.len(),
            final(self).position == 0,
    {
        self.block = Vec::new();
        self.block_offset = self.data.len();
        self.next_offset = self.data.len();
        self.position = 0;
        self.broken = false;
    }

    /// Reads up to `limit` bytes from the block that the reader is in and
    /// appends them to `out`.  Gives the number of bytes read, which is 0
    /// only if `limit` is 0 or the stream has ended.
    ///
    /// A broken block is reported by the first call after all data before
    /// it has been read, and by every call from then on.
    pub fn read(&mut self, limit: usize, out: &mut Vec<u8>) -> (r: Result<usize, BGZFError>)
        requires
            old(self).wf(),
        ensures
            final(self).wf(),
            final(self).source() == old(self).source(),
            final(self).fails() == old(self).fails(),
            match r {
                Ok(n) => {
                    &&& !(old(self).remaining().len() == 0 && old(self).fails())
                    &&& n == if limit < old(self).block_rest_here() {
                        limit as int
                    } else {
                        old(self).block_rest_here()
                    }
                    &&& n <= old(self).remaining().len()
                    &&& final(out)@ == old(out)@ + old(self).remaining().take(n as int)
                    &&& final(self).remaining() == old(self).remaining().skip(n as int)
                    &&& (final(self).coffset() as int, final(self).uoffset() as int) == advance(
                        old(self).source(),
                        old(self).coffset() as int,
                        old(self).uoffset() as int,
                        n as int,
                    )
                },
                Err(e) => {
                    &&& e == BGZFError::MalformedBlock
                    &&& old(self).remaining().len() == 0 && old(self).fails()
                    &&& final(out)@ == old(out)@
                    &&& final(self).coffset() == old(self).coffset()
                    &&& final(self).uoffset() == old(self).uoffset()
                },
            },
    {
        proof {
            self.lemma_view();
        }
        if self.broken {
            return Err(BGZFError::MalformedBlock);
        }
        if self.block.len() == 0 {
            proof {
                assert(old(self).remaining().take(0) =~= Seq::<u8>::empty());
                assert(old(out)@ + Seq::<u8>::empty() =~= old(out)@);
                assert(old(self).remaining().skip(0) =~= old(self).remaining());
            }
            return Ok(0);
        }
        let available = self.block.len() - self.position;
        let n = if limit < available {
            limit
        } else {
            available
        };
        let ghost rest = readable(self.data@.skip(self.next_offset as int));
        let ghost before = self.remaining();
        push_range(out, self.block.as_slice(), self.position, self.position + n);
        assert(before.take(n as int) =~= self.block@.subrange(
            self.position as int,
            self.position + n,
        ));
        self.position = self.position + n;
        if self.position == self.block.len() {
            assert(before.skip(n as int) =~= rest);
            let next = self.next_offset;
            self.load_block(next);
            proof {
                self.lemma_view();
                lemma_advance_none(self.data@, next as int);
                lemma_block_bounds(self.data@.skip(old(self).block_offset as int));
                let s = self.data@.skip(next as int);
                if next < self.data@.len() {
                    if block_of(s) is Some {
                        lemma_block_bounds(s);
                    }
                }
            }
        } else {
            proof {
                self.lemma_view();
                assert(before.skip(n as int) =~= self.block@.skip(self.position as int) + rest);
                lemma_block_bounds(self.data@.skip(self.block_offset as int));
            }
        }
        Ok(n)
    }

    /// Reads from the block that the reader is in up to and with the next
    /// `delim`, or up to the end of the block if there is no `delim` before
    /// it.  Tells whether `delim` was found.
    fn read_part(&mut self, delim: u8, out: &mut Vec<u8>) -> (found: bool)
        requires
            old(self).wf(),
            old(self).block@.len() > 0,
        ensures
            final(self).wf(),
            final(self).data == old(self).data,
            final(self).fails() == old(self).fails(),
            old(out)@.len() < final(out)@.len() <= old(out)@.len() + old(self).remaining().len(),
            final(out)@ == old(out)@ + old(self).remaining().take(
                final(out)@.len() - old(out)@.len(),
            ),
            final(self).remaining() == old(self).remaining().skip(
                final(out)@.len() - old(out)@.len(),
            ),
            (final(self).coffset() as int, final(self).uoffset() as int) == advance(
                old(self).source(),
                old(self).coffset() as int,
                old(self).uoffset() as int,
                final(out)@.len() - old(out)@.len(),
            ),
            forall|i: int|
                0 <= i < final(out)@.len() - old(out)@.len() - 1 ==> old(self).remaining()[i]
                    != delim,
            found == (old(self).remaining()[final(out)@.len() - old(out)@.len() - 1] == delim),
    {
        proof {
            self.lemma_view();
            lemma_block_bounds(self.data@.skip(self.block_offset as int));
        }
        let ghost rest = readable(self.data@.skip(self.next_offset as int));
        let ghost here = self.remaining();
        let from = self.position;
        let mut to: usize = from;
        while to < self.block.len() && self.block[to] != delim
            invariant
                from <= to <= self.block@.len(),
                forall|i: int| from <= i < to ==> self.block@[i] != delim,
            decreases self.block@.len() - to,
        {
            to += 1;
        }
        let found = to < self.block.len();
        if found {
            to += 1;
        }
        let ghost n = to - from;
        push_range(out, self.block.as_slice(), from, to);
        assert(here.take(n) =~= self.block@.subrange(from as int, to as int));
        assert(forall|i: int| 0 <= i < n ==> here[i] == self.block@[from + i]);
        self.position = to;
        if self.position == self.block.len() {
            assert(here.skip(n) =~= rest);
            let next = self.next_offset;
            self.load_block(next);
            proof {
                self.lemma_view();
                lemma_advance_none(self.data@, next as int);
            }
        } else {
            proof {
                self.lemma_view();
                assert(here.skip(n) =~= self.block@.skip(self.position as int) + rest);
            }
        }
        found
    }

    /// Reads up to and with the next `delim`, or up to the end of the stream
    /// if there is no `delim` before it, and appends what was read to `out`.
    /// Gives the number of bytes read.
    ///
    /// Fails if a broken block stands before the next `delim`; the data
    /// before the broken block is then appended all the same.
    pub fn read_until(&mut self, delim: u8, out: &mut Vec<u8>) -> (r: Result<usize, BGZFError>)
        requires
            old(self).wf(),
        ensures
            final(self).wf(),
            final(self).source() == old(self).source(),
            final(self).fails() == old(self).fails(),
            match r {
                Ok(n) => {
                    &&& n == line_length(old(self).remaining(), delim)
                    &&& is_line(old(self).remaining(), n as int, delim)
                    &&& final(out)@ == old(out)@ + old(self).remaining().take(n as int)
                    &&& final(self).remaining() == old(self).remaining().skip(n as int)
                    &&& (final(self).coffset() as int, final(self).uoffset() as int) == advance(
                        old(self).source(),
                        old(self).coffset() as int,
                        old(self).uoffset() as int,
                        n as int,
                    )
                    &&& n == old(self).remaining().len() && (n == 0 || old(self).remaining()[n
                        - 1] != delim) ==> !old(self).fails()
                },
                Err(e) => {
                    &&& e == BGZFError::MalformedBlock
                    &&& old(self).fails()
                    &&& is_line(
                        old(self).remaining(),
                        old(self).remaining().len() as int,
                        delim,
                    )
                    &&& old(self).remaining().len() == 0 || old(self).remaining().last() != delim
                    &&& final(out)@ == old(out)@ + old(self).remaining()
                    &&& final(self).remaining() == Seq::<u8>::empty()
                    &&& (final(self).coffset() as int, final(self).uoffset() as int) == advance(
                        old(self).source(),
                        old(self).coffset() as int,
                        old(self).uoffset() as int,
                        old(self).remaining().len() as int,
                    )
                },
            },
    {
        let ghost all = self.remaining();
        let ghost c0 = self.block_offset as int;
        let ghost u0 = self.position as int;
        let start = out.len();
        proof {
            assert(all.take(0) =~= Seq::<u8>::empty());
            assert(out@ + Seq::<u8>::empty() =~= out@);
            assert(all.skip(0) =~= all);
            self.lemma_view();
            if self.block@.len() > 0 {
                lemma_block_bounds(self.data@.skip(c0));
            } else {
                lemma_advance_none(self.data@, c0);
            }
        }
        loop
            invariant
                self.wf(),
                self.data == old(self).data,
                self.fails() == old(self).fails(),
                all == old(self).remaining(),
                c0 == old(self).coffset(),
                u0 == old(self).uoffset(),
                start == old(out)@.len(),
                start <= out@.len() <= start + all.len(),
                out@ == old(out)@ + all.take(out@.len() - start),
                self.remaining() == all.skip(out@.len() - start),
                (self.block_offset as int, self.position as int) == advance(
                    self.data@,
                    c0,
                    u0,
                    out@.len() - start,
                ),
                forall|i: int| 0 <= i < out@.len() - start ==> all[i] != delim,
            decreases self.remaining().len(),
        {
            let ghost done = out@.len() - start;
            proof {
                self.lemma_view();
            }
            if self.broken {
                proof {
                    assert(all.take(done) =~= all);
                }
                return Err(BGZFError::MalformedBlock);
            }
            if self.block.len() == 0 {
                proof {
                    lemma_line_length(all, done, delim);
                }
                return Ok(out.len() - start);
            }
            let ghost before = out@;
            let ghost c1 = self.block_offset as int;
            let ghost u1 = self.position as int;
            let found = self.read_part(delim, out);
            proof {
                let n = out@.len() - before.len();
                lemma_line_step(all, done, n, delim, found);
                lemma_advance_add(self.data@, c0, u0, done, n);
                if found {
                    lemma_line_length(all, done + n, delim);
                }
            }
            if found {
                return Ok(out.len() - start);
            }
        }
    }
}

} // verus!
