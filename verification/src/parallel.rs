//! Decompressing the blocks of a stream apart from each other.
//!
//! A block tells its length in its header, so a stream can be cut into
//! frames without decompressing anything.  The frames can then be
//! decompressed in any order, or at the same time, and their data be put
//! together in the order of the frames.  What comes out is what reading the
//! stream block after block gives.

use crate::block::{block_of, decode_block, frame_block, frame_length, lemma_frame_alone};
use crate::bytes::push_range;
use crate::error::BGZFError;
use crate::read::{intact, readable, stream_of};
use vstd::prelude::*;
use vstd::slice::slice_subrange;

verus! {

/// The frames that `s` is cut into, going by the headers of its blocks
/// alone, and whether all of `s` was cut into frames.  Cutting stops at the
/// first place where no whole block stands.
pub open spec fn frames_of(s: Seq<u8>) -> (Seq<Seq<u8>>, bool)
    decreases s.len(),
{
    if s.len() == 0 {
        (Seq::empty(), true)
    } else {
        match frame_length(s) {
            Some(total) => if 0 < total <= s.len() {
                let (rest, complete) = frames_of(s.skip(total));
                (seq![s.take(total)] + rest, complete)
            } else {
                (Seq::empty(), false)
            },
            None => (Seq::empty(), false),
        }
    }
}

/// The data of the block that is all of `frame`, or nothing if the frame
/// holds no good block.
pub open spec fn frame_payload(frame: Seq<u8>) -> Option<Seq<u8>> {
    match block_of(frame) {
        Some((payload, total)) => Some(payload),
        None => None,
    }
}

/// The data of each of the frames.
pub open spec fn frame_payloads(frames: Seq<Seq<u8>>) -> Seq<Option<Seq<u8>>> {
    Seq::new(frames.len(), |i: int| frame_payload(frames[i]))
}

/// The data of the frames put together in their order: up to the first
/// frame without data, or to the last frame if the stream was cut into
/// frames as a whole.  Nothing if a frame before that is broken, or if the
/// frames run out where the stream could not be cut further.
pub open spec fn joined(payloads: Seq<Option<Seq<u8>>>, complete: bool) -> Option<Seq<u8>>
    decreases payloads.len(),
{
    if payloads.len() == 0 {
        if complete {
            Some(Seq::empty())
        } else {
            None
        }
    } else {
        match payloads[0] {
            Some(payload) => if payload.len() == 0 {
                Some(Seq::empty())
            } else {
                match joined(payloads.skip(1), complete) {
                    Some(rest) => Some(payload + rest),
                    None => None,
                }
            },
            None => None,
        }
    }
}

/// What the vectors hold.
pub open spec fn payload_views(results: Seq<Option<Vec<u8>>>) -> Seq<Option<Seq<u8>>> {
    Seq::new(
        results.len(),
        |i: int|
            match results[i] {
                Some(payload) => Some(payload@),
                None => None,
            },
    )
}

/// The frames of `data` that lie between the given places.
pub open spec fn frames_between(data: Seq<u8>, ranges: Seq<(usize, usize)>) -> Seq<Seq<u8>> {
    Seq::new(ranges.len(), |i: int| data.subrange(ranges[i].0 as int, ranges[i].1 as int))
}

/// Decompressing the frames of a stream apart and putting their data
/// together gives what reading the stream block after block gives.
pub proof fn lemma_frames_give_the_stream(s: Seq<u8>)
    requires
        s.len() <= usize::MAX,
    ensures
        joined(frame_payloads(frames_of(s).0), frames_of(s).1) == stream_of(s),
    decreases s.len(),
{
    lemma_frame_alone(s);
    if s.len() > 0 {
        match frame_length(s) {
            Some(total) => {
                let (rest, complete) = frames_of(s.skip(total));
                let frames = seq![s.take(total)] + rest;
                lemma_frames_give_the_stream(s.skip(total));
                assert(frames_of(s).0 == frames);
                assert(frame_payloads(frames).skip(1) =~= frame_payloads(rest));
                assert(frame_payloads(frames)[0] == frame_payload(s.take(total)));
                match block_of(s) {
                    Some((payload, length)) => {
                        assert(length == total);
                        if payload.len() > 0 {
                            assert(readable(s) == payload + readable(s.skip(total)));
                            assert(intact(s) == intact(s.skip(total)));
                        }
                    },
                    None => {},
                }
            },
            None => {
                assert(frame_payloads(Seq::<Seq<u8>>::empty()) =~= Seq::empty());
            },
        }
    } else {
        assert(frame_payloads(Seq::<Seq<u8>>::empty()) =~= Seq::empty());
    }
}

/// Cuts a stream into frames without decompressing it.  Gives the places
/// of the frames, and whether all of the stream was cut into frames.
pub fn split_frames(data: &[u8]) -> (r: (Vec<(usize, usize)>, bool))
    ensures
        frames_between(data@, r.0@) == frames_of(data@).0,
        r.1 == frames_of(data@).1,
        forall|i: int| 0 <= i < r.0@.len() ==> (#[trigger] r.0@[i]).0 < r.0@[i].1 <= data.len(),
{
    let mut ranges: Vec<(usize, usize)> = Vec::new();
    let mut at: usize = 0;
    assert(data@.skip(0) =~= data@);
    assert(frames_between(data@, ranges@) + frames_of(data@).0 =~= frames_of(data@).0);
    while at < data.len()
        invariant
            at <= data.len(),
            frames_of(data@).0 == frames_between(data@, ranges@) + frames_of(
                data@.skip(at as int),
            ).0,
            frames_of(data@).1 == frames_of(data@.skip(at as int)).1,
            forall|i: int|
                0 <= i < ranges@.len() ==> (#[trigger] ranges@[i]).0 < ranges@[i].1 <= data.len(),
        decreases data.len() - at,
    {
        let rest = slice_subrange(data, at, data.len());
        assert(rest@ =~= data@.skip(at as int));
        match frame_block(rest) {
            Ok(total) => {
                let ghost before = ranges@;
                ranges.push((at, at + total));
                proof {
                    let tail = frames_of(data@.skip(at + total)).0;
                    assert(rest@.skip(total as int) =~= data@.skip(at + total));
                    assert(rest@.take(total as int) =~= data@.subrange(at as int, at + total));
                    assert(frames_between(data@, ranges@) =~= frames_between(data@, before).push(
                        rest@.take(total as int),
                    ));
                    assert(frames_between(data@, before) + (seq![rest@.take(total as int)] + tail)
                        =~= frames_between(data@, ranges@) + tail);
                }
                at = at + total;
            },
            Err(_) => {
                assert(frames_between(data@, ranges@) + Seq::<Seq<u8>>::empty()
                    =~= frames_between(data@, ranges@));
                return (ranges, false);
            },
        }
    }
    assert(frames_between(data@, ranges@) + Seq::<Seq<u8>>::empty() =~= frames_between(
        data@,
        ranges@,
    ));
    (ranges, true)
}

/// Decompresses one frame that was cut off a stream.
pub fn decode_frame(frame: &[u8]) -> (r: Option<Vec<u8>>)
    ensures
        match r {
            Some(payload) => frame_payload(frame@) == Some(payload@),
            None => frame_payload(frame@) is None,
        },
{
    match decode_block(frame) {
        Ok((payload, _)) => Some(payload),
        Err(_) => None,
    }
}

/// Puts the data of decompressed frames together in the order of the
/// frames.  A frame that could not be decompressed is given as nothing.
pub fn join_frames(results: &Vec<Option<Vec<u8>>>, complete: bool) -> (r: Result<
    Vec<u8>,
    BGZFError,
>)
    ensures
        match r {
            Ok(out) => joined(payload_views(results@), complete) == Some(out@),
            Err(e) => e == BGZFError::MalformedBlock && joined(payload_views(results@), complete)
                is None,
        },
{
    let ghost payloads = payload_views(results@);
    let mut out: Vec<u8> = Vec::new();
    let mut i: usize = 0;
    assert(payloads.skip(0) =~= payloads);
    proof {
        match joined(payloads, complete) {
            Some(all) => {
                assert(out@ + all =~= all);
            },
            None => {},
        }
    }
    while i < results.len()
        invariant
            i <= results.len(),
            payloads == payload_views(results@),
            joined(payloads, complete) == match joined(payloads.skip(i as int), complete) {
                Some(rest) => Some(out@ + rest),
                None => None,
            },
        decreases results.len() - i,
    {
        let ghost tail = payloads.skip(i as int);
        assert(tail[0] == payloads[i as int]);
        assert(tail.skip(1) =~= payloads.skip(i + 1));
        match &results[i] {
            Some(payload) => {
                if payload.len() == 0 {
                    assert(out@ + Seq::<u8>::empty() =~= out@);
                    return Ok(out);
                }
                let ghost before = out@;
                push_range(&mut out, payload.as_slice(), 0, payload.len());
                proof {
                    assert(payload@.subrange(0, payload@.len() as int) =~= payload@);
                    match joined(payloads.skip(i + 1), complete) {
                        Some(rest) => {
                            assert(before + (payload@ + rest) =~= out@ + rest);
                        },
                        None => {},
                    }
                }
            },
            None => {
                return Err(BGZFError::MalformedBlock);
            },
        }
        i += 1;
    }
    if complete {
        assert(out@ + Seq::<u8>::empty() =~= out@);
        Ok(out)
    } else {
        Err(BGZFError::MalformedBlock)
    }
}

/// Decompresses a whole stream frame by frame: cuts it into frames,
/// decompresses each frame by itself, and puts the data together.  Gives
/// what `decompress` gives.
pub fn decompress_frames(data: &[u8]) -> (r: Result<Vec<u8>, BGZFError>)
    ensures
        match r {
            Ok(out) => stream_of(data@) == Some(out@),
            Err(e) => e == BGZFError::MalformedBlock && stream_of(data@) is None,
        },
{
    let (ranges, complete) = split_frames(data);
    let mut results: Vec<Option<Vec<u8>>> = Vec::new();
    let mut i: usize = 0;
    let ghost frames = frames_of(data@).0;
    while i < ranges.len()
        invariant
            i <= ranges.len(),
            frames == frames_of(data@).0,
            frames_between(data@, ranges@) == frames,
            forall|k: int|
                0 <= k < ranges@.len() ==> (#[trigger] ranges@[k]).0 < ranges@[k].1 <= data.len(),
            results@.len() == i,
            forall|k: int|
                0 <= k < i ==> (#[trigger] payload_views(results@)[k]) == frame_payload(frames[k]),
        decreases ranges.len() - i,
    {
        let (from, to) = ranges[i];
        assert(ranges@[i as int].0 < ranges@[i as int].1 <= data.len());
        let frame = slice_subrange(data, from, to);
        assert(frame@ == frames_between(data@, ranges@)[i as int]);
        let ghost before = results@;
        let decoded = decode_frame(frame);
        results.push(decoded);
        assert forall|k: int| 0 <= k < i + 1 implies (#[trigger] payload_views(results@)[k])
            == frame_payload(frames[k]) by {
            if k < i {
                assert(payload_views(before)[k] == frame_payload(frames[k]));
                assert(results@[k] == before[k]);
            }
        }
        i += 1;
    }
    proof {
        assert(data@.len() == data.len());
        assert(frames.len() == ranges@.len());
        assert(payload_views(results@) =~= frame_payloads(frames));
        lemma_frames_give_the_stream(data@);
    }
    join_frames(&results, complete)
}

} // verus!
