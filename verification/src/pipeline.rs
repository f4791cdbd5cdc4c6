//! The order and the bound of a pipelined decompression.
//!
//! A dispatcher cuts frames off a stream and hands each, with a ticket, to
//! a worker.  The workers finish in any order.  The buffer of this module
//! keeps what they hand back and gives it to the consumer in the order of
//! the tickets.  It takes no more than a fixed number of frames at a time,
//! and once a broken frame has come to the front it gives that error to
//! every later request.

use crate::bytes::push_range;
use crate::error::BGZFError;
use crate::parallel::{
    decode_frame, frame_payload, frame_payloads, frames_between, frames_of, joined,
    lemma_frames_give_the_stream, split_frames,
};
use crate::read::stream_of;
use vstd::prelude::*;
use vstd::slice::slice_subrange;

verus! {

/// What the buffer holds for one ticket.
#[derive(Debug)]
pub enum Slot {
    /// The worker has not yet handed the frame back.
    Waiting,
    /// The frame could not be decompressed.
    Failed(BGZFError),
    /// The data of the frame.
    Done(Vec<u8>),
}

/// What the buffer holds for one ticket, as a value of the model.
pub enum SlotModel {
    Waiting,
    Failed(BGZFError),
    Done(Seq<u8>),
}

impl View for Slot {
    type V = SlotModel;

    open spec fn view(&self) -> SlotModel {
        match *self {
            Slot::Waiting => SlotModel::Waiting,
            Slot::Failed(e) => SlotModel::Failed(e),
            Slot::Done(payload) => SlotModel::Done(payload@),
        }
    }
}

/// What the consumer gets when it asks for the next data.
#[derive(Debug, PartialEq, Eq)]
pub enum Taken {
    /// The data of the next frame in the order of the tickets.
    Payload(Vec<u8>),
    /// The next frame in the order of the tickets is still with its worker.
    Pending,
    /// No frame is in the buffer.
    Idle,
    /// A broken frame came to the front, now or before.
    Failed(BGZFError),
}

/// What the consumer gets, as a value of the model.
pub enum TakenModel {
    Payload(Seq<u8>),
    Pending,
    Idle,
    Failed(BGZFError),
}

impl View for Taken {
    type V = TakenModel;

    open spec fn view(&self) -> TakenModel {
        match *self {
            Taken::Payload(payload) => TakenModel::Payload(payload@),
            Taken::Pending => TakenModel::Pending,
            Taken::Idle => TakenModel::Idle,
            Taken::Failed(e) => TakenModel::Failed(e),
        }
    }
}

/// The slot that holds what a worker handed back.
pub open spec fn slot_of(result: Result<Seq<u8>, BGZFError>) -> SlotModel {
    match result {
        Ok(payload) => SlotModel::Done(payload),
        Err(e) => SlotModel::Failed(e),
    }
}

/// The state of a buffer: the number of frames it may hold at a time, the
/// number of frames it has given to the consumer, the slots of the frames
/// it holds, in the order of their tickets, and the error it is poisoned
/// with, if it is.  The ticket of the first slot is `released`.
pub struct ReorderModel {
    pub limit: nat,
    pub released: nat,
    pub waiting: Seq<SlotModel>,
    pub poison: Option<BGZFError>,
}

impl ReorderModel {
    /// The invariant of a buffer: it holds no more frames than its limit,
    /// and each ticket is a machine number.
    pub open spec fn wf(self) -> bool {
        &&& 0 < self.limit <= usize::MAX
        &&& self.waiting.len() <= self.limit
        &&& self.released + self.waiting.len() <= usize::MAX
    }

    /// Whether the buffer takes another frame.
    pub open spec fn accepts(self) -> bool {
        &&& self.poison is None
        &&& self.waiting.len() < self.limit
        &&& self.released + self.waiting.len() < usize::MAX
    }

    /// The ticket that the next frame gets.
    pub open spec fn next_ticket(self) -> nat {
        self.released + self.waiting.len()
    }

    /// The buffer after it took another frame.
    pub open spec fn submitted(self) -> ReorderModel {
        ReorderModel { waiting: self.waiting.push(SlotModel::Waiting), ..self }
    }

    /// Whether the buffer holds the frame of `ticket`.
    pub open spec fn holds(self, ticket: nat) -> bool {
        self.poison is None && self.released <= ticket < self.released + self.waiting.len()
    }

    /// The buffer after a worker handed back the frame of `ticket`.  What
    /// comes for a frame that the buffer does not hold is dropped.
    pub open spec fn completed(self, ticket: nat, result: Result<Seq<u8>, BGZFError>) -> ReorderModel {
        if self.holds(ticket) {
            ReorderModel {
                waiting: self.waiting.update(ticket - self.released, slot_of(result)),
                ..self
            }
        } else {
            self
        }
    }

    /// What the consumer gets next, and the buffer after that.  A broken
    /// frame at the front poisons the buffer, and the frames behind it are
    /// dropped.
    pub open spec fn taken(self) -> (TakenModel, ReorderModel) {
        match self.poison {
            Some(e) => (TakenModel::Failed(e), self),
            None => if self.waiting.len() == 0 {
                (TakenModel::Idle, self)
            } else {
                match self.waiting[0] {
                    SlotModel::Waiting => (TakenModel::Pending, self),
                    SlotModel::Failed(e) => (
                        TakenModel::Failed(e),
                        ReorderModel { waiting: Seq::empty(), poison: Some(e), ..self },
                    ),
                    SlotModel::Done(payload) => (
                        TakenModel::Payload(payload),
                        ReorderModel {
                            released: self.released + 1,
                            waiting: self.waiting.skip(1),
                            ..self
                        },
                    ),
                }
            },
        }
    }
}

/// A buffer keeps its invariant and its limit through each step, and
/// never holds more frames than its limit.
pub proof fn lemma_steps_keep_the_bound(
    m: ReorderModel,
    ticket: nat,
    result: Result<Seq<u8>, BGZFError>,
)
    requires
        m.wf(),
    ensures
        m.accepts() ==> m.submitted().wf() && m.submitted().limit == m.limit,
        m.completed(ticket, result).wf() && m.completed(ticket, result).limit == m.limit,
        m.taken().1.wf() && m.taken().1.limit == m.limit,
{
}

/// A poisoned buffer stays poisoned: it takes no frame, drops what workers
/// hand back, and gives its error to every request.
pub proof fn lemma_poison_stays(m: ReorderModel, ticket: nat, result: Result<Seq<u8>, BGZFError>)
    requires
        m.poison is Some,
    ensures
        !m.accepts(),
        m.completed(ticket, result) == m,
        m.taken() == (TakenModel::Failed(m.poison.unwrap()), m),
{
}

/// Once a request has failed, every later request fails with the same
/// error.
pub proof fn lemma_failure_repeats(m: ReorderModel)
    requires
        m.taken().0 is Failed,
    ensures
        m.taken().1.taken() == (m.taken().0, m.taken().1),
{
}

/// The data of a frame comes out exactly when the frame is at the front:
/// after all frames with smaller tickets, whatever the order in which the
/// workers handed the frames back.
pub proof fn lemma_front_comes_first(m: ReorderModel, payload: Seq<u8>)
    requires
        m.wf(),
    ensures
        m.taken().0 == TakenModel::Payload(payload) <==> m.poison is None && m.waiting.len() > 0
            && m.waiting[0] == SlotModel::Done(payload),
        m.taken().0 is Payload ==> m.taken().1.released == m.released + 1,
        !(m.taken().0 is Payload) ==> m.taken().1.released == m.released,
{
}

/// The buffer between the workers of a pipelined decompression and its
/// consumer.
pub struct ReorderBuffer {
    limit: usize,
    released: usize,
    slots: Vec<Slot>,
    poison: Option<BGZFError>,
}

impl View for ReorderBuffer {
    type V = ReorderModel;

    closed spec fn view(&self) -> ReorderModel {
        ReorderModel {
            limit: self.limit as nat,
            released: self.released as nat,
            waiting: Seq::new(self.slots@.len(), |i: int| self.slots@[i]@),
            poison: self.poison,
        }
    }
}

impl ReorderBuffer {
    /// The invariant of the buffer.
    pub open spec fn wf(&self) -> bool {
        self@.wf()
    }

    /// Makes an empty buffer that holds up to `limit` frames at a time.
    pub fn new(limit: usize) -> (buffer: ReorderBuffer)
        requires
            0 < limit,
        ensures
            buffer.wf(),
            buffer@ == (ReorderModel {
                limit: limit as nat,
                released: 0,
                waiting: Seq::empty(),
                poison: None,
            }),
    {
        let buffer = ReorderBuffer { limit, released: 0, slots: Vec::new(), poison: None };
        assert(buffer@.waiting =~= Seq::empty());
        buffer
    }

    /// The number of frames that the buffer holds.
    pub fn outstanding(&self) -> (n: usize)
        requires
            self.wf(),
        ensures
            n == self@.waiting.len(),
            n <= self@.limit,
    {
        self.slots.len()
    }

    /// Takes another frame, and gives its ticket.  Takes nothing if the
    /// buffer is full or poisoned.
    pub fn submit(&mut self) -> (ticket: Option<usize>)
        requires
            old(self).wf(),
        ensures
            final(self).wf(),
            match ticket {
                Some(t) => {
                    &&& old(self)@.accepts()
                    &&& t == old(self)@.next_ticket()
                    &&& final(self)@ == old(self)@.submitted()
                },
                None => !old(self)@.accepts() && final(self)@ == old(self)@,
            },
    {
        if self.poison.is_some() || self.slots.len() >= self.limit || self.released
            >= usize::MAX - self.slots.len() {
            return None;
        }
        let ticket = self.released + self.slots.len();
        self.slots.push(Slot::Waiting);
        assert(self@.waiting =~= old(self)@.waiting.push(SlotModel::Waiting));
        Some(ticket)
    }

    /// Keeps what a worker handed back for the frame of `ticket`.
    pub fn complete(&mut self, ticket: usize, result: Result<Vec<u8>, BGZFError>)
        requires
            old(self).wf(),
        ensures
            final(self).wf(),
            final(self)@ == old(self)@.completed(
                ticket as nat,
                match result {
                    Ok(payload) => Ok(payload@),
                    Err(e) => Err(e),
                },
            ),
    {
        if self.poison.is_some() || ticket < self.released || ticket - self.released
            >= self.slots.len() {
            return ;
        }
        let at = ticket - self.released;
        let slot = match result {
            Ok(payload) => Slot::Done(payload),
            Err(e) => Slot::Failed(e),
        };
        let ghost kept = slot@;
        self.slots.set(at, slot);
        assert(self@.waiting =~= old(self)@.waiting.update(at as int, kept));
    }

    /// Gives the consumer the data of the next frame in the order of the
    /// tickets, if the buffer has it.
    pub fn take(&mut self) -> (r: Taken)
        requires
            old(self).wf(),
        ensures
            final(self).wf(),
            r@ == old(self)@.taken().0,
            final(self)@ == old(self)@.taken().1,
    {
        if let Some(e) = self.poison {
            return Taken::Failed(e);
        }
        if self.slots.len() == 0 {
            return Taken::Idle;
        }
        assert(self@.waiting[0] == self.slots@[0]@);
        if let Slot::Waiting = &self.slots[0] {
            return Taken::Pending;
        }
        let slot = self.slots.remove(0);
        match slot {
            Slot::Done(payload) => {
                self.released = self.released + 1;
                assert(self@.waiting =~= old(self)@.waiting.skip(1));
                Taken::Payload(payload)
            },
            Slot::Failed(e) => {
                self.slots.clear();
                self.poison = Some(e);
                assert(self@.waiting =~= Seq::empty());
                Taken::Failed(e)
            },
            Slot::Waiting => Taken::Pending,
        }
    }
}

/// What a worker hands back for a frame.
pub open spec fn result_of(payload: Option<Seq<u8>>) -> Result<Seq<u8>, BGZFError> {
    match payload {
        Some(data) => Ok(data),
        None => Err(BGZFError::MalformedBlock),
    }
}

/// Decompresses a whole stream through a buffer that holds up to `limit`
/// frames at a time: frames are cut off and decompressed while the buffer
/// takes them, and their data is taken out in between.  Gives what
/// `decompress` gives, whatever the limit.
pub fn decompress_pipelined(data: &[u8], limit: usize) -> (r: Result<Vec<u8>, BGZFError>)
    requires
        0 < limit,
    ensures
        match r {
            Ok(out) => stream_of(data@) == Some(out@),
            Err(e) => e == BGZFError::MalformedBlock && stream_of(data@) is None,
        },
{
    let (ranges, complete) = split_frames(data);
    let ghost frames = frames_of(data@).0;
    let ghost payloads = frame_payloads(frames);
    let mut buffer = ReorderBuffer::new(limit);
    let mut out: Vec<u8> = Vec::new();
    let mut next: usize = 0;
    proof {
        assert(data@.len() == data.len());
        lemma_frames_give_the_stream(data@);
        assert(payloads.skip(0) =~= payloads);
        match joined(payloads, complete) {
            Some(all) => {
                assert(out@ + all =~= all);
            },
            None => {},
        }
    }
    loop
        invariant
            frames == frames_of(data@).0,
            payloads == frame_payloads(frames),
            frames_between(data@, ranges@) == frames,
            complete == frames_of(data@).1,
            joined(payloads, complete) == stream_of(data@),
            forall|k: int|
                0 <= k < ranges@.len() ==> (#[trigger] ranges@[k]).0 < ranges@[k].1 <= data.len(),
            buffer.wf(),
            buffer@.limit == limit,
            buffer@.poison is None,
            next == buffer@.released + buffer@.waiting.len(),
            next <= ranges.len(),
            forall|k: int|
                0 <= k < buffer@.waiting.len() ==> #[trigger] buffer@.waiting[k] == slot_of(
                    result_of(payloads[buffer@.released + k]),
                ),
            joined(payloads, complete) == match joined(
                payloads.skip(buffer@.released as int),
                complete,
            ) {
                Some(rest) => Some(out@ + rest),
                None => None,
            },
        decreases ranges.len() - buffer@.released, ranges.len() - next,
    {
        let ghost held = buffer@;
        let ghost base = held.released as int;
        let ghost tail = payloads.skip(base);
        let ticket = if next < ranges.len() {
            buffer.submit()
        } else {
            None
        };
        match ticket {
            Some(t) => {
                let (from, to) = ranges[next];
                assert(ranges@[next as int].0 < ranges@[next as int].1 <= data.len());
                let frame = slice_subrange(data, from, to);
                assert(frame@ == frames_between(data@, ranges@)[next as int]);
                let result = match decode_frame(frame) {
                    Some(payload) => Ok(payload),
                    None => Err(BGZFError::MalformedBlock),
                };
                buffer.complete(t, result);
                next += 1;
                assert(payloads[t as int] == frame_payload(frames[t as int]));
            },
            None => {
                match buffer.take() {
                    Taken::Payload(payload) => {
                        assert(held.waiting[0] == slot_of(result_of(payloads[base])));
                        assert(tail[0] == payloads[base]);
                        assert(tail.skip(1) =~= payloads.skip(base + 1));
                        if payload.len() == 0 {
                            assert(out@ + Seq::<u8>::empty() =~= out@);
                            return Ok(out);
                        }
                        let ghost before = out@;
                        push_range(&mut out, payload.as_slice(), 0, payload.len());
                        proof {
                            assert(payload@.subrange(0, payload@.len() as int) =~= payload@);
                            match joined(payloads.skip(base + 1), complete) {
                                Some(rest) => {
                                    assert(before + (payload@ + rest) =~= out@ + rest);
                                },
                                None => {},
                            }
                            assert forall|k: int| 0 <= k < buffer@.waiting.len() implies (
                            #[trigger] buffer@.waiting[k]) == slot_of(
                                result_of(payloads[buffer@.released + k]),
                            ) by {
                                assert(buffer@.waiting[k] == held.waiting[k + 1]);
                            }
                        }
                    },
                    Taken::Failed(e) => {
                        assert(held.waiting[0] == slot_of(result_of(payloads[base])));
                        assert(tail[0] == payloads[base]);
                        return Err(e);
                    },
                    Taken::Idle => {
                        assert(tail =~= Seq::<Option<Seq<u8>>>::empty());
                        if complete {
                            assert(out@ + Seq::<u8>::empty() =~= out@);
                            return Ok(out);
                        } else {
                            return Err(BGZFError::MalformedBlock);
                        }
                    },
                    Taken::Pending => {
                        assert(held.waiting[0] == slot_of(result_of(payloads[base])));
                        return Err(BGZFError::MalformedBlock);
                    },
                }
            },
        }
    }
}

} // verus!
