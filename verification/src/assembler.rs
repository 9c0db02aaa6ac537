//! The frame assembler: turns a fragmented, timestamped inbound audio
//! stream into fixed-size frames for the recognition connection.
//!
//! Per telephony call one assembler accumulates the payload bytes of media
//! events.  Whenever a full frame's worth of bytes is buffered, `ingest`
//! removes and returns exactly one frame from the front; otherwise it
//! returns nothing and the caller forwards nothing.  A timestamp gap
//! (missing or out-of-order fragment) is noted but never discards audio:
//! dropping bytes would corrupt recognition timing worse than slight
//! jitter, so the assembler keeps accumulating regardless.

use vstd::prelude::*;

verus! {

/// Per-call assembler state: the configured frame size, the bytes not yet
/// emitted, and the timestamp of the last fragment consumed.  Owned
/// exclusively by the task that reads telephony audio; never shared.
pub struct FrameAssembler {
    frame_size: usize,
    buffer: Vec<u8>,
    last_timestamp: u64,
}

/// What one `ingest` emits: one full frame off the front of the buffered
/// bytes joined with the new payload, when enough bytes are there.
pub open spec fn emitted(buffered: Seq<u8>, payload: Seq<u8>, frame_size: nat) -> Option<Seq<u8>> {
    let joined = buffered + payload;
    if joined.len() >= frame_size {
        Some(joined.subrange(0, frame_size as int))
    } else {
        None
    }
}

/// What one `ingest` leaves buffered.
pub open spec fn left_over(buffered: Seq<u8>, payload: Seq<u8>, frame_size: nat) -> Seq<u8> {
    let joined = buffered + payload;
    if joined.len() >= frame_size {
        joined.subrange(frame_size as int, joined.len() as int)
    } else {
        joined
    }
}

impl FrameAssembler {
    /// The configured outbound frame size, matching the recognition
    /// protocol's expected chunking.
    pub closed spec fn spec_frame_size(&self) -> nat {
        self.frame_size as nat
    }

    /// The accumulated, not yet emitted audio bytes.
    pub closed spec fn buffered(&self) -> Seq<u8> {
        self.buffer@
    }

    /// The timestamp of the last fragment consumed, kept to detect gaps.
    pub closed spec fn spec_last_timestamp(&self) -> u64 {
        self.last_timestamp
    }

    pub open spec fn wf(&self) -> bool {
        self.spec_frame_size() > 0
    }

    /// A fresh assembler for one telephony call.
    pub fn new(frame_size: usize) -> (a: FrameAssembler)
        requires
            frame_size > 0,
        ensures
            a.wf(),
            a.spec_frame_size() == frame_size,
            a.buffered() == Seq::<u8>::empty(),
            a.spec_last_timestamp() == 0,
    {
        FrameAssembler { frame_size, buffer: Vec::new(), last_timestamp: 0 }
    }

    /// How many bytes are buffered and not yet emitted.
    pub fn buffered_len(&self) -> (n: usize)
        ensures
            n == self.buffered().len(),
    {
        self.buffer.len()
    }

    /// Whether the incoming fragment's timestamp signals a missing or
    /// out-of-order fragment.  Detection is advisory: the policy on a gap
    /// is to keep accumulating, so `ingest` behaves the same either way.
    pub fn gap_before(&self, timestamp: u64) -> (r: bool)
        ensures
            r == (timestamp < self.spec_last_timestamp()),
    {
        timestamp < self.last_timestamp
    }

    /// Consumes one fragment: appends its payload to the buffer, records
    /// its timestamp, and emits exactly one frame's worth of bytes off the
    /// front of the buffer when at least one full frame has accumulated.
    /// The emission depends on the bytes alone, never on the timestamps.
    pub fn ingest(&mut self, payload: Vec<u8>, timestamp: u64) -> (frame: Option<Vec<u8>>)
        requires
            old(self).wf(),
            old(self).buffered().len() + payload@.len() <= usize::MAX,
        ensures
            final(self).wf(),
            final(self).spec_frame_size() == old(self).spec_frame_size(),
            final(self).spec_last_timestamp() == timestamp,
            final(self).buffered() == left_over(
                old(self).buffered(),
                payload@,
                old(self).spec_frame_size(),
            ),
            match frame {
                Some(f) => emitted(old(self).buffered(), payload@, old(self).spec_frame_size())
                    == Some(f@),
                None => emitted(old(self).buffered(), payload@, old(self).spec_frame_size())
                    is None,
            },
    {
        let ghost pre = self.buffer@;
        let mut incoming = payload;
        self.buffer.append(&mut incoming);
        self.last_timestamp = timestamp;
        if self.buffer.len() >= self.frame_size {
            let mut rest = self.buffer.split_off(self.frame_size);
            core::mem::swap(&mut self.buffer, &mut rest);
            Some(rest)
        } else {
            None
        }
    }
}

/// Gap tolerance, half one: what a fragment makes the assembler emit is a
/// function of the buffered bytes and the payload alone; two assemblers
/// whose buffers agree emit the same frame and keep the same remainder,
/// however their timestamps differ and whatever timestamps the fragments
/// carry.
pub proof fn lemma_emission_ignores_timestamps(a: FrameAssembler, b: FrameAssembler, payload: Seq<u8>)
    requires
        a.spec_frame_size() == b.spec_frame_size(),
        a.buffered() == b.buffered(),
    ensures
        emitted(a.buffered(), payload, a.spec_frame_size()) == emitted(
            b.buffered(),
            payload,
            b.spec_frame_size(),
        ),
        left_over(a.buffered(), payload, a.spec_frame_size()) == left_over(
            b.buffered(),
            payload,
            b.spec_frame_size(),
        ),
{
}

/// Gap tolerance, half two: the assembler never wedges waiting for a
/// missing fragment.  As soon as enough bytes have accumulated, the next
/// fragment yields a full frame, and the frame together with the remainder
/// carries every buffered byte in order.
pub proof fn lemma_eventually_emits(buffered: Seq<u8>, payload: Seq<u8>, frame_size: nat)
    requires
        buffered.len() + payload.len() >= frame_size,
    ensures
        emitted(buffered, payload, frame_size) is Some,
        emitted(buffered, payload, frame_size)->0.len() == frame_size,
        emitted(buffered, payload, frame_size)->0 + left_over(buffered, payload, frame_size)
            == buffered + payload,
{
    let joined = buffered + payload;
    assert(emitted(buffered, payload, frame_size)->0 + left_over(buffered, payload, frame_size)
        =~= joined);
}

} // verus!
