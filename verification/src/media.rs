//! The media-to-bytes step of a telephony media event: base64 payload
//! decoding and decimal timestamp parsing, feeding the frame assembler.
//!
//! The event envelope itself is parsed outside the library; what arrives
//! here are the two fields this core reads — the base64 payload text and
//! the timestamp text.  An undecodable payload is ignored (non-fatal,
//! matching the policy on malformed inbound data); an unparseable
//! timestamp counts as zero, which only affects gap observation, never
//! what is framed.

use vstd::prelude::*;

use crate::assembler::FrameAssembler;
use crate::assembler::emitted;
use crate::assembler::left_over;

verus! {

/// What `base64::decode` yields on a given input: the decoded bytes, or
/// nothing when the text is not valid base64.  The result depends on the
/// input characters alone.
pub uninterp spec fn base64_decoded(s: Seq<char>) -> Option<Seq<u8>>;

/// Relies on `base64::decode` (standard alphabet): decodes the media
/// payload text, `None` when the text is rejected.
#[verifier::external_body]
fn decode_base64(payload: &String) -> (r: Option<Vec<u8>>)
    ensures
        match r {
            Some(b) => base64_decoded(payload@) == Some(b@),
            None => base64_decoded(payload@) is None,
        },
{
    base64::decode(payload.as_str()).ok()
}

/// Whether every byte of `s` is an ASCII decimal digit and there is at
/// least one.
pub open spec fn is_decimal(s: Seq<u8>) -> bool {
    s.len() > 0 && forall|i: int| 0 <= i < s.len() ==> 0x30 <= #[trigger] s[i] <= 0x39
}

/// The number the digit bytes of `s` spell.
pub open spec fn decimal_nat(s: Seq<u8>) -> nat
    decreases s.len(),
{
    if s.len() == 0 {
        0
    } else {
        decimal_nat(s.drop_last()) * 10 + ((s.last() - 0x30) as nat)
    }
}

/// A longer digit string never spells a smaller number: the value of a
/// prefix bounds the value of the whole.
proof fn lemma_decimal_prefix_le(s: Seq<u8>, i: int)
    requires
        0 <= i <= s.len(),
        forall|j: int| 0 <= j < s.len() ==> 0x30 <= #[trigger] s[j] <= 0x39,
    ensures
        decimal_nat(s.subrange(0, i)) <= decimal_nat(s),
    decreases s.len() - i,
{
    if i < s.len() {
        let p = s.subrange(0, i);
        let q = s.subrange(0, i + 1);
        assert(q.drop_last() =~= p);
        assert(q.last() == s[i]);
        assert(decimal_nat(q) == decimal_nat(p) * 10 + (s[i] - 0x30));
        assert(decimal_nat(p) * 10 >= decimal_nat(p));
        lemma_decimal_prefix_le(s, i + 1);
        assert(s.subrange(0, s.len() as int) =~= s);
    } else {
        assert(s.subrange(0, i) =~= s);
    }
}

/// Parses a decimal timestamp: `Some` iff the bytes are one or more
/// decimal digits spelling a value that fits in a `u64`.
pub fn parse_u64(s: &[u8]) -> (r: Option<u64>)
    ensures
        match r {
            Some(v) => is_decimal(s@) && v == decimal_nat(s@),
            None => !is_decimal(s@) || decimal_nat(s@) > u64::MAX,
        },
{
    if s.len() == 0 {
        return None;
    }
    let mut v: u64 = 0;
    let mut i: usize = 0;
    while i < s.len()
        invariant
            0 < s@.len(),
            i <= s@.len(),
            forall|j: int| 0 <= j < i ==> 0x30 <= #[trigger] s@[j] <= 0x39,
            v == decimal_nat(s@.subrange(0, i as int)),
        decreases s@.len() - i,
    {
        let b = s[i];
        if b < 0x30 || b > 0x39 {
            return None;
        }
        let d = b - 0x30;
        if v > (u64::MAX - d as u64) / 10 {
            proof {
                let p = s@.subrange(0, i as int);
                let q = s@.subrange(0, i as int + 1);
                assert(q.drop_last() =~= p);
                assert(q.last() == s@[i as int]);
                assert(decimal_nat(q) == decimal_nat(p) * 10 + d);
                assert(decimal_nat(p) * 10 + d > u64::MAX) by (nonlinear_arith)
                    requires
                        decimal_nat(p) > (u64::MAX - d as u64) / 10,
                        0 <= d <= 9,
                ;
                if is_decimal(s@) {
                    lemma_decimal_prefix_le(s@, i as int + 1);
                }
            }
            return None;
        }
        proof {
            assert(v * 10 + d <= u64::MAX) by (nonlinear_arith)
                requires
                    v <= (u64::MAX - d as u64) / 10,
                    0 <= d <= 9,
            ;
            let p = s@.subrange(0, i as int);
            let q = s@.subrange(0, i as int + 1);
            assert(q.drop_last() =~= p);
            assert(q.last() == s@[i as int]);
        }
        v = v * 10 + d as u64;
        i = i + 1;
    }
    proof {
        assert(s@.subrange(0, s@.len() as int) =~= s@);
    }
    Some(v)
}

/// Consumes one media event's fields: decodes the base64 payload and runs
/// the bytes through the assembler under the given timestamp.  An
/// undecodable payload, like a payload too large to buffer, is dropped
/// without touching the assembler.
pub fn media_ingest(
    assembler: &mut FrameAssembler,
    payload: &String,
    timestamp: u64,
) -> (frame: Option<Vec<u8>>)
    requires
        old(assembler).wf(),
    ensures
        final(assembler).wf(),
        final(assembler).spec_frame_size() == old(assembler).spec_frame_size(),
        base64_decoded(payload@) is None ==> *final(assembler) == *old(assembler) && frame
            is None,
        base64_decoded(payload@) matches Some(bytes) ==> if old(assembler).buffered().len()
            + bytes.len() <= usize::MAX {
            &&& final(assembler).spec_last_timestamp() == timestamp
            &&& final(assembler).buffered() == left_over(
                old(assembler).buffered(),
                bytes,
                old(assembler).spec_frame_size(),
            )
            &&& match frame {
                Some(f) => emitted(old(assembler).buffered(), bytes, old(assembler).spec_frame_size())
                    == Some(f@),
                None => emitted(old(assembler).buffered(), bytes, old(assembler).spec_frame_size())
                    is None,
            }
        } else {
            *final(assembler) == *old(assembler) && frame is None
        },
{
    match decode_base64(payload) {
        None => None,
        Some(bytes) => {
            if assembler.buffered_len() <= usize::MAX - bytes.len() {
                assembler.ingest(bytes, timestamp)
            } else {
                None
            }
        },
    }
}

} // verus!
