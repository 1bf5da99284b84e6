//! The egress ABI: an authorized effect travels as exactly 32 little-endian
//! bytes, `u64 domain_id`, `u64 magnitude`, `u128 actuation_token`.

use vstd::bytes::*;
use vstd::prelude::*;

verus! {

/// An effect that the law has authorized, as written to the egress socket.
#[derive(Clone, Copy, Debug, PartialEq, Eq, Structural)]
pub struct AuthorizedEffect {
    pub domain_id: u64,
    pub magnitude: u64,
    pub actuation_token: u128,
}

/// The 32 bytes that stand for `effect` on the egress socket.
pub open spec fn spec_frame(effect: AuthorizedEffect) -> Seq<u8> {
    spec_u64_to_le_bytes(effect.domain_id) + spec_u64_to_le_bytes(effect.magnitude)
        + spec_u128_to_le_bytes(effect.actuation_token)
}

/// The three fields that a 32-byte frame carries.
pub open spec fn spec_frame_fields(frame: Seq<u8>) -> (u64, u64, u128) {
    (
        spec_u64_from_le_bytes(frame.subrange(0, 8)),
        spec_u64_from_le_bytes(frame.subrange(8, 16)),
        spec_u128_from_le_bytes(frame.subrange(16, 32)),
    )
}

/// Encodes an authorized effect as its 32-byte egress frame.
pub fn encode_effect(effect: AuthorizedEffect) -> (buf: [u8; 32])
    ensures
        buf@ == spec_frame(effect),
{
    let a = u64_to_le_bytes(effect.domain_id);
    let b = u64_to_le_bytes(effect.magnitude);
    let c = u128_to_le_bytes(effect.actuation_token);
    let mut buf = [0u8; 32];
    let mut i: usize = 0;
    while i < 8
        invariant
            0 <= i <= 8,
            a@.len() == 8,
            b@.len() == 8,
            forall|j: int| 0 <= j < i ==> buf@[j] == a@[j],
            forall|j: int| 0 <= j < i ==> buf@[8 + j] == b@[j],
        decreases 8 - i,
    {
        buf[i] = a[i];
        buf[8 + i] = b[i];
        i = i + 1;
    }
    let mut k: usize = 0;
    while k < 16
        invariant
            0 <= k <= 16,
            a@.len() == 8,
            b@.len() == 8,
            c@.len() == 16,
            forall|j: int| 0 <= j < 8 ==> buf@[j] == a@[j],
            forall|j: int| 0 <= j < 8 ==> buf@[8 + j] == b@[j],
            forall|j: int| 0 <= j < k ==> buf@[16 + j] == c@[j],
        decreases 16 - k,
    {
        buf[16 + k] = c[k];
        k = k + 1;
    }
    assert(buf@ =~= a@ + b@ + c@);
    buf
}


/// Reads the three fields of a 32-byte little-endian egress frame.
pub fn parse_frame_le(frame: &[u8; 32]) -> (fields: (u64, u64, u128))
    ensures
        fields == spec_frame_fields(frame@),
{
    let whole: &[u8] = frame.as_slice();
    let domain_id = u64_from_le_bytes(&whole[0..8]);
    let magnitude = u64_from_le_bytes(&whole[8..16]);
    let token = u128_from_le_bytes(&whole[16..32]);
    (domain_id, magnitude, token)
}

/// Every frame has exactly 32 bytes.
pub proof fn lemma_frame_len(effect: AuthorizedEffect)
    ensures
        spec_frame(effect).len() == 32,
{
    lemma_auto_spec_u64_to_from_le_bytes();
    lemma_auto_spec_u128_to_from_le_bytes();
}

/// Reading back a frame gives the effect that was written: the egress
/// encoding loses nothing.
pub proof fn lemma_decode_encode(effect: AuthorizedEffect)
    ensures
        spec_frame_fields(spec_frame(effect)) == (
            effect.domain_id,
            effect.magnitude,
            effect.actuation_token,
        ),
{
    lemma_auto_spec_u64_to_from_le_bytes();
    lemma_auto_spec_u128_to_from_le_bytes();
    let a = spec_u64_to_le_bytes(effect.domain_id);
    let b = spec_u64_to_le_bytes(effect.magnitude);
    let c = spec_u128_to_le_bytes(effect.actuation_token);
    let f = spec_frame(effect);
    assert(f.subrange(0, 8) =~= a);
    assert(f.subrange(8, 16) =~= b);
    assert(f.subrange(16, 32) =~= c);
}

/// Every 32-byte frame is the encoding of the effect that it decodes to:
/// no frame carries anything besides its three fields.
pub proof fn lemma_encode_decode(frame: Seq<u8>)
    requires
        frame.len() == 32,
    ensures
        spec_frame(
            AuthorizedEffect {
                domain_id: spec_frame_fields(frame).0,
                magnitude: spec_frame_fields(frame).1,
                actuation_token: spec_frame_fields(frame).2,
            },
        ) == frame,
{
    lemma_auto_spec_u64_to_from_le_bytes();
    lemma_auto_spec_u128_to_from_le_bytes();
    let a = frame.subrange(0, 8);
    let b = frame.subrange(8, 16);
    let c = frame.subrange(16, 32);
    assert(spec_u64_to_le_bytes(spec_u64_from_le_bytes(a)) == a);
    assert(spec_u64_to_le_bytes(spec_u64_from_le_bytes(b)) == b);
    assert(spec_u128_to_le_bytes(spec_u128_from_le_bytes(c)) == c);
    assert(a + b + c =~= frame);
}

} // verus!
