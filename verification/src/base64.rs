//! Strict base64 (RFC 4648, standard alphabet, padded) as the engine
//! ingress decodes payloads, with the standard encoding it inverts.

use vstd::prelude::*;

verus! {

/// The value of a byte of the standard base64 alphabet (RFC 4648:
/// `A`–`Z`, `a`–`z`, `0`–`9`, `+`, `/`).
pub open spec fn b64_value(c: u8) -> Option<u8> {
    if 0x41 <= c <= 0x5a {
        Some((c - 0x41) as u8)
    } else if 0x61 <= c <= 0x7a {
        Some((c - 0x61 + 26) as u8)
    } else if 0x30 <= c <= 0x39 {
        Some((c - 0x30 + 52) as u8)
    } else if c == 0x2b {
        Some(62u8)
    } else if c == 0x2f {
        Some(63u8)
    } else {
        None
    }
}

/// How many `=` bytes `s` ends with.
pub open spec fn trailing_pad(s: Seq<u8>) -> nat
    decreases s.len(),
{
    if s.len() > 0 && s.last() == 0x3d {
        1 + trailing_pad(s.drop_last())
    } else {
        0
    }
}

/// The three bytes that four sextets spell.
pub open spec fn b64_group(a: nat, b: nat, c: nat, d: nat) -> Seq<u8> {
    seq![(a * 4 + b / 16) as u8, ((b % 16) * 16 + c / 4) as u8, ((c % 4) * 64 + d) as u8]
}

/// Decodes whole groups of four alphabet bytes, three bytes per group.
pub open spec fn b64_full_groups(s: Seq<u8>) -> Seq<u8>
    decreases s.len(),
{
    if s.len() < 4 {
        Seq::empty()
    } else {
        let t = s.skip(s.len() - 4);
        b64_full_groups(s.take(s.len() - 4)) + b64_group(
            b64_value(t[0]).unwrap() as nat,
            b64_value(t[1]).unwrap() as nat,
            b64_value(t[2]).unwrap() as nat,
            b64_value(t[3]).unwrap() as nat,
        )
    }
}

/// Decodes a last, short group: three alphabet bytes give two bytes, two
/// give one; leftover low bits are dropped.
pub open spec fn b64_partial(s: Seq<u8>) -> Seq<u8> {
    if s.len() == 3 {
        b64_group(
            b64_value(s[0]).unwrap() as nat,
            b64_value(s[1]).unwrap() as nat,
            b64_value(s[2]).unwrap() as nat,
            0,
        ).take(2)
    } else if s.len() == 2 {
        b64_group(b64_value(s[0]).unwrap() as nat, b64_value(s[1]).unwrap() as nat, 0, 0).take(1)
    } else {
        Seq::empty()
    }
}

/// Longest payload that ingress decodes, in bytes.
pub const MAX_PAYLOAD_BYTES: usize = 65536;

/// Strict base64 (RFC 4648, standard alphabet): the length is a multiple of
/// four, at most two `=` close it and none stands elsewhere, every other byte
/// is in the alphabet, and the decoded length is at most `MAX_PAYLOAD_BYTES`.
pub open spec fn spec_base64_decode(input: Seq<u8>) -> Option<Seq<u8>> {
    let pad = trailing_pad(input);
    let data = input.take(input.len() - pad);
    if input.len() % 4 != 0 {
        None
    } else if input.len() == 0 {
        Some(Seq::empty())
    } else if pad > 2 {
        None
    } else if input.len() / 4 * 3 - pad > MAX_PAYLOAD_BYTES {
        None
    } else if exists|i: int| 0 <= i < data.len() && b64_value(#[trigger] data[i]) is None {
        None
    } else {
        Some(b64_full_groups(data.take(data.len() as int / 4 * 4)) + b64_partial(data.skip(data.len() as int / 4 * 4)))
    }
}

fn b64_value_exec(c: u8) -> (r: Option<u8>)
    ensures
        r == b64_value(c),
{
    if 0x41 <= c && c <= 0x5a {
        Some(c - 0x41)
    } else if 0x61 <= c && c <= 0x7a {
        Some(c - 0x61 + 26)
    } else if 0x30 <= c && c <= 0x39 {
        Some(c - 0x30 + 52)
    } else if c == 0x2b {
        Some(62)
    } else if c == 0x2f {
        Some(63)
    } else {
        None
    }
}

proof fn lemma_trailing_pad_take(s: Seq<u8>)
    ensures
        trailing_pad(s) <= s.len(),
        forall|i: int| s.len() - trailing_pad(s) <= i < s.len() ==> s[i] == 0x3d,
        trailing_pad(s) < s.len() ==> s[s.len() - trailing_pad(s) - 1] != 0x3d,
    decreases s.len(),
{
    if s.len() > 0 && s.last() == 0x3d {
        let t = s.drop_last();
        lemma_trailing_pad_take(t);
        assert forall|i: int| s.len() - trailing_pad(s) <= i < s.len() implies s[i] == 0x3d by {
            if i < s.len() - 1 {
                assert(t[i] == s[i]);
            }
        }
        if trailing_pad(s) < s.len() {
            assert(t[t.len() - trailing_pad(t) - 1] == s[s.len() - trailing_pad(s) - 1]);
        }
    }
}

proof fn lemma_full_groups_step(data: Seq<u8>, i: int)
    requires
        0 <= i,
        i + 4 <= data.len(),
    ensures
        b64_full_groups(data.take(i + 4)) == b64_full_groups(data.take(i)) + b64_group(
            b64_value(data[i]).unwrap() as nat,
            b64_value(data[i + 1]).unwrap() as nat,
            b64_value(data[i + 2]).unwrap() as nat,
            b64_value(data[i + 3]).unwrap() as nat,
        ),
{
    let t = data.take(i + 4);
    assert(t.take(t.len() - 4) =~= data.take(i));
    assert(t.skip(t.len() - 4) =~= data.subrange(i, i + 4));
}

/// The three bytes that four sextets spell, computed.
fn b64_group_exec(a: u8, b: u8, c: u8, d: u8) -> (r: (u8, u8, u8))
    requires
        a < 64,
        b < 64,
        c < 64,
        d < 64,
    ensures
        seq![r.0, r.1, r.2] == b64_group(a as nat, b as nat, c as nat, d as nat),
{
    (a * 4 + b / 16, (b % 16) * 16 + c / 4, (c % 4) * 64 + d)
}

/// Decodes the alphabet bytes `input[..data_len]`: whole groups, then a short
/// last group of two or three bytes.
fn decode_sextets(input: &[u8], data_len: usize) -> (r: Option<Vec<u8>>)
    requires
        data_len <= input@.len(),
        data_len % 4 != 1,
    ensures
        ({
            let data = input@.take(data_len as int);
            match r {
                Some(v) => (forall|j: int| 0 <= j < data.len() ==> b64_value(#[trigger] data[j]) is Some)
                    && v@ == b64_full_groups(data.take(data.len() as int / 4 * 4)) + b64_partial(
                    data.skip(data.len() as int / 4 * 4),
                ),
                None => exists|j: int| 0 <= j < data.len() && b64_value(#[trigger] data[j]) is None,
            }
        }),
{
    let n = input.len();
    let ghost data = input@.take(data_len as int);
    let full = data_len / 4 * 4;
    let mut out: Vec<u8> = Vec::new();
    let mut i: usize = 0;
    while i < full
        invariant
            n == input@.len(),
            data == input@.take(data_len as int),
            data_len <= n,
            full == data_len / 4 * 4,
            i <= full,
            i % 4 == 0,
            out@ == b64_full_groups(data.take(i as int)),
            forall|j: int| 0 <= j < i ==> b64_value(#[trigger] data[j]) is Some,
            data.len() == data_len,
        decreases full - i,
    {
        let a = b64_value_exec(input[i]);
        let b = b64_value_exec(input[i + 1]);
        let c = b64_value_exec(input[i + 2]);
        let d = b64_value_exec(input[i + 3]);
        if a.is_none() || b.is_none() || c.is_none() || d.is_none() {
            proof {
                if a.is_none() {
                    assert(b64_value(data[i as int]) is None);
                } else if b.is_none() {
                    assert(b64_value(data[i + 1]) is None);
                } else if c.is_none() {
                    assert(b64_value(data[i + 2]) is None);
                } else {
                    assert(b64_value(data[i + 3]) is None);
                }
            }
            return None;
        }
        let a = a.unwrap();
        let b = b.unwrap();
        let c = c.unwrap();
        let d = d.unwrap();
        let (x, y, z) = b64_group_exec(a, b, c, d);
        proof {
            lemma_full_groups_step(data, i as int);
        }
        out.push(x);
        out.push(y);
        out.push(z);
        assert(out@ =~= b64_full_groups(data.take(i + 4)));
        i = i + 4;
    }
    let rem = data_len - full;
    let ghost tail = data.skip(full as int);
    if rem == 3 {
        let a = b64_value_exec(input[full]);
        let b = b64_value_exec(input[full + 1]);
        let c = b64_value_exec(input[full + 2]);
        if a.is_none() || b.is_none() || c.is_none() {
            proof {
                if a.is_none() {
                    assert(b64_value(data[full as int]) is None);
                } else if b.is_none() {
                    assert(b64_value(data[full + 1]) is None);
                } else {
                    assert(b64_value(data[full + 2]) is None);
                }
            }
            return None;
        }
        let (x, y, _) = b64_group_exec(a.unwrap(), b.unwrap(), c.unwrap(), 0);
        out.push(x);
        out.push(y);
    } else if rem == 2 {
        let a = b64_value_exec(input[full]);
        let b = b64_value_exec(input[full + 1]);
        if a.is_none() || b.is_none() {
            proof {
                if a.is_none() {
                    assert(b64_value(data[full as int]) is None);
                } else {
                    assert(b64_value(data[full + 1]) is None);
                }
            }
            return None;
        }
        let (x, _, _) = b64_group_exec(a.unwrap(), b.unwrap(), 0, 0);
        out.push(x);
    } else if rem == 1 {
        // a lone sextet cannot follow whole groups once the length is a
        // multiple of four and at most two `=` close it
        assert(false);
    }
    proof {
        assert(data.take(full as int) == data.take(i as int));
        assert forall|j: int| 0 <= j < data.len() implies b64_value(#[trigger] data[j]) is Some by {
            if j >= full {
                assert(tail[j - full] == data[j]);
            }
        }
        assert(out@ =~= b64_full_groups(data.take(data.len() as int / 4 * 4)) + b64_partial(
            data.skip(data.len() as int / 4 * 4),
        ));
    }
    Some(out)
}

proof fn lemma_full_groups_len(s: Seq<u8>)
    requires
        s.len() % 4 == 0,
    ensures
        b64_full_groups(s).len() == s.len() / 4 * 3,
    decreases s.len(),
{
    if s.len() >= 4 {
        lemma_full_groups_len(s.take(s.len() - 4));
    }
}

/// What strict base64 decodes is exactly three bytes per four input bytes,
/// less one per `=`; so it never exceeds `MAX_PAYLOAD_BYTES`.
pub proof fn lemma_b64_decoded_len(input: Seq<u8>)
    ensures
        spec_base64_decode(input) matches Some(v) ==> v.len() == input.len() / 4 * 3
            - trailing_pad(input) && v.len() <= MAX_PAYLOAD_BYTES,
{
    let pad = trailing_pad(input);
    let data = input.take(input.len() - pad);
    if spec_base64_decode(input) is Some && input.len() > 0 {
        lemma_trailing_pad_take(input);
        let k = data.len() as int / 4 * 4;
        lemma_full_groups_len(data.take(k));
        assert(data.take(k).len() == k);
    }
}

/// The alphabet byte for a sextet.
pub open spec fn b64_char(v: nat) -> u8 {
    if v < 26 {
        (0x41 + v) as u8
    } else if v < 52 {
        (0x61 + v - 26) as u8
    } else if v < 62 {
        (0x30 + v - 52) as u8
    } else if v == 62 {
        0x2b
    } else {
        0x2f
    }
}

/// The four alphabet bytes for three data bytes.
pub open spec fn b64_encode_group(b0: nat, b1: nat, b2: nat) -> Seq<u8> {
    seq![
        b64_char(b0 / 4),
        b64_char((b0 % 4) * 16 + b1 / 16),
        b64_char((b1 % 16) * 4 + b2 / 64),
        b64_char(b2 % 64),
    ]
}

/// Standard base64 of whole three-byte groups.
pub open spec fn b64_encode_full(d: Seq<u8>) -> Seq<u8>
    decreases d.len(),
{
    if d.len() < 3 {
        Seq::empty()
    } else {
        let t = d.skip(d.len() - 3);
        b64_encode_full(d.take(d.len() - 3)) + b64_encode_group(t[0] as nat, t[1] as nat, t[2] as nat)
    }
}

/// Standard base64 (RFC 4648, padded) of any bytes.
pub open spec fn b64_encode(d: Seq<u8>) -> Seq<u8> {
    let k = d.len() as int / 3 * 3;
    let rest = d.skip(k);
    b64_encode_full(d.take(k)) + if rest.len() == 2 {
        b64_encode_group(rest[0] as nat, rest[1] as nat, 0).take(3) + seq![0x3du8]
    } else if rest.len() == 1 {
        b64_encode_group(rest[0] as nat, 0, 0).take(2) + seq![0x3du8, 0x3du8]
    } else {
        Seq::empty()
    }
}

proof fn lemma_b64_char(v: nat)
    requires
        v < 64,
    ensures
        b64_value(b64_char(v)) == Some(v as u8),
        b64_char(v) != 0x3d,
{
}

proof fn lemma_b64_group_roundtrip(b0: nat, b1: nat, b2: nat)
    requires
        b0 < 256,
        b1 < 256,
        b2 < 256,
    ensures
        (b0 / 4) < 64,
        (b0 % 4) * 16 + b1 / 16 < 64,
        (b1 % 16) * 4 + b2 / 64 < 64,
        b2 % 64 < 64,
        b64_group(b0 / 4, (b0 % 4) * 16 + b1 / 16, (b1 % 16) * 4 + b2 / 64, b2 % 64) == seq![
            b0 as u8,
            b1 as u8,
            b2 as u8,
        ],
{
    let a = b0 / 4;
    let b = (b0 % 4) * 16 + b1 / 16;
    let c = (b1 % 16) * 4 + b2 / 64;
    let d = b2 % 64;
    assert(a * 4 + b / 16 == b0) by (nonlinear_arith)
        requires
            a == b0 / 4,
            b == (b0 % 4) * 16 + b1 / 16,
            b1 < 256,
    ;
    let x = b0 % 4;
    let y = b1 / 16;
    let z = b1 % 16;
    let w = b2 / 64;
    assert(y < 16 && w < 4 && b1 == y * 16 + z) by (nonlinear_arith)
        requires
            y == b1 / 16,
            z == b1 % 16,
            w == b2 / 64,
            b1 < 256,
            b2 < 256,
    ;
    assert(b % 16 == y) by (nonlinear_arith)
        requires
            b == x * 16 + y,
            0 <= y < 16,
            0 <= x,
    ;
    assert(c / 4 == z) by (nonlinear_arith)
        requires
            c == z * 4 + w,
            0 <= w < 4,
            0 <= z,
    ;
    assert((c % 4) * 64 + d == b2) by (nonlinear_arith)
        requires
            c == (b1 % 16) * 4 + b2 / 64,
            d == b2 % 64,
            b2 < 256,
    ;
    assert(b64_group(a, b, c, d) =~= seq![b0 as u8, b1 as u8, b2 as u8]);
}

proof fn lemma_b64_full_roundtrip(d: Seq<u8>)
    requires
        d.len() % 3 == 0,
    ensures
        b64_encode_full(d).len() == d.len() / 3 * 4,
        forall|i: int|
            0 <= i < b64_encode_full(d).len() ==> b64_value(#[trigger] b64_encode_full(d)[i])
                is Some,
        b64_full_groups(b64_encode_full(d)) == d,
    decreases d.len(),
{
    if d.len() >= 3 {
        let h = d.take(d.len() - 3);
        let t = d.skip(d.len() - 3);
        lemma_b64_full_roundtrip(h);
        let e = b64_encode_full(d);
        let g = b64_encode_group(t[0] as nat, t[1] as nat, t[2] as nat);
        lemma_b64_group_roundtrip(t[0] as nat, t[1] as nat, t[2] as nat);
        lemma_b64_char(t[0] as nat / 4);
        lemma_b64_char((t[0] as nat % 4) * 16 + t[1] as nat / 16);
        lemma_b64_char((t[1] as nat % 16) * 4 + t[2] as nat / 64);
        lemma_b64_char(t[2] as nat % 64);
        assert(e.take(e.len() - 4) =~= b64_encode_full(h));
        assert(e.skip(e.len() - 4) =~= g);
        assert(h + t =~= d);
    } else {
        assert(d =~= Seq::<u8>::empty());
    }
}

proof fn lemma_trailing_pad_of(body: Seq<u8>, pads: nat)
    requires
        pads <= 2,
        body.len() > 0 ==> body.last() != 0x3d,
    ensures
        trailing_pad(body + Seq::new(pads, |i: int| 0x3du8)) == pads,
    decreases pads,
{
    let s = body + Seq::new(pads, |i: int| 0x3du8);
    if pads > 0 {
        assert(s.drop_last() =~= body + Seq::new((pads - 1) as nat, |i: int| 0x3du8));
        lemma_trailing_pad_of(body, (pads - 1) as nat);
    } else {
        assert(s =~= body);
    }
}

proof fn lemma_b64_roundtrip_whole(d: Seq<u8>)
    requires
        d.len() <= MAX_PAYLOAD_BYTES,
        d.len() % 3 == 0,
    ensures
        spec_base64_decode(b64_encode(d)) == Some(d),
{
    let k = d.len() as int / 3 * 3;
    assert(d.take(k) =~= d);
    assert(d.skip(k) =~= Seq::<u8>::empty());
    lemma_b64_full_roundtrip(d);
    let full = b64_encode_full(d);
    let enc = b64_encode(d);
    assert(enc =~= full);
    assert(full + Seq::new(0, |i: int| 0x3du8) =~= full);
    if full.len() > 0 {
        assert(b64_value(full[full.len() - 1]) is Some);
    }
    lemma_trailing_pad_of(full, 0);
    let data = enc.take(enc.len() - 0);
    assert(data =~= full);
    assert(data.take(data.len() as int / 4 * 4) =~= full);
    assert(data.skip(data.len() as int / 4 * 4) =~= Seq::<u8>::empty());
}

/// Decoding `body` followed by `pads` padding bytes, where `body` is all
/// alphabet.
proof fn lemma_decode_padded(body: Seq<u8>, pads: nat)
    requires
        1 <= pads <= 2,
        (body.len() + pads) % 4 == 0,
        (body.len() + pads) / 4 * 3 - pads <= MAX_PAYLOAD_BYTES,
        forall|i: int| 0 <= i < body.len() ==> b64_value(#[trigger] body[i]) is Some,
    ensures
        spec_base64_decode(body + Seq::new(pads, |i: int| 0x3du8)) == Some(
            b64_full_groups(body.take(body.len() as int / 4 * 4)) + b64_partial(
                body.skip(body.len() as int / 4 * 4),
            ),
        ),
{
    let input = body + Seq::new(pads, |i: int| 0x3du8);
    if body.len() > 0 {
        assert(b64_value(body[body.len() - 1]) is Some);
    }
    lemma_trailing_pad_of(body, pads);
    assert(input.take(input.len() - pads) =~= body);
}

#[verifier::rlimit(40)]
proof fn lemma_b64_roundtrip_one(d: Seq<u8>)
    requires
        d.len() <= MAX_PAYLOAD_BYTES,
        d.len() % 3 == 1,
    ensures
        spec_base64_decode(b64_encode(d)) == Some(d),
{
    let g = d.len() as int / 3;
    let k = g * 3;
    let head = d.take(k);
    let rest = d.skip(k);
    lemma_b64_full_roundtrip(head);
    let full = b64_encode_full(head);
    assert(full.len() == g * 4) by (nonlinear_arith)
        requires
            full.len() == head.len() / 3 * 4,
            head.len() == g * 3,
            g >= 0,
    ;
    let b0 = rest[0] as nat;
    lemma_b64_group_roundtrip(b0, 0, 0);
    lemma_b64_char(b0 / 4);
    lemma_b64_char((b0 % 4) * 16);
    let tail = b64_encode_group(b0, 0, 0).take(2);
    let body = full + tail;
    assert(b64_encode(d) =~= body + Seq::new(2, |i: int| 0x3du8));
    assert forall|i: int| 0 <= i < body.len() implies b64_value(#[trigger] body[i]) is Some by {
        if i >= full.len() {
            assert(body[i] == tail[i - full.len()]);
        } else {
            assert(body[i] == full[i]);
        }
    }
    assert(body.len() == g * 4 + 2);
    assert((g * 4 + 4) / 4 * 3 - 2 == g * 3 + 1) by (nonlinear_arith)
        requires
            g >= 0,
    ;
    lemma_decode_padded(body, 2);
    assert(body.len() as int / 4 * 4 == g * 4) by (nonlinear_arith)
        requires
            body.len() == g * 4 + 2,
            g >= 0,
    ;
    assert(body.take(g * 4) =~= full);
    assert(body.skip(g * 4) =~= tail);
    assert(head + rest =~= d);
    assert(b64_partial(tail) =~= rest);
}

#[verifier::rlimit(40)]
proof fn lemma_b64_roundtrip_two(d: Seq<u8>)
    requires
        d.len() <= MAX_PAYLOAD_BYTES,
        d.len() % 3 == 2,
    ensures
        spec_base64_decode(b64_encode(d)) == Some(d),
{
    let g = d.len() as int / 3;
    let k = g * 3;
    let head = d.take(k);
    let rest = d.skip(k);
    lemma_b64_full_roundtrip(head);
    let full = b64_encode_full(head);
    assert(full.len() == g * 4) by (nonlinear_arith)
        requires
            full.len() == head.len() / 3 * 4,
            head.len() == g * 3,
            g >= 0,
    ;
    let b0 = rest[0] as nat;
    let b1 = rest[1] as nat;
    lemma_b64_group_roundtrip(b0, b1, 0);
    lemma_b64_char(b0 / 4);
    lemma_b64_char((b0 % 4) * 16 + b1 / 16);
    lemma_b64_char((b1 % 16) * 4);
    let tail = b64_encode_group(b0, b1, 0).take(3);
    let body = full + tail;
    assert(b64_encode(d) =~= body + Seq::new(1, |i: int| 0x3du8));
    assert forall|i: int| 0 <= i < body.len() implies b64_value(#[trigger] body[i]) is Some by {
        if i >= full.len() {
            assert(body[i] == tail[i - full.len()]);
        } else {
            assert(body[i] == full[i]);
        }
    }
    assert(body.len() == g * 4 + 3);
    assert((g * 4 + 4) / 4 * 3 - 1 == g * 3 + 2) by (nonlinear_arith)
        requires
            g >= 0,
    ;
    lemma_decode_padded(body, 1);
    assert(body.len() as int / 4 * 4 == g * 4) by (nonlinear_arith)
        requires
            body.len() == g * 4 + 3,
            g >= 0,
    ;
    assert(body.take(g * 4) =~= full);
    assert(body.skip(g * 4) =~= tail);
    assert(head + rest =~= d);
    assert(b64_partial(tail) =~= rest);
}

/// Strict base64 decoding gives back every payload of up to
/// `MAX_PAYLOAD_BYTES` bytes from its standard encoding: payload bytes are
/// preserved exactly.
pub proof fn lemma_base64_roundtrip(d: Seq<u8>)
    requires
        d.len() <= MAX_PAYLOAD_BYTES,
    ensures
        spec_base64_decode(b64_encode(d)) == Some(d),
{
    if d.len() % 3 == 0 {
        lemma_b64_roundtrip_whole(d);
    } else if d.len() % 3 == 1 {
        lemma_b64_roundtrip_one(d);
    } else {
        lemma_b64_roundtrip_two(d);
    }
}

/// What strict decoding admits: a length that is a multiple of four, and
/// bytes of the standard alphabet (`A`–`Z`, `a`–`z`, `0`–`9`, `+`, `/`)
/// except for at most two `=` that close the input.
pub proof fn lemma_base64_alphabet(input: Seq<u8>)
    ensures
        spec_base64_decode(input) is Some ==> ({
            &&& input.len() % 4 == 0
            &&& forall|i: int|
                0 <= i < input.len() ==> {
                    let c = #[trigger] input[i];
                    ||| 0x41 <= c <= 0x5a
                    ||| 0x61 <= c <= 0x7a
                    ||| 0x30 <= c <= 0x39
                    ||| c == 0x2b
                    ||| c == 0x2f
                    ||| (c == 0x3d && i >= input.len() - 2 && forall|j: int|
                        i <= j < input.len() ==> input[j] == 0x3d)
                }
        }),
{
    if spec_base64_decode(input) is Some && input.len() > 0 {
        lemma_trailing_pad_take(input);
        let pad = trailing_pad(input);
        let data = input.take(input.len() - pad);
        assert forall|i: int| 0 <= i < input.len() implies {
            let c = #[trigger] input[i];
            ||| 0x41 <= c <= 0x5a
            ||| 0x61 <= c <= 0x7a
            ||| 0x30 <= c <= 0x39
            ||| c == 0x2b
            ||| c == 0x2f
            ||| (c == 0x3d && i >= input.len() - 2 && forall|j: int|
                i <= j < input.len() ==> input[j] == 0x3d)
        } by {
            if i < input.len() - pad {
                assert(data[i] == input[i]);
                assert(b64_value(data[i]) is Some);
            }
        }
    }
}

/// How many `=` bytes `input` ends with.
fn trailing_pad_exec(input: &[u8]) -> (pad: usize)
    ensures
        pad == trailing_pad(input@),
        pad <= input@.len(),
{
    let n = input.len();
    let mut pad: usize = 0;
    while pad < n && input[n - 1 - pad] == 0x3d
        invariant
            n == input@.len(),
            pad <= n,
            forall|i: int| n - pad <= i < n ==> input@[i] == 0x3d,
        decreases n - pad,
    {
        pad = pad + 1;
    }
    proof {
        lemma_trailing_pad_take(input@);
    }
    assert(pad == trailing_pad(input@)) by {
        lemma_trailing_pad_take(input@);
        if pad < trailing_pad(input@) {
            assert(input@[n - 1 - pad] == 0x3d);
        }
        if pad > trailing_pad(input@) {
            assert(input@[n - trailing_pad(input@) - 1] == 0x3d);
        }
    }
    pad
}

/// The payload is well framed as base64 (a non-empty multiple of four, at
/// most two `=` at the end) but would decode to more than
/// `MAX_PAYLOAD_BYTES`: it is refused for its size, not for its form.
pub open spec fn b64_oversized(input: Seq<u8>) -> bool {
    &&& input.len() % 4 == 0
    &&& input.len() > 0
    &&& trailing_pad(input) <= 2
    &&& input.len() / 4 * 3 - trailing_pad(input) > MAX_PAYLOAD_BYTES
}

/// Whether a payload is refused for its decoded size, as `b64_oversized` says.
pub fn base64_oversized(input: &[u8]) -> (r: bool)
    ensures
        r == b64_oversized(input@),
{
    let n = input.len();
    if n % 4 != 0 || n == 0 {
        return false;
    }
    let pad = trailing_pad_exec(input);
    pad <= 2 && n / 4 * 3 - pad > MAX_PAYLOAD_BYTES
}

/// Decodes strict base64; `None` for anything that is not.
pub fn base64_decode(input: &[u8]) -> (r: Option<Vec<u8>>)
    ensures
        match r {
            Some(v) => spec_base64_decode(input@) == Some(v@),
            None => spec_base64_decode(input@) is None,
        },
{
    let n = input.len();
    if n % 4 != 0 {
        return None;
    }
    if n == 0 {
        return Some(Vec::new());
    }
    let pad = trailing_pad_exec(input);
    if pad > 2 {
        return None;
    }
    let decoded_len = n / 4 * 3 - pad;
    if decoded_len > MAX_PAYLOAD_BYTES {
        return None;
    }
    let data_len = n - pad;
    assert(data_len % 4 != 1);
    let r = decode_sextets(input, data_len);
    proof {
        let data = input@.take(data_len as int);
        assert(data == input@.take(input@.len() - trailing_pad(input@)));
    }
    r
}


} // verus!
