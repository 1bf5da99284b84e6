//! The engine ingress: one HTTP request read into an `ActionRequest` for the
//! sealed AB-S engine (a JSON body with `domain`, `magnitude` and an optional
//! base64 `payload`), the health check, the replies with their HTTP status,
//! and the ABI of the verdict that the engine hands back.

use crate::base64::{b64_oversized, base64_decode, base64_oversized, spec_base64_decode};
use crate::effect::{spec_frame_fields, AuthorizedEffect};
use crate::number::{
    digits_at, exponent_at, number_at, number_at_exec, number_digits, pow10, scale_down,
};
use crate::http::{content_length, header_terminator, http_response, spec_http_response};
use crate::text::{
    all_digits, bytes_eq, decimal, digits_value, first_occurrence, is_digit,
    lemma_ascii_utf8, lemma_first_occurrence, matches_at, str_from_utf8,
};
use vstd::prelude::*;
use vstd::string::StringSliceAdditionalSpecFns;
use vstd::utf8::valid_utf8;

verus! {

/// FNV-1a, 64-bit: offset basis `0xcbf29ce484222325`, prime `0x100000001b3`;
/// each byte is xored in and the hash multiplied by the prime modulo 2^64.
pub open spec fn fnv1a(bytes: Seq<u8>) -> u64
    decreases bytes.len(),
{
    if bytes.len() == 0 {
        0xcbf29ce484222325u64
    } else {
        (((fnv1a(bytes.drop_last()) ^ (bytes.last() as u64)) as nat * 0x100000001b3nat)
            % 0x1_0000_0000_0000_0000nat) as u64
    }
}

/// FNV-1a 64-bit hash of a byte string.
pub fn fnv1a_64(s: &[u8]) -> (hash: u64)
    ensures
        hash == fnv1a(s@),
{
    let mut hash: u64 = 0xcbf29ce484222325;
    let mut i: usize = 0;
    while i < s.len()
        invariant
            0 <= i <= s@.len(),
            hash == fnv1a(s@.take(i as int)),
        decreases s@.len() - i,
    {
        assert(s@.take(i + 1).drop_last() =~= s@.take(i as int));
        hash = hash ^ (s[i] as u64);
        hash = hash.wrapping_mul(0x100000001b3);
        i = i + 1;
    }
    assert(s@.take(i as int) =~= s@);
    hash
}

/// Index of the first occurrence of `needle` in `haystack`.
pub fn memmem(haystack: &[u8], needle: &[u8]) -> (r: Option<usize>)
    requires
        needle@.len() > 0,
    ensures
        match r {
            Some(i) => first_occurrence(haystack@, needle@, 0) == Some(i as int),
            None => first_occurrence(haystack@, needle@, 0) is None,
        },
{
    crate::text::find_from(haystack, needle, 0)
}

/// The length header of an engine request, matched case-sensitively.
pub open spec fn exact_length_header() -> Seq<u8> {
    "Content-Length:".spec_bytes()
}

/// The length that an engine request declares: the request must be UTF-8, and
/// its first line that begins with `Content-Length:` gives the value.
pub open spec fn spec_parse_content_length(req: Seq<u8>) -> Option<nat> {
    if !valid_utf8(req) {
        None
    } else {
        content_length(req, exact_length_header(), false)
    }
}

/// Reads the `Content-Length` of an engine request.
pub fn parse_content_length(req: &[u8]) -> (r: Option<usize>)
    ensures
        match r {
            Some(n) => spec_parse_content_length(req@) == Some(n as nat),
            None => spec_parse_content_length(req@) is None,
        },
{
    if str_from_utf8(req).is_none() {
        return None;
    }
    let name = "Content-Length:".as_bytes();
    proof {
        reveal_strlit("Content-Length:");
        vstd::utf8::is_ascii_chars_encode_utf8("Content-Length:"@);
    }
    crate::http::header_content_length(req, name, false)
}


/// JSON white space: space, tab, line feed, carriage return.
pub open spec fn is_json_ws(b: u8) -> bool {
    b == 0x20 || b == 0x09 || b == 0x0a || b == 0x0d
}

/// How many bytes of JSON white space begin at `i`.
pub open spec fn ws_run(s: Seq<u8>, i: int) -> nat
    decreases s.len() - i,
{
    if 0 <= i < s.len() && is_json_ws(s[i]) {
        1 + ws_run(s, i + 1)
    } else {
        0
    }
}

/// How many bytes other than a double quote begin at `i`.
pub open spec fn unquoted_run(s: Seq<u8>, i: int) -> nat
    decreases s.len() - i,
{
    if 0 <= i < s.len() && s[i] != 0x22 {
        1 + unquoted_run(s, i + 1)
    } else {
        0
    }
}

/// The length of the contents of the JSON string that opens at `i`: a
/// double quote, the bytes up to the next double quote, that quote. String
/// contents are taken literally (a backslash is an ordinary byte, and neither
/// a domain nor base64 admits one).
pub open spec fn string_at(s: Seq<u8>, i: int) -> Option<nat> {
    if 0 <= i < s.len() && s[i] == 0x22 && i + 1 + unquoted_run(s, i + 1) < s.len() {
        Some(unquoted_run(s, i + 1))
    } else {
        None
    }
}

/// The fields found so far: where the domain's and the payload's contents
/// lie in the body, and the magnitude.
pub type SchemaFields = (Option<(int, int)>, Option<u64>, Option<(int, int)>);

/// The key `domain`.
pub open spec fn domain_field() -> Seq<u8> {
    "domain".spec_bytes()
}

/// The key `magnitude`.
pub open spec fn magnitude_field() -> Seq<u8> {
    "magnitude".spec_bytes()
}

/// The key `payload`.
pub open spec fn payload_field() -> Seq<u8> {
    "payload".spec_bytes()
}

/// Reads the value of member `key` at `v` into the fields, with the length of
/// its text. A key other than the three, or one seen before, is refused.
pub open spec fn member_value(s: Seq<u8>, v: int, key: Seq<u8>, acc: SchemaFields) -> Option<
    (SchemaFields, nat),
> {
    if key == domain_field() {
        if acc.0 is Some {
            None
        } else {
            match string_at(s, v) {
                None => None,
                Some(l) => Some(((Some((v + 1, v + 1 + l)), acc.1, acc.2), l + 2)),
            }
        }
    } else if key == magnitude_field() {
        if acc.1 is Some {
            None
        } else {
            match number_at(s, v) {
                None => None,
                Some((m, l)) => Some(((acc.0, Some(m), acc.2), l)),
            }
        }
    } else if key == payload_field() {
        if acc.2 is Some {
            None
        } else {
            match string_at(s, v) {
                None => None,
                Some(l) => Some(((acc.0, acc.1, Some((v + 1, v + 1 + l))), l + 2)),
            }
        }
    } else {
        None
    }
}

/// Reads the members of the object from `i` (just after its `{` or after a
/// `,`) through its closing `}`, which only white space may follow.
pub open spec fn members(s: Seq<u8>, i: int, acc: SchemaFields) -> Option<SchemaFields>
    decreases s.len() - i,
{
    let k = i + ws_run(s, i);
    if i < 0 || i > s.len() {
        None
    } else {
        match string_at(s, k) {
            None => None,
            Some(kl) => {
                let key = s.subrange(k + 1, k + 1 + kl);
                let c = k + kl + 2 + ws_run(s, k + kl + 2);
                if !(c < s.len() && s[c] == 0x3a) {
                    None
                } else {
                    let v = c + 1 + ws_run(s, c + 1);
                    match member_value(s, v, key, acc) {
                        None => None,
                        Some((acc2, l)) => {
                            let t = v + l + ws_run(s, v + l);
                            if t < s.len() && s[t] == 0x2c {
                                members(s, t + 1, acc2)
                            } else if t < s.len() && s[t] == 0x7d && t + 1 + ws_run(s, t + 1)
                                == s.len() {
                                Some(acc2)
                            } else {
                                None
                            }
                        },
                    }
                }
            },
        }
    }
}

/// The fields of a body that is one JSON object, with white space allowed
/// around every token.
pub open spec fn object_fields(s: Seq<u8>) -> Option<SchemaFields> {
    let k = ws_run(s, 0) as int;
    if k < s.len() && s[k] == 0x7b {
        members(s, k + 1, (None, None, None))
    } else {
        None
    }
}

/// Longest domain name, in bytes (its bytes are ASCII, so also in characters).
pub const MAX_DOMAIN_LEN: usize = 256;

/// A byte allowed in a domain name: ASCII letter or digit, `_` or `-`.
pub open spec fn is_domain_byte(b: u8) -> bool {
    (0x30 <= b <= 0x39) || (0x41 <= b <= 0x5a) || (0x61 <= b <= 0x7a) || b == 0x5f || b == 0x2d
}

/// A well-formed domain name: at most `MAX_DOMAIN_LEN` bytes, all allowed.
pub open spec fn valid_domain(d: Seq<u8>) -> bool {
    d.len() <= MAX_DOMAIN_LEN && forall|i: int| 0 <= i < d.len() ==> is_domain_byte(#[trigger] d[i])
}

/// What the schema reads from an engine request body: the body is UTF-8 and
/// one JSON object whose members are `domain` (a string of allowed bytes, at
/// most 256), `magnitude` (a positive number, rounded down) and, optionally,
/// `payload` (a string, still base64; an omitted payload is empty), each at
/// most once, in any order. Anything else is a format violation.
pub open spec fn spec_schema(body: Seq<u8>) -> Option<(Seq<u8>, u64, Seq<u8>)> {
    if !valid_utf8(body) {
        None
    } else {
        match object_fields(body) {
            Some((Some((ds, de)), Some(m), p)) => {
                let d = body.subrange(ds, de);
                let payload = match p {
                    Some((ps, pe)) => body.subrange(ps, pe),
                    None => Seq::<u8>::empty(),
                };
                if valid_domain(d) && m >= 1 {
                    Some((d, m, payload))
                } else {
                    None
                }
            },
            _ => None,
        }
    }
}

/// The compact body that the ingress documents:
/// `{"domain":"<d>","magnitude":<m>,"payload":"<p>"}`, the magnitude in
/// decimal.
pub open spec fn compact_body(d: Seq<u8>, m: u64, p: Seq<u8>) -> Seq<u8> {
    "{\"domain\":\"".spec_bytes() + d + "\",\"magnitude\":".spec_bytes() + decimal(m as nat)
        + ",\"payload\":\"".spec_bytes() + p + "\"}".spec_bytes()
}

/// A run of non-quote bytes closed by a quote has its length.
proof fn lemma_unquoted_run(s: Seq<u8>, i: int, n: int)
    requires
        0 <= i,
        0 <= n,
        i + n < s.len(),
        forall|j: int| i <= j < i + n ==> s[j] != 0x22,
        s[i + n] == 0x22,
    ensures
        unquoted_run(s, i) == n,
    decreases n,
{
    if n > 0 {
        lemma_unquoted_run(s, i + 1, n - 1);
    }
}

/// A run of digits not followed by a digit has its length.
proof fn lemma_digits_at(s: Seq<u8>, i: int, n: int)
    requires
        0 <= i,
        0 <= n,
        i + n <= s.len(),
        forall|j: int| i <= j < i + n ==> 0x30 <= #[trigger] s[j] <= 0x39,
        i + n < s.len() ==> !(0x30 <= s[i + n] <= 0x39),
    ensures
        digits_at(s, i) == n,
    decreases n,
{
    if n > 0 {
        lemma_digits_at(s, i + 1, n - 1);
    }
}

/// The decimal digits of `m`: digits, at least one, no leading zero, and
/// they spell `m`.
proof fn lemma_decimal(m: nat)
    ensures
        decimal(m).len() >= 1,
        m >= 10 ==> decimal(m).len() >= 2,
        all_digits(decimal(m)),
        digits_value(decimal(m)) == m,
        decimal(m).len() > 1 ==> decimal(m)[0] != 0x30,
    decreases m,
{
    if m < 10 {
        assert(decimal(m).drop_last() =~= Seq::<u8>::empty());
        assert(digits_value(Seq::<u8>::empty()) == 0);
    } else {
        let q = m / 10;
        lemma_decimal(q);
        let s = decimal(m);
        assert(s == decimal(q) + seq![(0x30 + m % 10) as u8]);
        assert(s.drop_last() =~= decimal(q));
        assert(s.last() == (0x30 + m % 10) as u8);
        assert(q * 10 + m % 10 == m);
        assert(s[0] == decimal(q)[0]);
        assert forall|i: int| 0 <= i < s.len() implies is_digit(#[trigger] s[i]) by {
            if i < s.len() - 1 {
                assert(s[i] == decimal(q)[i]);
            }
        }
    }
}

/// The bytes of a compact body, piece by piece (`dec` is the magnitude's
/// decimal text).
spec fn compact_layout(b: Seq<u8>, d: Seq<u8>, dec: Seq<u8>, p: Seq<u8>) -> bool {
    let h = seq![0x7bu8, 0x22, 0x64, 0x6f, 0x6d, 0x61, 0x69, 0x6e, 0x22, 0x3a, 0x22];
    let mid = seq![0x22u8, 0x2c, 0x22, 0x6d, 0x61, 0x67, 0x6e, 0x69, 0x74, 0x75, 0x64, 0x65, 0x22, 0x3a];
    let pk = seq![0x2cu8, 0x22, 0x70, 0x61, 0x79, 0x6c, 0x6f, 0x61, 0x64, 0x22, 0x3a, 0x22];
    let o_mid = 11 + d.len() as int;
    let o_dec = o_mid + 14;
    let o_pk = o_dec + dec.len() as int;
    let o_p = o_pk + 12;
    let o_tl = o_p + p.len() as int;
    &&& b.len() == o_tl + 2
    &&& b.subrange(0, 11) == h
    &&& b.subrange(11, o_mid) == d
    &&& b.subrange(o_mid, o_dec) == mid
    &&& b.subrange(o_dec, o_pk) == dec
    &&& b.subrange(o_pk, o_p) == pk
    &&& b.subrange(o_p, o_tl) == p
    &&& b.subrange(o_tl, o_tl + 2) == seq![0x22u8, 0x7d]
}

/// The literals of the compact body and its layout.
#[verifier::rlimit(30)]
proof fn lemma_compact_layout(d: Seq<u8>, m: u64, p: Seq<u8>)
    ensures
        compact_layout(compact_body(d, m, p), d, decimal(m as nat), p),
        domain_field() == seq![0x64u8, 0x6f, 0x6d, 0x61, 0x69, 0x6e],
        magnitude_field() == seq![0x6du8, 0x61, 0x67, 0x6e, 0x69, 0x74, 0x75, 0x64, 0x65],
        payload_field() == seq![0x70u8, 0x61, 0x79, 0x6c, 0x6f, 0x61, 0x64],
        valid_utf8("{\"domain\":\"".spec_bytes()),
        valid_utf8("\",\"magnitude\":".spec_bytes()),
        valid_utf8(",\"payload\":\"".spec_bytes()),
        valid_utf8("\"}".spec_bytes()),
{
    let h = "{\"domain\":\"".spec_bytes();
    let mid = "\",\"magnitude\":".spec_bytes();
    let pk = ",\"payload\":\"".spec_bytes();
    let tl = "\"}".spec_bytes();
    reveal_strlit("{\"domain\":\"");
    reveal_strlit("\",\"magnitude\":");
    reveal_strlit(",\"payload\":\"");
    reveal_strlit("\"}");
    reveal_strlit("domain");
    reveal_strlit("magnitude");
    reveal_strlit("payload");
    vstd::utf8::is_ascii_chars_encode_utf8("{\"domain\":\""@);
    vstd::utf8::is_ascii_chars_encode_utf8("\",\"magnitude\":"@);
    vstd::utf8::is_ascii_chars_encode_utf8(",\"payload\":\""@);
    vstd::utf8::is_ascii_chars_encode_utf8("\"}"@);
    vstd::utf8::is_ascii_chars_encode_utf8("domain"@);
    vstd::utf8::is_ascii_chars_encode_utf8("magnitude"@);
    vstd::utf8::is_ascii_chars_encode_utf8("payload"@);
    vstd::utf8::encode_utf8_valid_utf8("{\"domain\":\""@);
    vstd::utf8::encode_utf8_valid_utf8("\",\"magnitude\":"@);
    vstd::utf8::encode_utf8_valid_utf8(",\"payload\":\""@);
    vstd::utf8::encode_utf8_valid_utf8("\"}"@);
    assert(h =~= seq![0x7bu8, 0x22, 0x64, 0x6f, 0x6d, 0x61, 0x69, 0x6e, 0x22, 0x3a, 0x22]);
    assert(mid =~= seq![0x22u8, 0x2c, 0x22, 0x6d, 0x61, 0x67, 0x6e, 0x69, 0x74, 0x75, 0x64, 0x65, 0x22, 0x3a]);
    assert(pk =~= seq![0x2cu8, 0x22, 0x70, 0x61, 0x79, 0x6c, 0x6f, 0x61, 0x64, 0x22, 0x3a, 0x22]);
    assert(tl =~= seq![0x22u8, 0x7d]);
    assert(domain_field() =~= seq![0x64u8, 0x6f, 0x6d, 0x61, 0x69, 0x6e]);
    assert(magnitude_field() =~= seq![0x6du8, 0x61, 0x67, 0x6e, 0x69, 0x74, 0x75, 0x64, 0x65]);
    assert(payload_field() =~= seq![0x70u8, 0x61, 0x79, 0x6c, 0x6f, 0x61, 0x64]);
    let dec = decimal(m as nat);
    let b = compact_body(d, m, p);
    let o_mid = 11 + d.len() as int;
    let o_dec = o_mid + 14;
    let o_pk = o_dec + dec.len() as int;
    let o_p = o_pk + 12;
    let o_tl = o_p + p.len() as int;
    let b1 = h + d;
    let b2 = b1 + mid;
    let b3 = b2 + dec;
    let b4 = b3 + pk;
    let b5 = b4 + p;
    assert(b == b5 + tl);
    assert(b.subrange(0, o_tl) == b5);
    assert(b5.subrange(0, o_p) == b4);
    assert(b4.subrange(0, o_pk) == b3);
    assert(b3.subrange(0, o_dec) == b2);
    assert(b2.subrange(0, o_mid) == b1);
    assert(b.subrange(0, 11) =~= h);
    assert(b.subrange(o_mid, o_dec) =~= mid);
    assert(b.subrange(o_pk, o_p) =~= pk);
    assert(b.subrange(o_tl, o_tl + 2) =~= tl);
    assert(b.subrange(11, o_mid) =~= d);
    assert(b.subrange(o_dec, o_pk) =~= dec);
    assert(b.subrange(o_p, o_tl) =~= p);
}

/// The compact body is UTF-8 when its payload is.
proof fn lemma_compact_utf8(d: Seq<u8>, m: u64, p: Seq<u8>)
    requires
        valid_domain(d),
        valid_utf8(p),
    ensures
        valid_utf8(compact_body(d, m, p)),
{
    lemma_compact_layout(d, m, p);
    lemma_decimal(m as nat);
    let h = "{\"domain\":\"".spec_bytes();
    let mid = "\",\"magnitude\":".spec_bytes();
    let pk = ",\"payload\":\"".spec_bytes();
    let tl = "\"}".spec_bytes();
    let dec = decimal(m as nat);
    assert forall|i: int| 0 <= i < d.len() implies d[i] < 0x80 by {
        assert(is_domain_byte(d[i]));
    }
    lemma_ascii_utf8(d);
    assert forall|i: int| 0 <= i < dec.len() implies dec[i] < 0x80 by {
        assert(is_digit(dec[i]));
    }
    lemma_ascii_utf8(dec);
    vstd::utf8::valid_utf8_concat(h, d);
    vstd::utf8::valid_utf8_concat(h + d, mid);
    vstd::utf8::valid_utf8_concat(h + d + mid, dec);
    vstd::utf8::valid_utf8_concat(h + d + mid + dec, pk);
    vstd::utf8::valid_utf8_concat(h + d + mid + dec + pk, p);
    vstd::utf8::valid_utf8_concat(h + d + mid + dec + pk + p, tl);
}

/// A byte of a body that lies in one of its pieces.
proof fn lemma_piece(b: Seq<u8>, a: int, c: int, x: Seq<u8>, j: int)
    requires
        0 <= a <= j < c <= b.len(),
        b.subrange(a, c) == x,
    ensures
        b[j] == x[j - a],
{
    assert(b.subrange(a, c)[j - a] == b[j]);
}

/// The first member of a compact body: the domain.
proof fn lemma_compact_first(b: Seq<u8>, d: Seq<u8>, dec: Seq<u8>, p: Seq<u8>)
    requires
        compact_layout(b, d, dec, p),
        valid_domain(d),
        domain_field() == seq![0x64u8, 0x6f, 0x6d, 0x61, 0x69, 0x6e],
    ensures
        members(b, 1, (None, None, None)) == members(
            b,
            13 + (d.len() as int),
            (Some((11int, 11 + (d.len() as int))), None, None),
        ),
{
    let dl = d.len() as int;
    let o_mid = 11 + dl;
    let h = seq![0x7bu8, 0x22, 0x64, 0x6f, 0x6d, 0x61, 0x69, 0x6e, 0x22, 0x3a, 0x22];
    let mid = seq![0x22u8, 0x2c, 0x22, 0x6d, 0x61, 0x67, 0x6e, 0x69, 0x74, 0x75, 0x64, 0x65, 0x22, 0x3a];
    let e: SchemaFields = (None, None, None);
    let acc1: SchemaFields = (Some((11, 11 + dl)), None, None);
    assert forall|j: int| 0 <= j < 11 implies b[j] == h[j] by {
        lemma_piece(b, 0, 11, h, j);
    }
    assert(b[1] == 0x22 && b[8] == 0x22 && b[9] == 0x3a && b[10] == 0x22);
    assert forall|j: int| 2 <= j < 8 implies b[j] != 0x22 by {
        assert(b[j] == h[j]);
    }
    lemma_unquoted_run(b, 2, 6);
    assert(b.subrange(2, 8) =~= domain_field()) by {
        assert forall|j: int| 0 <= j < 6 implies b.subrange(2, 8)[j] == domain_field()[j] by {
            assert(b[2 + j] == h[2 + j]);
        }
    }
    assert forall|j: int| 11 <= j < 11 + dl implies b[j] != 0x22 by {
        lemma_piece(b, 11, o_mid, d, j);
        assert(is_domain_byte(d[j - 11]));
    }
    lemma_piece(b, o_mid, o_mid + 14, mid, o_mid);
    lemma_piece(b, o_mid, o_mid + 14, mid, o_mid + 1);
    lemma_unquoted_run(b, 11, dl);
    assert(member_value(b, 10, domain_field(), e) == Some((acc1, (dl + 2) as nat)));
}

/// The decimal text of `m`, followed by a comma, reads as the number `m`.
proof fn lemma_decimal_number(b: Seq<u8>, i: int, nl: int, m: u64)
    requires
        0 <= i,
        nl >= 1,
        i + nl < b.len(),
        digits_at(b, i) == nl,
        b.subrange(i, i + nl) == decimal(m as nat),
        !(nl > 1 && b[i] == 0x30),
        b[i + nl] == 0x2c,
        digits_value(decimal(m as nat)) == m,
        m >= 1,
    ensures
        number_at(b, i) == Some((m, nl as nat)),
{
    assert(number_digits(b, i, nl, 0) == decimal(m as nat));
    assert(exponent_at(b, i + nl) == Some((0int, 0nat)));
    assert(pow10(0) == 1);
    assert(scale_down(m as nat, 0) == m) by (nonlinear_arith)
        requires
            pow10(0) == 1,
    ;
}

/// The second member of a compact body: the magnitude.
proof fn lemma_compact_second(b: Seq<u8>, d: Seq<u8>, m: u64, p: Seq<u8>)
    requires
        m >= 1,
        compact_layout(b, d, decimal(m as nat), p),
        decimal(m as nat).len() >= 1,
        all_digits(decimal(m as nat)),
        digits_value(decimal(m as nat)) == m,
        decimal(m as nat).len() > 1 ==> decimal(m as nat)[0] != 0x30,
        domain_field() == seq![0x64u8, 0x6f, 0x6d, 0x61, 0x69, 0x6e],
        magnitude_field() == seq![0x6du8, 0x61, 0x67, 0x6e, 0x69, 0x74, 0x75, 0x64, 0x65],
    ensures
        members(b, 13 + (d.len() as int), (Some((11int, 11 + (d.len() as int))), None, None))
            == members(
            b,
            11 + (d.len() as int) + 14 + (decimal(m as nat).len() as int) + 1,
            (Some((11int, 11 + (d.len() as int))), Some(m), None),
        ),
{
    let dec = decimal(m as nat);
    let dl = d.len() as int;
    let nl = dec.len() as int;
    let o_mid = 11 + dl;
    let o_dec = o_mid + 14;
    let o_pk = o_dec + nl;
    let i2 = o_mid + 2;
    let mid = seq![0x22u8, 0x2c, 0x22, 0x6d, 0x61, 0x67, 0x6e, 0x69, 0x74, 0x75, 0x64, 0x65, 0x22, 0x3a];
    let pk = seq![0x2cu8, 0x22, 0x70, 0x61, 0x79, 0x6c, 0x6f, 0x61, 0x64, 0x22, 0x3a, 0x22];
    let acc1: SchemaFields = (Some((11, 11 + dl)), None, None);
    let acc2: SchemaFields = (Some((11, 11 + dl)), Some(m), None);
    assert forall|j: int| o_mid <= j < o_dec implies b[j] == mid[j - o_mid] by {
        lemma_piece(b, o_mid, o_dec, mid, j);
    }
    assert(b[o_mid + 2] == 0x22 && b[o_mid + 12] == 0x22 && b[o_mid + 13] == 0x3a);
    assert forall|j: int| i2 + 1 <= j < i2 + 10 implies b[j] != 0x22 by {
        assert(b[j] == mid[j - o_mid]);
    }
    lemma_unquoted_run(b, i2 + 1, 9);
    assert(b.subrange(i2 + 1, i2 + 10) =~= magnitude_field()) by {
        assert forall|j: int| 0 <= j < 9 implies b.subrange(i2 + 1, i2 + 10)[j]
            == magnitude_field()[j] by {
            assert(b[i2 + 1 + j] == mid[3 + j]);
        }
    }
    assert forall|j: int| o_dec <= j < o_dec + nl implies 0x30 <= #[trigger] b[j] <= 0x39 by {
        lemma_piece(b, o_dec, o_pk, dec, j);
        assert(is_digit(dec[j - o_dec]));
    }
    lemma_piece(b, o_pk, o_pk + 12, pk, o_pk);
    lemma_digits_at(b, o_dec, nl);
    lemma_piece(b, o_dec, o_pk, dec, o_dec);
    assert(is_digit(dec[0]));
    assert(digits_at(b, o_dec) == nl);
    assert(b[o_dec + nl] == 0x2c);
    lemma_decimal_number(b, o_dec, nl, m);
    assert(number_at(b, o_dec) == Some((m, nl as nat)));
    assert(magnitude_field() != domain_field()) by {
        assert(magnitude_field().len() != domain_field().len());
    }
    assert(member_value(b, o_dec, magnitude_field(), acc1) == Some((acc2, nl as nat)));
}

/// The third member of a compact body: the payload, then the end.
#[verifier::rlimit(40)]
proof fn lemma_compact_third(b: Seq<u8>, d: Seq<u8>, dec: Seq<u8>, m: u64, p: Seq<u8>)
    requires
        compact_layout(b, d, dec, p),
        forall|i: int| 0 <= i < p.len() ==> p[i] != 0x22,
        domain_field() == seq![0x64u8, 0x6f, 0x6d, 0x61, 0x69, 0x6e],
        magnitude_field() == seq![0x6du8, 0x61, 0x67, 0x6e, 0x69, 0x74, 0x75, 0x64, 0x65],
        payload_field() == seq![0x70u8, 0x61, 0x79, 0x6c, 0x6f, 0x61, 0x64],
    ensures
        members(
            b,
            11 + (d.len() as int) + 14 + (dec.len() as int) + 1,
            (Some((11int, 11 + (d.len() as int))), Some(m), None),
        ) == Some(
            (
                Some((11int, 11 + (d.len() as int))),
                Some(m),
                Some(
                    (
                        11 + (d.len() as int) + 14 + (dec.len() as int) + 12,
                        11 + (d.len() as int) + 14 + (dec.len() as int) + 12 + (p.len() as int),
                    ),
                ),
            ),
        ),
{
    let dl = d.len() as int;
    let nl = dec.len() as int;
    let pl = p.len() as int;
    let o_pk = 11 + dl + 14 + nl;
    let o_p = o_pk + 12;
    let o_tl = o_p + pl;
    let i3 = o_pk + 1;
    let pk = seq![0x2cu8, 0x22, 0x70, 0x61, 0x79, 0x6c, 0x6f, 0x61, 0x64, 0x22, 0x3a, 0x22];
    let tl = seq![0x22u8, 0x7d];
    let acc2: SchemaFields = (Some((11, 11 + dl)), Some(m), None);
    let acc3: SchemaFields = (Some((11, 11 + dl)), Some(m), Some((o_p, o_p + pl)));
    assert forall|j: int| o_pk <= j < o_p implies b[j] == pk[j - o_pk] by {
        lemma_piece(b, o_pk, o_p, pk, j);
    }
    assert(b[o_pk + 1] == 0x22 && b[o_pk + 9] == 0x22 && b[o_pk + 10] == 0x3a && b[o_pk + 11]
        == 0x22);
    assert forall|j: int| i3 + 1 <= j < i3 + 8 implies b[j] != 0x22 by {
        assert(b[j] == pk[j - o_pk]);
    }
    lemma_unquoted_run(b, i3 + 1, 7);
    assert(b.subrange(i3 + 1, i3 + 8) =~= payload_field()) by {
        assert forall|j: int| 0 <= j < 7 implies b.subrange(i3 + 1, i3 + 8)[j]
            == payload_field()[j] by {
            assert(b[i3 + 1 + j] == pk[2 + j]);
        }
    }
    assert forall|j: int| o_p <= j < o_p + pl implies b[j] != 0x22 by {
        lemma_piece(b, o_p, o_tl, p, j);
    }
    lemma_piece(b, o_tl, o_tl + 2, tl, o_tl);
    lemma_piece(b, o_tl, o_tl + 2, tl, o_tl + 1);
    lemma_unquoted_run(b, o_p, pl);
    assert(payload_field() != domain_field() && payload_field() != magnitude_field()) by {
        assert(payload_field().len() != domain_field().len());
        assert(payload_field().len() != magnitude_field().len());
    }
    assert(member_value(b, o_p - 1, payload_field(), acc2) == Some((acc3, (pl + 2) as nat)));
}

/// The fields that a body laid out as a compact body yields.
proof fn lemma_compact_fields(b: Seq<u8>, d: Seq<u8>, m: u64, p: Seq<u8>)
    requires
        m >= 1,
        compact_layout(b, d, decimal(m as nat), p),
        valid_domain(d),
        forall|i: int| 0 <= i < p.len() ==> p[i] != 0x22,
        decimal(m as nat).len() >= 1,
        all_digits(decimal(m as nat)),
        digits_value(decimal(m as nat)) == m,
        decimal(m as nat).len() > 1 ==> decimal(m as nat)[0] != 0x30,
        domain_field() == seq![0x64u8, 0x6f, 0x6d, 0x61, 0x69, 0x6e],
        magnitude_field() == seq![0x6du8, 0x61, 0x67, 0x6e, 0x69, 0x74, 0x75, 0x64, 0x65],
        payload_field() == seq![0x70u8, 0x61, 0x79, 0x6c, 0x6f, 0x61, 0x64],
    ensures
        object_fields(b) == Some(
            (
                Some((11int, 11 + d.len() as int)),
                Some(m),
                Some(
                    (
                        11 + d.len() as int + 14 + decimal(m as nat).len() as int + 12,
                        11 + d.len() as int + 14 + decimal(m as nat).len() as int + 12
                            + p.len() as int,
                    ),
                ),
            ),
        ),
{
    let dec = decimal(m as nat);
    lemma_compact_first(b, d, dec, p);
    lemma_compact_second(b, d, m, p);
    lemma_compact_third(b, d, dec, m, p);
    lemma_piece(b, 0, 11, seq![0x7bu8, 0x22, 0x64, 0x6f, 0x6d, 0x61, 0x69, 0x6e, 0x22, 0x3a, 0x22], 0);
    assert(ws_run(b, 0) == 0);
}

/// What the documented compact body reads as: a body written in the
/// documented form, with a well-formed domain, a positive magnitude and a
/// UTF-8 payload without quotes, is read back as that domain, magnitude and
/// payload.
pub proof fn lemma_compact_body_reads_back(d: Seq<u8>, m: u64, p: Seq<u8>)
    requires
        valid_domain(d),
        m >= 1,
        valid_utf8(p),
        forall|i: int| 0 <= i < p.len() ==> p[i] != 0x22,
    ensures
        spec_schema(compact_body(d, m, p)) == Some((d, m, p)),
{
    lemma_decimal(m as nat);
    lemma_compact_layout(d, m, p);
    lemma_compact_utf8(d, m, p);
    let b = compact_body(d, m, p);
    lemma_compact_fields(b, d, m, p);
    let nl = decimal(m as nat).len() as int;
    let o_p = 11 + d.len() as int + 14 + nl + 12;
    assert(b.subrange(11, 11 + d.len() as int) == d);
    assert(b.subrange(o_p, o_p + p.len() as int) == p);
}

/// Length of the white space at `i`.
fn ws_run_exec(s: &[u8], i: usize) -> (k: usize)
    requires
        i <= s@.len(),
    ensures
        k == ws_run(s@, i as int),
        i + k <= s@.len(),
{
    let mut j = i;
    while j < s.len() && (s[j] == 0x20 || s[j] == 0x09 || s[j] == 0x0a || s[j] == 0x0d)
        invariant
            i <= j <= s@.len(),
            ws_run(s@, i as int) == (j - i) + ws_run(s@, j as int),
        decreases s@.len() - j,
    {
        j = j + 1;
    }
    j - i
}

/// Length of the run of bytes other than `"` at `i`.
fn unquoted_run_exec(s: &[u8], i: usize) -> (k: usize)
    requires
        i <= s@.len(),
    ensures
        k == unquoted_run(s@, i as int),
        i + k <= s@.len(),
{
    let mut j = i;
    while j < s.len() && s[j] != 0x22
        invariant
            i <= j <= s@.len(),
            unquoted_run(s@, i as int) == (j - i) + unquoted_run(s@, j as int),
        decreases s@.len() - j,
    {
        j = j + 1;
    }
    j - i
}

/// The length of the contents of the string at `i`, as `string_at` says.
fn string_at_exec(s: &[u8], i: usize) -> (r: Option<usize>)
    requires
        i <= s@.len(),
    ensures
        match r {
            Some(l) => string_at(s@, i as int) == Some(l as nat) && i + l + 2 <= s@.len(),
            None => string_at(s@, i as int) is None,
        },
{
    if i < s.len() && s[i] == 0x22 {
        let l = unquoted_run_exec(s, i + 1);
        if i + 1 + l < s.len() {
            Some(l)
        } else {
            None
        }
    } else {
        None
    }
}

/// The view of the fields that the parser holds.
pub open spec fn fields_view(d: Option<(usize, usize)>, m: Option<u64>, p: Option<(usize, usize)>) -> SchemaFields {
    (
        match d {
            Some((a, b)) => Some((a as int, b as int)),
            None => None,
        },
        m,
        match p {
            Some((a, b)) => Some((a as int, b as int)),
            None => None,
        },
    )
}

/// Whether a domain name is well formed, as `valid_domain` says.
fn valid_domain_exec(domain: &[u8]) -> (r: bool)
    ensures
        r == valid_domain(domain@),
{
    if domain.len() > MAX_DOMAIN_LEN {
        return false;
    }
    let mut k: usize = 0;
    while k < domain.len()
        invariant
            domain@.len() <= MAX_DOMAIN_LEN,
            0 <= k <= domain@.len(),
            forall|i: int| 0 <= i < k ==> is_domain_byte(#[trigger] domain@[i]),
        decreases domain@.len() - k,
    {
        let c = domain[k];
        let ok = (0x30 <= c && c <= 0x39) || (0x41 <= c && c <= 0x5a) || (0x61 <= c && c <= 0x7a)
            || c == 0x5f || c == 0x2d;
        if !ok {
            assert(!is_domain_byte(domain@[k as int]));
            return false;
        }
        k = k + 1;
    }
    true
}

/// Checks the fields of a finished object and returns the reading.
fn schema_result(
    body: &[u8],
    d: Option<(usize, usize)>,
    m: Option<u64>,
    p: Option<(usize, usize)>,
) -> (r: Result<(&[u8], u64, &[u8]), ()>)
    requires
        valid_utf8(body@),
        object_fields(body@) == Some(fields_view(d, m, p)),
        d matches Some((a, b)) ==> a <= b <= body@.len(),
        p matches Some((a, b)) ==> a <= b <= body@.len(),
    ensures
        match r {
            Ok((dm, mg, pl)) => spec_schema(body@) == Some((dm@, mg, pl@)),
            Err(_) => spec_schema(body@) is None,
        },
{
    let (ds, de) = match d {
        Some(x) => x,
        None => return Err(()),
    };
    let mg = match m {
        Some(x) => x,
        None => return Err(()),
    };
    let domain: &[u8] = &body[ds..de];
    let payload: &[u8] = match p {
        Some((ps, pe)) => &body[ps..pe],
        None => &body[0..0],
    };
    assert(payload@ == (match fields_view(d, m, p).2 {
        Some((ps, pe)) => body@.subrange(ps, pe),
        None => Seq::<u8>::empty(),
    }));
    if mg == 0 || !valid_domain_exec(domain) {
        return Err(());
    }
    Ok((domain, mg, payload))
}

/// Parses an engine request body as `spec_schema` says: one JSON object with
/// `domain`, `magnitude` and an optional `payload`, returning the domain, the
/// magnitude and the (still encoded) payload, empty when omitted.
pub fn parse_exact_schema(body: &[u8]) -> (r: Result<(&[u8], u64, &[u8]), ()>)
    ensures
        match r {
            Ok((domain, magnitude, payload)) => spec_schema(body@) == Some(
                (domain@, magnitude, payload@),
            ),
            Err(_) => spec_schema(body@) is None,
        },
{
    if str_from_utf8(body).is_none() {
        return Err(());
    }
    let len = body.len();
    let k0 = ws_run_exec(body, 0);
    if !(k0 < len && body[k0] == 0x7b) {
        return Err(());
    }
    let key_d = "domain".as_bytes();
    let key_m = "magnitude".as_bytes();
    let key_p = "payload".as_bytes();
    let mut i = k0 + 1;
    let mut d: Option<(usize, usize)> = None;
    let mut m: Option<u64> = None;
    let mut p: Option<(usize, usize)> = None;
    loop
        invariant
            len == body@.len(),
            valid_utf8(body@),
            i <= len,
            key_d@ == domain_field(),
            key_m@ == magnitude_field(),
            key_p@ == payload_field(),
            d matches Some((a, b)) ==> a <= b <= len,
            p matches Some((a, b)) ==> a <= b <= len,
            object_fields(body@) == members(body@, i as int, fields_view(d, m, p)),
        decreases len - i,
    {
        let ghost acc = fields_view(d, m, p);
        let k = i + ws_run_exec(body, i);
        let kl = match string_at_exec(body, k) {
            Some(l) => l,
            None => return Err(()),
        };
        let key: &[u8] = &body[k + 1..k + 1 + kl];
        let c0 = k + kl + 2;
        let c = c0 + ws_run_exec(body, c0);
        if !(c < len && body[c] == 0x3a) {
            return Err(());
        }
        let v = c + 1 + ws_run_exec(body, c + 1);
        let l: usize;
        if bytes_eq(key, key_d) {
            if d.is_some() {
                return Err(());
            }
            let sl = match string_at_exec(body, v) {
                Some(x) => x,
                None => return Err(()),
            };
            d = Some((v + 1, v + 1 + sl));
            l = sl + 2;
        } else if bytes_eq(key, key_m) {
            if m.is_some() {
                return Err(());
            }
            let (val, nl) = match number_at_exec(body, v) {
                Some(x) => x,
                None => return Err(()),
            };
            m = Some(val);
            l = nl;
        } else if bytes_eq(key, key_p) {
            if p.is_some() {
                return Err(());
            }
            let sl = match string_at_exec(body, v) {
                Some(x) => x,
                None => return Err(()),
            };
            p = Some((v + 1, v + 1 + sl));
            l = sl + 2;
        } else {
            proof {
                assert(key@ == body@.subrange(k + 1, k + 1 + kl));
            }
            return Err(());
        }
        proof {
            assert(key@ == body@.subrange(k + 1, k + 1 + kl));
            assert(member_value(body@, v as int, key@, acc) == Some((fields_view(d, m, p), l as nat)));
        }
        let t = v + l + ws_run_exec(body, v + l);
        if t < len && body[t] == 0x2c {
            i = t + 1;
        } else if t < len && body[t] == 0x7d {
            let z = t + 1 + ws_run_exec(body, t + 1);
            if z != len {
                return Err(());
            }
            return schema_result(body, d, m, p);
        } else {
            return Err(());
        }
    }
}

/// Largest body that the engine ingress accepts, in bytes.
pub const MAX_REQUEST_BODY: usize = 15872;

/// Why the engine ingress refuses a request (each has its own HTTP answer).
#[derive(Clone, Copy, Debug, PartialEq, Eq, Structural)]
pub enum IngressRejection {
    MissingContentLength,
    MissingBody,
    InvalidSchema,
    InvalidPayload,
    PayloadTooLarge,
}

/// An action as submitted to the sealed engine: the hashed domain, the
/// magnitude and the decoded payload. (The C ABI carried the payload as a
/// pointer and a length; here the bytes themselves are held.)
#[derive(Debug)]
pub struct ActionRequest {
    pub domain_id: u64,
    pub magnitude: u64,
    pub payload: Vec<u8>,
}

/// The body of an engine request: the request must declare a length of at most
/// `MAX_REQUEST_BODY`, and that many bytes must follow its first blank line.
pub open spec fn engine_body(req: Seq<u8>) -> Result<Seq<u8>, IngressRejection> {
    match spec_parse_content_length(req) {
        None => Err(IngressRejection::MissingContentLength),
        Some(len) => if len > MAX_REQUEST_BODY {
            Err(IngressRejection::MissingContentLength)
        } else {
            match first_occurrence(req, header_terminator(), 0) {
                None => Err(IngressRejection::MissingBody),
                Some(pos) => {
                    let start = pos + header_terminator().len();
                    if start + len > req.len() {
                        Err(IngressRejection::MissingBody)
                    } else {
                        Ok(req.subrange(start, start + len))
                    }
                },
            }
        },
    }
}

/// The domain identifier of a domain name: its full 64-bit FNV-1a hash
/// (domain identifiers are `u64` end to end and never truncated).
pub open spec fn hashed_domain_id(domain: Seq<u8>) -> u64 {
    fnv1a(domain)
}

/// Cuts the body out of an engine request, as `engine_body` says.
pub fn request_body(req: &[u8]) -> (r: Result<&[u8], IngressRejection>)
    ensures
        match r {
            Ok(body) => engine_body(req@) == Ok::<Seq<u8>, IngressRejection>(body@),
            Err(e) => engine_body(req@) == Err::<Seq<u8>, IngressRejection>(e),
        },
{
    let rlen = req.len();
    let declared = match parse_content_length(req) {
        Some(cl) => cl,
        None => return Err(IngressRejection::MissingContentLength),
    };
    if declared > MAX_REQUEST_BODY {
        return Err(IngressRejection::MissingContentLength);
    }
    let marker = "\r\n\r\n".as_bytes();
    proof {
        reveal_strlit("\r\n\r\n");
        vstd::utf8::is_ascii_chars_encode_utf8("\r\n\r\n"@);
    }
    let pos = match memmem(req, marker) {
        Some(pos) => pos,
        None => return Err(IngressRejection::MissingBody),
    };
    proof {
        lemma_first_occurrence(req@, header_terminator(), 0);
        assert(pos + marker@.len() <= req@.len());
    }
    let start = pos + marker.len();
    if declared > rlen - start {
        return Err(IngressRejection::MissingBody);
    }
    Ok(&req[start..start + declared])
}

/// What an engine request normalizes to: the domain's 64-bit identifier, the
/// magnitude and the decoded payload; or why it is refused. A body that the
/// schema does not read is an invalid schema; a payload refused for its size
/// is too large; any other payload that is not strict base64 is invalid.
pub open spec fn spec_normalize(req: Seq<u8>) -> Result<(u64, u64, Seq<u8>), IngressRejection> {
    match engine_body(req) {
        Err(e) => Err(e),
        Ok(body) => match spec_schema(body) {
            None => Err(IngressRejection::InvalidSchema),
            Some((d, m, p)) => match spec_base64_decode(p) {
                Some(payload) => Ok((hashed_domain_id(d), m, payload)),
                None => if b64_oversized(p) {
                    Err(IngressRejection::PayloadTooLarge)
                } else {
                    Err(IngressRejection::InvalidPayload)
                },
            },
        },
    }
}

/// FNV-1a, 64-bit, byte by byte: the empty string hashes to the offset
/// basis `0xcbf29ce484222325`, and each further byte is xored into the hash,
/// which is then multiplied by the prime `0x100000001b3` modulo 2^64.
pub proof fn lemma_fnv1a_steps(s: Seq<u8>, b: u8)
    ensures
        fnv1a(Seq::<u8>::empty()) == 0xcbf29ce484222325u64,
        fnv1a(s.push(b)) as nat == ((fnv1a(s) ^ (b as u64)) as nat * 1099511628211nat)
            % 18446744073709551616nat,
{
    assert(s.push(b).drop_last() =~= s);
}

/// The domain identifier of a normalized request is the FNV-1a hash of the
/// whole domain that the schema read from its body (not of a part of it, and
/// not cut to fewer bits); the magnitude is the one read, and the payload
/// is the decoding of the payload read.
pub proof fn lemma_normalized_fields(req: Seq<u8>)
    ensures
        spec_normalize(req) matches Ok((id, m, payload)) ==> (engine_body(req) matches Ok(body)
            && spec_schema(body) matches Some((d, m2, p)) && id == fnv1a(d) && m2 == m
            && spec_base64_decode(p) == Some(payload)),
{
    match engine_body(req) {
        Ok(body) => match spec_schema(body) {
            Some((d, m, p)) => {
                assert(hashed_domain_id(d) == fnv1a(d));
            },
            None => {},
        },
        Err(_) => {},
    }
}

/// Every domain that the schema reads is at most 256 bytes, each an ASCII
/// letter, an ASCII digit, `_` or `-`; every magnitude it reads is positive.
pub proof fn lemma_schema_domain_bytes(body: Seq<u8>)
    ensures
        spec_schema(body) matches Some((d, m, p)) ==> ({
            &&& d.len() <= 256
            &&& m >= 1
            &&& forall|i: int|
                0 <= i < d.len() ==> {
                    let c = #[trigger] d[i];
                    ||| 0x30 <= c <= 0x39
                    ||| 0x41 <= c <= 0x5a
                    ||| 0x61 <= c <= 0x7a
                    ||| c == 0x5f
                    ||| c == 0x2d
                }
        }),
{
    match spec_schema(body) {
        Some((d, m, p)) => {
            assert forall|i: int| 0 <= i < d.len() implies {
                let c = #[trigger] d[i];
                ||| 0x30 <= c <= 0x39
                ||| 0x41 <= c <= 0x5a
                ||| 0x61 <= c <= 0x7a
                ||| c == 0x5f
                ||| c == 0x2d
            } by {
                assert(is_domain_byte(d[i]));
            }
        },
        None => {},
    }
}

/// Normalizes an engine request (the bytes of one read) into the action that
/// the engine resolves, or says why it is refused.
pub fn normalize_request(req: &[u8]) -> (r: Result<ActionRequest, IngressRejection>)
    ensures
        match r {
            Ok(a) => spec_normalize(req@) == Ok::<(u64, u64, Seq<u8>), IngressRejection>(
                (a.domain_id, a.magnitude, a.payload@),
            ),
            Err(e) => spec_normalize(req@) == Err::<(u64, u64, Seq<u8>), IngressRejection>(e),
        },
{
    let body = match request_body(req) {
        Ok(b) => b,
        Err(e) => return Err(e),
    };
    let (domain, magnitude, payload_b64) = match parse_exact_schema(body) {
        Ok(parsed) => parsed,
        Err(_) => return Err(IngressRejection::InvalidSchema),
    };
    let domain_id = fnv1a_64(domain);
    let payload = match base64_decode(payload_b64) {
        Some(p) => p,
        None => {
            if base64_oversized(payload_b64) {
                return Err(IngressRejection::PayloadTooLarge);
            } else {
                return Err(IngressRejection::InvalidPayload);
            }
        },
    };
    Ok(ActionRequest { domain_id, magnitude, payload })
}

/// `GET /health HTTP/`, which opens a health check.
pub open spec fn health_request_line() -> Seq<u8> {
    "GET /health HTTP/".spec_bytes()
}

/// The request is the ingress health check: it begins `GET /health HTTP/`.
pub open spec fn is_health_check(req: Seq<u8>) -> bool {
    health_request_line().len() <= req.len() && req.take(health_request_line().len() as int)
        == health_request_line()
}

/// Whether a request is the ingress health check.
pub fn health_check(req: &[u8]) -> (r: bool)
    ensures
        r == is_health_check(req@),
{
    let line = "GET /health HTTP/".as_bytes();
    if line.len() > req.len() {
        return false;
    }
    let r = matches_at(req, line, 0);
    assert(req@.subrange(0, line@.len() as int) == req@.take(line@.len() as int));
    r
}

/// What the engine ingress answers a request.
#[derive(Clone, Copy, Debug, PartialEq, Eq, Structural)]
pub enum IngressReply {
    Health,
    Authorized,
    Impossible,
    Rejected(IngressRejection),
}

/// The status line of a reply: 200 for the health check and for every
/// verdict, 413 for a payload too large, 400 for any other refusal.
pub open spec fn reply_status_line(r: IngressReply) -> Seq<u8> {
    match r {
        IngressReply::Rejected(IngressRejection::PayloadTooLarge) => "HTTP/1.1 413 Payload Too Large".spec_bytes(),
        IngressReply::Rejected(_) => "HTTP/1.1 400 Bad Request".spec_bytes(),
        _ => "HTTP/1.1 200 OK".spec_bytes(),
    }
}

/// The JSON body of a reply.
pub open spec fn reply_body(r: IngressReply) -> Seq<u8> {
    match r {
        IngressReply::Health => "{\"status\":\"ok\"}".spec_bytes(),
        IngressReply::Authorized => "{\"status\":\"AUTHORIZED\"}".spec_bytes(),
        IngressReply::Impossible => "{\"status\":\"IMPOSSIBLE\"}".spec_bytes(),
        IngressReply::Rejected(IngressRejection::MissingContentLength) =>
            "{\"error\":\"invalid_request\",\"message\":\"missing Content-Length\"}".spec_bytes(),
        IngressReply::Rejected(IngressRejection::MissingBody) =>
            "{\"error\":\"invalid_request\",\"message\":\"missing body\"}".spec_bytes(),
        IngressReply::Rejected(IngressRejection::InvalidSchema) =>
            "{\"error\":\"invalid_request\",\"message\":\"invalid schema\"}".spec_bytes(),
        IngressReply::Rejected(IngressRejection::InvalidPayload) =>
            "{\"error\":\"invalid_request\",\"message\":\"payload is not valid base64\"}".spec_bytes(),
        IngressReply::Rejected(IngressRejection::PayloadTooLarge) =>
            "{\"error\":\"payload_too_large\",\"message\":\"Decoded payload exceeds 65536 bytes\"}".spec_bytes(),
    }
}

/// The bytes of a reply: its status line, a `Content-Length` that is the
/// body's length, and the body.
pub fn reply_bytes(r: IngressReply) -> (out: Vec<u8>)
    ensures
        out@ == spec_http_response(reply_status_line(r), reply_body(r)),
{
    let status: &[u8] = match r {
        IngressReply::Rejected(IngressRejection::PayloadTooLarge) => "HTTP/1.1 413 Payload Too Large".as_bytes(),
        IngressReply::Rejected(_) => "HTTP/1.1 400 Bad Request".as_bytes(),
        _ => "HTTP/1.1 200 OK".as_bytes(),
    };
    let body: &[u8] = match r {
        IngressReply::Health => "{\"status\":\"ok\"}".as_bytes(),
        IngressReply::Authorized => "{\"status\":\"AUTHORIZED\"}".as_bytes(),
        IngressReply::Impossible => "{\"status\":\"IMPOSSIBLE\"}".as_bytes(),
        IngressReply::Rejected(IngressRejection::MissingContentLength) =>
            "{\"error\":\"invalid_request\",\"message\":\"missing Content-Length\"}".as_bytes(),
        IngressReply::Rejected(IngressRejection::MissingBody) =>
            "{\"error\":\"invalid_request\",\"message\":\"missing body\"}".as_bytes(),
        IngressReply::Rejected(IngressRejection::InvalidSchema) =>
            "{\"error\":\"invalid_request\",\"message\":\"invalid schema\"}".as_bytes(),
        IngressReply::Rejected(IngressRejection::InvalidPayload) =>
            "{\"error\":\"invalid_request\",\"message\":\"payload is not valid base64\"}".as_bytes(),
        IngressReply::Rejected(IngressRejection::PayloadTooLarge) =>
            "{\"error\":\"payload_too_large\",\"message\":\"Decoded payload exceeds 65536 bytes\"}".as_bytes(),
    };
    http_response(status, body)
}

/// What the engine ingress does with a request: answer it at once, or submit
/// an action to the sealed engine.
#[derive(Debug)]
pub enum IngressStep {
    Reply(IngressReply),
    Resolve(ActionRequest),
}

/// Decides what to do with an engine request: the health check is answered
/// `ok`; any other request is normalized, and either refused or resolved.
pub fn ingress_step(req: &[u8]) -> (s: IngressStep)
    ensures
        is_health_check(req@) ==> s matches IngressStep::Reply(IngressReply::Health),
        !is_health_check(req@) ==> match s {
            IngressStep::Resolve(a) => spec_normalize(req@) == Ok::<
                (u64, u64, Seq<u8>),
                IngressRejection,
            >((a.domain_id, a.magnitude, a.payload@)),
            IngressStep::Reply(IngressReply::Rejected(e)) => spec_normalize(req@) == Err::<
                (u64, u64, Seq<u8>),
                IngressRejection,
            >(e),
            IngressStep::Reply(_) => false,
        },
{
    if health_check(req) {
        return IngressStep::Reply(IngressReply::Health);
    }
    match normalize_request(req) {
        Ok(a) => IngressStep::Resolve(a),
        Err(e) => IngressStep::Reply(IngressReply::Rejected(e)),
    }
}

/// The reply to a resolved action: AUTHORIZED when the engine gave an effect,
/// IMPOSSIBLE otherwise.
pub fn outcome_reply(effect: &Option<AuthorizedEffect>) -> (r: IngressReply)
    ensures
        r == (if effect is Some {
            IngressReply::Authorized
        } else {
            IngressReply::Impossible
        }),
{
    match effect {
        Some(_) => IngressReply::Authorized,
        None => IngressReply::Impossible,
    }
}

/// The verdict that the sealed engine returns, in its C layout: a flag, seven
/// bytes of padding, and 32 bytes that hold the effect when the flag is set.
#[allow(non_camel_case_types)]
#[derive(Clone, Copy, Debug)]
pub struct AB_S_Verdict {
    pub is_ok: u8,
    pub pad: [u8; 7],
    pub payload: [u8; 32],
}

impl AB_S_Verdict {
    /// The effect that an OK verdict carries: its payload read in the 32-byte
    /// little-endian egress layout (the x86_64 layout of `AuthorizedEffect`).
    pub fn authorized_effect(&self) -> (r: Option<AuthorizedEffect>)
        ensures
            self.is_ok == 0 ==> r is None,
            self.is_ok != 0 ==> r == Some(
                AuthorizedEffect {
                    domain_id: spec_frame_fields(self.payload@).0,
                    magnitude: spec_frame_fields(self.payload@).1,
                    actuation_token: spec_frame_fields(self.payload@).2,
                },
            ),
    {
        if self.is_ok == 0 {
            return None;
        }
        let (domain_id, magnitude, actuation_token) = crate::effect::parse_frame_le(&self.payload);
        Some(AuthorizedEffect { domain_id, magnitude, actuation_token })
    }
}

/// Which page the read-only dashboard serves.
#[derive(Clone, Copy, Debug, PartialEq, Eq, Structural)]
pub enum DashboardRoute {
    Index,
    Health,
    NotFound,
}

/// The route of a dashboard request, by its request line: the request must be
/// UTF-8, and its first line must begin with `GET / HTTP/1.1` or with
/// `GET /health HTTP/1.1`. (Neither prefix holds a line break, so beginning
/// the first line and beginning the request are the same.)
pub open spec fn spec_dashboard_route(req: Seq<u8>) -> DashboardRoute {
    let index = "GET / HTTP/1.1".spec_bytes();
    let health = "GET /health HTTP/1.1".spec_bytes();
    if !valid_utf8(req) {
        DashboardRoute::NotFound
    } else if index.len() <= req.len() && req.take(index.len() as int) == index {
        DashboardRoute::Index
    } else if health.len() <= req.len() && req.take(health.len() as int) == health {
        DashboardRoute::Health
    } else {
        DashboardRoute::NotFound
    }
}

/// Routes a dashboard request.
pub fn dashboard_route(req: &[u8]) -> (r: DashboardRoute)
    ensures
        r == spec_dashboard_route(req@),
{
    if str_from_utf8(req).is_none() {
        return DashboardRoute::NotFound;
    }
    let index = "GET / HTTP/1.1".as_bytes();
    let health = "GET /health HTTP/1.1".as_bytes();
    if index.len() <= req.len() && matches_at(req, index, 0) {
        assert(req@.subrange(0, index@.len() as int) == req@.take(index@.len() as int));
        return DashboardRoute::Index;
    }
    if health.len() <= req.len() && matches_at(req, health, 0) {
        assert(req@.subrange(0, health@.len() as int) == req@.take(health@.len() as int));
        return DashboardRoute::Health;
    }
    proof {
        if index.len() <= req.len() {
            assert(req@.subrange(0, index@.len() as int) == req@.take(index@.len() as int));
        }
        if health.len() <= req.len() {
            assert(req@.subrange(0, health@.len() as int) == req@.take(health@.len() as int));
        }
    }
    DashboardRoute::NotFound
}

} // verus!
