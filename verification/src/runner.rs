//! The runner's law: the sealed domain table, the stub capacity
//! resolver and the request pipeline that ends in AUTHORIZED or IMPOSSIBLE.

use crate::effect::{encode_effect, spec_frame, AuthorizedEffect};
use crate::text::{
    append_bytes, bytes_eq, decimal, push_decimal, digit_run_len, digit_run_len_exec, find_from, first_occurrence,
    lemma_first_occurrence, parse_unsigned, parse_unsigned_exec, str_from_utf8, trim_start,
    trim_start_exec,
};
use crate::http::{
    declares_json, declares_json_exec, frame_step, header_end, header_terminator, http_body,
    lemma_frame_decisions_final, FrameStep,
};
use vstd::prelude::*;
use vstd::string::StringSliceAdditionalSpecFns;
use vstd::utf8::valid_utf8;

verus! {

/// A domain, as numbered by the sealed compile-time table.
#[derive(Clone, Copy, Debug, PartialEq, Eq, Structural)]
pub struct Domain(pub u16);

/// The magnitude of an action, as the resolver sees it.
#[derive(Clone, Copy, Debug, PartialEq, Eq, Structural)]
pub struct Magnitude(pub u32);

/// Capacity that a budget has left.
#[derive(Clone, Copy, Debug, PartialEq, Eq, Structural)]
pub struct Capacity(pub u32);

/// Progression of a budget; carried, never consulted by the stub resolver.
#[derive(Clone, Copy, Debug, PartialEq, Eq, Structural)]
pub struct Progression(pub u32);

/// The budget that one resolution draws on.
#[derive(Debug)]
pub struct Budget {
    pub capacity: Capacity,
    pub progression: Progression,
}

/// Capacity of the fresh budget that every request gets.
pub const CORESPEC_CAPACITY: u32 = 10000;

/// Progression of the fresh budget that every request gets.
pub const CORESPEC_PROGRESSION: u32 = 1;

/// One resolution step on a capacity: the capacity left, and the magnitude
/// applied (none when the magnitude exceeds the capacity).
pub open spec fn resolve_step(capacity: u32, magnitude: u32) -> (u32, Option<u32>) {
    if magnitude > capacity {
        (capacity, None)
    } else {
        ((capacity - magnitude) as u32, Some(magnitude))
    }
}

/// Stub resolver: a magnitude that fits the capacity is authorized and
/// drawn from the budget; any other is impossible and leaves it untouched.
pub fn resolve(domain: Domain, magnitude: Magnitude, budget: &mut Budget) -> (r: Option<u32>)
    ensures
        r == resolve_step(old(budget).capacity.0, magnitude.0).1,
        final(budget).capacity.0 == resolve_step(old(budget).capacity.0, magnitude.0).0,
        final(budget).progression == old(budget).progression,
{
    let _ = domain;
    if magnitude.0 > budget.capacity.0 {
        return None;
    }
    budget.capacity = Capacity(budget.capacity.0.saturating_sub(magnitude.0));
    Some(magnitude.0)
}

/// Resolution through the law engine that this build carries (the stub).
pub fn resolve_law(domain: Domain, magnitude: Magnitude, budget: &mut Budget) -> (r: Option<u32>)
    ensures
        r == resolve_step(old(budget).capacity.0, magnitude.0).1,
        final(budget).capacity.0 == resolve_step(old(budget).capacity.0, magnitude.0).0,
        final(budget).progression == old(budget).progression,
{
    resolve(domain, magnitude, budget)
}

/// The capacity left after resolving `magnitudes` in turn, and the total
/// magnitude that was applied on the way.
pub open spec fn resolve_all(capacity: u32, magnitudes: Seq<u32>) -> (u32, nat)
    decreases magnitudes.len(),
{
    if magnitudes.len() == 0 {
        (capacity, 0)
    } else {
        let (cap1, granted) = resolve_step(capacity, magnitudes[0]);
        let (cap_end, total) = resolve_all(cap1, magnitudes.skip(1));
        (
            cap_end,
            total + match granted {
                Some(m) => m as nat,
                None => 0nat,
            },
        )
    }
}

/// Capacity is never regenerated: across any run of resolutions on one
/// budget, what was applied plus what is left is exactly what there was, so
/// the capacity only goes down and the total applied never exceeds it.
pub proof fn lemma_capacity_conserved(capacity: u32, magnitudes: Seq<u32>)
    ensures
        resolve_all(capacity, magnitudes).1 + resolve_all(capacity, magnitudes).0 == capacity,
        resolve_all(capacity, magnitudes).0 <= capacity,
        resolve_all(capacity, magnitudes).1 <= capacity,
    decreases magnitudes.len(),
{
    if magnitudes.len() > 0 {
        let cap1 = resolve_step(capacity, magnitudes[0]).0;
        lemma_capacity_conserved(cap1, magnitudes.skip(1));
    }
}

/// The sealed domain table: `test` → 0, `payment` → 1, `deploy` → 2,
/// `db_prod` → 3; every other name is unknown.
pub open spec fn spec_domain_id(name: Seq<u8>) -> Option<u16> {
    if name == "test".spec_bytes() {
        Some(0u16)
    } else if name == "payment".spec_bytes() {
        Some(1u16)
    } else if name == "deploy".spec_bytes() {
        Some(2u16)
    } else if name == "db_prod".spec_bytes() {
        Some(3u16)
    } else {
        None
    }
}

/// Looks a domain name up in the sealed table; unknown names have no domain.
pub fn resolve_domain(name: &str) -> (r: Option<Domain>)
    ensures
        match r {
            Some(d) => spec_domain_id(name.spec_bytes()) == Some(d.0),
            None => spec_domain_id(name.spec_bytes()) is None,
        },
{
    let b = name.as_bytes();
    if bytes_eq(b, "test".as_bytes()) {
        Some(Domain(0))
    } else if bytes_eq(b, "payment".as_bytes()) {
        Some(Domain(1))
    } else if bytes_eq(b, "deploy".as_bytes()) {
        Some(Domain(2))
    } else if bytes_eq(b, "db_prod".as_bytes()) {
        Some(Domain(3))
    } else {
        None
    }
}

/// The table gives distinct names distinct domains.
pub proof fn lemma_domain_table_injective(a: Seq<u8>, b: Seq<u8>)
    requires
        spec_domain_id(a) is Some,
        spec_domain_id(a) == spec_domain_id(b),
    ensures
        a == b,
{
}

/// The egress identifier of a domain: its table number, widened to `u64`.
pub fn domain_to_egress_id(d: Domain) -> (id: u64)
    ensures
        id == d.0 as u64,
        id as int == d.0 as int,
{
    d.0 as u64
}


/// Longest domain name that a request keeps, in bytes.
pub const DOMAIN_CAPACITY: usize = 64;

/// A request as ingress normalized it: the domain name, cut to 64 bytes and
/// zero-padded, and the magnitude.
#[derive(Debug)]
pub struct ActionRequest {
    pub domain: [u8; 64],
    pub domain_len: usize,
    pub magnitude: u64,
}

/// The key that introduces the domain: `"domain"`.
pub open spec fn domain_key() -> Seq<u8> {
    "\"domain\"".spec_bytes()
}

/// The key that introduces the magnitude: `"magnitude":`.
pub open spec fn magnitude_key() -> Seq<u8> {
    "\"magnitude\":".spec_bytes()
}

/// A double quote.
pub open spec fn quote() -> Seq<u8> {
    "\"".spec_bytes()
}

/// What ingress reads from a request body: the domain name (the text between
/// the first two quotes after the first `"domain"`) and the magnitude (the
/// digits that follow the first `"magnitude":` and any white space, read as
/// a `u64`). The body must be UTF-8 and every piece must be there.
pub open spec fn spec_request(body: Seq<u8>) -> Option<(Seq<u8>, u64)> {
    if !valid_utf8(body) {
        None
    } else {
        match first_occurrence(body, domain_key(), 0) {
            None => None,
            Some(p) => match first_occurrence(body, quote(), p + domain_key().len()) {
                None => None,
                Some(q) => match first_occurrence(body, quote(), q + quote().len()) {
                    None => None,
                    Some(r) => match first_occurrence(body, magnitude_key(), 0) {
                        None => None,
                        Some(m) => {
                            let t = trim_start(body.skip(m + magnitude_key().len()));
                            match parse_unsigned(t.take(digit_run_len(t) as int), u64::MAX as nat) {
                                None => None,
                                Some(v) => Some((body.subrange(q + quote().len(), r), v as u64)),
                            }
                        },
                    },
                },
            },
        }
    }
}

/// How many bytes of a domain name a request keeps.
pub open spec fn kept_len(name: Seq<u8>) -> int {
    if name.len() < 64 {
        name.len() as int
    } else {
        64
    }
}

/// The 64-byte domain buffer that holds `name`: its first bytes, then zeros.
pub open spec fn domain_buffer(name: Seq<u8>) -> Seq<u8> {
    name.take(kept_len(name)) + Seq::new((64 - kept_len(name)) as nat, |i: int| 0u8)
}

/// The domain buffer of a request holds the first bytes of the name, at
/// most 64 of them, then zeros up to 64 bytes; the kept length is the
/// name's length, at most 64.
pub proof fn lemma_domain_buffer(name: Seq<u8>)
    ensures
        domain_buffer(name).len() == 64,
        kept_len(name) == (if name.len() < 64 {
            name.len() as int
        } else {
            64
        }),
        forall|i: int|
            0 <= i < 64 ==> #[trigger] domain_buffer(name)[i] == (if i < name.len() {
                name[i]
            } else {
                0u8
            }),
{
}

/// Parses a request body into an `ActionRequest`; `None` when the body is not
/// UTF-8 or lacks the domain or the magnitude.
pub fn parse_request(body: &[u8]) -> (r: Option<ActionRequest>)
    ensures
        match r {
            None => spec_request(body@) is None,
            Some(req) => spec_request(body@) matches Some((name, magnitude)) && req.magnitude
                == magnitude && req.domain_len == kept_len(name) && req.domain@ == domain_buffer(
                name,
            ),
        },
{
    if str_from_utf8(body).is_none() {
        return None;
    }
    let dkey = "\"domain\"".as_bytes();
    let mkey = "\"magnitude\":".as_bytes();
    let q_b = "\"".as_bytes();
    let len = body.len();
    let p = match find_from(body, dkey, 0) {
        Some(p) => p,
        None => return None,
    };
    proof {
        lemma_first_occurrence(body@, domain_key(), 0);
    }
    let q = match find_from(body, q_b, p + dkey.len()) {
        Some(q) => q,
        None => return None,
    };
    proof {
        lemma_first_occurrence(body@, quote(), p + domain_key().len());
    }
    let r = match find_from(body, q_b, q + q_b.len()) {
        Some(r) => r,
        None => return None,
    };
    proof {
        lemma_first_occurrence(body@, quote(), q + quote().len());
    }
    let m = match find_from(body, mkey, 0) {
        Some(m) => m,
        None => return None,
    };
    proof {
        lemma_first_occurrence(body@, magnitude_key(), 0);
    }
    let after = m + mkey.len();
    let ts = trim_start_exec(body, after, len);
    let run = digit_run_len_exec(body, ts, len);
    proof {
        assert(body@.skip(after as int) =~= body@.subrange(after as int, len as int));
        let t = body@.subrange(ts as int, len as int);
        assert(t.take(run as int) =~= body@.subrange(ts as int, ts + run));
    }
    let magnitude = match parse_unsigned_exec(body, ts, ts + run, u64::MAX) {
        Some(v) => v,
        None => return None,
    };
    let start = q + q_b.len();
    let name_len = r - start;
    let kept = if name_len < 64 {
        name_len
    } else {
        64
    };
    let ghost name = body@.subrange(start as int, r as int);
    let mut domain = [0u8; 64];
    let mut i: usize = 0;
    while i < kept
        invariant
            kept <= 64,
            kept <= name_len,
            start + name_len <= len == body@.len(),
            0 <= i <= kept,
            forall|j: int| 0 <= j < i ==> domain@[j] == body@[start + j],
            forall|j: int| i <= j < 64 ==> domain@[j] == 0,
        decreases kept - i,
    {
        domain[i] = body[start + i];
        i = i + 1;
    }
    assert(domain@ =~= domain_buffer(name));
    Some(ActionRequest { domain, domain_len: kept, magnitude })
}

/// The source of actuation tokens: a monotonic count of the tokens issued
/// so far in this process.
#[derive(Debug)]
pub struct TokenCounter {
    pub issued: u64,
}

impl TokenCounter {
    /// A counter that has issued nothing yet.
    pub fn new() -> (c: Self)
        ensures
            c.issued == 0,
    {
        TokenCounter { issued: 0 }
    }
}

/// The actuation token of the `n`-th authorized effect: the counter `n` in the
/// high 64 bits, xored with `domain_id ^ magnitude` in the low 64 bits.
pub open spec fn token_for(n: u64, domain_id: u64, magnitude: u64) -> u128 {
    ((n as u128) << 64u128) ^ ((domain_id ^ magnitude) as u128)
}

/// The high half of a token is its counter.
proof fn lemma_token_high(n: u64, x: u64)
    by (bit_vector)
    ensures
        (((n as u128) << 64u128) ^ (x as u128)) >> 64u128 == n as u128,
        0u128 >> 64u128 == 0u128,
{
}

/// Tokens are never zero once counting starts at one, and the tokens of
/// distinct counts differ, whatever the domains and magnitudes.
pub proof fn lemma_tokens_distinct(n1: u64, d1: u64, m1: u64, n2: u64, d2: u64, m2: u64)
    requires
        1 <= n1,
        1 <= n2,
    ensures
        token_for(n1, d1, m1) != 0,
        n1 != n2 ==> token_for(n1, d1, m1) != token_for(n2, d2, m2),
{
    lemma_token_high(n1, d1 ^ m1);
    lemma_token_high(n2, d2 ^ m2);
}

/// Issues the token of the next authorized effect and counts it.
fn issue_token(counter: &mut TokenCounter, domain_id: u64, magnitude: u64) -> (t: u128)
    requires
        old(counter).issued < u64::MAX,
    ensures
        final(counter).issued == old(counter).issued + 1,
        t == token_for(final(counter).issued, domain_id, magnitude),
{
    counter.issued = counter.issued + 1;
    ((counter.issued as u128) << 64u32) ^ ((domain_id ^ magnitude) as u128)
}

/// What becomes of a request: an effect for the egress, or nothing at all.
#[derive(Clone, Copy, Debug, PartialEq, Eq, Structural)]
pub enum Verdict {
    Authorized(AuthorizedEffect),
    Impossible,
}

/// The name that the table is asked about: the kept bytes of the domain
/// name, or the empty name when they are not UTF-8.
pub open spec fn looked_up_name(name: Seq<u8>) -> Seq<u8> {
    let kept = name.take(kept_len(name));
    if valid_utf8(kept) {
        kept
    } else {
        "".spec_bytes()
    }
}

/// The verdict on a request body, given how many tokens were issued before:
/// the request must parse, its (kept) domain name must be in the table, its
/// magnitude must lie in `1..=u32::MAX`, the stub law must authorize it
/// against a fresh budget of `CORESPEC_CAPACITY`, and a token must be left
/// to issue; the effect then carries the domain's number, the applied
/// magnitude and the next token.
pub open spec fn spec_verdict(body: Seq<u8>, issued: u64) -> Verdict {
    match spec_request(body) {
        None => Verdict::Impossible,
        Some((name, magnitude)) => {
            match spec_domain_id(looked_up_name(name)) {
                None => Verdict::Impossible,
                Some(id) => if magnitude == 0 || magnitude > u32::MAX {
                    Verdict::Impossible
                } else {
                    match resolve_step(CORESPEC_CAPACITY, magnitude as u32).1 {
                        None => Verdict::Impossible,
                        Some(applied) => if issued == u64::MAX {
                            Verdict::Impossible
                        } else {
                            Verdict::Authorized(
                                AuthorizedEffect {
                                    domain_id: id as u64,
                                    magnitude: applied as u64,
                                    actuation_token: token_for(
                                        (issued + 1) as u64,
                                        id as u64,
                                        applied as u64,
                                    ),
                                },
                            )
                        },
                    }
                },
            }
        },
    }
}

/// Resolves a request body to its verdict, drawing the token of an
/// authorized effect from the counter.
pub fn handle_body(body: &[u8], counter: &mut TokenCounter) -> (v: Verdict)
    ensures
        v == spec_verdict(body@, old(counter).issued),
        final(counter).issued == (if v is Authorized {
            old(counter).issued + 1
        } else {
            old(counter).issued as int
        }),
{
    let req = match parse_request(body) {
        Some(r) => r,
        None => return Verdict::Impossible,
    };
    let kept: &[u8] = &req.domain.as_slice()[0..req.domain_len];
    let ghost name = spec_request(body@).unwrap().0;
    assert(kept@ =~= name.take(kept_len(name)));
    let domain_str = match str_from_utf8(kept) {
        Some(s) => s,
        None => "",
    };
    let domain = match resolve_domain(domain_str) {
        Some(d) => d,
        None => return Verdict::Impossible,
    };
    if req.magnitude == 0 || req.magnitude > u32::MAX as u64 {
        return Verdict::Impossible;
    }
    let magnitude = Magnitude(req.magnitude as u32);
    let mut budget = Budget {
        capacity: Capacity(CORESPEC_CAPACITY),
        progression: Progression(CORESPEC_PROGRESSION),
    };
    match resolve_law(domain, magnitude, &mut budget) {
        Some(applied) => {
            if counter.issued == u64::MAX {
                return Verdict::Impossible;
            }
            let domain_id = domain_to_egress_id(domain);
            let token = issue_token(counter, domain_id, applied as u64);
            Verdict::Authorized(
                AuthorizedEffect { domain_id, magnitude: applied as u64, actuation_token: token },
            )
        },
        None => Verdict::Impossible,
    }
}


/// The verdict on a whole request as received: its framing must give a body
/// (see `http_body`), its header must declare `Content-Type:
/// application/json`, and the body then gets `spec_verdict`. Anything else is
/// impossible.
pub open spec fn spec_request_verdict(received: Seq<u8>, issued: u64) -> Verdict {
    match http_body(received) {
        None => Verdict::Impossible,
        Some(body) => if declares_json(received.take(header_end(received).unwrap())) {
            spec_verdict(body, issued)
        } else {
            Verdict::Impossible
        },
    }
}

/// Resolves a request from the bytes received for it (all of them, once the
/// framing has decided or the stream has ended).
pub fn handle_request(received: &[u8], counter: &mut TokenCounter) -> (v: Verdict)
    ensures
        v == spec_request_verdict(received@, old(counter).issued),
        final(counter).issued == (if v is Authorized {
            old(counter).issued + 1
        } else {
            old(counter).issued as int
        }),
{
    proof {
        lemma_frame_decisions_final(received@, Seq::<u8>::empty());
        assert(received@ + Seq::<u8>::empty() =~= received@);
    }
    let body = match frame_step(received) {
        FrameStep::Body(b) => b,
        _ => return Verdict::Impossible,
    };
    let marker = "\r\n\r\n".as_bytes();
    let p = match find_from(received, marker, 0) {
        Some(p) => p,
        None => return Verdict::Impossible,
    };
    proof {
        lemma_first_occurrence(received@, header_terminator(), 0);
    }
    let he = p + marker.len();
    let header: &[u8] = &received[0..he];
    assert(header@ =~= received@.take(he as int));
    if !declares_json_exec(header) {
        return Verdict::Impossible;
    }
    handle_body(body.as_slice(), counter)
}

/// A request is authorized only when it was framed whole, its header
/// declares a JSON body, and that body is authorized on its own.
pub proof fn lemma_authorized_needs_json(received: Seq<u8>, issued: u64)
    ensures
        spec_request_verdict(received, issued) is Authorized ==> ({
            &&& http_body(received) is Some
            &&& declares_json(received.take(header_end(received).unwrap()))
            &&& spec_verdict(http_body(received).unwrap(), issued) is Authorized
        }),
{
}

/// What a verdict writes to the egress socket: the 32-byte frame of an
/// authorized effect; an impossible request writes nothing at all.
pub fn egress_frame(v: &Verdict) -> (frame: Option<[u8; 32]>)
    ensures
        match v {
            Verdict::Authorized(e) => frame matches Some(f) && f@ == spec_frame(*e),
            Verdict::Impossible => frame is None,
        },
{
    match v {
        Verdict::Authorized(e) => Some(encode_effect(*e)),
        Verdict::Impossible => None,
    }
}

/// The status body of an authorized request.
pub open spec fn authorized_status() -> Seq<u8> {
    "{\"status\":\"AUTHORIZED\"}".spec_bytes()
}

/// The status body of an impossible request.
pub open spec fn impossible_status() -> Seq<u8> {
    "{\"status\":\"IMPOSSIBLE\"}".spec_bytes()
}

/// The status body for a verdict, which says AUTHORIZED or IMPOSSIBLE and
/// no more.
pub fn verdict_status(v: &Verdict) -> (status: &'static [u8])
    ensures
        status@ == (match v {
            Verdict::Authorized(_) => authorized_status(),
            Verdict::Impossible => impossible_status(),
        }),
{
    match v {
        Verdict::Authorized(_) => "{\"status\":\"AUTHORIZED\"}".as_bytes(),
        Verdict::Impossible => "{\"status\":\"IMPOSSIBLE\"}".as_bytes(),
    }
}

/// The HTTP response that carries a status body: `200 OK`, its length, and
/// the body itself.
pub open spec fn spec_status_response(status: Seq<u8>) -> Seq<u8> {
    "HTTP/1.1 200 OK\r\nContent-Length: ".spec_bytes() + decimal(status.len()) + "\r\n\r\n".spec_bytes()
        + status
}

/// Builds the HTTP response that carries a status body.
pub fn status_response(status: &[u8]) -> (response: Vec<u8>)
    ensures
        response@ == spec_status_response(status@),
{
    let mut out: Vec<u8> = Vec::new();
    append_bytes(&mut out, "HTTP/1.1 200 OK\r\nContent-Length: ".as_bytes());
    push_decimal(&mut out, status.len() as u128);
    append_bytes(&mut out, "\r\n\r\n".as_bytes());
    append_bytes(&mut out, status);
    assert(out@ =~= spec_status_response(status@));
    out
}


/// The law of the runner: a request is authorized exactly when it parses,
/// names a domain of the table, asks for a magnitude from 1 up to
/// `CORESPEC_CAPACITY`, and a token is left to issue; the effect then carries
/// the domain's number (one of the four), that very magnitude, and the next
/// token, which is never zero.
pub proof fn lemma_verdict_law(body: Seq<u8>, issued: u64)
    ensures
        spec_verdict(body, issued) is Authorized <==> (spec_request(body) matches Some(
            (name, magnitude),
        ) && spec_domain_id(looked_up_name(name)) is Some && 1 <= magnitude <= CORESPEC_CAPACITY
            && issued < u64::MAX),
        spec_verdict(body, issued) matches Verdict::Authorized(e) ==> ({
            &&& spec_request(body) matches Some((name, magnitude))
            &&& e.magnitude == magnitude
            &&& 1 <= e.magnitude <= CORESPEC_CAPACITY
            &&& e.domain_id as int == spec_domain_id(looked_up_name(name)).unwrap() as int
            &&& e.domain_id <= 3
            &&& e.actuation_token == token_for((issued + 1) as u64, e.domain_id, e.magnitude)
            &&& e.actuation_token != 0
        }),
{
    match spec_verdict(body, issued) {
        Verdict::Authorized(e) => {
            lemma_tokens_distinct((issued + 1) as u64, e.domain_id, e.magnitude, 1, 0, 0);
        },
        Verdict::Impossible => {},
    }
}

/// The domain name as the table sees it: at most its first 64 bytes.
pub open spec fn first_64(name: Seq<u8>) -> Seq<u8> {
    if name.len() <= 64 {
        name
    } else {
        name.take(64)
    }
}

/// The literals of the sealed table, byte by byte.
proof fn lemma_table_literals()
    ensures
        "test".spec_bytes() == seq![0x74u8, 0x65, 0x73, 0x74],
        "payment".spec_bytes() == seq![0x70u8, 0x61, 0x79, 0x6d, 0x65, 0x6e, 0x74],
        "deploy".spec_bytes() == seq![0x64u8, 0x65, 0x70, 0x6c, 0x6f, 0x79],
        "db_prod".spec_bytes() == seq![0x64u8, 0x62, 0x5f, 0x70, 0x72, 0x6f, 0x64],
        "".spec_bytes().len() == 0,
{
    reveal_strlit("test");
    reveal_strlit("payment");
    reveal_strlit("deploy");
    reveal_strlit("db_prod");
    reveal_strlit("");
    vstd::utf8::is_ascii_chars_encode_utf8("test"@);
    vstd::utf8::is_ascii_chars_encode_utf8("payment"@);
    vstd::utf8::is_ascii_chars_encode_utf8("deploy"@);
    vstd::utf8::is_ascii_chars_encode_utf8("db_prod"@);
    vstd::utf8::is_ascii_chars_encode_utf8(""@);
    assert("test".spec_bytes() =~= seq![0x74u8, 0x65, 0x73, 0x74]);
    assert("payment".spec_bytes() =~= seq![0x70u8, 0x61, 0x79, 0x6d, 0x65, 0x6e, 0x74]);
    assert("deploy".spec_bytes() =~= seq![0x64u8, 0x65, 0x70, 0x6c, 0x6f, 0x79]);
    assert("db_prod".spec_bytes() =~= seq![0x64u8, 0x62, 0x5f, 0x70, 0x72, 0x6f, 0x64]);
}

/// The sealed table is looked up with the whole name: a request is
/// authorized only when the domain name it carries, cut to 64 bytes, is
/// exactly `test`, `payment`, `deploy` or `db_prod` and its magnitude lies
/// in 1..=10000, and the effect then carries that magnitude and 0, 1, 2 or 3
/// respectively; conversely each of those names, with
/// a magnitude from 1 to 10000, is authorized while tokens are left.
pub proof fn lemma_table_lookup_exact(body: Seq<u8>, issued: u64)
    ensures
        spec_verdict(body, issued) matches Verdict::Authorized(e) ==> (spec_request(body) matches Some(
            (name, m),
        ) && 1 <= m <= 10000 && e.magnitude == m && {
            let k = first_64(name);
            ||| k == seq![0x74u8, 0x65, 0x73, 0x74] && e.domain_id == 0
            ||| k == seq![0x70u8, 0x61, 0x79, 0x6d, 0x65, 0x6e, 0x74] && e.domain_id == 1
            ||| k == seq![0x64u8, 0x65, 0x70, 0x6c, 0x6f, 0x79] && e.domain_id == 2
            ||| k == seq![0x64u8, 0x62, 0x5f, 0x70, 0x72, 0x6f, 0x64] && e.domain_id == 3
        }),
        (spec_request(body) matches Some((name, m)) && {
            let k = first_64(name);
            &&& (k == seq![0x74u8, 0x65, 0x73, 0x74] || k == seq![0x70u8, 0x61, 0x79, 0x6d, 0x65, 0x6e, 0x74]
                || k == seq![0x64u8, 0x65, 0x70, 0x6c, 0x6f, 0x79] || k == seq![0x64u8, 0x62, 0x5f, 0x70, 0x72, 0x6f, 0x64])
            &&& 1 <= m <= 10000
            &&& issued < u64::MAX
        }) ==> spec_verdict(body, issued) is Authorized,
{
    lemma_table_literals();
    match spec_request(body) {
        Some((name, m)) => {
            let k = first_64(name);
            assert(name.take(kept_len(name)) =~= k);
            if k == seq![0x74u8, 0x65, 0x73, 0x74] || k == seq![0x70u8, 0x61, 0x79, 0x6d, 0x65, 0x6e, 0x74]
                || k == seq![0x64u8, 0x65, 0x70, 0x6c, 0x6f, 0x79] || k == seq![0x64u8, 0x62, 0x5f, 0x70, 0x72, 0x6f, 0x64] {
                assert forall|i: int| 0 <= i < k.len() implies k[i] < 0x80 by {}
                crate::text::lemma_ascii_utf8(k);
                assert(looked_up_name(name) == k);
            }
        },
        None => {},
    }
}

/// The halves of a token: the high 64 bits are the counter, the low 64 bits
/// are `domain_id ^ magnitude`.
proof fn lemma_token_halves(n: u64, d: u64, m: u64)
    by (bit_vector)
    ensures
        (((n as u128) << 64u128) ^ ((d ^ m) as u128)) >> 64u128 == n as u128,
        (((n as u128) << 64u128) ^ ((d ^ m) as u128)) as u64 == d ^ m,
{
}

/// The actuation token of an authorized effect, bit by bit: its high 64
/// bits count the effects authorized so far in the process (this one
/// included), and its low 64 bits are the effect's domain id xored with its
/// magnitude.
pub proof fn lemma_token_layout(body: Seq<u8>, issued: u64)
    ensures
        spec_verdict(body, issued) matches Verdict::Authorized(e) ==> ({
            &&& e.actuation_token >> 64u128 == issued as u128 + 1
            &&& e.actuation_token as u64 == e.domain_id ^ e.magnitude
        }),
{
    match spec_verdict(body, issued) {
        Verdict::Authorized(e) => {
            lemma_token_halves((issued + 1) as u64, e.domain_id, e.magnitude);
        },
        Verdict::Impossible => {},
    }
}

/// Every request draws on a fresh budget: whether a body is authorized, and
/// for which domain and magnitude, does not depend on the requests before
/// it, as long as tokens are left; only the token differs.
pub proof fn lemma_verdict_fresh_budget(body: Seq<u8>, a: u64, b: u64)
    requires
        a < u64::MAX,
        b < u64::MAX,
    ensures
        spec_verdict(body, a) is Authorized <==> spec_verdict(body, b) is Authorized,
        spec_verdict(body, a) matches Verdict::Authorized(ea) ==> (spec_verdict(body, b) matches Verdict::Authorized(eb)
            && ea.domain_id == eb.domain_id && ea.magnitude == eb.magnitude),
{
}

/// Two requests authorized one after the other (the second drawing on the
/// counter that the first advanced) carry distinct, non-zero tokens.
pub proof fn lemma_successive_tokens_differ(b1: Seq<u8>, b2: Seq<u8>, issued: u64)
    requires
        spec_verdict(b1, issued) is Authorized,
        spec_verdict(b2, (issued + 1) as u64) is Authorized,
    ensures
        spec_verdict(b1, issued)->Authorized_0.actuation_token != 0,
        spec_verdict(b2, (issued + 1) as u64)->Authorized_0.actuation_token != 0,
        spec_verdict(b1, issued)->Authorized_0.actuation_token != spec_verdict(
            b2,
            (issued + 1) as u64,
        )->Authorized_0.actuation_token,
{
    let e1 = spec_verdict(b1, issued)->Authorized_0;
    let e2 = spec_verdict(b2, (issued + 1) as u64)->Authorized_0;
    lemma_tokens_distinct((issued + 1) as u64, e1.domain_id, e1.magnitude, (issued + 2) as u64, e2.domain_id, e2.magnitude);
    lemma_tokens_distinct((issued + 2) as u64, e2.domain_id, e2.magnitude, 1, 0, 0);
}

} // verus!
