use slime_core::effect::AuthorizedEffect;
use slime_core::http::{frame_step, FrameStep};
use slime_core::runner::{
    domain_to_egress_id, handle_body, handle_request, parse_request, resolve, resolve_domain, resolve_law,
    status_response, verdict_status, Budget, Capacity, Domain, Magnitude, Progression, Verdict,
    CORESPEC_CAPACITY, TokenCounter,
};

/// Drives `frame_step` over `stream` the way the ingress loop does (reads of
/// the requested size, giving up at the end of the stream) and returns what
/// was received when it stopped.
fn read_request(stream: &[u8], max_read: usize) -> Vec<u8> {
    let mut received: Vec<u8> = Vec::new();
    let mut pos = 0;
    loop {
        match frame_step(&received) {
            FrameStep::Body(_) | FrameStep::Reject => return received,
            FrameStep::ReadMore(k) => {
                let n = k.min(max_read).min(stream.len() - pos);
                if n == 0 {
                    return received;
                }
                received.extend_from_slice(&stream[pos..pos + n]);
                pos += n;
            }
        }
    }
}

/// The whole request path of the runner: framing, verdict, response.
fn respond_with(stream: &[u8], tokens: &mut TokenCounter) -> (Verdict, String) {
    let received = read_request(stream, 1024);
    let verdict = handle_request(&received, tokens);
    let response = status_response(verdict_status(&verdict));
    (verdict, String::from_utf8(response).unwrap())
}

fn respond(stream: &[u8]) -> (Verdict, String) {
    respond_with(stream, &mut TokenCounter::new())
}

/// The token of the `n`-th authorized effect.
fn token(n: u64, domain_id: u64, magnitude: u64) -> u128 {
    ((n as u128) << 64) ^ ((domain_id ^ magnitude) as u128)
}

fn json_request(body: &str) -> Vec<u8> {
    format!(
        "POST /action HTTP/1.1\r\nContent-Type: application/json\r\nContent-Length: {}\r\n\r\n{}",
        body.len(),
        body
    )
    .into_bytes()
}

fn fresh_budget() -> Budget {
    Budget { capacity: Capacity(CORESPEC_CAPACITY), progression: Progression(1) }
}

#[test]
fn resolve_domain_known() {
    assert!(resolve_domain("test").is_some());
    assert!(resolve_domain("payment").is_some());
    assert!(resolve_domain("deploy").is_some());
    assert!(resolve_domain("db_prod").is_some());
}

#[test]
fn resolve_domain_unknown() {
    assert!(resolve_domain("unknown").is_none());
    assert!(resolve_domain("").is_none());
    assert!(resolve_domain("PAYMENT").is_none());
}

#[test]
fn resolve_domain_table_numbers() {
    assert_eq!(resolve_domain("test"), Some(Domain(0)));
    assert_eq!(resolve_domain("payment"), Some(Domain(1)));
    assert_eq!(resolve_domain("deploy"), Some(Domain(2)));
    assert_eq!(resolve_domain("db_prod"), Some(Domain(3)));
    assert_eq!(resolve_domain("test "), None);
    assert_eq!(resolve_domain("tes"), None);
}

#[test]
fn domain_ids_are_distinct_and_not_truncated() {
    let names = ["test", "payment", "deploy", "db_prod"];
    let ids: Vec<u64> = names.iter().map(|n| domain_to_egress_id(resolve_domain(n).unwrap())).collect();
    for i in 0..ids.len() {
        for j in 0..ids.len() {
            assert_eq!(i == j, ids[i] == ids[j]);
        }
    }
    assert_eq!(domain_to_egress_id(Domain(u16::MAX)), 65535u64);
}

#[test]
fn resolve_within_capacity_draws_budget() {
    let mut b = Budget { capacity: Capacity(100), progression: Progression(7) };
    assert_eq!(resolve(Domain(0), Magnitude(40), &mut b), Some(40));
    assert_eq!(b.capacity, Capacity(60));
    assert_eq!(b.progression, Progression(7));
    assert_eq!(resolve(Domain(0), Magnitude(60), &mut b), Some(60));
    assert_eq!(b.capacity, Capacity(0));
}

#[test]
fn resolve_beyond_capacity_is_impossible_and_leaves_budget() {
    let mut b = Budget { capacity: Capacity(100), progression: Progression(7) };
    assert_eq!(resolve(Domain(1), Magnitude(101), &mut b), None);
    assert_eq!(b.capacity, Capacity(100));
    assert_eq!(resolve_law(Domain(1), Magnitude(u32::MAX), &mut b), None);
    assert_eq!(b.capacity, Capacity(100));
}

#[test]
fn capacity_is_conserved_across_resolutions() {
    let mut b = fresh_budget();
    let mut applied: u64 = 0;
    for m in [3000u32, 5000, 4000, 2000, 0, 1, 99999] {
        if let Some(a) = resolve(Domain(2), Magnitude(m), &mut b) {
            applied += a as u64;
        }
        assert!(b.capacity.0 <= CORESPEC_CAPACITY);
        assert_eq!(applied + b.capacity.0 as u64, CORESPEC_CAPACITY as u64);
    }
    assert_eq!(applied, 10000);
}

#[test]
fn parse_request_reads_domain_and_magnitude() {
    let req = parse_request(br#"{"domain":"payment","magnitude":250}"#).unwrap();
    assert_eq!(req.domain_len, 7);
    assert_eq!(&req.domain[..7], b"payment");
    assert!(req.domain[7..].iter().all(|b| *b == 0));
    assert_eq!(req.magnitude, 250);
}

#[test]
fn parse_request_tolerates_white_space_before_magnitude() {
    let req = parse_request("{\"domain\":\"test\",\"magnitude\": \t\u{3000}42xyz}".as_bytes()).unwrap();
    assert_eq!(req.magnitude, 42);
    let req = parse_request(br#"{"magnitude":7, "domain" : "deploy"}"#).unwrap();
    assert_eq!(&req.domain[..req.domain_len], b"deploy");
    assert_eq!(req.magnitude, 7);
}

#[test]
fn parse_request_refusals() {
    assert!(parse_request(br#"{"domain":"test"}"#).is_none());
    assert!(parse_request(br#"{"magnitude":5}"#).is_none());
    assert!(parse_request(br#"{"domain":"test","magnitude":+5}"#).is_none());
    assert!(parse_request(br#"{"domain":"test","magnitude":x}"#).is_none());
    assert!(parse_request(br#"{"domain":"test","magnitude":18446744073709551616}"#).is_none());
    assert!(parse_request(br#"{"domain":"test,"magnitude":5}"#).is_some());
    assert!(parse_request(b"{\"domain\":\"t\xff\",\"magnitude\":5}").is_none());
    let max = parse_request(br#"{"domain":"test","magnitude":18446744073709551615}"#).unwrap();
    assert_eq!(max.magnitude, u64::MAX);
}

#[test]
fn parse_request_keeps_at_most_64_domain_bytes() {
    let long = "d".repeat(100);
    let body = format!("{{\"domain\":\"{}\",\"magnitude\":1}}", long);
    let req = parse_request(body.as_bytes()).unwrap();
    assert_eq!(req.domain_len, 64);
    assert!(req.domain.iter().all(|b| *b == b'd'));
}

#[test]
fn handle_body_authorizes_within_law() {
    let mut tokens = TokenCounter::new();
    let v = handle_body(br#"{"domain":"test","magnitude":5}"#, &mut tokens);
    assert_eq!(
        v,
        Verdict::Authorized(AuthorizedEffect { domain_id: 0, magnitude: 5, actuation_token: token(1, 0, 5) })
    );
    assert_eq!(tokens.issued, 1);
    let v = handle_body(br#"{"domain":"db_prod","magnitude":10000}"#, &mut tokens);
    assert_eq!(
        v,
        Verdict::Authorized(AuthorizedEffect {
            domain_id: 3,
            magnitude: 10000,
            actuation_token: token(2, 3, 10000)
        })
    );
    assert_eq!(token(2, 3, 10000), (2u128 << 64) | 10003);
    assert_eq!(tokens.issued, 2);
}

#[test]
fn handle_body_impossible_cases() {
    let mut tokens = TokenCounter::new();
    assert_eq!(handle_body(br#"{"domain":"test","magnitude":10001}"#, &mut tokens), Verdict::Impossible);
    assert_eq!(handle_body(br#"{"domain":"test","magnitude":0}"#, &mut tokens), Verdict::Impossible);
    assert_eq!(handle_body(br#"{"domain":"test","magnitude":4294967296}"#, &mut tokens), Verdict::Impossible);
    assert_eq!(handle_body(br#"{"domain":"nope","magnitude":1}"#, &mut tokens), Verdict::Impossible);
    assert_eq!(handle_body(b"{}", &mut tokens), Verdict::Impossible);
    assert_eq!(handle_body(b"", &mut tokens), Verdict::Impossible);
    assert_eq!(tokens.issued, 0);
}

#[test]
fn tokens_are_nonzero_and_distinct() {
    let mut tokens = TokenCounter::new();
    let body = br#"{"domain":"payment","magnitude":9999}"#;
    let mut seen = Vec::new();
    for n in 1..=4u64 {
        match handle_body(body, &mut tokens) {
            Verdict::Authorized(e) => {
                assert_eq!((e.domain_id, e.magnitude), (1, 9999));
                assert_ne!(e.actuation_token, 0);
                assert_eq!(e.actuation_token, token(n, 1, 9999));
                assert!(!seen.contains(&e.actuation_token));
                seen.push(e.actuation_token);
            }
            Verdict::Impossible => panic!("expected AUTHORIZED"),
        }
    }
}

#[test]
fn exhausted_counter_is_impossible() {
    let mut tokens = TokenCounter { issued: u64::MAX };
    assert_eq!(handle_body(br#"{"domain":"test","magnitude":1}"#, &mut tokens), Verdict::Impossible);
    assert_eq!(tokens.issued, u64::MAX);
    let mut tokens = TokenCounter { issued: u64::MAX - 1 };
    let v = handle_body(br#"{"domain":"test","magnitude":1}"#, &mut tokens);
    assert_eq!(
        v,
        Verdict::Authorized(AuthorizedEffect { domain_id: 0, magnitude: 1, actuation_token: token(u64::MAX, 0, 1) })
    );
}

#[test]
fn request_without_json_content_type_is_impossible() {
    let body = r#"{"domain":"test","magnitude":1}"#;
    let req = format!("POST / HTTP/1.1\r\nContent-Length: {}\r\n\r\n{}", body.len(), body);
    let mut tokens = TokenCounter::new();
    let (v, text) = respond_with(req.as_bytes(), &mut tokens);
    assert_eq!(v, Verdict::Impossible);
    assert!(text.ends_with("{\"status\":\"IMPOSSIBLE\"}"));
    assert_eq!(tokens.issued, 0);
    let req = format!(
        "POST / HTTP/1.1\r\nContent-Type: text/plain\r\nContent-Length: {}\r\n\r\n{}",
        body.len(),
        body
    );
    assert_eq!(respond(req.as_bytes()).0, Verdict::Impossible);
    let req = format!(
        "POST / HTTP/1.1\r\nContent-Type: application/jsonx\r\nContent-Length: {}\r\n\r\n{}",
        body.len(),
        body
    );
    assert_eq!(respond(req.as_bytes()).0, Verdict::Impossible);
}

#[test]
fn json_content_type_forms() {
    let body = r#"{"domain":"test","magnitude":1}"#;
    for ct in [
        "Content-Type: application/json",
        "content-type:application/json",
        "CONTENT-TYPE:  Application/JSON ",
        "Content-Type: application/json; charset=utf-8",
    ] {
        let req = format!("POST / HTTP/1.1\r\n{}\r\nContent-Length: {}\r\n\r\n{}", ct, body.len(), body);
        let (v, _) = respond(req.as_bytes());
        assert_eq!(
            v,
            Verdict::Authorized(AuthorizedEffect { domain_id: 0, magnitude: 1, actuation_token: token(1, 0, 1) }),
            "{}",
            ct
        );
    }
}

#[test]
fn two_authorized_requests_carry_distinct_tokens() {
    let mut tokens = TokenCounter::new();
    let (v1, _) = respond_with(&json_request(r#"{"domain":"test","magnitude":1}"#), &mut tokens);
    let (v2, _) = respond_with(&json_request(r#"{"domain":"test","magnitude":1}"#), &mut tokens);
    match (v1, v2) {
        (Verdict::Authorized(a), Verdict::Authorized(b)) => {
            assert_ne!(a.actuation_token, 0);
            assert_ne!(b.actuation_token, 0);
            assert_ne!(a.actuation_token, b.actuation_token);
        }
        _ => panic!("expected two AUTHORIZED verdicts"),
    }
}

#[test]
fn status_response_bytes() {
    let r = status_response(verdict_status(&Verdict::Impossible));
    assert_eq!(r, b"HTTP/1.1 200 OK\r\nContent-Length: 23\r\n\r\n{\"status\":\"IMPOSSIBLE\"}".to_vec());
    let e = AuthorizedEffect { domain_id: 1, magnitude: 2, actuation_token: 0 };
    let r = status_response(verdict_status(&Verdict::Authorized(e)));
    assert_eq!(r, b"HTTP/1.1 200 OK\r\nContent-Length: 23\r\n\r\n{\"status\":\"AUTHORIZED\"}".to_vec());
    let r = status_response(b"");
    assert_eq!(r, b"HTTP/1.1 200 OK\r\nContent-Length: 0\r\n\r\n".to_vec());
    let big = vec![b'x'; 1234];
    let r = status_response(&big);
    assert!(r.starts_with(b"HTTP/1.1 200 OK\r\nContent-Length: 1234\r\n\r\nxx"));
}

#[test]
fn invalid_request_returns_impossible() {
    let (v, text) = respond(b"POST / HTTP/1.1\r\nContent-Length: 2\r\n\r\n{}");
    assert_eq!(v, Verdict::Impossible);
    assert!(text.contains("{\"status\":\"IMPOSSIBLE\"}"));
}

#[test]
fn zero_magnitude_returns_impossible() {
    let body = br#"{"domain":"test","magnitude":0}"#;
    let req = format!(
        "POST / HTTP/1.1\r\nContent-Length: {}\r\n\r\n{}",
        body.len(),
        std::str::from_utf8(body).unwrap()
    );
    let (v, text) = respond(req.as_bytes());
    assert_eq!(v, Verdict::Impossible);
    assert!(text.contains("{\"status\":\"IMPOSSIBLE\"}"));
}

#[test]
fn valid_request_returns_authorized() {
    let body = br#"{"domain":"deploy","magnitude":12}"#;
    let req = format!(
        "POST /action HTTP/1.1\r\nHost: x\r\ncontent-length:{}\r\nContent-Type: application/json\r\n\r\n{}",
        body.len(),
        std::str::from_utf8(body).unwrap()
    );
    let (v, text) = respond(req.as_bytes());
    assert_eq!(
        v,
        Verdict::Authorized(AuthorizedEffect { domain_id: 2, magnitude: 12, actuation_token: token(1, 2, 12) })
    );
    assert!(text.ends_with("{\"status\":\"AUTHORIZED\"}"));
}
