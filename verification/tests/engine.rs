use slime_core::base64::{base64_decode, base64_oversized};
use slime_core::engine::{
    dashboard_route, fnv1a_64, health_check, ingress_step, memmem, normalize_request,
    outcome_reply, parse_content_length, parse_exact_schema, reply_bytes, DashboardRoute,
    IngressRejection, IngressReply, IngressStep, AB_S_Verdict,
};
use slime_core::effect::{encode_effect, AuthorizedEffect};

fn request(body: &str) -> Vec<u8> {
    format!("POST /action HTTP/1.1\r\nContent-Length: {}\r\n\r\n{}", body.len(), body).into_bytes()
}

#[test]
fn fnv1a_64_vectors() {
    assert_eq!(fnv1a_64(b""), 0xcbf29ce484222325);
    assert_eq!(fnv1a_64(b"a"), 0xaf63dc4c8601ec8c);
    assert_eq!(fnv1a_64(b"foobar"), 0x85944171f73967e8);
}

#[test]
fn memmem_finds_first() {
    assert_eq!(memmem(b"ab\r\n\r\ncd\r\n\r\n", b"\r\n\r\n"), Some(2));
    assert_eq!(memmem(b"abc", b"\r\n\r\n"), None);
    assert_eq!(memmem(b"aaab", b"ab"), Some(2));
    assert_eq!(memmem(b"ab", b"abc"), None);
}

#[test]
fn parse_content_length_cases() {
    assert_eq!(parse_content_length(b"POST / HTTP/1.1\r\nContent-Length: 12\r\n\r\n"), Some(12));
    assert_eq!(parse_content_length(b"POST / HTTP/1.1\r\ncontent-length: 12\r\n\r\n"), None);
    assert_eq!(parse_content_length(b"POST / HTTP/1.1\r\nContent-Length:7"), Some(7));
    assert_eq!(parse_content_length(b"POST / HTTP/1.1\r\nContent-Length: x\r\n"), None);
    assert_eq!(parse_content_length(b"\xffContent-Length: 7\r\n"), None);
    assert_eq!(parse_content_length(b"X\nContent-Length: 5\nContent-Length: 6\n"), Some(5));
}

#[test]
fn parse_exact_schema_accepts_compact_body() {
    let (d, m, p) = parse_exact_schema(br#"{"domain":"pay_ments-1","magnitude":250,"payload":"QUJD"}"#).unwrap();
    assert_eq!(d, b"pay_ments-1");
    assert_eq!(m, 250);
    assert_eq!(p, b"QUJD");
    let (d, m, p) = parse_exact_schema(br#"{"domain":"","magnitude":1,"payload":""}"#).unwrap();
    assert_eq!(d, b"");
    assert_eq!(m, 1);
    assert_eq!(p, b"");
}

#[test]
fn parse_exact_schema_payload_is_optional() {
    let (d, m, p) = parse_exact_schema(br#"{"domain":"payments","magnitude":250}"#).unwrap();
    assert_eq!((d, m, p), (&b"payments"[..], 250, &b""[..]));
}

#[test]
fn parse_exact_schema_allows_white_space_and_any_order() {
    let (d, m, p) = parse_exact_schema(br#"{ "domain": "payments", "magnitude": 250, "payload": "" }"#).unwrap();
    assert_eq!((d, m, p), (&b"payments"[..], 250, &b""[..]));
    let (d, m, p) = parse_exact_schema(b"\r\n{\n\t\"payload\" :\"QUJD\" ,\n \"magnitude\":7 ,\"domain\":\"a\"\n}\n ").unwrap();
    assert_eq!((d, m, p), (&b"a"[..], 7, &b"QUJD"[..]));
}

#[test]
fn parse_exact_schema_rounds_fractions_down() {
    assert_eq!(parse_exact_schema(br#"{"domain":"a","magnitude":250.9}"#).unwrap().1, 250);
    assert_eq!(parse_exact_schema(br#"{"domain":"a","magnitude":1.0}"#).unwrap().1, 1);
    assert!(parse_exact_schema(br#"{"domain":"a","magnitude":0.5}"#).is_err());
}

#[test]
fn parse_exact_schema_reads_exponents() {
    let cases: [(&str, Option<u64>); 14] = [
        ("1e3", Some(1000)),
        ("2.5e2", Some(250)),
        ("1E+2", Some(100)),
        ("25e-1", Some(2)),
        ("2599e-2", Some(25)),
        ("0.5e1", Some(5)),
        ("1e-0", Some(1)),
        ("1e-1", None),
        ("1e20", None),
        ("1e99999999999999999999999", None),
        ("5e-99999999999999999999999", None),
        ("1.8446744073709551615e19", Some(u64::MAX)),
        ("18446744073709551615.999", Some(u64::MAX)),
        ("1e+", None),
    ];
    for (text, want) in cases {
        let body = format!(r#"{{"domain":"a","magnitude":{}}}"#, text);
        assert_eq!(parse_exact_schema(body.as_bytes()).ok().map(|r| r.1), want, "{}", text);
    }
}

#[test]
fn parse_exact_schema_domain_length_limit() {
    let at = format!(r#"{{"domain":"{}","magnitude":1,"payload":""}}"#, "a".repeat(256));
    assert_eq!(parse_exact_schema(at.as_bytes()).unwrap().0.len(), 256);
    let over = format!(r#"{{"domain":"{}","magnitude":1,"payload":""}}"#, "a".repeat(257));
    assert!(parse_exact_schema(over.as_bytes()).is_err());
}

#[test]
fn parse_exact_schema_refusals() {
    let bad: [&[u8]; 20] = [
        br#"{"domain":"a b","magnitude":1,"payload":""}"#,
        br#"{"domain":"a","magnitude":1}x"#,
        br#"{"domain":"a","magnitude":1,}"#,
        br#"{"domain":"a","magnitude":1"#,
        br#"{"domain":"a"}"#,
        br#"{"magnitude":1}"#,
        br#"{}"#,
        br#"{"domain":"a","magnitude":-1,"payload":""}"#,
        br#"{"domain":"a","magnitude":0}"#,
        br#"{"domain":"a","magnitude":01}"#,
        br#"{"domain":"a","magnitude":+1}"#,
        br#"{"domain":"a","magnitude":1e}"#,
        br#"{"domain":"a","magnitude":1.}"#,
        br#"{"domain":"a","magnitude":"1"}"#,
        br#"{"domain":"a","magnitude":18446744073709551616,"payload":""}"#,
        br#"{"domain":"a","domain":"b","magnitude":1}"#,
        br#"{"domain":"a","magnitude":1,"extra":""}"#,
        br#"{"domain":"a","magnitude":1,"payload":"x"y"}"#,
        b"{\"domain\":\"\xc3\xa9\",\"magnitude\":1,\"payload\":\"\"}",
        b"{\"domain\":\"a\",\"magnitude\":1,\"payload\":\"\xff\"}",
    ];
    for b in bad {
        assert!(parse_exact_schema(b).is_err(), "{:?}", String::from_utf8_lossy(b));
    }
}

#[test]
fn base64_decode_cases() {
    assert_eq!(base64_decode(b""), Some(vec![]));
    assert_eq!(base64_decode(b"TWFu"), Some(b"Man".to_vec()));
    assert_eq!(base64_decode(b"TWE="), Some(b"Ma".to_vec()));
    assert_eq!(base64_decode(b"TQ=="), Some(b"M".to_vec()));
    assert_eq!(base64_decode(b"TR=="), Some(b"M".to_vec()));
    assert_eq!(base64_decode(b"+/+/"), Some(vec![0xfb, 0xff, 0xbf]));
    assert_eq!(
        base64_decode(b"eyJ0cmFuc2FjdGlvbiI6ICJURVNUIn0="),
        Some(br#"{"transaction": "TEST"}"#.to_vec())
    );
    for bad in [&b"TQ="[..], b"T===", b"====", b"=AAA", b"A=A=", b"AA=A", b"TW!u", b"TWFuTW\xc3\xa9"] {
        assert_eq!(base64_decode(bad), None, "{:?}", String::from_utf8_lossy(bad));
    }
}

#[test]
fn base64_decode_cap() {
    let ok = "A".repeat(87380) + "==";
    assert_eq!(ok.len() % 4, 2);
    let at_cap = "AAAA".repeat(21845) + "AA==";
    assert_eq!(base64_decode(at_cap.as_bytes()).map(|v| v.len()), Some(65536));
    let over = "AAAA".repeat(21846);
    assert_eq!(base64_decode(over.as_bytes()), None);
}

#[test]
fn base64_preserves_bytes() {
    const ALPHABET: &[u8; 64] = b"ABCDEFGHIJKLMNOPQRSTUVWXYZabcdefghijklmnopqrstuvwxyz0123456789+/";
    let data: Vec<u8> = (0..=255u8).chain(0..100u8).collect();
    for n in [0usize, 1, 2, 3, 4, 5, 100, 355] {
        let d = &data[..n];
        let mut enc = Vec::new();
        for chunk in d.chunks(3) {
            let b = [chunk[0], *chunk.get(1).unwrap_or(&0), *chunk.get(2).unwrap_or(&0)];
            let v = ((b[0] as u32) << 16) | ((b[1] as u32) << 8) | b[2] as u32;
            for k in 0..4 {
                if k <= chunk.len() {
                    enc.push(ALPHABET[((v >> (18 - 6 * k)) & 63) as usize]);
                } else {
                    enc.push(b'=');
                }
            }
        }
        assert_eq!(base64_decode(&enc), Some(d.to_vec()));
    }
}

#[test]
fn normalize_request_builds_action() {
    let req = request(r#"{"domain":"payments","magnitude":250,"payload":"eyJ0cmFuc2FjdGlvbiI6ICJURVNUIn0="}"#);
    let a = normalize_request(&req).unwrap();
    assert_eq!(a.domain_id, fnv1a_64(b"payments"));
    assert!(a.domain_id > u32::MAX as u64);
    assert_eq!(a.magnitude, 250);
    assert_eq!(a.payload, br#"{"transaction": "TEST"}"#.to_vec());
}

#[test]
fn normalize_request_rejections() {
    let r = normalize_request(b"POST / HTTP/1.1\r\n\r\n{}");
    assert_eq!(r.unwrap_err(), IngressRejection::MissingContentLength);
    let r = normalize_request(b"POST / HTTP/1.1\r\nContent-Length: 15873\r\n\r\n");
    assert_eq!(r.unwrap_err(), IngressRejection::MissingContentLength);
    let r = normalize_request(b"POST / HTTP/1.1\r\nContent-Length: 10\r\n\r\n{}");
    assert_eq!(r.unwrap_err(), IngressRejection::MissingBody);
    let r = normalize_request(b"POST / HTTP/1.1\r\nContent-Length: 0\r\n");
    assert_eq!(r.unwrap_err(), IngressRejection::MissingBody);
    let r = normalize_request(&request(r#"{"domain":"a"}"#));
    assert_eq!(r.unwrap_err(), IngressRejection::InvalidSchema);
    let r = normalize_request(&request(r#"{"domain":"a","magnitude":1,"payload":"***="}"#));
    assert_eq!(r.unwrap_err(), IngressRejection::InvalidPayload);
    let r = normalize_request(&request(r#"{"domain":"a","magnitude":1,"payload":"abc"}"#));
    assert_eq!(r.unwrap_err(), IngressRejection::InvalidPayload);
    let big = format!(r#"{{"domain":"a","magnitude":1,"payload":"{}"}}"#, "AAAA".repeat(21846));
    let req = format!("POST /action HTTP/1.1\r\nContent-Length: {}\r\n\r\n{}", big.len(), big).into_bytes();
    assert_eq!(normalize_request(&req).unwrap_err(), IngressRejection::MissingContentLength);
}

#[test]
fn oversized_payload_is_too_large() {
    let over = "AAAA".repeat(21846);
    assert!(base64_oversized(over.as_bytes()));
    assert!(!base64_oversized(b"abc"));
    assert!(!base64_oversized(b"TWFu"));
    assert!(!base64_oversized(b""));
    assert!(!base64_oversized(("AAAA".repeat(21845) + "AA==").as_bytes()));
}

#[test]
fn normalize_request_without_payload() {
    let a = normalize_request(&request(r#"{"domain":"payments","magnitude":250}"#)).unwrap();
    assert_eq!((a.domain_id, a.magnitude), (fnv1a_64(b"payments"), 250));
    assert!(a.payload.is_empty());
}

#[test]
fn health_check_is_answered_ok() {
    match ingress_step(b"GET /health HTTP/1.1\r\nHost: localhost\r\n\r\n") {
        IngressStep::Reply(r) => {
            assert_eq!(r, IngressReply::Health);
            assert_eq!(reply_bytes(r), b"HTTP/1.1 200 OK\r\nContent-Length: 15\r\n\r\n{\"status\":\"ok\"}".to_vec());
        }
        IngressStep::Resolve(_) => panic!("health check must not reach the engine"),
    }
    assert!(!health_check(b"GET /healthz HTTP/1.1\r\n\r\n"));
    assert!(!health_check(b"POST /health HTTP/1.1\r\n\r\n"));
}

#[test]
fn ingress_step_decides() {
    match ingress_step(&request(r#"{"domain":"a","magnitude":1,"payload":"abc"}"#)) {
        IngressStep::Reply(r) => {
            assert_eq!(r, IngressReply::Rejected(IngressRejection::InvalidPayload));
            let bytes = String::from_utf8(reply_bytes(r)).unwrap();
            assert!(bytes.starts_with("HTTP/1.1 400 Bad Request\r\n"));
            assert!(bytes.contains("\"error\":\"invalid_request\""));
        }
        IngressStep::Resolve(_) => panic!("bad base64 must be refused"),
    }
    match ingress_step(&request(r#"{"domain":"a","magnitude":3}"#)) {
        IngressStep::Resolve(a) => assert_eq!(a.magnitude, 3),
        IngressStep::Reply(_) => panic!("a valid action goes to the engine"),
    }
    assert_eq!(outcome_reply(&None), IngressReply::Impossible);
    let e = AuthorizedEffect { domain_id: 1, magnitude: 1, actuation_token: 1 };
    assert_eq!(outcome_reply(&Some(e)), IngressReply::Authorized);
}

#[test]
fn reply_bytes_carry_true_lengths() {
    let cases = [
        IngressReply::Authorized,
        IngressReply::Impossible,
        IngressReply::Health,
        IngressReply::Rejected(IngressRejection::MissingContentLength),
        IngressReply::Rejected(IngressRejection::MissingBody),
        IngressReply::Rejected(IngressRejection::InvalidSchema),
        IngressReply::Rejected(IngressRejection::InvalidPayload),
        IngressReply::Rejected(IngressRejection::PayloadTooLarge),
    ];
    for r in cases {
        let text = String::from_utf8(reply_bytes(r)).unwrap();
        let (head, body) = text.split_once("\r\n\r\n").unwrap();
        assert!(head.ends_with(&format!("Content-Length: {}", body.len())), "{}", text);
    }
    assert_eq!(
        reply_bytes(IngressReply::Rejected(IngressRejection::PayloadTooLarge)),
        b"HTTP/1.1 413 Payload Too Large\r\nContent-Length: 77\r\n\r\n{\"error\":\"payload_too_large\",\"message\":\"Decoded payload exceeds 65536 bytes\"}".to_vec()
    );
    assert_eq!(
        reply_bytes(IngressReply::Authorized),
        b"HTTP/1.1 200 OK\r\nContent-Length: 23\r\n\r\n{\"status\":\"AUTHORIZED\"}".to_vec()
    );
}

#[test]
fn verdict_carries_effect_only_when_ok() {
    let e = AuthorizedEffect { domain_id: 7, magnitude: 9, actuation_token: 11 };
    let v = AB_S_Verdict { is_ok: 1, pad: [0; 7], payload: encode_effect(e) };
    assert_eq!(v.authorized_effect(), Some(e));
    let v = AB_S_Verdict { is_ok: 0, pad: [0; 7], payload: encode_effect(e) };
    assert_eq!(v.authorized_effect(), None);
    let v = AB_S_Verdict { is_ok: 0xff, pad: [1; 7], payload: [0; 32] };
    assert_eq!(
        v.authorized_effect(),
        Some(AuthorizedEffect { domain_id: 0, magnitude: 0, actuation_token: 0 })
    );
}

#[test]
fn dashboard_routes() {
    assert_eq!(dashboard_route(b"GET / HTTP/1.1\r\nHost: x\r\n\r\n"), DashboardRoute::Index);
    assert_eq!(dashboard_route(b"GET /health HTTP/1.1\r\n\r\n"), DashboardRoute::Health);
    assert_eq!(dashboard_route(b"GET /other HTTP/1.1\r\n\r\n"), DashboardRoute::NotFound);
    assert_eq!(dashboard_route(b"POST / HTTP/1.1\r\n\r\n"), DashboardRoute::NotFound);
    assert_eq!(dashboard_route(b"GET / HTTP/1.1"), DashboardRoute::Index);
    assert_eq!(dashboard_route(b"GET / HTTP/1.1\xff"), DashboardRoute::NotFound);
    assert_eq!(dashboard_route(b""), DashboardRoute::NotFound);
}

#[test]
fn compact_body_reads_back() {
    for (d, m, p) in [("payments", 250u64, "eyJ0cmFuc2FjdGlvbiI6ICJURVNUIn0="), ("a-b_C9", 1, ""), ("x", u64::MAX, "QQ==")] {
        let body = format!(r#"{{"domain":"{}","magnitude":{},"payload":"{}"}}"#, d, m, p);
        let (rd, rm, rp) = parse_exact_schema(body.as_bytes()).unwrap();
        assert_eq!((rd, rm, rp), (d.as_bytes(), m, p.as_bytes()));
    }
}
