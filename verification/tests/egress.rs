use slime_core::actuator::event_log_line;
use slime_core::effect::{encode_effect, parse_frame_le, AuthorizedEffect};
use slime_core::runner::{egress_frame, handle_body, TokenCounter, Verdict};

fn expected_frame(e: &AuthorizedEffect) -> [u8; 32] {
    let mut buf = [0u8; 32];
    buf[0..8].copy_from_slice(&e.domain_id.to_le_bytes());
    buf[8..16].copy_from_slice(&e.magnitude.to_le_bytes());
    buf[16..32].copy_from_slice(&e.actuation_token.to_le_bytes());
    buf
}

#[test]
fn encode_effect_is_32_le_bytes() {
    let e = AuthorizedEffect {
        domain_id: 0x0102030405060708,
        magnitude: 0x1112131415161718,
        actuation_token: 0x2122232425262728292a2b2c2d2e2f30,
    };
    let f = encode_effect(e);
    assert_eq!(f.len(), 32);
    assert_eq!(f, expected_frame(&e));
    assert_eq!(f[0], 0x08);
    assert_eq!(f[7], 0x01);
    assert_eq!(f[8], 0x18);
    assert_eq!(f[16], 0x30);
    assert_eq!(f[31], 0x21);
}

#[test]
fn frame_roundtrip() {
    let effects = [
        AuthorizedEffect { domain_id: 0, magnitude: 1, actuation_token: 0 },
        AuthorizedEffect { domain_id: 3, magnitude: 10000, actuation_token: 0 },
        AuthorizedEffect { domain_id: u64::MAX, magnitude: u64::MAX, actuation_token: u128::MAX },
    ];
    for e in effects {
        let (d, m, t) = parse_frame_le(&encode_effect(e));
        assert_eq!(AuthorizedEffect { domain_id: d, magnitude: m, actuation_token: t }, e);
    }
    let mut frame = [0u8; 32];
    for (i, b) in frame.iter_mut().enumerate() {
        *b = (i as u8).wrapping_mul(37).wrapping_add(5);
    }
    let (d, m, t) = parse_frame_le(&frame);
    let back = encode_effect(AuthorizedEffect { domain_id: d, magnitude: m, actuation_token: t });
    assert_eq!(back, frame);
}

#[test]
fn parse_frame_le_fields() {
    let mut frame = [0u8; 32];
    frame[0] = 2;
    frame[8] = 0x10;
    frame[9] = 0x27;
    frame[31] = 0x80;
    let (d, m, t) = parse_frame_le(&frame);
    assert_eq!(d, 2);
    assert_eq!(m, 10000);
    assert_eq!(t, 1u128 << 127);
}

#[test]
fn event_log_line_matches_format() {
    let cases = [
        (0u128, 0u64, 0u64, 0u128),
        (1712345678901, 3, 10000, 0xdeadbeef),
        (u128::MAX, u64::MAX, u64::MAX, u128::MAX),
        (9, 10, 99, 1u128 << 100),
    ];
    for (ts, d, m, t) in cases {
        let expected = format!("{} domain={} magnitude={} token=0x{:032x}\n", ts, d, m, t);
        assert_eq!(String::from_utf8(event_log_line(ts, d, m, t)).unwrap(), expected);
    }
}

#[test]
fn event_log_line_for_a_frame() {
    let e = AuthorizedEffect { domain_id: 1, magnitude: 250, actuation_token: 0 };
    let (d, m, t) = parse_frame_le(&encode_effect(e));
    let line = event_log_line(42, d, m, t);
    assert_eq!(
        line,
        b"42 domain=1 magnitude=250 token=0x00000000000000000000000000000000\n".to_vec()
    );
}

#[test]
fn only_authorized_verdicts_write_a_frame() {
    assert_eq!(egress_frame(&Verdict::Impossible), None);
    let mut tokens = TokenCounter::new();
    let v = handle_body(br#"{"domain":"payment","magnitude":77}"#, &mut tokens);
    let e = AuthorizedEffect { domain_id: 1, magnitude: 77, actuation_token: (1u128 << 64) | (1 ^ 77) };
    assert_eq!(v, Verdict::Authorized(e));
    assert_eq!(egress_frame(&v), Some(encode_effect(e)));
    assert_eq!(egress_frame(&handle_body(br#"{"domain":"payment","magnitude":0}"#, &mut tokens)), None);
}
