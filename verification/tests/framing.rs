use slime_core::http::{frame_step, header_content_length, FrameStep, READ_CHUNK};

/// Drives `frame_step` over `stream` with reads of at most `max_read` bytes,
/// giving up at the end of the stream.
fn read_body(stream: &[u8], max_read: usize) -> Option<Vec<u8>> {
    let mut received: Vec<u8> = Vec::new();
    let mut pos = 0;
    loop {
        match frame_step(&received) {
            FrameStep::Body(b) => return Some(b),
            FrameStep::Reject => return None,
            FrameStep::ReadMore(k) => {
                assert!(k > 0 && k <= READ_CHUNK);
                let n = k.min(max_read).min(stream.len() - pos);
                if n == 0 {
                    return None;
                }
                received.extend_from_slice(&stream[pos..pos + n]);
                pos += n;
            }
        }
    }
}

fn whole(stream: &[u8]) -> Option<Vec<u8>> {
    read_body(stream, usize::MAX)
}

#[test]
fn read_http_body_hardened_accepts_preloaded_body_bytes() {
    let req = b"POST / HTTP/1.1\r\nContent-Length: 28\r\n\r\n{\"domain\":\"t\",\"magnitude\":1}";
    let body = whole(req).unwrap();
    assert_eq!(body, br#"{"domain":"t","magnitude":1}"#);
}

#[test]
fn read_http_body_hardened_rejects_oversized_content_length() {
    let req = b"POST / HTTP/1.1\r\nContent-Length: 70000\r\n\r\n";
    assert!(whole(req).is_none());
    assert!(matches!(frame_step(req), FrameStep::Reject));
}

#[test]
fn read_http_body_hardened_rejects_missing_content_length() {
    let req = b"POST / HTTP/1.1\r\nHost: localhost\r\n\r\n{}";
    assert!(whole(req).is_none());
    assert!(matches!(frame_step(req), FrameStep::Reject));
}

#[test]
fn read_http_body_hardened_rejects_incomplete_body() {
    let req = b"POST / HTTP/1.1\r\nContent-Length: 20\r\n\r\n{}";
    assert!(whole(req).is_none());
    match frame_step(req) {
        FrameStep::ReadMore(k) => assert_eq!(k, 18),
        other => panic!("unexpected {:?}", other),
    }
}

#[test]
fn chunking_does_not_change_the_body() {
    let mut req = b"POST / HTTP/1.1\r\nX-Pad: ".to_vec();
    req.extend(std::iter::repeat(b'a').take(3000));
    req.extend_from_slice(b"\r\nContent-Length: 2000\r\n\r\n");
    let body: Vec<u8> = (0..2500u32).map(|i| (i % 251) as u8).collect();
    req.extend_from_slice(&body);
    let expected = body[..2000].to_vec();
    for chunk in [1usize, 3, 7, 64, 1000, 1024, usize::MAX] {
        assert_eq!(read_body(&req, chunk), Some(expected.clone()));
    }
}

#[test]
fn decisions_are_final() {
    let req = b"POST / HTTP/1.1\r\nContent-Length: 3\r\n\r\nabc";
    match frame_step(req) {
        FrameStep::Body(b) => assert_eq!(b, b"abc"),
        other => panic!("unexpected {:?}", other),
    }
    let mut longer = req.to_vec();
    longer.extend_from_slice(b"trailing bytes");
    assert_eq!(whole(&longer), Some(b"abc".to_vec()));
    let refused = b"POST / HTTP/1.1\r\nContent-Length: 65537\r\n\r\n";
    assert!(matches!(frame_step(refused), FrameStep::Reject));
    let mut refused_longer = refused.to_vec();
    refused_longer.extend(std::iter::repeat(b'x').take(70000));
    assert!(whole(&refused_longer).is_none());
}

#[test]
fn header_limits() {
    let mut big = b"POST / HTTP/1.1\r\nX: ".to_vec();
    big.extend(std::iter::repeat(b'a').take(8200));
    big.extend_from_slice(b"\r\nContent-Length: 0\r\n\r\n");
    assert!(whole(&big).is_none());
    let no_end = vec![b'a'; 8192];
    assert!(matches!(frame_step(&no_end), FrameStep::Reject));
    let almost = vec![b'a'; 8191];
    assert!(matches!(frame_step(&almost), FrameStep::ReadMore(1024)));
    let max_body = format!("POST / HTTP/1.1\r\nContent-Length: 65536\r\n\r\n{}", "z".repeat(65536));
    assert_eq!(whole(max_body.as_bytes()).map(|b| b.len()), Some(65536));
    let empty = b"GET / HTTP/1.1\r\nContent-Length: 0\r\n\r\n";
    assert_eq!(whole(empty), Some(Vec::new()));
}

#[test]
fn header_name_any_case_and_value_trimmed() {
    assert_eq!(whole(b"P\r\nCONTENT-LENGTH: 2\r\n\r\nok"), Some(b"ok".to_vec()));
    assert_eq!(whole(b"P\r\ncontent-length:2   \r\n\r\nok"), Some(b"ok".to_vec()));
    assert_eq!(whole(b"P\r\nContent-Length: +2\r\n\r\nok"), Some(b"ok".to_vec()));
    assert_eq!(whole("P\r\nContent-Length:\u{3000}2\u{a0}\r\n\r\nok".as_bytes()), Some(b"ok".to_vec()));
    assert!(whole(b"P\r\nContent-Length: 2 2\r\n\r\nok").is_none());
    assert!(whole(b"P\r\nContent-Length: -2\r\n\r\nok").is_none());
    assert!(whole(b"P\r\nX-Content-Length: 2\r\n\r\nok").is_none());
    // the first matching line decides, even when its value is bad
    assert!(whole(b"P\r\nContent-Length: x\r\nContent-Length: 2\r\n\r\nok").is_none());
    // a non-UTF-8 header is refused
    assert!(whole(b"P\xff\r\nContent-Length: 2\r\n\r\nok").is_none());
}

#[test]
fn header_content_length_matches_std_trim() {
    let values = [
        " 12 ", "\t12\r", "\u{2003}12\u{205f}", "\u{1680}7", "12\u{85}", " +0 ", "", " ", "1 2",
        "99999999999999999999999", "18446744073709551615", "\u{200b}12", "+", "++1", "0x10",
        "\u{661}", "\u{3000}\u{3000}", "\u{2028}5\u{2029}", "\u{202f}\u{2000}\u{200a}9\u{200b}",
        "\u{180e}3", "\u{feff}3", "\u{b}\u{c}4\u{1c}",
    ];
    for v in values {
        let text = format!("POST / HTTP/1.1\nContent-Length:{}\n\n", v);
        let expected = v.trim().parse::<usize>().ok();
        assert_eq!(
            header_content_length(text.as_bytes(), b"content-length:", true),
            expected,
            "value {:?}",
            v
        );
    }
}
