//! HTTP/1.1 request framing as the hardened ingress reads it: a header of
//! fewer than 8 KiB ending in a blank line, a `Content-Length` of at most
//! 64 KiB, then exactly that many body bytes; and whether a header declares
//! a JSON body.
//!
//! Reading is left to the caller: `frame_step` looks at the bytes received so
//! far and says whether to read more (and how much), to give up, or to take
//! the body. Its decisions are final: a body or a refusal stays the answer
//! however the stream continues.

use crate::text::{
    append_bytes, decimal, push_decimal, find_from, first_occurrence, lemma_first_occurrence, lemma_first_occurrence_extend, parse_unsigned, parse_unsigned_exec,
    str_from_utf8, trim, trim_end_exec, trim_start, trim_start_exec, lemma_trim_slice,
};
use vstd::prelude::*;
use vstd::string::StringSliceAdditionalSpecFns;
use vstd::utf8::valid_utf8;

verus! {

/// A header larger than this is refused.
pub const MAX_HEADER_BYTES: usize = 8192;

/// A body larger than this is refused.
pub const MAX_BODY_BYTES: usize = 65536;

/// The most that one read asks for.
pub const READ_CHUNK: usize = 1024;

/// ASCII lower case of one byte; other bytes are left alone.
pub open spec fn ascii_lower(b: u8) -> u8 {
    if 0x41 <= b <= 0x5a {
        (b + 32) as u8
    } else {
        b
    }
}

/// `text[i..]` begins with `name`: byte for byte, or, with `fold_case`, after
/// ASCII lower-casing `text` (so `name` is given in lower case).
pub open spec fn starts_with_at(text: Seq<u8>, i: int, name: Seq<u8>, fold_case: bool) -> bool {
    &&& 0 <= i
    &&& i + name.len() <= text.len()
    &&& forall|k: int|
        0 <= k < name.len() ==> (if fold_case {
            ascii_lower(#[trigger] text[i + k])
        } else {
            text[i + k]
        }) == name[k]
}

/// Index `i` starts a line of `text`.
pub open spec fn line_start(text: Seq<u8>, i: int) -> bool {
    i == 0 || (0 < i <= text.len() && text[i - 1] == 0x0a)
}

/// The first line of `text`, at or after index `from`, that begins with `name`
/// (where the lines are those of `str::lines`).
pub open spec fn find_header_line(text: Seq<u8>, name: Seq<u8>, fold_case: bool, from: int) -> Option<
    int,
>
    decreases text.len() - from,
{
    if from < 0 || from >= text.len() {
        None
    } else if line_start(text, from) && starts_with_at(text, from, name, fold_case) {
        Some(from)
    } else {
        find_header_line(text, name, fold_case, from + 1)
    }
}

/// A line feed.
pub open spec fn newline() -> Seq<u8> {
    "\n".spec_bytes()
}

/// The text that follows `name` on the first line that begins with it, up to
/// the end of that line. A carriage return before the line feed stays in it;
/// the trimming that follows removes it as white space.
pub open spec fn header_value(text: Seq<u8>, name: Seq<u8>, fold_case: bool) -> Option<Seq<u8>> {
    match find_header_line(text, name, fold_case, 0) {
        None => None,
        Some(i) => {
            let end = match first_occurrence(text, newline(), i) {
                Some(j) => j,
                None => text.len() as int,
            };
            Some(text.subrange(i + name.len(), end))
        },
    }
}

/// The length that the first `name` line declares: its value, trimmed, read
/// as a `usize`. `None` when no line has the name or its value does not parse.
pub open spec fn content_length(text: Seq<u8>, name: Seq<u8>, fold_case: bool) -> Option<nat> {
    match header_value(text, name, fold_case) {
        None => None,
        Some(v) => parse_unsigned(trim(v), usize::MAX as nat),
    }
}

/// The line feed is the single byte 0x0a.
pub proof fn lemma_newline()
    ensures
        newline() == seq![0x0au8],
{
    reveal_strlit("\n");
    vstd::utf8::is_ascii_chars_encode_utf8("\n"@);
    assert(newline() =~= seq![0x0au8]);
}

/// What `find_header_line` returns: the least line start, at or after
/// `from`, where `name` begins.
pub proof fn lemma_find_header_line(text: Seq<u8>, name: Seq<u8>, fold_case: bool, from: int)
    requires
        0 <= from,
    ensures
        match find_header_line(text, name, fold_case, from) {
            Some(i) => from <= i < text.len() && line_start(text, i) && starts_with_at(
                text,
                i,
                name,
                fold_case,
            ) && forall|j: int|
                from <= j < i ==> !(line_start(text, j) && starts_with_at(text, j, name, fold_case)),
            None => forall|j: int|
                from <= j < text.len() ==> !(line_start(text, j) && starts_with_at(
                    text,
                    j,
                    name,
                    fold_case,
                )),
        },
    decreases text.len() - from,
{
    if from < text.len() && !(line_start(text, from) && starts_with_at(text, from, name, fold_case)) {
        lemma_find_header_line(text, name, fold_case, from + 1);
    }
}

fn starts_with_at_exec(text: &[u8], i: usize, name: &[u8], fold_case: bool) -> (r: bool)
    ensures
        r == starts_with_at(text@, i as int, name@, fold_case),
{
    let n = name.len();
    let len = text.len();
    if i > len || n > len - i {
        return false;
    }
    let mut k: usize = 0;
    while k < n
        invariant
            n == name@.len(),
            len == text@.len(),
            i + n <= len,
            0 <= k <= n,
            forall|j: int|
                0 <= j < k ==> (if fold_case {
                    ascii_lower(#[trigger] text@[i + j])
                } else {
                    text@[i + j]
                }) == name@[j],
        decreases n - k,
    {
        let b = text[i + k];
        let c = if fold_case && 0x41 <= b && b <= 0x5a {
            b + 32
        } else {
            b
        };
        if c != name[k] {
            return false;
        }
        k = k + 1;
    }
    true
}

/// Where the first line that begins with `name` starts.
fn find_header_line_exec(text: &[u8], name: &[u8], fold_case: bool) -> (r: Option<usize>)
    ensures
        match r {
            Some(i) => find_header_line(text@, name@, fold_case, 0) == Some(i as int),
            None => find_header_line(text@, name@, fold_case, 0) is None,
        },
{
    let len = text.len();
    let mut i: usize = 0;
    while i < len
        invariant
            len == text@.len(),
            i <= len,
            find_header_line(text@, name@, fold_case, 0) == find_header_line(
                text@,
                name@,
                fold_case,
                i as int,
            ),
        decreases len - i,
    {
        let at_line_start = i == 0 || text[i - 1] == 0x0a;
        if at_line_start && starts_with_at_exec(text, i, name, fold_case) {
            return Some(i);
        }
        i = i + 1;
    }
    None
}

/// Where the value of the first `name` line of `text` lies, as
/// `header_value` says.
fn header_value_span(text: &[u8], name: &[u8], fold_case: bool) -> (r: Option<(usize, usize)>)
    requires
        forall|k: int| 0 <= k < name@.len() ==> name@[k] != 0x0a,
    ensures
        match r {
            Some((a, b)) => a <= b <= text@.len() && header_value(text@, name@, fold_case) == Some(
                text@.subrange(a as int, b as int),
            ),
            None => header_value(text@, name@, fold_case) is None,
        },
{
    let i = match find_header_line_exec(text, name, fold_case) {
        Some(i) => i,
        None => return None,
    };
    let nl = "\n".as_bytes();
    let end = match find_from(text, nl, i) {
        Some(j) => j,
        None => text.len(),
    };
    proof {
        lemma_first_occurrence(text@, newline(), i as int);
    }
    let n = name.len();
    proof {
        // the matched name lies inside the line: it holds no line feed
        lemma_find_header_line(text@, name@, fold_case, 0);
        lemma_newline();
        if end < i + n {
            let k = end - i;
            assert(text@.subrange(end as int, end + 1)[0] == 0x0a);
            assert(text@[i + k] == 0x0a);
            assert(name@[k] != 0x0a);
        }
    }
    Some((i + n, end))
}

/// The value of the first `name` line of `text`, as `content_length` says.
pub fn header_content_length(text: &[u8], name: &[u8], fold_case: bool) -> (r: Option<usize>)
    requires
        forall|k: int| 0 <= k < name@.len() ==> name@[k] != 0x0a,
    ensures
        match r {
            Some(n) => content_length(text@, name@, fold_case) == Some(n as nat),
            None => content_length(text@, name@, fold_case) is None,
        },
{
    let (vs, ve) = match header_value_span(text, name, fold_case) {
        Some(x) => x,
        None => return None,
    };
    let ts = trim_start_exec(text, vs, ve);
    let te = trim_end_exec(text, ts, ve);
    match parse_unsigned_exec(text, ts, te, usize::MAX as u64) {
        Some(v) => Some(v as usize),
        None => None,
    }
}

/// The header line that declares the media type, in lower case.
pub open spec fn content_type_header() -> Seq<u8> {
    "content-type:".spec_bytes()
}

/// The JSON media type.
pub open spec fn json_media_type() -> Seq<u8> {
    "application/json".spec_bytes()
}

/// A semicolon, which ends the media type in a `Content-Type` value.
pub open spec fn semicolon() -> Seq<u8> {
    ";".spec_bytes()
}

/// The media type of a `Content-Type` value: the text before its first `;`
/// (parameters such as `charset` follow it), trimmed.
pub open spec fn media_type(v: Seq<u8>) -> Seq<u8> {
    match first_occurrence(v, semicolon(), 0) {
        Some(j) => trim(v.take(j)),
        None => trim(v),
    }
}

/// The header declares JSON: its first `Content-Type` line (the name in any
/// case) gives the media type `application/json`, in any case.
pub open spec fn declares_json(header: Seq<u8>) -> bool {
    match header_value(header, content_type_header(), true) {
        None => false,
        Some(v) => media_type(v).len() == json_media_type().len() && starts_with_at(
            media_type(v),
            0,
            json_media_type(),
            true,
        ),
    }
}

/// ASCII lower case of one byte, spelled out.
pub open spec fn lower_byte(b: u8) -> u8 {
    if 0x41 <= b <= 0x5a {
        (b + 0x20) as u8
    } else {
        b
    }
}

/// ASCII lower case of a byte string.
pub open spec fn lowered(s: Seq<u8>) -> Seq<u8> {
    Seq::new(s.len(), |i: int| lower_byte(s[i]))
}

/// A header that declares JSON holds, in the value of its first
/// `Content-Type` line, the 16 bytes `application/json` up to ASCII case.
pub proof fn lemma_declares_json_bytes(header: Seq<u8>)
    ensures
        declares_json(header) ==> (header_value(header, content_type_header(), true) matches Some(v)
            && exists|k: int|
            0 <= k && k + 16 <= v.len() && #[trigger] lowered(v.subrange(k, k + 16))
                == seq![0x61u8, 0x70, 0x70, 0x6c, 0x69, 0x63, 0x61, 0x74, 0x69, 0x6f, 0x6e, 0x2f, 0x6a, 0x73, 0x6f, 0x6e]),
{
    if declares_json(header) {
        reveal_strlit("application/json");
        vstd::utf8::is_ascii_chars_encode_utf8("application/json"@);
        let lit = seq![0x61u8, 0x70, 0x70, 0x6c, 0x69, 0x63, 0x61, 0x74, 0x69, 0x6f, 0x6e, 0x2f, 0x6a, 0x73, 0x6f, 0x6e];
        assert(json_media_type() =~= lit);
        let v = header_value(header, content_type_header(), true).unwrap();
        let x = match first_occurrence(v, semicolon(), 0) {
            Some(j) => v.take(j),
            None => v,
        };
        lemma_first_occurrence(v, semicolon(), 0);
        let (a, b) = lemma_trim_slice(x);
        let mt = media_type(v);
        assert(mt == x.subrange(a, b));
        assert(x.subrange(a, b) =~= v.subrange(a, b));
        assert(mt.len() == 16);
        assert(b == a + 16);
        assert(starts_with_at(mt, 0, json_media_type(), true));
        assert(lowered(v.subrange(a, a + 16)) =~= lit) by {
            assert forall|j: int| 0 <= j < 16 implies lowered(v.subrange(a, a + 16))[j] == lit[j] by {
                assert(v.subrange(a, a + 16)[j] == mt[j]);
                assert(ascii_lower(mt[0 + j]) == json_media_type()[j]);
                assert(lower_byte(mt[j]) == ascii_lower(mt[j]));
            }
        }
    }
}

/// Whether a header declares JSON, as `declares_json` says.
pub fn declares_json_exec(header: &[u8]) -> (r: bool)
    ensures
        r == declares_json(header@),
{
    let name = "content-type:".as_bytes();
    proof {
        reveal_strlit("content-type:");
        vstd::utf8::is_ascii_chars_encode_utf8("content-type:"@);
    }
    let (vs, ve) = match header_value_span(header, name, true) {
        Some(x) => x,
        None => return false,
    };
    let v: &[u8] = &header[vs..ve];
    let semi = ";".as_bytes();
    let j = match find_from(v, semi, 0) {
        Some(j) => j,
        None => v.len(),
    };
    proof {
        lemma_first_occurrence(v@, semi@, 0);
        if j == v@.len() {
            assert(v@.take(j as int) =~= v@);
        }
    }
    let ts = trim_start_exec(v, 0, j);
    let te = trim_end_exec(v, ts, j);
    let ghost mt = media_type(v@);
    proof {
        assert(v@.subrange(0, j as int) =~= v@.take(j as int));
        assert(v@.subrange(ts as int, j as int) == trim_start(v@.take(j as int)));
        assert(mt == v@.subrange(ts as int, te as int));
    }
    let json = "application/json".as_bytes();
    if te - ts != json.len() {
        return false;
    }
    let r = starts_with_at_exec(v, ts, json, true);
    proof {
        if r {
            assert forall|k: int| 0 <= k < json@.len() implies ascii_lower(#[trigger] mt[0 + k])
                == json@[k] by {
                assert(mt[0 + k] == v@[ts + k]);
            }
        } else {
            if starts_with_at(mt, 0, json@, true) {
                assert forall|k: int| 0 <= k < json@.len() implies ascii_lower(
                    #[trigger] v@[ts + k],
                ) == json@[k] by {
                    assert(mt[0 + k] == v@[ts + k]);
                }
            }
        }
    }
    r
}

/// The blank line that ends a header: CR LF CR LF.
pub open spec fn header_terminator() -> Seq<u8> {
    "\r\n\r\n".spec_bytes()
}

/// The header line that declares the body length, in lower case.
pub open spec fn length_header() -> Seq<u8> {
    "content-length:".spec_bytes()
}

/// Where the header of stream `s` ends: just past its first blank line.
pub open spec fn header_end(s: Seq<u8>) -> Option<int> {
    match first_occurrence(s, header_terminator(), 0) {
        Some(p) => Some(p + header_terminator().len()),
        None => None,
    }
}

/// The body length that a header ending at `he` declares, provided the
/// header is under the size limit and is UTF-8.
pub open spec fn declared_length(s: Seq<u8>, he: int) -> Option<nat> {
    if he >= MAX_HEADER_BYTES || !valid_utf8(s.take(he)) {
        None
    } else {
        content_length(s.take(he), length_header(), true)
    }
}

/// The body that the hardened ingress reads from a stream whose whole
/// content is `s`: present only when the header is acceptable, declares at
/// most `MAX_BODY_BYTES`, and that many bytes follow it.
pub open spec fn http_body(s: Seq<u8>) -> Option<Seq<u8>> {
    match header_end(s) {
        None => None,
        Some(he) => match declared_length(s, he) {
            None => None,
            Some(len) => if len > MAX_BODY_BYTES || s.len() < he + len {
                None
            } else {
                Some(s.subrange(he, he + len))
            },
        },
    }
}

/// Bytes `s` already show that no continuation of them is a valid request.
pub open spec fn frame_rejected(s: Seq<u8>) -> bool {
    match header_end(s) {
        None => s.len() >= MAX_HEADER_BYTES,
        Some(he) => match declared_length(s, he) {
            None => true,
            Some(len) => len > MAX_BODY_BYTES,
        },
    }
}

/// Bytes `s` hold a whole acceptable request.
pub open spec fn frame_complete(s: Seq<u8>) -> bool {
    &&& !frame_rejected(s)
    &&& header_end(s) matches Some(he)
    &&& s.len() >= he + declared_length(s, he).unwrap()
}

/// How much to ask for in the next read: a chunk while the header is still
/// coming, then what is missing of the body, a chunk at most.
pub open spec fn read_size(s: Seq<u8>) -> int {
    match header_end(s) {
        None => READ_CHUNK as int,
        Some(he) => {
            let missing = he + declared_length(s, he).unwrap() - s.len();
            if missing < READ_CHUNK {
                missing
            } else {
                READ_CHUNK as int
            }
        },
    }
}

/// What to do with the bytes received so far.
#[derive(Debug)]
pub enum FrameStep {
    /// Read at most this many more bytes; at end of stream, give up.
    ReadMore(usize),
    /// Give up: no continuation of the stream is a valid request.
    Reject,
    /// The request is complete; this is its body.
    Body(Vec<u8>),
}

/// The framing decisions are final. Once the received bytes hold a whole
/// request, every continuation of the stream yields that same body; once
/// they are refused, no continuation yields a body; and while more is
/// wanted, a stream that ends here yields no body. Hence driving
/// `frame_step` with reads until it decides, or until the stream ends,
/// yields `http_body` of the whole stream, however the stream is chunked.
pub proof fn lemma_frame_decisions_final(s: Seq<u8>, ext: Seq<u8>)
    ensures
        frame_complete(s) ==> http_body(s) is Some && http_body(s + ext) == http_body(s),
        frame_rejected(s) ==> http_body(s + ext) is None,
        !frame_complete(s) && !frame_rejected(s) ==> http_body(s) is None && 0 < read_size(s)
            <= READ_CHUNK,
{
    let t = s + ext;
    let m = header_terminator();
    lemma_first_occurrence_extend(s, ext, m);
    lemma_first_occurrence(s, m, 0);
    match first_occurrence(s, m, 0) {
        Some(p) => {
            let he = p + m.len();
            assert(t.take(he) =~= s.take(he));
            if frame_complete(s) {
                let len = declared_length(s, he).unwrap();
                assert(t.subrange(he, he + len) =~= s.subrange(he, he + len));
            }
        },
        None => {},
    }
}

/// Decides, from the bytes received so far, whether to read more, to give
/// up, or to take the body.
pub fn frame_step(received: &[u8]) -> (step: FrameStep)
    ensures
        step is Reject <==> frame_rejected(received@),
        step is Body <==> frame_complete(received@),
        step matches FrameStep::Body(b) ==> http_body(received@) == Some(b@),
        step matches FrameStep::ReadMore(k) ==> k == read_size(received@),
{
    let marker = "\r\n\r\n".as_bytes();
    let len = received.len();
    let p = match find_from(received, marker, 0) {
        Some(p) => p,
        None => {
            if len >= MAX_HEADER_BYTES {
                return FrameStep::Reject;
            }
            return FrameStep::ReadMore(READ_CHUNK);
        },
    };
    proof {
        lemma_first_occurrence(received@, header_terminator(), 0);
    }
    let he = p + marker.len();
    if he >= MAX_HEADER_BYTES {
        return FrameStep::Reject;
    }
    let header: &[u8] = &received[0..he];
    assert(header@ =~= received@.take(he as int));
    if str_from_utf8(header).is_none() {
        return FrameStep::Reject;
    }
    let name = "content-length:".as_bytes();
    proof {
        reveal_strlit("content-length:");
        vstd::utf8::is_ascii_chars_encode_utf8("content-length:"@);
    }
    let declared = match header_content_length(header, name, true) {
        Some(n) => n,
        None => return FrameStep::Reject,
    };
    if declared > MAX_BODY_BYTES {
        return FrameStep::Reject;
    }
    if len - he >= declared {
        let body = vstd::slice::slice_to_vec(&received[he..he + declared]);
        FrameStep::Body(body)
    } else {
        let missing = he + declared - len;
        if missing < READ_CHUNK {
            FrameStep::ReadMore(missing)
        } else {
            FrameStep::ReadMore(READ_CHUNK)
        }
    }
}

/// An HTTP response: the status line, a `Content-Length` header that gives
/// the body's length in decimal, a blank line, and the body.
pub open spec fn spec_http_response(status_line: Seq<u8>, body: Seq<u8>) -> Seq<u8> {
    status_line + "\r\nContent-Length: ".spec_bytes() + decimal(body.len()) + "\r\n\r\n".spec_bytes()
        + body
}

/// Builds an HTTP response around a body.
pub fn http_response(status_line: &[u8], body: &[u8]) -> (out: Vec<u8>)
    ensures
        out@ == spec_http_response(status_line@, body@),
{
    let mut out: Vec<u8> = Vec::new();
    append_bytes(&mut out, status_line);
    append_bytes(&mut out, "\r\nContent-Length: ".as_bytes());
    push_decimal(&mut out, body.len() as u128);
    append_bytes(&mut out, "\r\n\r\n".as_bytes());
    append_bytes(&mut out, body);
    assert(out@ =~= spec_http_response(status_line@, body@));
    out
}

} // verus!
