//! Byte-level text primitives shared by the request parsers: substring
//! search, UTF-8 validity, Unicode white-space trimming and the decimal
//! grammar of Rust's unsigned `FromStr`.

use vstd::prelude::*;
use vstd::string::StringSliceAdditionalSpecFns;
use vstd::utf8::*;

verus! {

/// `needle` occurs in `hay` starting at index `i`.
pub open spec fn occurs_at(hay: Seq<u8>, needle: Seq<u8>, i: int) -> bool {
    0 <= i && i + needle.len() <= hay.len() && hay.subrange(i, i + needle.len()) == needle
}

/// The first index at or after `from` where `needle` occurs in `hay`.
pub open spec fn first_occurrence(hay: Seq<u8>, needle: Seq<u8>, from: int) -> Option<int>
    decreases hay.len() - from,
{
    if from < 0 || from + needle.len() > hay.len() {
        None
    } else if needle.len() == 0 || hay.subrange(from, from + needle.len()) == needle {
        Some(from)
    } else {
        first_occurrence(hay, needle, from + 1)
    }
}

/// What `first_occurrence` returns: the least matching index, or none at all.
pub proof fn lemma_first_occurrence(hay: Seq<u8>, needle: Seq<u8>, from: int)
    requires
        0 <= from,
    ensures
        match first_occurrence(hay, needle, from) {
            Some(i) => from <= i && occurs_at(hay, needle, i) && forall|j: int|
                from <= j < i ==> !occurs_at(hay, needle, j),
            None => forall|j: int| from <= j ==> !occurs_at(hay, needle, j),
        },
    decreases hay.len() - from,
{
    if from + needle.len() > hay.len() {
    } else if needle.len() == 0 || hay.subrange(from, from + needle.len()) == needle {
        assert(hay.subrange(from, from + needle.len()) =~= needle);
    } else {
        lemma_first_occurrence(hay, needle, from + 1);
    }
}

/// The first occurrence in `s` is the first occurrence in every extension of
/// `s`; with none in `s`, any in an extension reaches past the end of `s`.
pub proof fn lemma_first_occurrence_extend(s: Seq<u8>, ext: Seq<u8>, needle: Seq<u8>)
    ensures
        first_occurrence(s, needle, 0) matches Some(p) ==> first_occurrence(s + ext, needle, 0)
            == Some(p),
        first_occurrence(s, needle, 0) is None ==> match first_occurrence(s + ext, needle, 0) {
            Some(p) => p + needle.len() > s.len(),
            None => true,
        },
{
    let t = s + ext;
    lemma_first_occurrence(s, needle, 0);
    lemma_first_occurrence(t, needle, 0);
    assert forall|j: int| 0 <= j && j + needle.len() <= s.len() implies occurs_at(s, needle, j)
        == occurs_at(t, needle, j) by {
        assert(s.subrange(j, j + needle.len()) =~= t.subrange(j, j + needle.len()));
    }
    match first_occurrence(s, needle, 0) {
        Some(p) => {
            match first_occurrence(t, needle, 0) {
                Some(i) => {
                    if i < p {
                        assert(occurs_at(s, needle, i));
                    }
                },
                None => {},
            }
        },
        None => {
            match first_occurrence(t, needle, 0) {
                Some(i) => {
                    if i + needle.len() <= s.len() {
                        assert(occurs_at(s, needle, i));
                    }
                },
                None => {},
            }
        },
    }
}

/// `hay[i..i + needle.len()] == needle`.
pub fn matches_at(hay: &[u8], needle: &[u8], i: usize) -> (r: bool)
    requires
        i + needle@.len() <= hay@.len(),
    ensures
        r == (hay@.subrange(i as int, i + needle@.len()) == needle@),
{
    let n = needle.len();
    let hl = hay.len();
    let mut k: usize = 0;
    while k < n
        invariant
            n == needle@.len(),
            hl == hay@.len(),
            i + n <= hay@.len(),
            0 <= k <= n,
            forall|j: int| 0 <= j < k ==> hay@[i + j] == needle@[j],
        decreases n - k,
    {
        if hay[i + k] != needle[k] {
            assert(hay@.subrange(i as int, i + n)[k as int] != needle@[k as int]);
            return false;
        }
        k = k + 1;
    }
    assert(hay@.subrange(i as int, i + n) =~= needle@);
    true
}

/// Byte-wise equality of two slices.
pub fn bytes_eq(a: &[u8], b: &[u8]) -> (r: bool)
    ensures
        r == (a@ == b@),
{
    if a.len() != b.len() {
        return false;
    }
    let r = matches_at(a, b, 0);
    assert(a@.subrange(0, b@.len() as int) =~= a@);
    r
}

/// The first index at or after `from` where `needle` occurs in `hay`.
pub fn find_from(hay: &[u8], needle: &[u8], from: usize) -> (r: Option<usize>)
    ensures
        match r {
            Some(i) => first_occurrence(hay@, needle@, from as int) == Some(i as int),
            None => first_occurrence(hay@, needle@, from as int) is None,
        },
{
    let n = needle.len();
    let len = hay.len();
    if n > len {
        return None;
    }
    if n == 0 {
        if from <= len {
            return Some(from);
        }
        return None;
    }
    let mut i = from;
    while i <= len - n
        invariant
            n == needle@.len(),
            len == hay@.len(),
            0 < n <= len,
            from <= i,
            first_occurrence(hay@, needle@, from as int) == first_occurrence(
                hay@,
                needle@,
                i as int,
            ),
        decreases len - i,
    {
        if matches_at(hay, needle, i) {
            return Some(i);
        }
        i = i + 1;
    }
    None
}

/// Bytes are valid UTF-8 exactly when `std::str::from_utf8` accepts them.
/// The contract claims that `from_utf8` succeeds on precisely the byte
/// sequences that vstd's `valid_utf8` describes (well-formed UTF-8 as in
/// RFC 3629: no overlong forms, no surrogates, nothing above U+10FFFF), and
/// that the `str` it returns holds those very bytes.
#[verifier::external_body]
pub fn str_from_utf8(bytes: &[u8]) -> (r: Option<&str>)
    ensures
        r is Some <==> valid_utf8(bytes@),
        r matches Some(s) ==> s.spec_bytes() == bytes@,
{
    std::str::from_utf8(bytes).ok()
}


/// The code points with Unicode's `White_Space` property, which is what
/// `char::is_whitespace`, `str::trim_start` and `str::trim` test.
pub open spec fn is_white_space(c: u32) -> bool {
    ||| 0x09 <= c <= 0x0d
    ||| c == 0x20
    ||| c == 0x85
    ||| c == 0xa0
    ||| c == 0x1680
    ||| 0x2000 <= c <= 0x200a
    ||| c == 0x2028
    ||| c == 0x2029
    ||| c == 0x202f
    ||| c == 0x205f
    ||| c == 0x3000
}

/// `t` is, byte for byte, the UTF-8 encoding of one white-space character.
pub open spec fn is_white_space_char(t: Seq<u8>) -> bool {
    &&& t.len() > 0
    &&& valid_first_scalar(t)
    &&& length_of_first_scalar(t) == t.len()
    &&& is_white_space(decode_first_scalar(t))
}

/// Byte length of the white-space character that `s` starts with, or 0.
pub open spec fn leading_ws_len(s: Seq<u8>) -> int {
    if s.len() >= 1 && is_white_space_char(s.take(1)) {
        1
    } else if s.len() >= 2 && is_white_space_char(s.take(2)) {
        2
    } else if s.len() >= 3 && is_white_space_char(s.take(3)) {
        3
    } else if s.len() >= 4 && is_white_space_char(s.take(4)) {
        4
    } else {
        0
    }
}

/// Byte length of the white-space character that `s` ends with, or 0.
pub open spec fn trailing_ws_len(s: Seq<u8>) -> int {
    if s.len() >= 1 && is_white_space_char(s.skip(s.len() - 1)) {
        1
    } else if s.len() >= 2 && is_white_space_char(s.skip(s.len() - 2)) {
        2
    } else if s.len() >= 3 && is_white_space_char(s.skip(s.len() - 3)) {
        3
    } else if s.len() >= 4 && is_white_space_char(s.skip(s.len() - 4)) {
        4
    } else {
        0
    }
}

/// `str::trim_start`: drops white-space characters from the front.
pub open spec fn trim_start(s: Seq<u8>) -> Seq<u8>
    decreases s.len(),
{
    if leading_ws_len(s) > 0 {
        trim_start(s.skip(leading_ws_len(s)))
    } else {
        s
    }
}

/// `str::trim_end`: drops white-space characters from the back.
pub open spec fn trim_end(s: Seq<u8>) -> Seq<u8>
    decreases s.len(),
{
    if trailing_ws_len(s) > 0 {
        trim_end(s.take(s.len() - trailing_ws_len(s)))
    } else {
        s
    }
}

/// `str::trim`: drops white-space characters from both ends.
pub open spec fn trim(s: Seq<u8>) -> Seq<u8> {
    trim_end(trim_start(s))
}

proof fn lemma_ws_width_1(b0: u8)
    by (bit_vector)
    requires
        b0 <= 0x7f,
    ensures
        is_white_space(codepoint_width_1(b0)) <==> (0x09 <= b0 <= 0x0d || b0 == 0x20),
{
}

proof fn lemma_ws_width_2(b0: u8, b1: u8)
    by (bit_vector)
    requires
        0xc0 <= b0 <= 0xdf,
        0x80 <= b1 <= 0xbf,
    ensures
        (0x80 <= codepoint_width_2(b0, b1) && is_white_space(codepoint_width_2(b0, b1))) <==> (
        b0 == 0xc2 && (b1 == 0x85 || b1 == 0xa0)),
{
}

/// The three-byte encodings of white space, written out.
pub open spec fn ws3_pattern(b0: u8, b1: u8, b2: u8) -> bool {
    ||| b0 == 0xe1 && b1 == 0x9a && b2 == 0x80
    ||| b0 == 0xe2 && b1 == 0x80 && (0x80 <= b2 <= 0x8a || b2 == 0xa8 || b2 == 0xa9 || b2 == 0xaf)
    ||| b0 == 0xe2 && b1 == 0x81 && b2 == 0x9f
    ||| b0 == 0xe3 && b1 == 0x80 && b2 == 0x80
}

proof fn lemma_ws_width_3(b0: u8, b1: u8, b2: u8)
    by (bit_vector)
    requires
        0xe0 <= b0 <= 0xef,
        0x80 <= b1 <= 0xbf,
        0x80 <= b2 <= 0xbf,
    ensures
        (0x800 <= codepoint_width_3(b0, b1, b2) && is_white_space(codepoint_width_3(b0, b1, b2)))
            <==> ws3_pattern(b0, b1, b2),
{
}

proof fn lemma_ws_width_4(b0: u8, b1: u8, b2: u8, b3: u8)
    by (bit_vector)
    requires
        0xf0 <= b0 <= 0xf7,
        0x80 <= b1 <= 0xbf,
        0x80 <= b2 <= 0xbf,
        0x80 <= b3 <= 0xbf,
    ensures
        0x10000 <= codepoint_width_4(b0, b1, b2, b3) ==> !is_white_space(
            codepoint_width_4(b0, b1, b2, b3),
        ),
{
}


/// The byte patterns of white-space characters, one to three bytes long.
pub open spec fn ws_char_pattern(t: Seq<u8>) -> bool {
    ||| t.len() == 1 && (0x09 <= t[0] <= 0x0d || t[0] == 0x20)
    ||| t.len() == 2 && t[0] == 0xc2 && (t[1] == 0x85 || t[1] == 0xa0)
    ||| t.len() == 3 && ws3_pattern(t[0], t[1], t[2])
}

proof fn lemma_ws_char(t: Seq<u8>)
    requires
        1 <= t.len() <= 4,
    ensures
        is_white_space_char(t) <==> ws_char_pattern(t),
{
    let b0 = t[0];
    if t.len() == 1 {
        if b0 <= 0x7f {
            lemma_ws_width_1(b0);
        }
    } else if t.len() == 2 {
        let b1 = t[1];
        if 0xc0 <= b0 <= 0xdf && 0x80 <= b1 <= 0xbf {
            lemma_ws_width_2(b0, b1);
        }
    } else if t.len() == 3 {
        let b1 = t[1];
        let b2 = t[2];
        if 0xe0 <= b0 <= 0xef && 0x80 <= b1 <= 0xbf && 0x80 <= b2 <= 0xbf {
            lemma_ws_width_3(b0, b1, b2);
        }
    } else {
        let b1 = t[1];
        let b2 = t[2];
        let b3 = t[3];
        if 0xf0 <= b0 <= 0xf7 && 0x80 <= b1 <= 0xbf && 0x80 <= b2 <= 0xbf && 0x80 <= b3 <= 0xbf {
            lemma_ws_width_4(b0, b1, b2, b3);
        }
    }
}

fn ws_pattern_exec(s: &[u8], i: usize, k: usize) -> (r: bool)
    requires
        1 <= k <= 3,
        i + k <= s@.len(),
    ensures
        r == ws_char_pattern(s@.subrange(i as int, i + k)),
{
    let b0 = s[i];
    if k == 1 {
        (0x09 <= b0 && b0 <= 0x0d) || b0 == 0x20
    } else if k == 2 {
        let b1 = s[i + 1];
        b0 == 0xc2 && (b1 == 0x85 || b1 == 0xa0)
    } else {
        let b1 = s[i + 1];
        let b2 = s[i + 2];
        (b0 == 0xe1 && b1 == 0x9a && b2 == 0x80) || (b0 == 0xe2 && b1 == 0x80 && ((0x80 <= b2
            && b2 <= 0x8a) || b2 == 0xa8 || b2 == 0xa9 || b2 == 0xaf)) || (b0 == 0xe2 && b1 == 0x81
            && b2 == 0x9f) || (b0 == 0xe3 && b1 == 0x80 && b2 == 0x80)
    }
}

/// Byte length of the white-space character that `s[lo..hi]` starts with, or 0.
pub fn leading_ws_len_exec(s: &[u8], lo: usize, hi: usize) -> (k: usize)
    requires
        lo <= hi <= s@.len(),
    ensures
        k == leading_ws_len(s@.subrange(lo as int, hi as int)),
        k <= hi - lo,
{
    let ghost t = s@.subrange(lo as int, hi as int);
    let n = hi - lo;
    proof {
        if n >= 1 {
            lemma_ws_char(t.take(1));
            assert(t.take(1) =~= s@.subrange(lo as int, lo + 1));
        }
        if n >= 2 {
            lemma_ws_char(t.take(2));
            assert(t.take(2) =~= s@.subrange(lo as int, lo + 2));
        }
        if n >= 3 {
            lemma_ws_char(t.take(3));
            assert(t.take(3) =~= s@.subrange(lo as int, lo + 3));
        }
        if n >= 4 {
            lemma_ws_char(t.take(4));
        }
    }
    if n >= 1 && ws_pattern_exec(s, lo, 1) {
        1
    } else if n >= 2 && ws_pattern_exec(s, lo, 2) {
        2
    } else if n >= 3 && ws_pattern_exec(s, lo, 3) {
        3
    } else {
        0
    }
}

/// Byte length of the white-space character that `s[lo..hi]` ends with, or 0.
pub fn trailing_ws_len_exec(s: &[u8], lo: usize, hi: usize) -> (k: usize)
    requires
        lo <= hi <= s@.len(),
    ensures
        k == trailing_ws_len(s@.subrange(lo as int, hi as int)),
        k <= hi - lo,
{
    let ghost t = s@.subrange(lo as int, hi as int);
    let n = hi - lo;
    proof {
        if n >= 1 {
            lemma_ws_char(t.skip(n - 1));
            assert(t.skip(n - 1) =~= s@.subrange(hi - 1, hi as int));
        }
        if n >= 2 {
            lemma_ws_char(t.skip(n - 2));
            assert(t.skip(n - 2) =~= s@.subrange(hi - 2, hi as int));
        }
        if n >= 3 {
            lemma_ws_char(t.skip(n - 3));
            assert(t.skip(n - 3) =~= s@.subrange(hi - 3, hi as int));
        }
        if n >= 4 {
            lemma_ws_char(t.skip(n - 4));
        }
    }
    if n >= 1 && ws_pattern_exec(s, hi - 1, 1) {
        1
    } else if n >= 2 && ws_pattern_exec(s, hi - 2, 2) {
        2
    } else if n >= 3 && ws_pattern_exec(s, hi - 3, 3) {
        3
    } else {
        0
    }
}

/// Start of `trim_start(s[lo..hi])` within `s`.
pub fn trim_start_exec(s: &[u8], lo: usize, hi: usize) -> (r: usize)
    requires
        lo <= hi <= s@.len(),
    ensures
        lo <= r <= hi,
        s@.subrange(r as int, hi as int) == trim_start(s@.subrange(lo as int, hi as int)),
{
    let mut i = lo;
    loop
        invariant
            lo <= i <= hi <= s@.len(),
            trim_start(s@.subrange(lo as int, hi as int)) == trim_start(
                s@.subrange(i as int, hi as int),
            ),
        decreases hi - i,
    {
        let k = leading_ws_len_exec(s, i, hi);
        if k == 0 {
            return i;
        }
        proof {
            let t = s@.subrange(i as int, hi as int);
            assert(t.skip(k as int) =~= s@.subrange(i + k, hi as int));
        }
        i = i + k;
    }
}

/// End of `trim_end(s[lo..hi])` within `s`.
pub fn trim_end_exec(s: &[u8], lo: usize, hi: usize) -> (r: usize)
    requires
        lo <= hi <= s@.len(),
    ensures
        lo <= r <= hi,
        s@.subrange(lo as int, r as int) == trim_end(s@.subrange(lo as int, hi as int)),
{
    let mut j = hi;
    loop
        invariant
            lo <= j <= hi <= s@.len(),
            trim_end(s@.subrange(lo as int, hi as int)) == trim_end(
                s@.subrange(lo as int, j as int),
            ),
        decreases j - lo,
    {
        let k = trailing_ws_len_exec(s, lo, j);
        if k == 0 {
            return j;
        }
        proof {
            let t = s@.subrange(lo as int, j as int);
            assert(t.take(t.len() - k) =~= s@.subrange(lo as int, j - k));
        }
        j = j - k;
    }
}


/// An ASCII decimal digit.
pub open spec fn is_digit(b: u8) -> bool {
    0x30 <= b <= 0x39
}

/// Every byte of `s` is an ASCII decimal digit.
pub open spec fn all_digits(s: Seq<u8>) -> bool {
    forall|i: int| 0 <= i < s.len() ==> is_digit(#[trigger] s[i])
}

/// The number that a string of decimal digits spells.
pub open spec fn digits_value(s: Seq<u8>) -> nat
    decreases s.len(),
{
    if s.len() == 0 {
        0
    } else {
        digits_value(s.drop_last()) * 10 + (s.last() - 0x30) as nat
    }
}

/// `<uN as FromStr>::from_str` for an unsigned type whose largest value is
/// `max`: an optional `+`, then one or more decimal digits whose value does
/// not exceed `max`.
pub open spec fn parse_unsigned(s: Seq<u8>, max: nat) -> Option<nat> {
    let d = if s.len() > 0 && s[0] == 0x2b {
        s.skip(1)
    } else {
        s
    };
    if d.len() > 0 && all_digits(d) && digits_value(d) <= max {
        Some(digits_value(d))
    } else {
        None
    }
}

/// Length of the run of ASCII digits that `s` starts with.
pub open spec fn digit_run_len(s: Seq<u8>) -> nat
    decreases s.len(),
{
    if s.len() > 0 && is_digit(s[0]) {
        1 + digit_run_len(s.skip(1))
    } else {
        0
    }
}

pub proof fn lemma_digits_value_prefix(s: Seq<u8>, k: int)
    requires
        all_digits(s),
        0 <= k <= s.len(),
    ensures
        digits_value(s.take(k)) <= digits_value(s),
    decreases s.len(),
{
    if k < s.len() {
        let t = s.drop_last();
        assert(t.take(k) =~= s.take(k));
        assert(all_digits(t)) by {
            assert forall|i: int| 0 <= i < t.len() implies is_digit(#[trigger] t[i]) by {
                assert(t[i] == s[i]);
            }
        }
        lemma_digits_value_prefix(t, k);
    } else {
        assert(s.take(k) =~= s);
    }
}

/// Parses `s[lo..hi]` as `<uN as FromStr>::from_str` does, for the type whose
/// largest value is `max`.
pub fn parse_unsigned_exec(s: &[u8], lo: usize, hi: usize, max: u64) -> (r: Option<u64>)
    requires
        lo <= hi <= s@.len(),
    ensures
        match r {
            Some(v) => parse_unsigned(s@.subrange(lo as int, hi as int), max as nat) == Some(
                v as nat,
            ),
            None => parse_unsigned(s@.subrange(lo as int, hi as int), max as nat) is None,
        },
{
    let ghost t = s@.subrange(lo as int, hi as int);
    let start = if lo < hi && s[lo] == 0x2b {
        lo + 1
    } else {
        lo
    };
    let ghost d = s@.subrange(start as int, hi as int);
    assert(d =~= (if t.len() > 0 && t[0] == 0x2b {
        t.skip(1)
    } else {
        t
    }));
    if start == hi {
        return None;
    }
    let mut i = start;
    let mut acc: u64 = 0;
    assert(d.take(0) =~= Seq::<u8>::empty());
    while i < hi
        invariant
            lo <= start <= i <= hi <= s@.len(),
            d == s@.subrange(start as int, hi as int),
            t == s@.subrange(lo as int, hi as int),
            d == (if t.len() > 0 && t[0] == 0x2b {
                t.skip(1)
            } else {
                t
            }),
            acc as nat == digits_value(d.take(i - start)),
            all_digits(d.take(i - start)),
            acc <= max,
        decreases hi - i,
    {
        let b = s[i];
        let ghost j = i - start;
        if b < 0x30 || b > 0x39 {
            assert(!is_digit(d[j]));
            return None;
        }
        assert(d.take(j + 1).drop_last() =~= d.take(j));
        let next: u128 = acc as u128 * 10 + (b - 0x30) as u128;
        assert(next == digits_value(d.take(j + 1)));
        assert(all_digits(d.take(j + 1))) by {
            assert forall|k: int| 0 <= k < j + 1 implies is_digit(#[trigger] d.take(j + 1)[k]) by {
                if k < j {
                    assert(d.take(j + 1)[k] == d.take(j)[k]);
                }
            }
        }
        if next > max as u128 {
            proof {
                if all_digits(d) {
                    lemma_digits_value_prefix(d, j + 1);
                }
            }
            return None;
        }
        acc = next as u64;
        i = i + 1;
    }
    assert(d.take(i - start) =~= d);
    Some(acc)
}

/// Length of the run of ASCII digits that `s[lo..hi]` starts with.
pub fn digit_run_len_exec(s: &[u8], lo: usize, hi: usize) -> (k: usize)
    requires
        lo <= hi <= s@.len(),
    ensures
        k == digit_run_len(s@.subrange(lo as int, hi as int)),
        k <= hi - lo,
{
    let mut i = hi;
    let mut k: usize = 0;
    // Scan backwards so that each step extends a run that is already known.
    while i > lo
        invariant
            lo <= i <= hi <= s@.len(),
            k <= hi - i,
            k == digit_run_len(s@.subrange(i as int, hi as int)),
        decreases i - lo,
    {
        let ghost t = s@.subrange(i - 1, hi as int);
        assert(t.skip(1) =~= s@.subrange(i as int, hi as int));
        if 0x30 <= s[i - 1] && s[i - 1] <= 0x39 {
            k = k + 1;
        } else {
            k = 0;
        }
        i = i - 1;
    }
    k
}


/// The decimal digits of `n`, as `{}` prints an unsigned integer.
pub open spec fn decimal(n: nat) -> Seq<u8>
    decreases n,
{
    if n < 10 {
        seq![(0x30 + n) as u8]
    } else {
        decimal(n / 10) + seq![(0x30 + n % 10) as u8]
    }
}

/// A lower-case hexadecimal digit.
pub open spec fn hex_digit(d: nat) -> u8 {
    if d < 10 {
        (0x30 + d) as u8
    } else {
        (0x57 + d) as u8
    }
}

/// The last `width` lower-case hexadecimal digits of `n`, zero-padded on
/// the left, as `{:0width$x}` prints a number below `16^width`.
pub open spec fn hex_fixed(n: nat, width: nat) -> Seq<u8>
    decreases width,
{
    if width == 0 {
        Seq::empty()
    } else {
        hex_fixed(n / 16, (width - 1) as nat) + seq![hex_digit(n % 16)]
    }
}

/// Appends `bytes` to `out`.
pub fn append_bytes(out: &mut Vec<u8>, bytes: &[u8])
    ensures
        final(out)@ == old(out)@ + bytes@,
{
    let mut i: usize = 0;
    while i < bytes.len()
        invariant
            0 <= i <= bytes@.len(),
            out@ == old(out)@ + bytes@.take(i as int),
        decreases bytes@.len() - i,
    {
        out.push(bytes[i]);
        assert(bytes@.take(i + 1) =~= bytes@.take(i as int).push(bytes@[i as int]));
        i = i + 1;
    }
    assert(bytes@.take(i as int) =~= bytes@);
}

/// Appends the decimal digits of `n` to `out`.
pub fn push_decimal(out: &mut Vec<u8>, n: u128)
    ensures
        final(out)@ == old(out)@ + decimal(n as nat),
    decreases n,
{
    if n >= 10 {
        push_decimal(out, n / 10);
    }
    out.push(0x30 + (n % 10) as u8);
    assert(out@ =~= old(out)@ + decimal(n as nat));
}

/// Appends the last `width` hexadecimal digits of `n`, zero-padded, to `out`.
pub fn push_hex_fixed(out: &mut Vec<u8>, n: u128, width: u32)
    ensures
        final(out)@ == old(out)@ + hex_fixed(n as nat, width as nat),
    decreases width,
{
    if width == 0 {
        assert(out@ =~= old(out)@ + hex_fixed(n as nat, width as nat));
        return;
    }
    push_hex_fixed(out, n / 16, width - 1);
    let d = (n % 16) as u8;
    let c = if d < 10 {
        0x30 + d
    } else {
        0x57 + d
    };
    out.push(c);
    assert(out@ =~= old(out)@ + hex_fixed(n as nat, width as nat));
}

/// Bytes below 0x80 are valid UTF-8.
pub proof fn lemma_ascii_utf8(s: Seq<u8>)
    requires
        forall|i: int| 0 <= i < s.len() ==> s[i] < 0x80,
    ensures
        valid_utf8(s),
{
    assert(valid_utf8(s.subrange(0, 0))) by {
        assert(s.subrange(0, 0) =~= Seq::<u8>::empty());
    }
    assert forall|i: int| 0 <= 0 <= i < s.len() <= s.len() implies #[trigger] vstd::utf8::is_leading_byte_width_1(
        s[i],
    ) by {}
    vstd::utf8::partial_valid_utf8_extend_ascii_block(s, 0, s.len() as int);
    assert(s.subrange(0, s.len() as int) =~= s);
}

/// `trim_start` keeps a suffix: it is `s[a..]` for the returned `a`.
pub proof fn lemma_trim_start_slice(s: Seq<u8>) -> (a: int)
    ensures
        0 <= a <= s.len(),
        trim_start(s) == s.subrange(a, s.len() as int),
    decreases s.len(),
{
    if leading_ws_len(s) > 0 {
        let w = leading_ws_len(s);
        let a1 = lemma_trim_start_slice(s.skip(w));
        assert(s.skip(w).subrange(a1, s.skip(w).len() as int) =~= s.subrange(w + a1, s.len() as int));
        w + a1
    } else {
        assert(s.subrange(0, s.len() as int) =~= s);
        0
    }
}

/// `trim_end` keeps a prefix: it is `s[..b]` for the returned `b`.
pub proof fn lemma_trim_end_slice(s: Seq<u8>) -> (b: int)
    ensures
        0 <= b <= s.len(),
        trim_end(s) == s.subrange(0, b),
    decreases s.len(),
{
    if trailing_ws_len(s) > 0 {
        let w = trailing_ws_len(s);
        let t = s.take(s.len() - w);
        let b1 = lemma_trim_end_slice(t);
        assert(t.subrange(0, b1) =~= s.subrange(0, b1));
        b1
    } else {
        assert(s.subrange(0, s.len() as int) =~= s);
        s.len() as int
    }
}

/// `trim` keeps a contiguous part: it is `s[a..b]` for the returned bounds.
pub proof fn lemma_trim_slice(s: Seq<u8>) -> (r: (int, int))
    ensures
        0 <= r.0 <= r.1 <= s.len(),
        trim(s) == s.subrange(r.0, r.1),
{
    let a = lemma_trim_start_slice(s);
    let t = s.subrange(a, s.len() as int);
    let b = lemma_trim_end_slice(t);
    assert(t.subrange(0, b) =~= s.subrange(a, a + b));
    (a, a + b)
}

} // verus!
