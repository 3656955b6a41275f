//! Global functions that work on text: URI percent-encoding, base64, `parseInt`,
//! substring search and replacement.
use vstd::prelude::*;
use vstd::utf8::{encode_utf8, valid_utf8, decode_utf8};
use crate::double::{Double, spec_is_int_value};
use crate::text::spec_trim;
use crate::text::{chars_to_string, slice_range, push_all, str_to_chars};

verus! {

// ---------------------------------------------------------------------------
// UTF-8
// ---------------------------------------------------------------------------

/// The UTF-8 bytes of `s`.
pub fn utf8_bytes(s: &Vec<char>) -> (r: Vec<u8>)
    ensures
        r@ == encode_utf8(s@),
{
    let st = chars_to_string(s);
    let b = st.as_str().as_bytes();
    slice_range(b, 0, b.len())
}

/// `String::from_utf8`: the text that `bytes` encode, if they are valid UTF-8.
/// Trusted: the documentation says it fails exactly when the bytes are not valid
/// UTF-8, and otherwise gives the string they encode.
#[verifier::external_body]
pub(crate) fn string_from_utf8(bytes: Vec<u8>) -> (r: Option<String>)
    ensures
        r is Some <==> valid_utf8(bytes@),
        r matches Some(s) ==> s@ == decode_utf8(bytes@),
{
    match String::from_utf8(bytes) {
        Ok(s) => Some(s),
        Err(_) => None,
    }
}

// ---------------------------------------------------------------------------
// Hex digits
// ---------------------------------------------------------------------------

pub open spec fn spec_hex_digit(n: u8) -> char {
    if n < 10 {
        (0x30 + n) as char
    } else if n < 16 {
        (0x41 + n - 10) as char
    } else {
        '0'
    }
}

pub open spec fn spec_from_hex_digit(b: u8) -> Option<u8> {
    if 0x30 <= b <= 0x39 {
        Some((b - 0x30) as u8)
    } else if 0x61 <= b <= 0x66 {
        Some((b - 0x61 + 10) as u8)
    } else if 0x41 <= b <= 0x46 {
        Some((b - 0x41 + 10) as u8)
    } else {
        None
    }
}

/// Upper-case hex digit of `n` (`'0'` for values above 15).
pub fn hex_digit(n: u8) -> (r: char)
    ensures
        r == spec_hex_digit(n),
{
    if n < 10 {
        ((0x30u8 + n) as char)
    } else if n < 16 {
        ((0x41u8 + n - 10) as char)
    } else {
        '0'
    }
}

/// Value of an ASCII hex digit (either case).
pub fn from_hex_digit(b: u8) -> (r: Option<u8>)
    ensures
        r == spec_from_hex_digit(b),
{
    if 0x30 <= b && b <= 0x39 {
        Some(b - 0x30)
    } else if 0x61 <= b && b <= 0x66 {
        Some(b - 0x61 + 10)
    } else if 0x41 <= b && b <= 0x46 {
        Some(b - 0x41 + 10)
    } else {
        None
    }
}

// ---------------------------------------------------------------------------
// Percent-encoding
// ---------------------------------------------------------------------------

pub open spec fn spec_is_alnum(b: u8) -> bool {
    (0x30 <= b <= 0x39) || (0x41 <= b <= 0x5A) || (0x61 <= b <= 0x7A)
}

/// Bytes that `encodeURIComponent` keeps: ASCII letters and digits and `-_.!~*'()`;
/// with `reserved`, also `;,/?:@&=+$#` (`encodeURI`).
pub open spec fn spec_uri_keeps(b: u8, reserved: bool) -> bool {
    ||| spec_is_alnum(b)
    ||| b == 0x2D || b == 0x5F || b == 0x2E || b == 0x21 || b == 0x7E || b == 0x2A || b == 0x27
        || b == 0x28 || b == 0x29
    ||| reserved && (b == 0x3B || b == 0x2C || b == 0x2F || b == 0x3F || b == 0x3A || b == 0x40
        || b == 0x26 || b == 0x3D || b == 0x2B || b == 0x24 || b == 0x23)
}

pub open spec fn spec_percent_piece(b: u8, reserved: bool) -> Seq<char> {
    if spec_uri_keeps(b, reserved) {
        seq![b as char]
    } else {
        seq!['%', spec_hex_digit(b / 16), spec_hex_digit(b % 16)]
    }
}

/// Percent-encoding of a byte sequence.
pub open spec fn spec_percent_encode(bytes: Seq<u8>, reserved: bool) -> Seq<char>
    decreases bytes.len(),
{
    if bytes.len() == 0 {
        seq![]
    } else {
        spec_percent_piece(bytes[0], reserved) + spec_percent_encode(bytes.drop_first(), reserved)
    }
}

fn uri_keeps(b: u8, reserved: bool) -> (r: bool)
    ensures
        r == spec_uri_keeps(b, reserved),
{
    (0x30 <= b && b <= 0x39) || (0x41 <= b && b <= 0x5A) || (0x61 <= b && b <= 0x7A) || b == 0x2D
        || b == 0x5F || b == 0x2E || b == 0x21 || b == 0x7E || b == 0x2A || b == 0x27 || b == 0x28
        || b == 0x29 || (reserved && (b == 0x3B || b == 0x2C || b == 0x2F || b == 0x3F || b == 0x3A
        || b == 0x40 || b == 0x26 || b == 0x3D || b == 0x2B || b == 0x24 || b == 0x23))
}

fn percent_encode(s: &Vec<char>, reserved: bool) -> (r: Vec<char>)
    ensures
        r@ == spec_percent_encode(encode_utf8(s@), reserved),
{
    let bytes = utf8_bytes(s);
    let ghost all = bytes@;
    let mut out: Vec<char> = Vec::new();
    let mut i: usize = 0;
    assert(all.skip(0) =~= all);
    while i < bytes.len()
        invariant
            0 <= i <= all.len(),
            bytes@ == all,
            out@ + spec_percent_encode(all.skip(i as int), reserved) == spec_percent_encode(
                all,
                reserved,
            ),
        decreases bytes.len() - i,
    {
        let b = bytes[i];
        assert(all.skip(i as int).drop_first() =~= all.skip(i + 1));
        let ghost before = out@;
        if uri_keeps(b, reserved) {
            out.push(b as char);
        } else {
            out.push('%');
            out.push(hex_digit(b >> 4));
            out.push(hex_digit(b & 0xf));
            assert(b >> 4 == b / 16 && b & 0xf == b % 16) by (bit_vector);
        }
        assert(out@ == before + spec_percent_piece(b, reserved));
        i = i + 1;
    }
    assert(out@ == spec_percent_encode(all, reserved));
    out
}

/// `encodeURIComponent`: the UTF-8 bytes of `s`, each kept when it is an ASCII letter,
/// digit or one of `-_.!~*'()`, and written `%XX` otherwise.
pub fn encode_uri_component(s: &Vec<char>) -> (r: Vec<char>)
    ensures
        r@ == spec_percent_encode(encode_utf8(s@), false),
{
    percent_encode(s, false)
}

/// `encodeURI`: as `encode_uri_component`, keeping `;,/?:@&=+$#` as well.
pub fn encode_uri(s: &Vec<char>) -> (r: Vec<char>)
    ensures
        r@ == spec_percent_encode(encode_utf8(s@), true),
{
    percent_encode(s, true)
}

/// Percent-decoding: each `%XX` with two hex digits becomes the character with that
/// code; every other byte becomes the character with the byte's value.
pub open spec fn spec_percent_decode(t: Seq<u8>) -> Seq<char>
    decreases t.len(),
{
    if t.len() == 0 {
        seq![]
    } else if t[0] == 0x25 && t.len() > 2 && spec_from_hex_digit(t[1]) is Some
        && spec_from_hex_digit(t[2]) is Some {
        seq![
            ((spec_from_hex_digit(t[1])->0 * 16 + spec_from_hex_digit(t[2])->0) as u8) as char,
        ] + spec_percent_decode(t.skip(3))
    } else {
        seq![t[0] as char] + spec_percent_decode(t.skip(1))
    }
}

/// `decodeURIComponent` (also `decodeURI`, `unescape`): works on the UTF-8 bytes of
/// `s`; the result holds one character per decoded byte.
pub fn decode_uri_component(s: &Vec<char>) -> (r: Vec<char>)
    ensures
        r@ == spec_percent_decode(encode_utf8(s@)),
{
    let bytes = utf8_bytes(s);
    let ghost all = bytes@;
    let mut out: Vec<char> = Vec::new();
    let mut i: usize = 0;
    assert(all.skip(0) =~= all);
    while i < bytes.len()
        invariant
            0 <= i <= all.len(),
            bytes@ == all,
            out@ + spec_percent_decode(all.skip(i as int)) == spec_percent_decode(all),
        decreases bytes.len() - i,
    {
        let ghost t = all.skip(i as int);
        if bytes[i] == 0x25 && bytes.len() - i > 2 {
            let h = from_hex_digit(bytes[i + 1]);
            let l = from_hex_digit(bytes[i + 2]);
            if let (Some(h), Some(l)) = (h, l) {
                assert(t[1] == bytes@[i + 1] && t[2] == bytes@[i + 2]);
                assert(t.skip(3) =~= all.skip(i + 3));
                out.push((h * 16 + l) as char);
                i = i + 3;
                continue;
            }
        }
        assert(t.skip(1) =~= all.skip(i + 1));
        out.push(bytes[i] as char);
        i = i + 1;
    }
    assert(all.skip(all.len() as int) =~= Seq::<u8>::empty());
    out
}

// ---------------------------------------------------------------------------
// Base64
// ---------------------------------------------------------------------------

/// The base64 alphabet.
pub open spec fn spec_b64_char(v: int) -> char {
    if 0 <= v < 26 {
        (0x41 + v) as char
    } else if 26 <= v < 52 {
        (0x61 + v - 26) as char
    } else if 52 <= v < 62 {
        (0x30 + v - 52) as char
    } else if v == 62 {
        '+'
    } else {
        '/'
    }
}

pub open spec fn spec_b64_value(c: u8) -> int {
    if 0x41 <= c <= 0x5A {
        c - 0x41
    } else if 0x61 <= c <= 0x7A {
        c - 0x61 + 26
    } else if 0x30 <= c <= 0x39 {
        c - 0x30 + 52
    } else if c == 0x2B {
        62
    } else if c == 0x2F {
        63
    } else {
        0
    }
}

/// Base64 of `bytes`: each group of three bytes (padded with zero bytes) gives four
/// sextets; the positions a short final group does not reach are written `=`.
pub open spec fn spec_btoa(bytes: Seq<u8>) -> Seq<char>
    decreases bytes.len(),
{
    if bytes.len() == 0 {
        seq![]
    } else {
        let b0 = bytes[0] as int;
        let b1 = if bytes.len() > 1 {
            bytes[1] as int
        } else {
            0
        };
        let b2 = if bytes.len() > 2 {
            bytes[2] as int
        } else {
            0
        };
        seq![
            spec_b64_char(b0 / 4),
            spec_b64_char((b0 % 4) * 16 + b1 / 16),
            if bytes.len() > 1 {
                spec_b64_char((b1 % 16) * 4 + b2 / 64)
            } else {
                '='
            },
            if bytes.len() > 2 {
                spec_b64_char(b2 % 64)
            } else {
                '='
            },
        ] + (if bytes.len() > 3 {
            spec_btoa(bytes.skip(3))
        } else {
            seq![]
        })
    }
}

fn b64_char(v: u32) -> (r: char)
    requires
        v < 64,
    ensures
        r == spec_b64_char(v as int),
{
    if v < 26 {
        ((0x41 + v) as u8) as char
    } else if v < 52 {
        ((0x61 + v - 26) as u8) as char
    } else if v < 62 {
        ((0x30 + v - 52) as u8) as char
    } else if v == 62 {
        '+'
    } else {
        '/'
    }
}

/// `btoa`: base64 of the UTF-8 bytes of `s`.
pub fn btoa(s: &Vec<char>) -> (r: Vec<char>)
    ensures
        r@ == spec_btoa(encode_utf8(s@)),
{
    let input = utf8_bytes(s);
    let ghost all = input@;
    let mut result: Vec<char> = Vec::new();
    let mut i: usize = 0;
    assert(all.skip(0) =~= all);
    while i < input.len()
        invariant
            0 <= i <= all.len(),
            input@ == all,
            i < all.len() ==> result@ + spec_btoa(all.skip(i as int)) == spec_btoa(all),
            i >= all.len() ==> result@ == spec_btoa(all),
        decreases input.len() - i,
    {
        let ghost t = all.skip(i as int);
        let n = input.len();
        let b0 = input[i] as u32;
        let b1 = if n - i > 1 {
            input[i + 1] as u32
        } else {
            0
        };
        let b2 = if n - i > 2 {
            input[i + 2] as u32
        } else {
            0
        };
        let triple = (b0 << 16) | (b1 << 8) | b2;
        assert((triple >> 18) & 0x3F == b0 / 4 && (triple >> 12) & 0x3F == (b0 % 4) * 16 + b1 / 16
            && (triple >> 6) & 0x3F == (b1 % 16) * 4 + b2 / 64 && triple & 0x3F == b2 % 64)
            by (bit_vector)
            requires
                b0 < 256 && b1 < 256 && b2 < 256 && triple == (b0 << 16) | (b1 << 8) | b2,
        ;
        let ghost before = result@;
        result.push(b64_char((triple >> 18) & 0x3F));
        result.push(b64_char((triple >> 12) & 0x3F));
        if n - i > 1 {
            result.push(b64_char((triple >> 6) & 0x3F));
        } else {
            result.push('=');
        }
        if n - i > 2 {
            result.push(b64_char(triple & 0x3F));
        } else {
            result.push('=');
        }
        assert(t[0] == all[i as int]);
        assert(n - i > 1 ==> t[1] == all[i + 1]);
        assert(n - i > 2 ==> t[2] == all[i + 2]);
        if n - i > 3 {
            assert(t.skip(3) =~= all.skip(i + 3));
            i = i + 3;
        } else {
            i = n;
        }
    }
    result
}

/// Value of a base64 character (0 for anything else, `=` included).
pub fn b64_decode_char(c: u8) -> (r: u32)
    ensures
        r == spec_b64_value(c),
        r < 64,
{
    if 0x41 <= c && c <= 0x5A {
        (c - 0x41) as u32
    } else if 0x61 <= c && c <= 0x7A {
        (c - 0x61 + 26) as u32
    } else if 0x30 <= c && c <= 0x39 {
        (c - 0x30 + 52) as u32
    } else if c == 0x2B {
        62
    } else if c == 0x2F {
        63
    } else {
        0
    }
}

/// `bytes` without line feeds, carriage returns and spaces.
pub open spec fn spec_strip_b64_space(bytes: Seq<u8>) -> Seq<u8> {
    bytes.filter(b64_kept())
}

/// The bytes that `atob` reads (all but line feed, carriage return and space).
pub open spec fn b64_kept() -> spec_fn(u8) -> bool {
    |b: u8| b != 0x0A && b != 0x0D && b != 0x20
}

/// The bytes that base64 text decodes to: each complete group of four characters
/// gives three bytes, less one for each `=` in its last two places; an incomplete
/// final group is ignored.
pub open spec fn spec_atob_bytes(t: Seq<u8>) -> Seq<u8>
    decreases t.len(),
{
    if t.len() < 4 {
        seq![]
    } else {
        let a = spec_b64_value(t[0]);
        let b = spec_b64_value(t[1]);
        let c = spec_b64_value(t[2]);
        let d = spec_b64_value(t[3]);
        seq![(a * 4 + b / 16) as u8] + (if t[2] != 0x3D {
            seq![((b % 16) * 16 + c / 4) as u8]
        } else {
            seq![]
        }) + (if t[3] != 0x3D {
            seq![((c % 4) * 64 + d) as u8]
        } else {
            seq![]
        }) + spec_atob_bytes(t.skip(4))
    }
}

/// `atob`: the base64 text `s` (line feeds, carriage returns and spaces left out)
/// decoded to bytes, read as UTF-8; the empty string when they are not valid UTF-8.
pub fn atob(s: &Vec<char>) -> (r: Vec<char>)
    ensures
        valid_utf8(spec_atob_bytes(spec_strip_b64_space(encode_utf8(s@)))) ==> r@ == decode_utf8(
            spec_atob_bytes(spec_strip_b64_space(encode_utf8(s@))),
        ),
        !valid_utf8(spec_atob_bytes(spec_strip_b64_space(encode_utf8(s@)))) ==> r@.len() == 0,
{
    let raw = utf8_bytes(s);
    let mut input: Vec<u8> = Vec::new();
    let mut k: usize = 0;
    let ghost pred = b64_kept();
    while k < raw.len()
        invariant
            0 <= k <= raw@.len(),
            pred == b64_kept(),
            input@ == raw@.subrange(0, k as int).filter(pred),
        decreases raw.len() - k,
    {
        let b = raw[k];
        proof {
            reveal(Seq::filter);
            assert(raw@.subrange(0, k + 1).drop_last() =~= raw@.subrange(0, k as int));
        }
        if b != 0x0A && b != 0x0D && b != 0x20 {
            input.push(b);
        }
        k = k + 1;
    }
    assert(raw@.subrange(0, raw@.len() as int) =~= raw@);
    let ghost all = input@;
    let mut result: Vec<u8> = Vec::new();
    let mut i: usize = 0;
    assert(all.skip(0) =~= all);
    while input.len() - i > 3
        invariant
            0 <= i <= all.len(),
            input@ == all,
            result@ + spec_atob_bytes(all.skip(i as int)) == spec_atob_bytes(all),
        decreases input.len() - i,
    {
        let ghost t = all.skip(i as int);
        let a = b64_decode_char(input[i]);
        let b = b64_decode_char(input[i + 1]);
        let c = b64_decode_char(input[i + 2]);
        let d = b64_decode_char(input[i + 3]);
        assert(((a << 2) | (b >> 4)) as u8 == (a * 4 + b / 16) as u8 && (((b & 0xF) << 4) | (c
            >> 2)) as u8 == ((b % 16) * 16 + c / 4) as u8 && (((c & 0x3) << 6) | d) as u8 == ((c
            % 4) * 64 + d) as u8) by (bit_vector)
            requires
                a < 64 && b < 64 && c < 64 && d < 64,
        ;
        let ghost before = result@;
        result.push(((a << 2) | (b >> 4)) as u8);
        if input[i + 2] != 0x3D {
            result.push((((b & 0xF) << 4) | (c >> 2)) as u8);
        }
        if input[i + 3] != 0x3D {
            result.push((((c & 0x3) << 6) | d) as u8);
        }
        assert(t[0] == all[i as int] && t[1] == all[i + 1] && t[2] == all[i + 2] && t[3] == all[i
            + 3]);
        assert(t.skip(4) =~= all.skip(i + 4));
        i = i + 4;
    }
    assert(spec_atob_bytes(all.skip(i as int)) =~= Seq::<u8>::empty());
    match string_from_utf8(result) {
        Some(st) => str_to_chars(st.as_str()),
        None => Vec::new(),
    }
}

// ---------------------------------------------------------------------------
// Search and replace
// ---------------------------------------------------------------------------

/// `needle` occurs in `hay` at position `i`.
pub open spec fn occurs_at(hay: Seq<char>, needle: Seq<char>, i: int) -> bool {
    0 <= i && i + needle.len() <= hay.len() && hay.subrange(i, i + needle.len()) == needle
}

pub fn matches_at(hay: &[char], needle: &[char], i: usize) -> (r: bool)
    requires
        i <= hay@.len(),
    ensures
        r == occurs_at(hay@, needle@, i as int),
{
    let n = hay.len();
    if needle.len() > n - i {
        return false;
    }
    let mut j: usize = 0;
    while j < needle.len()
        invariant
            n == hay@.len(),
            i + needle@.len() <= hay@.len(),
            0 <= j <= needle@.len(),
            forall|k: int| 0 <= k < j ==> hay@[i + k] == needle@[k],
        decreases needle.len() - j,
    {
        assert(i + j < hay@.len());
        if hay[i + j] != needle[j] {
            assert(hay@.subrange(i as int, i + needle@.len())[j as int] != needle@[j as int]);
            return false;
        }
        j = j + 1;
    }
    assert(hay@.subrange(i as int, i + needle@.len()) =~= needle@);
    true
}

/// First position at or after `from` where `needle` occurs in `hay`.
pub fn find_from(hay: &[char], needle: &[char], from: usize) -> (r: Option<usize>)
    ensures
        r matches Some(i) ==> from <= i && occurs_at(hay@, needle@, i as int) && forall|j: int|
            from <= j < i ==> !occurs_at(hay@, needle@, j),
        r is None ==> forall|j: int| from <= j ==> !occurs_at(hay@, needle@, j),
{
    if from > hay.len() {
        return None;
    }
    let mut i = from;
    loop
        invariant
            from <= i <= hay@.len(),
            forall|j: int| from <= j < i ==> !occurs_at(hay@, needle@, j),
        decreases hay.len() - i,
    {
        if matches_at(hay, needle, i) {
            return Some(i);
        }
        if i == hay.len() {
            return None;
        }
        i = i + 1;
    }
}

/// Last position where `needle` occurs in `hay`.
pub fn rfind(hay: &[char], needle: &[char]) -> (r: Option<usize>)
    ensures
        r matches Some(i) ==> occurs_at(hay@, needle@, i as int) && forall|j: int|
            i < j ==> !occurs_at(hay@, needle@, j),
        r is None ==> forall|j: int| !occurs_at(hay@, needle@, j),
{
    if needle.len() > hay.len() {
        return None;
    }
    let mut i = hay.len() - needle.len();
    loop
        invariant
            0 <= i <= hay@.len() - needle@.len(),
            needle@.len() <= hay@.len(),
            forall|j: int| i < j ==> !occurs_at(hay@, needle@, j),
        decreases i,
    {
        if matches_at(hay, needle, i) {
            return Some(i);
        }
        if i == 0 {
            return None;
        }
        i = i - 1;
    }
}

/// `s` with the first occurrence of `from` replaced by `to` (unchanged when there is
/// none); an empty `from` occurs at the start.
pub fn replace_first(s: &[char], from: &[char], to: &[char]) -> (r: Vec<char>)
    ensures
        (exists|i: int| occurs_at(s@, from@, i)) ==> (exists|i: int|
            occurs_at(s@, from@, i) && (forall|j: int| 0 <= j < i ==> !occurs_at(s@, from@, j))
                && r@ == s@.subrange(0, i) + to@ + s@.subrange(i + from@.len(), s@.len() as int)),
        !(exists|i: int| occurs_at(s@, from@, i)) ==> r@ == s@,
{
    match find_from(s, from, 0) {
        Some(pos) => {
            let n = s.len();
            assert(occurs_at(s@, from@, pos as int));
            let mut result = slice_range(s, 0, pos);
            push_all(&mut result, to);
            let tail = slice_range(s, pos + from.len(), s.len());
            push_all(&mut result, tail.as_slice());
            assert(occurs_at(s@, from@, pos as int));
            result
        },
        None => {
            assert(s@.subrange(0, s@.len() as int) =~= s@);
            slice_range(s, 0, s.len())
        },
    }
}

/// Each character of `s` followed by `to`.
pub open spec fn spec_interleave(s: Seq<char>, to: Seq<char>) -> Seq<char>
    decreases s.len(),
{
    if s.len() == 0 {
        seq![]
    } else {
        seq![s[0]] + to + spec_interleave(s.drop_first(), to)
    }
}

/// `str::replace`: occurrences of a non-empty `from` replaced by `to`, scanning left to
/// right without overlap; an empty `from` matches before every character and at the end.
pub open spec fn spec_replace_all(s: Seq<char>, from: Seq<char>, to: Seq<char>) -> Seq<char>
    decreases s.len(),
{
    if from.len() == 0 {
        to + spec_interleave(s, to)
    } else if s.len() == 0 {
        seq![]
    } else if occurs_at(s, from, 0) {
        to + spec_replace_all(s.skip(from.len() as int), from, to)
    } else {
        seq![s[0]] + spec_replace_all(s.skip(1), from, to)
    }
}

pub proof fn lemma_occurs_at_skip(s: Seq<char>, needle: Seq<char>, i: int)
    requires
        0 <= i <= s.len(),
    ensures
        occurs_at(s.skip(i), needle, 0) == occurs_at(s, needle, i),
{
    if i + needle.len() <= s.len() {
        assert(s.skip(i).subrange(0, needle.len() as int) =~= s.subrange(i, i + needle.len()));
    }
}

/// `s` with every occurrence of `from` replaced by `to`, scanning left to right
/// (`str::replace`; an empty `from` matches between all characters and at both ends).
pub fn replace_all(s: &[char], from: &[char], to: &[char]) -> (r: Vec<char>)
    ensures
        r@ == spec_replace_all(s@, from@, to@),
{
    let mut out: Vec<char> = Vec::new();
    assert(s@.skip(0) =~= s@);
    if from.len() == 0 {
        push_all(&mut out, to);
        let mut i: usize = 0;
        while i < s.len()
            invariant
                0 <= i <= s@.len(),
                out@ + spec_interleave(s@.skip(i as int), to@) == to@ + spec_interleave(s@, to@),
            decreases s.len() - i,
        {
            assert(s@.skip(i as int).drop_first() =~= s@.skip(i + 1));
            let ghost before = out@;
            out.push(s[i]);
            push_all(&mut out, to);
            assert(out@ == before + seq![s@[i as int]] + to@);
            i = i + 1;
        }
        assert(s@.skip(s@.len() as int) =~= Seq::<char>::empty());
        return out;
    }
    let mut i: usize = 0;
    while i < s.len()
        invariant
            0 <= i <= s@.len(),
            from@.len() > 0,
            out@ + spec_replace_all(s@.skip(i as int), from@, to@) == spec_replace_all(s@, from@, to@),
        decreases s.len() - i,
    {
        proof {
            lemma_occurs_at_skip(s@, from@, i as int);
        }
        let ghost before = out@;
        if matches_at(s, from, i) {
            assert(s@.skip(i as int).skip(from@.len() as int) =~= s@.skip(i + from@.len()));
            push_all(&mut out, to);
            i = i + from.len();
        } else {
            assert(s@.skip(i as int).skip(1) =~= s@.skip(i + 1));
            out.push(s[i]);
            i = i + 1;
        }
    }
    assert(s@.skip(i as int) =~= Seq::<char>::empty());
    out
}

// ---------------------------------------------------------------------------
// parseInt
// ---------------------------------------------------------------------------

/// Value of an ASCII hex digit character (`0-9`, `a-f`, `A-F`).
pub open spec fn spec_hex_char_value(c: char) -> Option<u32> {
    if '0' <= c && c <= '9' {
        Some((c as u32 - 0x30) as u32)
    } else if 'a' <= c && c <= 'f' {
        Some((c as u32 - 0x61 + 10) as u32)
    } else if 'A' <= c && c <= 'F' {
        Some((c as u32 - 0x41 + 10) as u32)
    } else {
        None
    }
}

fn hex_char_value(c: char) -> (r: Option<u32>)
    ensures
        r == spec_hex_char_value(c),
{
    if '0' <= c && c <= '9' {
        Some((c as u32) - 0x30)
    } else if 'a' <= c && c <= 'f' {
        Some((c as u32) - 0x61 + 10)
    } else if 'A' <= c && c <= 'F' {
        Some((c as u32) - 0x41 + 10)
    } else {
        None
    }
}

/// Whether `c` is a digit below `radix` as `parseInt` reads digits (`0-9`, `a-f`, `A-F`).
pub open spec fn is_int_digit(c: char, radix: u32) -> bool {
    spec_hex_char_value(c) matches Some(v) && v < radix
}

/// Position just past the run of digits below `radix` that starts at `i`.
pub open spec fn int_digits_end(t: Seq<char>, i: int, radix: u32) -> int
    decreases t.len() - i,
{
    if 0 <= i < t.len() && is_int_digit(t[i], radix) {
        int_digits_end(t, i + 1, radix)
    } else {
        i
    }
}

/// The number that digits (as `parseInt` reads them) write in base `radix`.
pub open spec fn int_digits_value(d: Seq<char>, radix: u32) -> int
    decreases d.len(),
{
    if d.len() == 0 {
        0
    } else {
        int_digits_value(d.drop_last(), radix) * radix + spec_hex_char_value(d.last())->0
    }
}

/// What `parseInt(s, radix)` reads: after trimming, an optional sign, then (for radix 16,
/// or radix 0 which then means 16) an optional `0x`; gives whether the sign was `-`, the
/// radix used, where the digits start and where they end.
pub open spec fn parse_int_parts(s: Seq<char>, radix: u32) -> (bool, u32, int, int) {
    let t = spec_trim(s);
    let neg = t.len() > 0 && t[0] == '-';
    let i0: int = if t.len() > 0 && (t[0] == '-' || t[0] == '+') {
        1
    } else {
        0
    };
    let hex = t.len() - i0 >= 2 && t[i0] == '0' && (t[i0 + 1] == 'x' || t[i0 + 1] == 'X');
    let r: u32 = if radix == 0 {
        if hex {
            16
        } else {
            10
        }
    } else {
        radix
    };
    let start = if r == 16 && hex {
        i0 + 2
    } else {
        i0
    };
    (neg, r, start, int_digits_end(t, start, r))
}


/// `parseInt(s, radix)`: trims `s`, reads an optional sign, then (radix 0 meaning 10,
/// or 16 after a `0x`) the longest run of hex-alphabet digits below the radix. No
/// digit gives NaN. The accumulator is a wrapping 64-bit integer.
/// What `parseInt(s, radix)` gives: NaN where no digit is read, else the value of the
/// digits read (stated where it is below 2^53).
pub open spec fn js_parse_int_result(s: Seq<char>, radix: u32, r: Double) -> bool {
    let (neg, rad, start, end) = parse_int_parts(s, radix);
    &&& end == start ==> r.is_nan_spec()
    &&& end > start && int_digits_value(spec_trim(s).subrange(start, end), rad)
        < 0x20_0000_0000_0000 ==> spec_is_int_value(
        r,
        if neg {
            -int_digits_value(spec_trim(s).subrange(start, end), rad)
        } else {
            int_digits_value(spec_trim(s).subrange(start, end), rad)
        },
    )
}

pub fn js_parse_int(s: &Vec<char>, radix: u32) -> (r: Double)
    ensures
        js_parse_int_result(s@, radix, r),
{
    let ghost radix_in = radix;
    let t = crate::text::trim(s.as_slice());
    if t.len() == 0 {
        return Double::nan();
    }
    let mut i: usize = 0;
    let mut neg = false;
    if t[0] == '-' {
        neg = true;
        i = 1;
    } else if t[0] == '+' {
        i = 1;
    }
    let has_hex_prefix = t.len() - i >= 2 && t[i] == '0' && (t[i + 1] == 'x' || t[i + 1] == 'X');
    let radix = if radix == 0 {
        if has_hex_prefix {
            16
        } else {
            10
        }
    } else {
        radix
    };
    if radix == 16 && has_hex_prefix {
        i = i + 2;
    }
    let ghost start = i as int;
    let ghost tt = t@;
    assert(parse_int_parts(s@, radix_in) == (neg, radix, start, int_digits_end(tt, start, radix)));
    let mut val: i64 = 0;
    let mut found_digit = false;
    while i < t.len()
        invariant_except_break
            0 <= start <= i <= t@.len(),
            tt == t@,
            radix >= 1,
            found_digit == (i > start),
            int_digits_end(tt, i as int, radix) == int_digits_end(tt, start, radix),
            int_digits_value(tt.subrange(start, i as int), radix) <= i64::MAX ==> val
                == int_digits_value(tt.subrange(start, i as int), radix),
            int_digits_value(tt.subrange(start, i as int), radix) >= 0,
        ensures
            0 <= start <= i <= t@.len(),
            tt == t@,
            found_digit == (i > start),
            i == int_digits_end(tt, start, radix),
            int_digits_value(tt.subrange(start, i as int), radix) <= i64::MAX ==> val
                == int_digits_value(tt.subrange(start, i as int), radix),
            int_digits_value(tt.subrange(start, i as int), radix) >= 0,
        decreases t.len() - i,
    {
        let digit = match hex_char_value(t[i]) {
            Some(d) => d,
            None => {
                break;
            },
        };
        if digit >= radix {
            break;
        }
        let ghost before = int_digits_value(tt.subrange(start, i as int), radix);
        found_digit = true;
        proof {
            assert(tt.subrange(start, i + 1).drop_last() =~= tt.subrange(start, i as int));
            let after = before * radix + digit;
            assert(int_digits_value(tt.subrange(start, i + 1), radix) == after);
            assert(before * radix >= 0) by (nonlinear_arith)
                requires
                    before >= 0,
                    radix >= 1,
            ;
            if after <= i64::MAX {
                assert(before <= before * radix) by (nonlinear_arith)
                    requires
                        before >= 0,
                        radix >= 1,
                ;
                assert(val == before);
                assert((val as int) * (radix as int) <= i64::MAX);
                let prod = (val as int) * (radix as int);
                assert(0 <= prod <= i64::MAX);
                assert(prod % 0x1_0000_0000_0000_0000 == prod);
                assert(val.wrapping_mul(radix as i64) == before * radix);
            }
        }
        val = val.wrapping_mul(radix as i64).wrapping_add(digit as i64);
        i = i + 1;
    }
    if !found_digit {
        return Double::nan();
    }
    let d = Double::from_i64(val);
    proof {
        let v = int_digits_value(tt.subrange(start, i as int), radix);
        assert(tt == spec_trim(s@));
        assert(parse_int_parts(s@, radix_in).3 == i as int);
        if v < 0x20_0000_0000_0000 {
            assert(val == v);
            assert(spec_is_int_value(d, v));
        }
    }
    if neg {
        let r = d.neg();
        proof {
            if !d.is_nan_spec() {
                crate::double::lemma_frac_of_mag(d.bits);
                crate::double::lemma_frac_of_mag(r.bits);
                assert(r.sig_spec() == d.sig_spec() && r.exp_spec() == d.exp_spec());
                assert(r.is_nan_spec() == d.is_nan_spec() && r.is_inf_spec() == d.is_inf_spec());
                assert(crate::double::spec_scaled(r) == -crate::double::spec_scaled(d));
                let p = crate::double::spec_pow2(1074);
                assert(-((val as int) * p) == (-(val as int)) * p) by (nonlinear_arith);
            }
        }
        r
    } else {
        d
    }
}

} // verus!

verus! {

// ---------------------------------------------------------------------------
// Laws
// ---------------------------------------------------------------------------

/// Each character as the byte with that value.
pub open spec fn char_bytes(t: Seq<char>) -> Seq<u8> {
    t.map_values(|c: char| c as u8)
}

/// Each byte as the character with that value.
pub open spec fn byte_chars(b: Seq<u8>) -> Seq<char> {
    b.map_values(|x: u8| x as char)
}

proof fn lemma_filter_keeps_all(s: Seq<u8>, pred: spec_fn(u8) -> bool)
    requires
        forall|i: int| 0 <= i < s.len() ==> pred(#[trigger] s[i]),
    ensures
        s.filter(pred) == s,
    decreases s.len(),
{
    reveal(Seq::filter);
    if s.len() > 0 {
        lemma_filter_keeps_all(s.drop_last(), pred);
        assert(s.drop_last().push(s.last()) =~= s);
    }
}

proof fn lemma_ascii_encode(t: Seq<char>)
    requires
        vstd::utf8::is_ascii_chars(t),
    ensures
        encode_utf8(t) == char_bytes(t),
{
    vstd::utf8::is_ascii_chars_encode_utf8(t);
    assert(encode_utf8(t) =~= char_bytes(t));
}

proof fn lemma_hex_digit_roundtrip(n: u8)
    requires
        n < 16,
    ensures
        spec_from_hex_digit(spec_hex_digit(n) as u8) == Some(n),
        spec_hex_digit(n) <= '\u{7f}',
        spec_hex_digit(n) as u8 != 0x25,
{
}

proof fn lemma_percent_encode_ascii(bytes: Seq<u8>, reserved: bool)
    ensures
        vstd::utf8::is_ascii_chars(spec_percent_encode(bytes, reserved)),
    decreases bytes.len(),
{
    if bytes.len() > 0 {
        let b = bytes[0];
        lemma_percent_encode_ascii(bytes.drop_first(), reserved);
        lemma_hex_digit_roundtrip(b / 16);
        lemma_hex_digit_roundtrip(b % 16);
        let p = spec_percent_piece(b, reserved);
        let r = spec_percent_encode(bytes.drop_first(), reserved);
        assert forall|i: int| 0 <= i < (p + r).len() implies '\0' <= #[trigger] (p + r)[i] <= '\u{7f}' by {
            if i >= p.len() {
                assert((p + r)[i] == r[i - p.len()]);
            }
        }
    }
}

proof fn lemma_decode_encoded(bytes: Seq<u8>, reserved: bool)
    ensures
        spec_percent_decode(char_bytes(spec_percent_encode(bytes, reserved))) == byte_chars(bytes),
    decreases bytes.len(),
{
    if bytes.len() == 0 {
        assert(char_bytes(spec_percent_encode(bytes, reserved)) =~= Seq::<u8>::empty());
        assert(byte_chars(bytes) =~= Seq::<char>::empty());
    } else {
        let b = bytes[0];
        let p = spec_percent_piece(b, reserved);
        let r = spec_percent_encode(bytes.drop_first(), reserved);
        lemma_decode_encoded(bytes.drop_first(), reserved);
        let t = char_bytes(p + r);
        assert(char_bytes(p + r) =~= char_bytes(p) + char_bytes(r));
        lemma_hex_digit_roundtrip(b / 16);
        lemma_hex_digit_roundtrip(b % 16);
        if spec_uri_keeps(b, reserved) {
            assert(t[0] == b);
            assert(t.skip(1) =~= char_bytes(r));
        } else {
            assert(t[0] == 0x25);
            assert(t[1] == spec_hex_digit(b / 16) as u8);
            assert(t[2] == spec_hex_digit(b % 16) as u8);
            assert(t.skip(3) =~= char_bytes(r));
            assert(((b / 16) * 16 + b % 16) as u8 == b);
        }
        assert(byte_chars(bytes) =~= seq![b as char] + byte_chars(bytes.drop_first()));
    }
}

/// Law: `decodeURIComponent(encodeURIComponent(s))` (and the same for `encodeURI`) gives
/// back the UTF-8 bytes of `s`, one character per byte; for ASCII text that is `s`
/// itself.
pub proof fn law_decode_encode_uri(s: Seq<char>, reserved: bool)
    ensures
        spec_percent_decode(encode_utf8(spec_percent_encode(encode_utf8(s), reserved)))
            == byte_chars(encode_utf8(s)),
        vstd::utf8::is_ascii_chars(s) ==> spec_percent_decode(
            encode_utf8(spec_percent_encode(encode_utf8(s), reserved)),
        ) == s,
{
    let bytes = encode_utf8(s);
    lemma_percent_encode_ascii(bytes, reserved);
    lemma_ascii_encode(spec_percent_encode(bytes, reserved));
    lemma_decode_encoded(bytes, reserved);
    if vstd::utf8::is_ascii_chars(s) {
        vstd::utf8::is_ascii_chars_encode_utf8(s);
        assert(byte_chars(bytes) =~= s);
    }
}

/// The characters base64 text is made of.
pub open spec fn spec_b64_out(c: char) -> bool {
    ('A' <= c && c <= 'Z') || ('a' <= c && c <= 'z') || ('0' <= c && c <= '9') || c == '+' || c
        == '/' || c == '='
}

proof fn lemma_b64_char(v: int)
    requires
        0 <= v < 64,
    ensures
        spec_b64_out(spec_b64_char(v)),
        spec_b64_char(v) != '=',
        spec_b64_char(v) <= '\u{7f}',
        spec_b64_value(spec_b64_char(v) as u8) == v,
{
}

proof fn lemma_b64_group(b0: int, b1: int, b2: int)
    requires
        0 <= b0,
        0 <= b1,
        0 <= b2,
        b0 < 256,
        b1 < 256,
        b2 < 256,
    ensures
        (b0 / 4) * 4 + ((b0 % 4) * 16 + b1 / 16) / 16 == b0,
        (((b0 % 4) * 16 + b1 / 16) % 16) * 16 + ((b1 % 16) * 4 + b2 / 64) / 4 == b1,
        (((b1 % 16) * 4 + b2 / 64) % 4) * 64 + b2 % 64 == b2,
        b0 / 4 < 64,
        (b0 % 4) * 16 + b1 / 16 < 64,
        (b1 % 16) * 4 + b2 / 64 < 64,
        b2 % 64 < 64,
{
}

proof fn lemma_btoa_chars(b: Seq<u8>)
    ensures
        forall|i: int|
            0 <= i < spec_btoa(b).len() ==> spec_b64_out(#[trigger] spec_btoa(b)[i]) && spec_btoa(
                b,
            )[i] <= '\u{7f}',
    decreases b.len(),
{
    if b.len() > 0 {
        let b0 = b[0] as int;
        let b1: int = if b.len() > 1 {
            b[1] as int
        } else {
            0
        };
        let b2: int = if b.len() > 2 {
            b[2] as int
        } else {
            0
        };
        lemma_b64_group(b0, b1, b2);
        lemma_b64_char(b0 / 4);
        lemma_b64_char((b0 % 4) * 16 + b1 / 16);
        lemma_b64_char((b1 % 16) * 4 + b2 / 64);
        lemma_b64_char(b2 % 64);
        if b.len() > 3 {
            lemma_btoa_chars(b.skip(3));
        }
        let t = spec_btoa(b);
        let rest = if b.len() > 3 {
            spec_btoa(b.skip(3))
        } else {
            Seq::<char>::empty()
        };
        assert forall|i: int| 0 <= i < t.len() implies spec_b64_out(#[trigger] t[i]) && t[i]
            <= '\u{7f}' by {
            if i >= 4 {
                assert(t[i] == rest[i - 4]);
            }
        }
    }
}

proof fn lemma_atob_btoa_bytes(b: Seq<u8>)
    ensures
        spec_atob_bytes(char_bytes(spec_btoa(b))) == b,
    decreases b.len(),
{
    if b.len() == 0 {
        assert(char_bytes(spec_btoa(b)) =~= Seq::<u8>::empty());
    } else {
        let b0 = b[0] as int;
        let b1: int = if b.len() > 1 {
            b[1] as int
        } else {
            0
        };
        let b2: int = if b.len() > 2 {
            b[2] as int
        } else {
            0
        };
        lemma_b64_group(b0, b1, b2);
        let v0 = b0 / 4;
        let v1 = (b0 % 4) * 16 + b1 / 16;
        let v2 = (b1 % 16) * 4 + b2 / 64;
        let v3 = b2 % 64;
        lemma_b64_char(v0);
        lemma_b64_char(v1);
        lemma_b64_char(v2);
        lemma_b64_char(v3);
        let t = spec_btoa(b);
        let rest = if b.len() > 3 {
            spec_btoa(b.skip(3))
        } else {
            Seq::<char>::empty()
        };
        let m = char_bytes(t);
        assert(m.len() >= 4);
        assert(m.skip(4) =~= char_bytes(rest));
        assert(m[0] == spec_b64_char(v0) as u8);
        assert(m[1] == spec_b64_char(v1) as u8);
        if b.len() > 3 {
            lemma_atob_btoa_bytes(b.skip(3));
            assert(b =~= seq![b[0], b[1], b[2]] + b.skip(3));
        } else {
            assert(spec_atob_bytes(m.skip(4)) =~= Seq::<u8>::empty());
            if b.len() == 1 {
                assert(b =~= seq![b[0]]);
            } else if b.len() == 2 {
                assert(b =~= seq![b[0], b[1]]);
            } else {
                assert(b =~= seq![b[0], b[1], b[2]]);
            }
        }
    }
}

/// Law: `atob(btoa(s)) == s` for every string: the bytes that `atob` decodes from the
/// output of `btoa` are the UTF-8 bytes of `s`, which are valid and decode to `s`.
pub proof fn law_atob_btoa(s: Seq<char>)
    ensures
        spec_atob_bytes(spec_strip_b64_space(encode_utf8(spec_btoa(encode_utf8(s)))))
            == encode_utf8(s),
        valid_utf8(spec_atob_bytes(spec_strip_b64_space(encode_utf8(spec_btoa(encode_utf8(s)))))),
        decode_utf8(spec_atob_bytes(spec_strip_b64_space(encode_utf8(spec_btoa(encode_utf8(s))))))
            == s,
{
    let bytes = encode_utf8(s);
    let t = spec_btoa(bytes);
    lemma_btoa_chars(bytes);
    lemma_ascii_encode(t);
    let m = char_bytes(t);
    assert forall|i: int| 0 <= i < m.len() implies #[trigger] (b64_kept())(m[i]) by {
        assert(spec_b64_out(t[i]));
    }
    lemma_filter_keeps_all(m, b64_kept());
    lemma_atob_btoa_bytes(bytes);
    vstd::utf8::encode_utf8_valid_utf8(s);
    vstd::utf8::encode_utf8_decode_utf8(s);
}

} // verus!
