//! `JSON.stringify` and `JSON.parse` (a small subset: no unicode escapes in keys,
//! numbers through the interpreter's decimal reader).
use vstd::prelude::*;
use crate::value::{Value, PropMap, spec_join, number_form};
use crate::text::{is_whitespace, spec_is_whitespace, push_all, push_str, str_to_chars, slice_range, trim};
use crate::numfmt::format_number;
use crate::numparse::{parse_float_simple, u64_from_radix, plain_digits, minus_digits, digits_value, small_exp_numeral, exp_numeral_value};
use crate::double::{spec_is_int_value, safe_limit};
use crate::text::spec_trim;
use crate::debugfmt::debug_char;

verus! {

/// `JSON.stringify`: numbers as the interpreter prints them, strings quoted with
/// `\" \\ \n \r \t` escaped, arrays and objects (keys in ascending order, written as
/// they are) recursively; functions and `undefined` give `undefined`.
pub fn json_stringify(val: &Value) -> (r: Vec<char>)
    ensures
        *val is Null ==> r@ == "null"@,
        *val matches Value::Bool(b) ==> r@ == (if b {
            "true"@
        } else {
            "false"@
        }),
        *val is Undefined || *val is Function ==> r@ == "undefined"@,
        *val matches Value::Str(t) ==> r@ == spec_json_quote(t@),
        *val matches Value::Number(n) ==> (number_form(n) matches Some(t) ==> r@ == t),
        json_fits(*val, r@),
        *val matches Value::Array(arr) ==> exists|d: Seq<char>|
            #[trigger] json_items_fit(arr@, d) && r@ == seq!['['] + d + seq![']'],
        *val matches Value::Object(m) ==> exists|d: Seq<char>|
            #[trigger] json_entries_fit(m.seq(), d) && r@ == seq!['{'] + d + seq!['}'],
    decreases val,
{
    match val {
        Value::Number(n) => format_number(n),
        Value::Str(s) => json_quote(s.as_slice()),
        Value::Bool(b) => if *b {
            str_to_chars("true")
        } else {
            str_to_chars("false")
        },
        Value::Null => str_to_chars("null"),
        Value::Undefined => str_to_chars("undefined"),
        Value::Array(arr) => json_stringify_array(arr),
        Value::Object(map) => json_stringify_object(map),
        Value::Function(_) => str_to_chars("undefined"),
        Value::Regex(p, f) => {
            let mut out = vec!['"', '/'];
            push_all(&mut out, p.as_slice());
            out.push('/');
            push_all(&mut out, f.as_slice());
            out.push('"');
            out
        },
    }
}

/// `d` is how `json_stringify` writes `v`, as far as it is stated: `null`, the booleans,
/// `undefined` for `undefined` and functions, strings quoted.
pub open spec fn json_fits(v: Value, d: Seq<char>) -> bool {
    &&& v is Null ==> d == "null"@
    &&& v matches Value::Bool(b) ==> d == (if b {
        "true"@
    } else {
        "false"@
    })
    &&& v is Undefined || v is Function ==> d == "undefined"@
    &&& v matches Value::Str(t) ==> d == spec_json_quote(t@)
    &&& v matches Value::Number(n) ==> (number_form(n) matches Some(t) ==> d == t)
}

/// `d` is the items `items` written one after the other with commas between.
pub open spec fn json_items_fit(items: Seq<Value>, d: Seq<char>) -> bool {
    exists|parts: Seq<Seq<char>>|
        parts.len() == items.len() && d == spec_join(parts, ","@) && forall|i: int|
            0 <= i < items.len() ==> #[trigger] json_fits(items[i], parts[i])
}

/// `d` is the entries `entries` written as `"key":value` with commas between.
pub open spec fn json_entries_fit(entries: Seq<(Vec<char>, Value)>, d: Seq<char>) -> bool {
    exists|parts: Seq<Seq<char>>|
        parts.len() == entries.len() && d == spec_join(parts, ","@) && forall|i: int|
            0 <= i < entries.len() ==> #[trigger] json_entry_fits(entries[i], parts[i])
}

/// `p` is the entry `e` written as `"key":value`.
pub open spec fn json_entry_fits(e: (Vec<char>, Value), p: Seq<char>) -> bool {
    exists|vd: Seq<char>| #[trigger] json_fits(e.1, vd) && p == seq!['"'] + e.0@ + seq!['"', ':'] + vd
}

fn json_stringify_array(arr: &Vec<Value>) -> (r: Vec<char>)
    ensures
        exists|d: Seq<char>| #[trigger] json_items_fit(arr@, d) && r@ == seq!['['] + d + seq![']'],
    decreases arr,
{
    let mut out = vec!['['];
    let ghost mut parts: Seq<Seq<char>> = Seq::empty();
    let mut i: usize = 0;
    proof {
        reveal_strlit(",");
    }
    while i < arr.len()
        invariant
            0 <= i <= arr@.len(),
            parts.len() == i,
            out@ == seq!['['] + spec_join(parts, ","@),
            forall|k: int| 0 <= k < i ==> #[trigger] json_fits(arr@[k], parts[k]),
            ","@ == seq![','],
        decreases arr.len() - i,
    {
        proof {
            assert(decreases_to!(arr => arr@));
            assert(decreases_to!(arr@ => arr@[i as int]));
        }
        if i > 0 {
            out.push(',');
        }
        let part = json_stringify(&arr[i]);
        push_all(&mut out, part.as_slice());
        proof {
            let np = parts.push(part@);
            assert(np.drop_last() =~= parts);
            assert(out@ =~= seq!['['] + spec_join(np, ","@));
            parts = np;
        }
        i = i + 1;
    }
    out.push(']');
    assert(json_items_fit(arr@, spec_join(parts, ","@)));
    assert(out@ =~= seq!['['] + spec_join(parts, ","@) + seq![']']);
    out
}

fn json_stringify_object(map: &PropMap) -> (r: Vec<char>)
    ensures
        exists|d: Seq<char>| #[trigger] json_entries_fit(map.seq(), d) && r@ == seq!['{'] + d + seq![
            '}',
        ],
    decreases map,
{
    let mut out = vec!['{'];
    let ghost mut parts: Seq<Seq<char>> = Seq::empty();
    let mut i: usize = 0;
    proof {
        reveal_strlit(",");
    }
    while i < map.len()
        invariant
            0 <= i <= map.seq().len(),
            parts.len() == i,
            out@ == seq!['{'] + spec_join(parts, ","@),
            forall|k: int| 0 <= k < i ==> #[trigger] json_entry_fits(map.seq()[k], parts[k]),
            ","@ == seq![','],
        decreases map.seq().len() - i,
    {
        let ghost before = out@;
        if i > 0 {
            out.push(',');
        }
        let ghost start = out@;
        out.push('"');
        push_all(&mut out, map.key_at(i).as_slice());
        out.push('"');
        out.push(':');
        proof {
            crate::value::lemma_map_value_smaller(*map, i as int);
        }
        let part = json_stringify(map.value_at(i));
        push_all(&mut out, part.as_slice());
        proof {
            let entry = seq!['"'] + map.seq()[i as int].0@ + seq!['"', ':'] + part@;
            assert(out@ =~= start + entry);
            assert(json_fits(map.seq()[i as int].1, part@));
            assert(json_entry_fits(map.seq()[i as int], entry));
            let np = parts.push(entry);
            assert(np.drop_last() =~= parts);
            assert(out@ =~= seq!['{'] + spec_join(np, ","@));
            parts = np;
        }
        i = i + 1;
    }
    out.push('}');
    assert(json_entries_fit(map.seq(), spec_join(parts, ","@)));
    assert(out@ =~= seq!['{'] + spec_join(parts, ","@) + seq!['}']);
    out
}

/// The escaped form of a character inside a JSON string: `"`, `\\` and the line
/// breaks and tab escaped with a backslash, everything else as it is.
pub open spec fn spec_json_escape(c: char) -> Seq<char> {
    if c == '"' {
        seq!['\\', '"']
    } else if c == '\\' {
        seq!['\\', '\\']
    } else if c == '\n' {
        seq!['\\', 'n']
    } else if c == '\r' {
        seq!['\\', 'r']
    } else if c == '\t' {
        seq!['\\', 't']
    } else {
        seq![c]
    }
}

/// The escaped characters of `s`.
pub open spec fn spec_json_body(s: Seq<char>) -> Seq<char>
    decreases s.len(),
{
    if s.len() == 0 {
        Seq::empty()
    } else {
        spec_json_escape(s[0]) + spec_json_body(s.drop_first())
    }
}

/// The JSON string literal for `s`.
pub open spec fn spec_json_quote(s: Seq<char>) -> Seq<char> {
    seq!['"'] + spec_json_body(s) + seq!['"']
}

/// Escaping distributes over concatenation.
proof fn lemma_json_body_concat(a: Seq<char>, b: Seq<char>)
    ensures
        spec_json_body(a + b) == spec_json_body(a) + spec_json_body(b),
    decreases a.len(),
{
    if a.len() == 0 {
        assert(a + b =~= b);
        assert(spec_json_body(a) + spec_json_body(b) =~= spec_json_body(b));
    } else {
        assert((a + b).drop_first() =~= a.drop_first() + b);
        lemma_json_body_concat(a.drop_first(), b);
        assert(spec_json_body(a + b) =~= spec_json_body(a) + spec_json_body(b));
    }
}

/// A JSON string literal for `s`.
pub fn json_quote(s: &[char]) -> (r: Vec<char>)
    ensures
        r@ == spec_json_quote(s@),
        r@.len() >= 2,
        r@[0] == '"',
{
    let mut out = vec!['"'];
    let mut i: usize = 0;
    assert(s@.take(0) =~= Seq::<char>::empty());
    while i < s.len()
        invariant
            0 <= i <= s@.len(),
            out@ == seq!['"'] + spec_json_body(s@.take(i as int)),
        decreases s.len() - i,
    {
        let c = s[i];
        let ghost before = out@;
        if c == '"' {
            push_str(&mut out, "\\\"");
        } else if c == '\\' {
            push_str(&mut out, "\\\\");
        } else if c == '\n' {
            push_str(&mut out, "\\n");
        } else if c == '\r' {
            push_str(&mut out, "\\r");
        } else if c == '\t' {
            push_str(&mut out, "\\t");
        } else {
            out.push(c);
        }
        proof {
            reveal_strlit("\\\"");
            reveal_strlit("\\\\");
            reveal_strlit("\\n");
            reveal_strlit("\\r");
            reveal_strlit("\\t");
            assert(s@.take(i + 1) =~= s@.take(i as int) + seq![c]);
            lemma_json_body_concat(s@.take(i as int), seq![c]);
            assert(seq![c].drop_first() =~= Seq::<char>::empty());
            assert(spec_json_body(Seq::<char>::empty()) =~= Seq::<char>::empty());
            assert(seq![c][0] == c);
            assert(spec_json_body(seq![c]) =~= spec_json_escape(c));
            assert(out@ =~= before + spec_json_escape(c));
        }
        i = i + 1;
    }
    assert(s@.take(s@.len() as int) =~= s@);
    out.push('"');
    out
}

/// What an escape `\\e` stands for in a JSON string: the escaped quote, backslash or
/// slash, a line break or tab, or (for any other `e`) the backslash and `e` as they are.
pub open spec fn spec_json_unescape(e: char) -> Seq<char> {
    if e == '"' || e == '\\' || e == '/' {
        seq![e]
    } else if e == 'n' {
        seq!['\n']
    } else if e == 'r' {
        seq!['\r']
    } else if e == 't' {
        seq!['\t']
    } else {
        seq!['\\', e]
    }
}

/// The text of a JSON string whose body starts at the front of `t`, and how many
/// characters the body and its closing quote take; `None` when the body is
/// unterminated or holds a `\\u` escape.
pub open spec fn spec_json_decode(t: Seq<char>) -> Option<(Seq<char>, int)>
    decreases t.len(),
{
    if t.len() == 0 {
        None
    } else if t[0] == '"' {
        Some((Seq::empty(), 1))
    } else if t[0] == '\\' {
        if t.len() < 2 || t[1] == 'u' {
            None
        } else {
            match spec_json_decode(t.skip(2)) {
                Some((v, n)) => Some((spec_json_unescape(t[1]) + v, n + 2)),
                None => None,
            }
        }
    } else {
        match spec_json_decode(t.drop_first()) {
            Some((v, n)) => Some((seq![t[0]] + v, n + 1)),
            None => None,
        }
    }
}

/// Reading back the escaped text of `s` and its closing quote gives `s`, whatever follows.
proof fn lemma_json_decode_body(s: Seq<char>, rest: Seq<char>)
    ensures
        spec_json_decode(spec_json_body(s) + seq!['"'] + rest) == Some(
            (s, spec_json_body(s).len() + 1int),
        ),
    decreases s.len(),
{
    let t = spec_json_body(s) + seq!['"'] + rest;
    if s.len() == 0 {
        assert(t[0] == '"');
        assert(s =~= Seq::<char>::empty());
    } else {
        let tail = spec_json_body(s.drop_first()) + seq!['"'] + rest;
        lemma_json_decode_body(s.drop_first(), rest);
        let e = spec_json_escape(s[0]);
        assert(t =~= e + tail);
        if e.len() == 1 {
            assert(t.drop_first() =~= tail);
            assert(seq![s[0]] + s.drop_first() =~= s);
        } else {
            assert(t.skip(2) =~= tail);
            assert(spec_json_unescape(t[1]) + s.drop_first() =~= s);
        }
    }
}

/// `JSON.parse` reads a string back from what `JSON.stringify` made of it: the literal
/// has nothing to trim, and its body decodes to the string, the closing quote included.
pub proof fn law_json_string_roundtrip(s: Seq<char>)
    ensures
        crate::text::spec_trim(spec_json_quote(s)) == spec_json_quote(s),
        spec_json_quote(s)[0] == '"',
        spec_json_decode(spec_json_quote(s).skip(1)) == Some((s, spec_json_quote(s).len() - 1int)),
{
    let q = spec_json_quote(s);
    lemma_json_decode_body(s, Seq::empty());
    assert(q.skip(1) =~= spec_json_body(s) + seq!['"'] + Seq::<char>::empty());
    assert(!spec_is_whitespace('"'));
    assert(crate::text::trim_start_index(q) == 0);
    assert(crate::text::spec_trim_start(q) =~= q);
    assert(crate::text::trim_end_index(q) == q.len());
    assert(crate::text::spec_trim_end(q) =~= q);
}

/// `JSON.parse`: the value at the start of the trimmed text (what follows it is
/// ignored); an error for empty text or text that does not start with a value.
/// What `JSON.parse(s)` gives: an error for blank text; a string for the text of a JSON
/// string (the rest of the text is not looked at).
pub open spec fn json_parse_result(s: Seq<char>, r: Result<Value, Vec<char>>) -> bool {
    &&& crate::text::spec_trim(s).len() == 0 ==> r is Err
    &&& crate::text::spec_trim(s).len() > 0 && crate::text::spec_trim(s)[0] == '"' ==> (
    spec_json_decode(crate::text::spec_trim(s).skip(1)) matches Some((v, n)) ==> (r matches Ok(
        Value::Str(x),
    ) && x@ == v))
}

pub fn json_parse(s: &Vec<char>) -> (r: Result<Value, Vec<char>>)
    ensures
        json_parse_result(s@, r),
{
    let t = trim(s.as_slice());
    if t.len() == 0 {
        return Err(str_to_chars("unexpected end of JSON"));
    }
    match json_parse_value(t.as_slice(), 0) {
        Ok((v, _)) => Ok(v),
        Err(e) => Err(e),
    }
}

/// Space, tab, line feed, carriage return or form feed.
pub open spec fn spec_ascii_ws(c: char) -> bool {
    c == ' ' || c == '\t' || c == '\n' || c == '\r' || c == '\x0C'
}

fn is_ascii_ws(c: char) -> (r: bool)
    ensures
        r == spec_ascii_ws(c),
{
    c == ' ' || c == '\t' || c == '\n' || c == '\r' || c == '\x0C'
}

/// Reads one JSON value from `s[pos..]`, after leading whitespace; gives the value and
/// the number of characters read from `pos`.
pub fn json_parse_value(s: &[char], pos: usize) -> (r: Result<(Value, usize), Vec<char>>)
    requires
        pos <= s@.len(),
    ensures
        r matches Ok((_, c)) ==> 0 < c && pos + c <= s@.len(),
        pos < s@.len() && s@[pos as int] == '"' ==> (spec_json_decode(s@.skip(pos + 1)) matches Some(
            (v, n),
        ) ==> (r matches Ok((Value::Str(x), c)) && x@ == v && c == n + 1)),
    decreases s@.len() - pos, 1nat,
{
    let mut i = pos;
    while i < s.len() && is_whitespace(s[i])
        invariant
            pos <= i <= s@.len(),
            pos < s@.len() && s@[pos as int] == '"' ==> i == pos,
        decreases s.len() - i,
    {
        i = i + 1;
    }
    if i >= s.len() {
        return Err(str_to_chars("unexpected end of JSON"));
    }
    let skipped = i - pos;
    let c = s[i];
    let rest_len = s.len() - i;
    let (val, consumed) = if c == '"' {
        let (string, n) = json_parse_string(s, i)?;
        (Value::Str(string), n)
    } else if c == '{' {
        json_parse_object(s, i)?
    } else if c == '[' {
        json_parse_array(s, i)?
    } else if c == 't' && rest_len >= 4 && s[i + 1] == 'r' && s[i + 2] == 'u' && s[i + 3] == 'e' {
        (Value::Bool(true), 4)
    } else if c == 'f' && rest_len >= 5 && s[i + 1] == 'a' && s[i + 2] == 'l' && s[i + 3] == 's'
        && s[i + 4] == 'e' {
        (Value::Bool(false), 5)
    } else if c == 'n' && rest_len >= 4 && s[i + 1] == 'u' && s[i + 2] == 'l' && s[i + 3] == 'l' {
        (Value::Null, 4)
    } else if c == '-' || ('0' <= c && c <= '9') {
        json_parse_number(s, i)
    } else {
        let mut msg = str_to_chars("unexpected character in JSON: Some(");
        push_all(&mut msg, debug_char(c).as_slice());
        msg.push(')');
        return Err(msg);
    };
    Ok((val, consumed + skipped))
}

/// Reads a JSON string literal at `s[pos..]`: gives its text and the number of
/// characters read, closing quote included.
pub fn json_parse_string(s: &[char], pos: usize) -> (r: Result<(Vec<char>, usize), Vec<char>>)
    requires
        pos <= s@.len(),
    ensures
        r matches Ok((_, c)) ==> 2 <= c && pos + c <= s@.len() && s@[pos + c - 1] == '"',
        pos == s@.len() || s@[pos as int] != '"' ==> r is Err,
        pos < s@.len() && s@[pos as int] == '"' ==> (spec_json_decode(s@.skip(pos + 1)) matches Some(
            (v, n),
        ) ==> (r matches Ok((x, c)) && x@ == v && c == n + 1)),
{
    if pos >= s.len() || s[pos] != '"' {
        return Err(str_to_chars("expected '\"'"));
    }
    let ghost dec = spec_json_decode(s@.skip(pos + 1));
    let mut result: Vec<char> = Vec::new();
    let mut i = pos + 1;
    while i < s.len()
        invariant
            pos < i <= s@.len(),
            s@[pos as int] == '"',
            dec == spec_json_decode(s@.skip(pos + 1)),
            dec matches Some((v, n)) ==> (spec_json_decode(s@.skip(i as int)) matches Some((v2, n2))
                && v == result@ + v2 && n == (i - pos - 1) + n2),
        decreases s.len() - i,
    {
        let ch = s[i];
        let ghost i0 = i as int;
        let ghost r0 = result@;
        if ch == '"' {
            return Ok((result, i + 1 - pos));
        } else if ch == '\\' {
            i = i + 1;
            if i >= s.len() {
                return Err(str_to_chars("unterminated string"));
            }
            let e = s[i];
            proof {
                assert(s@.skip(i0).skip(2) =~= s@.skip(i0 + 2));
            }
            if e == '"' {
                result.push('"');
            } else if e == '\\' {
                result.push('\\');
            } else if e == '/' {
                result.push('/');
            } else if e == 'n' {
                result.push('\n');
            } else if e == 'r' {
                result.push('\r');
            } else if e == 't' {
                result.push('\t');
            } else if e == 'u' {
                if s.len() - i > 4 {
                    let hex = slice_range(s, i + 1, i + 5);
                    if let Some(code) = u64_from_radix(hex.as_slice(), 16) {
                        if code <= 0xFFFF {
                            if let Some(c) = crate::text::char_from_u32(code as u32) {
                                result.push(c);
                            }
                        }
                    }
                    i = i + 4;
                }
            } else {
                result.push('\\');
                result.push(e);
            }
            proof {
                if e != 'u' {
                    assert(result@ =~= r0 + spec_json_unescape(e));
                }
            }
        } else {
            result.push(ch);
            proof {
                assert(s@.skip(i0).drop_first() =~= s@.skip(i0 + 1));
            }
        }
        i = i + 1;
    }
    Err(str_to_chars("unterminated JSON string"))
}

fn is_digit(c: char) -> (r: bool)
    ensures
        r == ('0' <= c && c <= '9'),
{
    '0' <= c && c <= '9'
}

/// Reads a JSON number at `s[pos..]` (sign, digits, fraction, exponent).
/// Where the run of decimal digits of `s` that starts at `i` ends.
pub open spec fn run_end(s: Seq<char>, i: int) -> int
    decreases s.len() - i,
{
    if 0 <= i < s.len() && '0' <= s[i] && s[i] <= '9' {
        run_end(s, i + 1)
    } else {
        i
    }
}

/// Where the numeral of `s` that starts at `pos` ends: an optional `-`, digits, an
/// optional `.` and digits, and an optional `e` or `E` with an optional sign and digits.
pub open spec fn numeral_end(s: Seq<char>, pos: int) -> int {
    let a = if pos < s.len() && s[pos] == '-' {
        pos + 1
    } else {
        pos
    };
    let b = run_end(s, a);
    let c = if b < s.len() && s[b] == '.' {
        run_end(s, b + 1)
    } else {
        b
    };
    if c < s.len() && (s[c] == 'e' || s[c] == 'E') {
        let d = if c + 1 < s.len() && (s[c + 1] == '+' || s[c + 1] == '-') {
            c + 2
        } else {
            c + 1
        };
        run_end(s, d)
    } else {
        c
    }
}

pub fn json_parse_number(s: &[char], pos: usize) -> (r: (Value, usize))
    requires
        pos <= s@.len(),
    ensures
        pos + r.1 <= s@.len(),
        pos + r.1 == numeral_end(s@, pos as int),
        pos < s@.len() && (s@[pos as int] == '-' || ('0' <= s@[pos as int] && s@[pos as int]
            <= '9')) ==> 0 < r.1,
        r.0 is Number,
        plain_digits(s@.subrange(pos as int, pos + r.1)) && digits_value(
            spec_trim(s@.subrange(pos as int, pos + r.1)),
            10,
        ) < safe_limit() ==> spec_is_int_value(
            r.0->Number_0,
            digits_value(spec_trim(s@.subrange(pos as int, pos + r.1)), 10),
        ),
        minus_digits(s@.subrange(pos as int, pos + r.1)) && digits_value(
            spec_trim(s@.subrange(pos as int, pos + r.1)).skip(1),
            10,
        ) < safe_limit() ==> spec_is_int_value(
            r.0->Number_0,
            -digits_value(spec_trim(s@.subrange(pos as int, pos + r.1)).skip(1), 10),
        ),
        forall|i: int|
            #[trigger] small_exp_numeral(spec_trim(s@.subrange(pos as int, pos + r.1)), i)
                ==> spec_is_int_value(
                r.0->Number_0,
                exp_numeral_value(spec_trim(s@.subrange(pos as int, pos + r.1)), i),
            ),
{
    let n = s.len();
    let mut end = pos;
    if end < n && s[end] == '-' {
        end = end + 1;
    }
    let ghost a = end as int;
    while end < n && is_digit(s[end])
        invariant
            pos <= end <= n,
            n == s@.len(),
            a <= end,
            run_end(s@, a) == run_end(s@, end as int),
            pos < n && (s@[pos as int] == '-' || ('0' <= s@[pos as int] && s@[pos as int] <= '9'))
                ==> end > pos || ('0' <= s@[pos as int] && s@[pos as int] <= '9'),
        decreases n - end,
    {
        end = end + 1;
    }
    let ghost b = end as int;
    if end < n && s[end] == '.' {
        end = end + 1;
        while end < n && is_digit(s[end])
            invariant
                pos < end <= n,
                n == s@.len(),
                b + 1 <= end,
                run_end(s@, b + 1) == run_end(s@, end as int),
            decreases n - end,
        {
            end = end + 1;
        }
    }
    let ghost c = end as int;
    if end < n && (s[end] == 'e' || s[end] == 'E') {
        end = end + 1;
        if end < n && (s[end] == '+' || s[end] == '-') {
            end = end + 1;
        }
        let ghost d = end as int;
        while end < n && is_digit(s[end])
            invariant
                pos < end <= n,
                n == s@.len(),
                d <= end,
                run_end(s@, d) == run_end(s@, end as int),
            decreases n - end,
        {
            end = end + 1;
        }
    }
    let text = slice_range(s, pos, end);
    let v = parse_float_simple(text.as_slice());
    (Value::Number(v), end - pos)
}

fn skip_ascii_ws(s: &[char], i: usize) -> (r: usize)
    requires
        i <= s@.len(),
    ensures
        i <= r <= s@.len(),
        forall|k: int| i <= k < r ==> spec_ascii_ws(#[trigger] s@[k]),
        r < s@.len() ==> !spec_ascii_ws(s@[r as int]),
{
    let mut j = i;
    while j < s.len() && is_ascii_ws(s[j])
        invariant
            i <= j <= s@.len(),
            forall|k: int| i <= k < j ==> spec_ascii_ws(#[trigger] s@[k]),
        decreases s.len() - j,
    {
        j = j + 1;
    }
    j
}

/// From `from` up to `j` there is only ASCII blank space, and `j` lies in `s`.
pub open spec fn blank_until(s: Seq<char>, from: int, j: int) -> bool {
    from <= j < s.len() && forall|k: int| from <= k < j ==> spec_ascii_ws(#[trigger] s[k])
}

/// Skipping blank space from `from` stops at the first character that is not blank.
proof fn lemma_blank_stop(s: Seq<char>, from: int, j: int, r: int)
    requires
        blank_until(s, from, j),
        !spec_ascii_ws(s[j]),
        from <= r <= s.len(),
        forall|k: int| from <= k < r ==> spec_ascii_ws(#[trigger] s[k]),
        r < s.len() ==> !spec_ascii_ws(s[r]),
    ensures
        r == j,
{
    if r < j {
        assert(spec_ascii_ws(s[r]));
    } else if r > j {
        assert(spec_ascii_ws(s[j]));
    }
}

/// Reads a JSON object at `s[pos..]` (which starts with `{`).
pub fn json_parse_object(s: &[char], pos: usize) -> (r: Result<(Value, usize), Vec<char>>)
    requires
        pos <= s@.len(),
    ensures
        r matches Ok((_, c)) ==> 0 < c && pos + c <= s@.len(),
        forall|j: int| #[trigger] blank_until(s@, pos + 1, j) && s@[j] == '}' ==> (r matches Ok(
            (Value::Object(m), c),
        ) && m.seq().len() == 0 && c == j + 1 - pos),
    decreases s@.len() - pos, 0nat,
{
    if pos >= s.len() {
        return Err(str_to_chars("unterminated object"));
    }
    let n = s.len();
    let mut map = PropMap::new();
    let mut i = pos + 1;
    loop
        invariant
            pos < i <= s@.len(),
            map.seq().len() == 0 ==> i == pos + 1,
            forall|j: int| #[trigger] blank_until(s@, pos + 1, j) && s@[j] == '}' ==> map.seq().len()
                == 0,
        decreases s@.len() - i,
    {
        i = skip_ascii_ws(s, i);
        proof {
            assert forall|j: int| #[trigger] blank_until(s@, pos + 1, j) && s@[j] == '}' implies i == j
                && map.seq().len() == 0 by {
                lemma_blank_stop(s@, pos + 1, j, i as int);
            }
        }
        if i >= s.len() {
            return Err(str_to_chars("unterminated object"));
        }
        if s[i] == '}' {
            return Ok((Value::Object(map), i + 1 - pos));
        }
        if !map.is_empty() {
            if s[i] != ',' {
                return Err(str_to_chars("expected ',' in object"));
            }
            i = skip_ascii_ws(s, i + 1);
        }
        if i < s.len() && s[i] == '}' {
            return Ok((Value::Object(map), i + 1 - pos));
        }
        let (key, consumed) = json_parse_string(s, i)?;
        i = skip_ascii_ws(s, i + consumed);
        if i >= s.len() || s[i] != ':' {
            return Err(str_to_chars("expected ':' in object"));
        }
        i = i + 1;
        let (val, consumed) = json_parse_value(s, i)?;
        i = i + consumed;
        map.insert(key, val);
    }
}

/// Reads a JSON array at `s[pos..]` (which starts with `[`).
pub fn json_parse_array(s: &[char], pos: usize) -> (r: Result<(Value, usize), Vec<char>>)
    requires
        pos <= s@.len(),
    ensures
        r matches Ok((_, c)) ==> 0 < c && pos + c <= s@.len(),
        forall|j: int| #[trigger] blank_until(s@, pos + 1, j) && s@[j] == ']' ==> (r matches Ok(
            (Value::Array(v), c),
        ) && v@.len() == 0 && c == j + 1 - pos),
    decreases s@.len() - pos, 0nat,
{
    if pos >= s.len() {
        return Err(str_to_chars("unterminated array"));
    }
    let n = s.len();
    let mut arr: Vec<Value> = Vec::new();
    let mut i = pos + 1;
    loop
        invariant
            pos < i <= s@.len(),
            arr@.len() == 0 ==> i == pos + 1,
            forall|j: int| #[trigger] blank_until(s@, pos + 1, j) && s@[j] == ']' ==> arr@.len() == 0,
        decreases s@.len() - i,
    {
        i = skip_ascii_ws(s, i);
        proof {
            assert forall|j: int| #[trigger] blank_until(s@, pos + 1, j) && s@[j] == ']' implies i == j
                && arr@.len() == 0 by {
                lemma_blank_stop(s@, pos + 1, j, i as int);
            }
        }
        if i >= s.len() {
            return Err(str_to_chars("unterminated array"));
        }
        if s[i] == ']' {
            return Ok((Value::Array(arr), i + 1 - pos));
        }
        if arr.len() > 0 {
            if s[i] != ',' {
                return Err(str_to_chars("expected ',' in array"));
            }
            i = i + 1;
        }
        let (val, consumed) = json_parse_value(s, i)?;
        i = i + consumed;
        arr.push(val);
    }
}

} // verus!
