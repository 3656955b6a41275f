//! Operators and the built-in methods that call no JavaScript code: binary
//! operators, string, regex and `Math` methods, `Object.*` and the array methods
//! without callbacks.
use vstd::prelude::*;
use crate::double::{Double, SIGN_BIT, spec_order_key, spec_is_int_value, spec_safe_int, safe_limit, spec_clamp, spec_trunc, spec_int_part};
use crate::parser::BinOp;
use crate::value::{all_formed, string_forms, string_form, Value, PropMap, clone_value, clone_values, clone_map, join_values, spec_strict_eq, all_strings, string_views, spec_join, equiv, opt_equiv, lemma_str_less_transitive, lemma_str_less_irreflexive, lemma_str_less_total, lemma_equiv_trans, spec_number_to_i32, spec_number_to_u32};
use crate::eval::{Interpreter, arg_string, arg_number, arg_or_undefined, parse_index, chars_as_values};
use crate::text::{str_to_chars, push_all, eq_str, slice_range, char_to_string, str_less, spec_str_less, spec_trim, spec_trim_start, spec_trim_end};
use crate::astclone::clone_chars;
use crate::builtins::{utf8_bytes, find_from, rfind, occurs_at, spec_replace_all};
use vstd::utf8::encode_utf8;
use crate::mathfn::{floor, ceil, round, trunc, pow, sqrt, cbrt, ln, exp_fn, sin, cos, atan2, cst, is_small_finite, spec_floor, spec_ceil};

verus! {

/// Each byte as the character with that value (for byte-wise searching).
fn bytes_as_chars(b: &Vec<u8>) -> (r: Vec<char>)
    ensures
        r@ == byte_chars(b@),
{
    let mut out: Vec<char> = Vec::new();
    let mut i: usize = 0;
    while i < b.len()
        invariant
            0 <= i <= b@.len(),
            out@ =~= byte_chars(b@.subrange(0, i as int)),
        decreases b.len() - i,
    {
        out.push(b[i] as char);
        i = i + 1;
    }
    assert(b@.subrange(0, b@.len() as int) =~= b@);
    out
}

/// Byte position of the first occurrence of `needle` in `s` at or after byte `from`.
/// Lengths and telling characters of the `Math` method names.
proof fn lemma_math_names()
    ensures
        "floor"@.len() == 5 && "ceil"@.len() == 4 && "round"@.len() == 5 && "abs"@.len() == 3 && "min"@.len() == 3 && "max"@.len() == 3 && "pow"@.len() == 3 && "sqrt"@.len() == 4 && "log"@.len() == 3 && "log2"@.len() == 4 && "log10"@.len() == 5 && "sin"@.len() == 3 && "cos"@.len() == 3 && "tan"@.len() == 3 && "atan2"@.len() == 5 && "random"@.len() == 6 && "sign"@.len() == 4 && "trunc"@.len() == 5 && "cbrt"@.len() == 4 && "exp"@.len() == 3 && "clz32"@.len() == 5 && "imul"@.len() == 4 && "fround"@.len() == 6 && "hypot"@.len() == 5,
        "min"@[1] != "max"@[1] && "ceil"@[1] != "cbrt"@[1] && "sqrt"@[1] != "sign"@[1],
        "max"@[0] != "abs"@[0] && "max"@[0] != "pow"@[0] && "max"@[0] != "log"@[0] && "max"@[0]
            != "sin"@[0] && "max"@[0] != "cos"@[0] && "max"@[0] != "tan"@[0] && "max"@[0] != "exp"@[0],
        "abs"@[0] != "min"@[0] && "abs"@[0] != "pow"@[0] && "abs"@[0] != "log"@[0] && "abs"@[0] != "sin"@[0]
            && "abs"@[0] != "cos"@[0] && "abs"@[0] != "tan"@[0] && "abs"@[0] != "exp"@[0] && "min"@[0]
            != "pow"@[0] && "min"@[0] != "log"@[0] && "min"@[0] != "sin"@[0] && "min"@[0] != "cos"@[0]
            && "min"@[0] != "tan"@[0] && "min"@[0] != "exp"@[0] && "pow"@[0] != "log"@[0] && "pow"@[0]
            != "sin"@[0] && "pow"@[0] != "cos"@[0] && "pow"@[0] != "tan"@[0] && "pow"@[0] != "exp"@[0]
            && "log"@[0] != "sin"@[0] && "log"@[0] != "cos"@[0] && "log"@[0] != "tan"@[0] && "log"@[0]
            != "exp"@[0] && "sin"@[0] != "cos"@[0] && "sin"@[0] != "tan"@[0] && "sin"@[0] != "exp"@[0]
            && "cos"@[0] != "tan"@[0] && "cos"@[0] != "exp"@[0] && "tan"@[0] != "exp"@[0],
        "ceil"@[0] != "sqrt"@[0] && "ceil"@[0] != "log2"@[0] && "ceil"@[0] != "sign"@[0] && "ceil"@[0]
            != "imul"@[0] && "sqrt"@[0] != "log2"@[0] && "sqrt"@[0] != "cbrt"@[0] && "sqrt"@[0]
            != "imul"@[0] && "log2"@[0] != "sign"@[0] && "log2"@[0] != "cbrt"@[0] && "log2"@[0]
            != "imul"@[0] && "sign"@[0] != "cbrt"@[0] && "sign"@[0] != "imul"@[0] && "cbrt"@[0]
            != "imul"@[0],
        "floor"@[0] != "round"@[0] && "floor"@[0] != "log10"@[0] && "floor"@[0] != "atan2"@[0]
            && "floor"@[0] != "trunc"@[0] && "floor"@[0] != "clz32"@[0] && "floor"@[0] != "hypot"@[0]
            && "round"@[0] != "log10"@[0] && "round"@[0] != "atan2"@[0] && "round"@[0] != "trunc"@[0]
            && "round"@[0] != "clz32"@[0] && "round"@[0] != "hypot"@[0] && "log10"@[0] != "atan2"@[0]
            && "log10"@[0] != "trunc"@[0] && "log10"@[0] != "clz32"@[0] && "log10"@[0] != "hypot"@[0]
            && "atan2"@[0] != "trunc"@[0] && "atan2"@[0] != "clz32"@[0] && "atan2"@[0] != "hypot"@[0]
            && "trunc"@[0] != "clz32"@[0] && "trunc"@[0] != "hypot"@[0] && "clz32"@[0] != "hypot"@[0],
        "random"@[0] != "fround"@[0],
{
    reveal_strlit("floor");
    reveal_strlit("ceil");
    reveal_strlit("round");
    reveal_strlit("abs");
    reveal_strlit("min");
    reveal_strlit("max");
    reveal_strlit("pow");
    reveal_strlit("sqrt");
    reveal_strlit("log");
    reveal_strlit("log2");
    reveal_strlit("log10");
    reveal_strlit("sin");
    reveal_strlit("cos");
    reveal_strlit("tan");
    reveal_strlit("atan2");
    reveal_strlit("random");
    reveal_strlit("sign");
    reveal_strlit("trunc");
    reveal_strlit("cbrt");
    reveal_strlit("exp");
    reveal_strlit("clz32");
    reveal_strlit("imul");
    reveal_strlit("fround");
    reveal_strlit("hypot");
}

/// The `Math` methods that `eval_math_call` knows.
pub open spec fn math_method_known(m: Seq<char>) -> bool {
    m == "floor"@ || m == "ceil"@ || m == "round"@ || m == "abs"@ || m == "min"@ || m == "max"@ || m == "pow"@ || m == "sqrt"@ || m == "log"@ || m == "log2"@ || m == "log10"@ || m == "sin"@ || m == "cos"@ || m == "tan"@ || m == "atan2"@ || m == "random"@ || m == "sign"@ || m == "trunc"@ || m == "cbrt"@ || m == "exp"@ || m == "clz32"@ || m == "imul"@ || m == "fround"@ || m == "hypot"@
}

/// `m` is a piece of `t`: its UTF-8 bytes stand in those of `t` one after the other.
pub open spec fn is_text_piece(t: Seq<char>, m: Seq<char>) -> bool {
    exists|i: int, j: int|
        0 <= i <= j <= encode_utf8(t).len() && encode_utf8(m) == encode_utf8(t).subrange(i, j)
}

/// Each byte as the character with that value.
pub open spec fn byte_chars(b: Seq<u8>) -> Seq<char> {
    Seq::new(b.len(), |i: int| b[i] as char)
}

/// `r` is the first place at or after `from` where `needle` occurs in `hay`, or nothing
/// where it occurs nowhere there.
pub open spec fn first_occurrence_from(hay: Seq<char>, needle: Seq<char>, from: int, r: Option<usize>) -> bool {
    &&& r matches Some(i) ==> from <= i && occurs_at(hay, needle, i as int) && forall|j: int|
        from <= j < i ==> !occurs_at(hay, needle, j)
    &&& r is None ==> forall|j: int| from <= j ==> !occurs_at(hay, needle, j)
}

/// `r` is the last place where `needle` occurs in `hay`, or nothing where it occurs
/// nowhere.
pub open spec fn last_occurrence(hay: Seq<char>, needle: Seq<char>, r: Option<usize>) -> bool {
    &&& r matches Some(i) ==> occurs_at(hay, needle, i as int) && forall|j: int|
        i < j ==> !occurs_at(hay, needle, j)
    &&& r is None ==> forall|j: int| !occurs_at(hay, needle, j)
}

/// What a forward search from `from` finds: the first occurrence at or after `from`
/// inside `hay`; past the end, the empty needle is found at `from` and nothing else is.
pub open spec fn find_result(hay: Seq<char>, needle: Seq<char>, from: int, r: Option<usize>) -> bool {
    if from < hay.len() {
        first_occurrence_from(hay, needle, from, r)
    } else {
        r == (if needle.len() == 0 {
            Some(from as usize)
        } else {
            None::<usize>
        })
    }
}

/// The number a search result turns into: the position, or -1 when nothing was found.
pub open spec fn index_value(x: Double, r: Option<usize>) -> bool {
    match r {
        Some(i) => i < 0x20_0000_0000_0000 ==> spec_is_int_value(x, i as int),
        None => spec_is_int_value(x, -1),
    }
}

/// The UTF-8 bytes of a text, each as a character.
pub open spec fn utf8_chars(s: Seq<char>) -> Seq<char> {
    byte_chars(encode_utf8(s))
}

/// The start position `indexOf` takes from its second argument (0 when there is none).
pub open spec fn index_from_arg(args: Seq<Value>) -> Option<int> {
    if args.len() <= 1 {
        Some(0)
    } else {
        match args[1] {
            Value::Number(d) => Some(spec_clamp(spec_trunc(d), 0, usize::MAX as int)),
            _ => None,
        }
    }
}

fn byte_find(s: &Vec<char>, needle: &Vec<char>, from: usize) -> (r: Option<usize>)
    ensures
        find_result(utf8_chars(s@), utf8_chars(needle@), from as int, r),
{
    let hb = bytes_as_chars(&utf8_bytes(s));
    let nb = bytes_as_chars(&utf8_bytes(needle));
    if from < hb.len() {
        find_from(hb.as_slice(), nb.as_slice(), from)
    } else if nb.len() == 0 {
        Some(from)
    } else {
        None
    }
}

fn byte_rfind(s: &Vec<char>, needle: &Vec<char>) -> (r: Option<usize>)
    ensures
        last_occurrence(utf8_chars(s@), utf8_chars(needle@), r),
{
    let hb = bytes_as_chars(&utf8_bytes(s));
    let nb = bytes_as_chars(&utf8_bytes(needle));
    rfind(hb.as_slice(), nb.as_slice())
}

fn index_or_minus_one(r: Option<usize>) -> (v: Value)
    ensures
        v matches Value::Number(x) && index_value(x, r),
{
    match r {
        Some(i) => Value::Number(Double::from_usize(i)),
        None => Value::Number(Double::from_i64(-1)),
    }
}

fn contains(s: &Vec<char>, needle: &Vec<char>) -> (r: bool)
    ensures
        r == exists|i: int| occurs_at(s@, needle@, i),
{
    match find_from(s.as_slice(), needle.as_slice(), 0) {
        Some(_) => true,
        None => {
            assert forall|i: int| !occurs_at(s@, needle@, i) by {
                if i < 0 {
                }
            }
            false
        },
    }
}

/// The pieces of `s` between non-overlapping occurrences of the non-empty `sep`,
/// scanning left to right, with `cur` as the start of the first piece.
pub open spec fn spec_split_from(s: Seq<char>, sep: Seq<char>, cur: Seq<char>) -> Seq<Seq<char>>
    decreases s.len(),
{
    if sep.len() == 0 || s.len() == 0 {
        seq![cur]
    } else if occurs_at(s, sep, 0) {
        seq![cur] + spec_split_from(s.skip(sep.len() as int), sep, seq![])
    } else {
        spec_split_from(s.skip(1), sep, cur.push(s[0]))
    }
}

/// `str::split` by a non-empty separator.
pub open spec fn spec_split(s: Seq<char>, sep: Seq<char>) -> Seq<Seq<char>> {
    spec_split_from(s, sep, seq![])
}

pub open spec fn views(v: Seq<Vec<char>>) -> Seq<Seq<char>> {
    v.map_values(|p: Vec<char>| p@)
}

/// `s.split(sep)` for a non-empty separator: the pieces between non-overlapping
/// occurrences, scanning left to right.
pub fn split_by(s: &Vec<char>, sep: &Vec<char>) -> (r: Vec<Vec<char>>)
    requires
        sep@.len() > 0,
    ensures
        views(r@) == spec_split(s@, sep@),
{
    let mut parts: Vec<Vec<char>> = Vec::new();
    let mut cur: Vec<char> = Vec::new();
    let n = s.len();
    let mut i: usize = 0;
    assert(s@.skip(0) =~= s@);
    assert(views(parts@) =~= Seq::<Seq<char>>::empty());
    while i < n
        invariant
            i <= n,
            n == s@.len(),
            sep@.len() > 0,
            views(parts@) + spec_split_from(s@.skip(i as int), sep@, cur@) == spec_split(s@, sep@),
        decreases n - i,
    {
        proof {
            crate::builtins::lemma_occurs_at_skip(s@, sep@, i as int);
        }
        if crate::builtins::matches_at(s.as_slice(), sep.as_slice(), i) {
            assert(s@.skip(i as int).skip(sep@.len() as int) =~= s@.skip(i + sep@.len()));
            let mut piece: Vec<char> = Vec::new();
            std::mem::swap(&mut piece, &mut cur);
            let ghost before = parts@;
            parts.push(piece);
            assert(views(parts@) =~= views(before) + seq![piece@]);
            i = i + sep.len();
        } else {
            assert(s@.skip(i as int).skip(1) =~= s@.skip(i + 1));
            cur.push(s[i]);
            i = i + 1;
        }
    }
    assert(s@.skip(i as int) =~= Seq::<char>::empty());
    let ghost before = parts@;
    parts.push(cur);
    assert(views(parts@) =~= views(before) + seq![parts@[parts@.len() - 1]@]);
    parts
}

/// `n` copies of `s`, one after the other.
pub open spec fn spec_repeat(s: Seq<char>, n: nat) -> Seq<char>
    decreases n,
{
    if n == 0 {
        Seq::empty()
    } else {
        spec_repeat(s, (n - 1) as nat) + s
    }
}

/// `needed` characters taken in turn from `pad`; none where `pad` is empty.
pub open spec fn spec_padding(pad: Seq<char>, needed: nat) -> Seq<char> {
    if pad.len() == 0 {
        Seq::empty()
    } else {
        Seq::new(needed, |i: int| pad[i % (pad.len() as int)])
    }
}

/// The characters of `s` from `start` up to `end` (cut at the length); empty where
/// `start` is negative or not below the end.
pub open spec fn spec_char_range(s: Seq<char>, start: int, end: int) -> Seq<char> {
    let e = if end > s.len() {
        s.len() as int
    } else {
        end
    };
    if start < 0 || start >= e {
        Seq::empty()
    } else {
        s.subrange(start, e)
    }
}

/// `s.repeat(count)`-like: `count` copies of `s`.
fn repeat_chars(s: &Vec<char>, count: usize) -> (r: Vec<char>)
    ensures
        r@ == spec_repeat(s@, count as nat),
{
    let mut out: Vec<char> = Vec::new();
    let mut i: usize = 0;
    while i < count
        invariant
            0 <= i <= count,
            out@ == spec_repeat(s@, i as nat),
        decreases count - i,
    {
        push_all(&mut out, s.as_slice());
        i = i + 1;
    }
    out
}

/// Padding of `needed` characters taken cyclically from `pad` (empty when `pad` is).
fn padding(pad: &Vec<char>, needed: usize) -> (r: Vec<char>)
    ensures
        r@ == spec_padding(pad@, needed as nat),
{
    let mut out: Vec<char> = Vec::new();
    if pad.len() == 0 {
        return out;
    }
    let mut i: usize = 0;
    while i < needed
        invariant
            0 <= i <= needed,
            pad@.len() > 0,
            out@ =~= Seq::new(i as nat, |k: int| pad@[k % (pad@.len() as int)]),
        decreases needed - i,
    {
        out.push(pad[i % pad.len()]);
        i = i + 1;
    }
    out
}

/// The characters of `s[from..to]` for integer bounds clamped to the string.
fn char_range(chars: &Vec<char>, start: i128, end: i128) -> (r: Vec<char>)
    ensures
        r@ == spec_char_range(chars@, start as int, end as int),
{
    let len = chars.len() as i128;
    let e = if end > len {
        len
    } else {
        end
    };
    if start < 0 || start >= e {
        return Vec::new();
    }
    slice_range(chars.as_slice(), start as usize, e as usize)
}

/// Number of leading zero bits of a 32-bit value.
pub fn leading_zeros(n: u32) -> (r: u32)
    ensures
        n == 0 ==> r == 32,
        n != 0 ==> r < 32 && n >> ((31 - r) as u32) == 1,
{
    let mut count: u32 = 0;
    let mut bit: u32 = 31;
    loop
        invariant
            count == 31 - bit,
            bit <= 31,
            bit < 31 ==> n >> ((bit + 1) as u32) == 0,
        decreases bit,
    {
        if (n >> bit) & 1 == 1 {
            proof {
                lemma_top_bit(n, bit);
            }
            return count;
        }
        proof {
            lemma_clear_bit(n, bit);
        }
        count = count + 1;
        if bit == 0 {
            assert(n == 0) by (bit_vector)
                requires
                    n >> 0u32 == 0,
            ;
            return count;
        }
        bit = bit - 1;
    }
}

/// Where the bits above `b` are clear and bit `b` is set, `n >> b` is 1.
proof fn lemma_top_bit(n: u32, b: u32)
    requires
        b <= 31,
        b < 31 ==> n >> ((b + 1) as u32) == 0,
        (n >> b) & 1 == 1,
    ensures
        n >> b == 1,
        n != 0,
{
    if b < 31 {
        let c = (b + 1) as u32;
        assert(n >> b == 1) by (bit_vector)
            requires
                b < 31,
                c == b + 1,
                n >> c == 0,
                (n >> b) & 1 == 1,
        ;
    } else {
        assert(n >> b == 1) by (bit_vector)
            requires
                b == 31,
                (n >> b) & 1 == 1,
        ;
    }
    assert(n != 0) by (bit_vector)
        requires
            n >> b == 1,
    ;
}

/// Where the bits above `b` and bit `b` are clear, `n >> b` is 0.
proof fn lemma_clear_bit(n: u32, b: u32)
    requires
        b <= 31,
        b < 31 ==> n >> ((b + 1) as u32) == 0,
        (n >> b) & 1 != 1,
    ensures
        n >> b == 0,
{
    if b < 31 {
        let c = (b + 1) as u32;
        assert(n >> b == 0) by (bit_vector)
            requires
                b < 31,
                c == b + 1,
                n >> c == 0,
                (n >> b) & 1 != 1,
        ;
    } else {
        assert(n >> b == 0) by (bit_vector)
            requires
                b == 31,
                (n >> b) & 1 != 1,
        ;
    }
}

/// Comparisons of two numbers (false when either is NaN, the two zeros equal), the
/// bitwise operators on their 32-bit conversions, whose integer result comes back exactly,
/// `+ - *` on safe integers, exact where the result is a safe integer too, and `/` on
/// safe integers where the divisor divides the dividend.
pub open spec fn spec_number_binop(op: BinOp, a: Double, b: Double, res: Result<Value, Vec<char>>) -> bool {
    let ka = spec_order_key(a.bits);
    let kb = spec_order_key(b.bits);
    let ordered = !a.is_nan_spec() && !b.is_nan_spec();
    let ia = spec_number_to_i32(a);
    let ib = spec_number_to_i32(b);
    let k = spec_number_to_u32(b) & 0x1f;
    match op {
        BinOp::Lt => res == Ok::<Value, Vec<char>>(Value::Bool(ordered && ka < kb)),
        BinOp::Gt => res == Ok::<Value, Vec<char>>(Value::Bool(ordered && ka > kb)),
        BinOp::LtEq => res == Ok::<Value, Vec<char>>(Value::Bool(ordered && ka <= kb)),
        BinOp::GtEq => res == Ok::<Value, Vec<char>>(Value::Bool(ordered && ka >= kb)),
        BinOp::BitAnd => res matches Ok(Value::Number(x)) && spec_is_int_value(x, (ia & ib) as int),
        BinOp::BitOr => res matches Ok(Value::Number(x)) && spec_is_int_value(x, (ia | ib) as int),
        BinOp::BitXor => res matches Ok(Value::Number(x)) && spec_is_int_value(x, (ia ^ ib) as int),
        BinOp::Shl => res matches Ok(Value::Number(x)) && spec_is_int_value(
            x,
            (((ia as u32) << k) as i32) as int,
        ),
        BinOp::Shr => res matches Ok(Value::Number(x)) && spec_is_int_value(x, (ia >> k) as int),
        BinOp::Ushr => res matches Ok(Value::Number(x)) && spec_is_int_value(
            x,
            (spec_number_to_u32(a) >> k) as int,
        ),
        BinOp::Add => forall|x: int, y: int|
            #![trigger spec_safe_int(a, x), spec_safe_int(b, y)]
            spec_safe_int(a, x) && spec_safe_int(b, y) && -safe_limit() < x + y < safe_limit()
                ==> (res matches Ok(Value::Number(d)) && spec_is_int_value(d, x + y)),
        BinOp::Sub => forall|x: int, y: int|
            #![trigger spec_safe_int(a, x), spec_safe_int(b, y)]
            spec_safe_int(a, x) && spec_safe_int(b, y) && -safe_limit() < x - y < safe_limit()
                ==> (res matches Ok(Value::Number(d)) && spec_is_int_value(d, x - y)),
        BinOp::Div => forall|x: int, y: int|
            #![trigger spec_safe_int(a, x), spec_safe_int(b, y)]
            spec_safe_int(a, x) && spec_safe_int(b, y) && y != 0 && x % y == 0
                ==> (res matches Ok(Value::Number(d)) && spec_is_int_value(d, x / y)),
        BinOp::Mul => forall|x: int, y: int|
            #![trigger spec_safe_int(a, x), spec_safe_int(b, y)]
            spec_safe_int(a, x) && spec_safe_int(b, y) && -safe_limit() < x * y < safe_limit()
                ==> (res matches Ok(Value::Number(d)) && spec_is_int_value(d, x * y)),
        _ => true,
    }
}

/// Argument `i` where it is a string, or the empty string where it is absent.
pub open spec fn str_arg(args: Seq<Value>, i: int) -> Option<Seq<char>> {
    if i >= args.len() {
        Some(Seq::empty())
    } else {
        match args[i] {
            Value::Str(a) => Some(a@),
            _ => None,
        }
    }
}

/// The padding string of `padStart` / `padEnd`: argument 1 where it is a string, a
/// space where it is absent.
pub open spec fn pad_arg(args: Seq<Value>) -> Option<Seq<char>> {
    if args.len() > 1 {
        match args[1] {
            Value::Str(a) => Some(a@),
            _ => None,
        }
    } else {
        Some(seq![' '])
    }
}

/// `r` is `s` with its first occurrence of `from` replaced by `to` (unchanged where
/// there is none).
pub open spec fn replaced_first(s: Seq<char>, from: Seq<char>, to: Seq<char>, r: Seq<char>) -> bool {
    &&& (exists|i: int| occurs_at(s, from, i)) ==> (exists|i: int|
        occurs_at(s, from, i) && (forall|j: int| 0 <= j < i ==> !occurs_at(s, from, j)) && r
            == s.subrange(0, i) + to + s.subrange(i + from.len(), s.len() as int))
    &&& !(exists|i: int| occurs_at(s, from, i)) ==> r == s
}

/// Each character of `s` replaced by what `char::to_lowercase` gives for it.
pub open spec fn spec_lower(s: Seq<char>) -> Seq<char>
    decreases s.len(),
{
    if s.len() == 0 {
        Seq::empty()
    } else {
        spec_lower(s.drop_last()) + crate::text::spec_to_lowercase(s.last())
    }
}

/// Each character of `s` replaced by what `char::to_uppercase` gives for it.
pub open spec fn spec_upper(s: Seq<char>) -> Seq<char>
    decreases s.len(),
{
    if s.len() == 0 {
        Seq::empty()
    } else {
        spec_upper(s.drop_last()) + crate::text::spec_to_uppercase(s.last())
    }
}

/// The string methods that `eval_string_method` knows.
pub open spec fn string_method_known(m: Seq<char>) -> bool {
    ||| m == "trim"@ || m == "trimStart"@ || m == "trimLeft"@ || m == "trimEnd"@ || m == "trimRight"@
    ||| m == "toString"@ || m == "valueOf"@ || m == "includes"@ || m == "startsWith"@ || m
        == "endsWith"@
    ||| m == "replaceAll"@ || m == "split"@ || m == "concat"@ || m == "charAt"@ || m
        == "charCodeAt"@ || m == "codePointAt"@
    ||| m == "indexOf"@ || m == "lastIndexOf"@ || m == "substring"@ || m == "slice"@ || m
        == "substr"@
    ||| m == "toLowerCase"@ || m == "toLocaleLowerCase"@ || m == "toUpperCase"@ || m
        == "toLocaleUpperCase"@
    ||| m == "replace"@ || m == "repeat"@ || m == "padStart"@ || m == "padEnd"@ || m == "match"@
        || m == "search"@
}

/// What `s.method(args)` gives for a string `s`.
pub open spec fn string_method_result(s: Seq<char>, method: Seq<char>, args: Seq<Value>, r: Value) -> bool {
    &&& method == "trim"@ ==> (r matches Value::Str(t) && t@ == spec_trim(s))
    &&& method == "trimStart"@ || method == "trimLeft"@ ==> (r matches Value::Str(t) && t@
        == spec_trim_start(s))
    &&& method == "trimEnd"@ || method == "trimRight"@ ==> (r matches Value::Str(t) && t@
        == spec_trim_end(s))
    &&& method == "toString"@ || method == "valueOf"@ ==> (r matches Value::Str(t) && t@ == s)
    &&& method == "includes"@ ==> (str_arg(args, 0) matches Some(n) ==> r == Value::Bool(
        exists|i: int| occurs_at(s, n, i),
    ))
    &&& method == "startsWith"@ ==> (str_arg(args, 0) matches Some(n) ==> r == Value::Bool(
        n.len() <= s.len() && s.subrange(0, n.len() as int) == n,
    ))
    &&& method == "endsWith"@ ==> (str_arg(args, 0) matches Some(n) ==> r == Value::Bool(
        n.len() <= s.len() && s.subrange(s.len() - n.len(), s.len() as int) == n,
    ))
    &&& method == "replaceAll"@ ==> (str_arg(args, 0) matches Some(a) ==> (str_arg(args, 1) matches Some(
        b,
    ) ==> (r matches Value::Str(t) && t@ == spec_replace_all(s, a, b))))
    &&& method == "split"@ && args.len() >= 1 ==> (args[0] matches Value::Str(sep) ==> (sep@.len() > 0
        ==> (uint_arg(args, 1, spec_split(s, sep@).len() as int) matches Some(lim) ==> (r matches Value::Array(
        parts,
    ) && parts@.len() == (if lim < spec_split(s, sep@).len() {
        lim
    } else {
        spec_split(s, sep@).len() as int
    }) && forall|i: int|
        0 <= i < parts@.len() ==> (#[trigger] parts@[i] matches Value::Str(p) && p@ == spec_split(
            s,
            sep@,
        )[i])))))
    &&& method == "concat"@ && all_strings(args) ==> (r matches Value::Str(t) && t@ == s + spec_join(
        string_views(args),
        seq![],
    ))
    &&& method == "charAt"@ ==> (uint_arg(args, 0, 0) matches Some(i) ==> (r matches Value::Str(t)
        && t@ == (if i < s.len() {
        seq![s[i]]
    } else {
        Seq::empty()
    })))
    &&& method == "charCodeAt"@ || method == "codePointAt"@ ==> (uint_arg(args, 0, 0) matches Some(i)
        ==> (r matches Value::Number(x) && (if i < s.len() {
        spec_is_int_value(x, (s[i] as u32) as int)
    } else {
        x.is_nan_spec()
    })))
    &&& method == "slice"@ ==> (int_arg(args, 0, 0) matches Some(a) ==> (int_arg(args, 1, s.len() as int) matches Some(
        b,
    ) ==> (r matches Value::Str(t) && t@ == spec_char_range(
        s,
        slice_bound(a, s.len() as int),
        slice_bound(b, s.len() as int),
    ))))
    &&& method == "substring"@ ==> (int_arg(args, 0, 0) matches Some(a) ==> (int_arg(args, 1, s.len() as int) matches Some(
        b,
    ) ==> (r matches Value::Str(t) && t@ == spec_char_range(
        s,
        if a < 0 {
            0
        } else {
            a
        },
        if b < 0 {
            0
        } else {
            b
        },
    ))))
    &&& method == "substr"@ ==> (int_arg(args, 0, 0) matches Some(a) ==> (uint_arg(args, 1, s.len() as int) matches Some(
        c,
    ) ==> (r matches Value::Str(t) && t@ == spec_char_range(
        s,
        slice_bound(a, s.len() as int),
        slice_bound(a, s.len() as int) + c,
    ))))
    &&& method == "toLowerCase"@ || method == "toLocaleLowerCase"@ ==> (r matches Value::Str(t) && t@
        == spec_lower(s))
    &&& method == "toUpperCase"@ || method == "toLocaleUpperCase"@ ==> (r matches Value::Str(t) && t@
        == spec_upper(s))
    &&& method == "replace"@ ==> (str_arg(args, 0) matches Some(a) ==> (str_arg(args, 1) matches Some(b)
        ==> (r matches Value::Str(t) && replaced_first(s, a, b, t@))))
    &&& method == "repeat"@ ==> (uint_arg(args, 0, 0) matches Some(c) ==> (r matches Value::Str(t) && t@
        == spec_repeat(s, if c > 10000 {
        10000
    } else {
        c as nat
    })))
    &&& method == "padStart"@ ==> (uint_arg(args, 0, 0) matches Some(n) ==> (pad_arg(args) matches Some(
        p,
    ) ==> (r matches Value::Str(t) && t@ == (if s.len() >= n {
        s
    } else {
        spec_padding(p, (n - s.len()) as nat) + s
    }))))
    &&& method == "padEnd"@ ==> (uint_arg(args, 0, 0) matches Some(n) ==> (pad_arg(args) matches Some(
        p,
    ) ==> (r matches Value::Str(t) && t@ == (if s.len() >= n {
        s
    } else {
        s + spec_padding(p, (n - s.len()) as nat)
    }))))
    &&& method == "match"@ ==> (str_arg(args, 0) matches Some(n) ==> (if exists|i: int|
        occurs_at(s, n, i) {
        r matches Value::Array(v) && v@.len() == 1 && (v@[0] matches Value::Str(m) && m@ == n)
    } else {
        r is Null
    }))
    &&& method == "indexOf"@ || method == "lastIndexOf"@ || method == "search"@ ==> r is Number
    &&& method == "indexOf"@ ==> (str_arg(args, 0) matches Some(n) ==> (index_from_arg(args) matches Some(
        from,
    ) ==> (r matches Value::Number(x) && exists|o: Option<usize>|
        #[trigger] find_result(utf8_chars(s), utf8_chars(n), from, o) && index_value(x, o))))
    &&& method == "lastIndexOf"@ ==> (str_arg(args, 0) matches Some(n) ==> (r matches Value::Number(x)
        && exists|o: Option<usize>|
        #[trigger] last_occurrence(utf8_chars(s), utf8_chars(n), o) && index_value(x, o)))
    &&& method == "search"@ ==> (str_arg(args, 0) matches Some(n) ==> (r matches Value::Number(x)
        && exists|o: Option<usize>|
        #[trigger] find_result(utf8_chars(s), utf8_chars(n), 0, o) && index_value(x, o)))
    &&& !string_method_known(method) ==> r is Undefined
}

/// Whether a needle occurs somewhere depends on the needle's characters alone.
proof fn lemma_occurs_somewhere_eq(s: Seq<char>, a: Seq<char>, b: Seq<char>)
    requires
        a == b,
    ensures
        (exists|i: int| occurs_at(s, a, i)) == (exists|i: int| occurs_at(s, b, i)),
{
}

/// Lengths and telling characters of the string method names.
proof fn lemma_string_method_names()
    ensures
        "trim"@.len() == 4 && "trimStart"@.len() == 9 && "trimLeft"@.len() == 8 && "trimEnd"@.len()
            == 7 && "trimRight"@.len() == 9 && "toString"@.len() == 8 && "valueOf"@.len() == 7
            && "includes"@.len() == 8 && "startsWith"@.len() == 10 && "endsWith"@.len() == 8
            && "replaceAll"@.len() == 10 && "split"@.len() == 5 && "concat"@.len() == 6
            && "charAt"@.len() == 6 && "charCodeAt"@.len() == 10 && "codePointAt"@.len() == 11
            && "indexOf"@.len() == 7 && "lastIndexOf"@.len() == 11 && "substring"@.len() == 9
            && "slice"@.len() == 5 && "substr"@.len() == 6 && "toLowerCase"@.len() == 11
            && "toLocaleLowerCase"@.len() == 17 && "toUpperCase"@.len() == 11
            && "toLocaleUpperCase"@.len() == 17 && "replace"@.len() == 7 && "repeat"@.len() == 6
            && "padStart"@.len() == 8 && "padEnd"@.len() == 6 && "match"@.len() == 5
            && "search"@.len() == 6,
        "split"@[1] != "slice"@[1] && "split"@[0] != "match"@[0] && "slice"@[0] != "match"@[0],
        "concat"@[1] != "charAt"@[1] && "concat"@[0] != "substr"@[0] && "concat"@[0] != "repeat"@[0]
            && "concat"@[0] != "padEnd"@[0] && "concat"@[0] != "search"@[0] && "charAt"@[0]
            != "substr"@[0] && "charAt"@[0] != "repeat"@[0] && "charAt"@[0] != "padEnd"@[0]
            && "charAt"@[0] != "search"@[0] && "substr"@[0] != "repeat"@[0] && "substr"@[0]
            != "padEnd"@[0] && "substr"@[1] != "search"@[1] && "repeat"@[0] != "padEnd"@[0]
            && "repeat"@[0] != "search"@[0] && "padEnd"@[0] != "search"@[0],
        "trimEnd"@[0] != "valueOf"@[0] && "trimEnd"@[0] != "indexOf"@[0] && "trimEnd"@[0]
            != "replace"@[0] && "valueOf"@[0] != "indexOf"@[0] && "valueOf"@[0] != "replace"@[0]
            && "indexOf"@[0] != "replace"@[0],
        "trimLeft"@[1] != "toString"@[1] && "trimLeft"@[0] != "includes"@[0] && "trimLeft"@[0]
            != "endsWith"@[0] && "trimLeft"@[0] != "padStart"@[0] && "toString"@[0]
            != "includes"@[0] && "toString"@[0] != "endsWith"@[0] && "toString"@[0]
            != "padStart"@[0] && "includes"@[0] != "endsWith"@[0] && "includes"@[0]
            != "padStart"@[0] && "endsWith"@[0] != "padStart"@[0],
        "trimStart"@[4] != "trimRight"@[4] && "trimStart"@[0] != "substring"@[0] && "trimRight"@[0]
            != "substring"@[0],
        "startsWith"@[0] != "replaceAll"@[0] && "startsWith"@[0] != "charCodeAt"@[0]
            && "replaceAll"@[0] != "charCodeAt"@[0],
        "codePointAt"@[0] != "lastIndexOf"@[0] && "codePointAt"@[0] != "toLowerCase"@[0]
            && "codePointAt"@[0] != "toUpperCase"@[0] && "lastIndexOf"@[0] != "toLowerCase"@[0]
            && "lastIndexOf"@[0] != "toUpperCase"@[0] && "toLowerCase"@[2] != "toUpperCase"@[2],
        "toLocaleLowerCase"@[8] != "toLocaleUpperCase"@[8],
{
    reveal_strlit("trim");
    reveal_strlit("trimStart");
    reveal_strlit("trimLeft");
    reveal_strlit("trimEnd");
    reveal_strlit("trimRight");
    reveal_strlit("toString");
    reveal_strlit("valueOf");
    reveal_strlit("includes");
    reveal_strlit("startsWith");
    reveal_strlit("endsWith");
    reveal_strlit("replaceAll");
    reveal_strlit("split");
    reveal_strlit("concat");
    reveal_strlit("charAt");
    reveal_strlit("charCodeAt");
    reveal_strlit("codePointAt");
    reveal_strlit("indexOf");
    reveal_strlit("lastIndexOf");
    reveal_strlit("substring");
    reveal_strlit("slice");
    reveal_strlit("substr");
    reveal_strlit("toLowerCase");
    reveal_strlit("toLocaleLowerCase");
    reveal_strlit("toUpperCase");
    reveal_strlit("toLocaleUpperCase");
    reveal_strlit("replace");
    reveal_strlit("repeat");
    reveal_strlit("padStart");
    reveal_strlit("padEnd");
    reveal_strlit("match");
    reveal_strlit("search");
}

/// The number a value holds (0 for a value that is no number).
pub open spec fn num_of(v: Value) -> Double {
    match v {
        Value::Number(x) => x,
        _ => Double { bits: 0 },
    }
}

/// Every argument is a number, and none is NaN.
pub open spec fn numbers_no_nan(args: Seq<Value>) -> bool {
    forall|i: int| 0 <= i < args.len() ==> (#[trigger] args[i] is Number && !num_of(args[i]).is_nan_spec())
}

/// What `Math.method(args...)` gives, where it is fixed: floor, ceil and trunc exactly on
/// small finite numbers, round on nonzero integers below `2^52`, `abs`, min and max (of nothing, and of numbers none of which is
/// NaN: one of them, the least or the greatest), and NaN for unknown methods.
pub open spec fn math_call_result(method: Seq<char>, args: Seq<Value>, r: Value) -> bool {
    &&& r is Number
    &&& method == "floor"@ && args.len() > 0 ==> (args[0] matches Value::Number(x)
        ==> (r matches Value::Number(y) && (is_small_finite(x) ==> spec_is_int_value(y, spec_floor(x)))
        && (x.is_nan_spec() || x.is_inf_spec() ==> y == x)))
    &&& method == "ceil"@ && args.len() > 0 ==> (args[0] matches Value::Number(x)
        ==> (r matches Value::Number(y) && (is_small_finite(x) ==> spec_is_int_value(y, spec_ceil(x)))
        && (x.is_nan_spec() || x.is_inf_spec() ==> y == x)))
    &&& method == "trunc"@ && args.len() > 0 ==> (args[0] matches Value::Number(x)
        ==> (r matches Value::Number(y) && (is_small_finite(x) ==> spec_is_int_value(y, spec_int_part(x)))
        && (x.is_nan_spec() || x.is_inf_spec() ==> y == x)))
    &&& method == "round"@ && args.len() > 0 ==> (args[0] matches Value::Number(x) ==> (r matches Value::Number(y)
        && forall|n: int| #[trigger] spec_safe_int(x, n) && -0x10_0000_0000_0000 < n
            < 0x10_0000_0000_0000 && n != 0 ==> spec_is_int_value(y, n)))
    &&& method == "abs"@ && args.len() > 0 ==> (args[0] matches Value::Number(x) ==> (r matches Value::Number(y)
        && (x.is_nan_spec() ==> y.is_nan_spec()) && (!x.is_nan_spec() ==> (y.bits % SIGN_BIT
        == x.bits % SIGN_BIT && (spec_order_key(x.bits) < 0 ==> !y.is_neg_spec()) && (
    spec_order_key(x.bits) >= 0 ==> y == x)))))
    &&& (method == "min"@ || method == "max"@) && args.len() == 0 ==> (r matches Value::Number(y)
        && y.is_inf_spec() && y.is_neg_spec() == (method == "max"@))
    &&& (method == "min"@ || method == "max"@) && args.len() > 0 && numbers_no_nan(args) ==> (
    exists|k: int| 0 <= k < args.len() && r == args[k]) && forall|j: int|
        0 <= j < args.len() ==> (method == "min"@ ==> spec_order_key(num_of(r).bits) <= spec_order_key(
            num_of(#[trigger] args[j]).bits,
        )) && (method == "max"@ ==> spec_order_key(num_of(r).bits) >= spec_order_key(
            num_of(args[j]).bits,
        ))
    &&& !math_method_known(method) ==> (r matches Value::Number(y) && y.is_nan_spec())
}

impl Interpreter {
    pub fn eval_binop(&self, l: &Value, op: BinOp, r: &Value) -> (res: Result<Value, Vec<char>>)
        requires
            !(op is And || op is Or || op is NullishCoalesce),
        ensures
            res is Ok,
            op is StrictEq ==> res == Ok::<Value, Vec<char>>(Value::Bool(spec_strict_eq(*l, *r))),
            op is StrictNotEq ==> res == Ok::<Value, Vec<char>>(Value::Bool(!spec_strict_eq(*l, *r))),
            op is Instanceof ==> res == Ok::<Value, Vec<char>>(Value::Bool(false)),
            *l matches Value::Str(a) ==> (*r matches Value::Str(b) ==> (op is Add ==> (res matches Ok(
                Value::Str(c),
            ) && c@ == a@ + b@))),
            op is Add && (*l is Str || *r is Str) ==> (res matches Ok(v) && v is Str),
            op is Add && !(*l is Str || *r is Str) ==> (res matches Ok(v) && v is Number),
            (op is Sub || op is Mul || op is Div || op is Mod || op is Pow || op is BitAnd || op is BitOr
                || op is BitXor || op is Shl || op is Shr || op is Ushr) ==> (res matches Ok(v) && v is Number),
            (op is Eq || op is NotEq || op is Lt || op is Gt || op is LtEq || op is GtEq || op is In)
                ==> (res matches Ok(v) && v is Bool),
            op is NotEq ==> (res matches Ok(Value::Bool(b)) && (spec_strict_eq(*l, *r) ==> !b)),
            op is Eq ==> (res matches Ok(Value::Bool(b)) && (spec_strict_eq(*l, *r) ==> b)),
            *l matches Value::Number(a) ==> (*r matches Value::Number(b) ==> spec_number_binop(
                op,
                a,
                b,
                res,
            )),
    {
        let v = match op {
            BinOp::Add => {
                if matches!(l, Value::Str(_)) || matches!(r, Value::Str(_)) {
                    let mut s = l.to_string_val();
                    push_all(&mut s, r.to_string_val().as_slice());
                    Value::Str(s)
                } else {
                    Value::Number(l.to_number().add(&r.to_number()))
                }
            },
            BinOp::Sub => Value::Number(l.to_number().sub(&r.to_number())),
            BinOp::Mul => Value::Number(l.to_number().mul(&r.to_number())),
            BinOp::Div => Value::Number(l.to_number().div(&r.to_number())),
            BinOp::Mod => Value::Number(l.to_number().rem(&r.to_number())),
            BinOp::Pow => Value::Number(pow(&l.to_number(), &r.to_number())),
            BinOp::Eq => Value::Bool(l.loose_eq(r)),
            BinOp::StrictEq => Value::Bool(l.strict_eq(r)),
            BinOp::NotEq => Value::Bool(!l.loose_eq(r)),
            BinOp::StrictNotEq => Value::Bool(!l.strict_eq(r)),
            BinOp::Lt => Value::Bool(l.to_number().lt(&r.to_number())),
            BinOp::Gt => Value::Bool(l.to_number().gt(&r.to_number())),
            BinOp::LtEq => Value::Bool(l.to_number().le(&r.to_number())),
            BinOp::GtEq => Value::Bool(l.to_number().ge(&r.to_number())),
            BinOp::BitAnd => Value::Number(Double::from_i64((l.to_i32() & r.to_i32()) as i64)),
            BinOp::BitOr => Value::Number(Double::from_i64((l.to_i32() | r.to_i32()) as i64)),
            BinOp::BitXor => Value::Number(Double::from_i64((l.to_i32() ^ r.to_i32()) as i64)),
            BinOp::Shl => {
                let t = r.to_u32();
                let k = t & 0x1f;
                assert(k < 32) by (bit_vector)
                    requires
                        k == t & 0x1f,
                ;
                let x = l.to_i32() as u32;
                Value::Number(Double::from_i64(((x << k) as i32) as i64))
            },
            BinOp::Shr => {
                let t = r.to_u32();
                let k = t & 0x1f;
                assert(k < 32) by (bit_vector)
                    requires
                        k == t & 0x1f,
                ;
                let x = l.to_i32();
                Value::Number(Double::from_i64((x >> k) as i64))
            },
            BinOp::Ushr => {
                let t = r.to_u32();
                let k = t & 0x1f;
                assert(k < 32) by (bit_vector)
                    requires
                        k == t & 0x1f,
                ;
                Value::Number(Double::from_u64((l.to_u32() >> k) as u64))
            },
            BinOp::Instanceof => Value::Bool(false),
            BinOp::In => {
                let key = l.to_string_val();
                match r {
                    Value::Object(map) => Value::Bool(map.contains_key(key.as_slice())),
                    Value::Array(arr) => match parse_index(key.as_slice()) {
                        Some(idx) => Value::Bool(idx < arr.len()),
                        None => Value::Bool(false),
                    },
                    _ => Value::Bool(false),
                }
            },
            _ => Value::Undefined,
        };
        Ok(v)
    }

    #[verifier::spinoff_prover]
    pub fn eval_string_method(&self, s: &Vec<char>, method: &[char], args: &Vec<Value>) -> (r:
        Result<Value, Vec<char>>)
        ensures
            r is Ok,
            string_method_result(s@, method@, args@, r->Ok_0),
    {
        proof {
            lemma_string_method_names();
        }
        let v = if eq_str(method, "trim") {
            Value::Str(crate::text::trim(s.as_slice()))
        } else if eq_str(method, "trimStart") || eq_str(method, "trimLeft") {
            Value::Str(crate::text::trim_start(s.as_slice()))
        } else if eq_str(method, "trimEnd") || eq_str(method, "trimRight") {
            Value::Str(crate::text::trim_end(s.as_slice()))
        } else if eq_str(method, "toString") || eq_str(method, "valueOf") {
            Value::Str(clone_chars(s))
        } else if eq_str(method, "includes") {
            let needle = arg_string(args, 0);
            proof {
                if args@.len() == 0 {
                    assert(needle@ =~= Seq::<char>::empty());
                }
                if str_arg(args@, 0) is Some {
                    lemma_occurs_somewhere_eq(s@, needle@, str_arg(args@, 0)->0);
                }
            }
            Value::Bool(contains(s, &needle))
        } else if eq_str(method, "startsWith") {
            let needle = arg_string(args, 0);
            proof {
                if args@.len() == 0 {
                    assert(needle@ =~= Seq::<char>::empty());
                }
            }
            Value::Bool(crate::numparse::starts_with(s.as_slice(), needle.as_slice()))
        } else if eq_str(method, "endsWith") {
            let needle = arg_string(args, 0);
            proof {
                if args@.len() == 0 {
                    assert(needle@ =~= Seq::<char>::empty());
                }
            }
            Value::Bool(needle.len() <= s.len() && crate::text::slices_eq(
                slice_range(s.as_slice(), s.len() - needle.len(), s.len()).as_slice(),
                needle.as_slice(),
            ))
        } else if eq_str(method, "replaceAll") {
            let pattern = arg_string(args, 0);
            let replacement = arg_string(args, 1);
            proof {
                if args@.len() == 0 {
                    assert(pattern@ =~= Seq::<char>::empty());
                }
                if args@.len() <= 1 {
                    assert(replacement@ =~= Seq::<char>::empty());
                }
            }
            Value::Str(
                crate::builtins::replace_all(s.as_slice(), pattern.as_slice(), replacement.as_slice()),
            )
        } else if eq_str(method, "split") {
            let sep = arg_string(args, 0);
            let mut parts: Vec<Value> = if sep.len() == 0 {
                chars_as_values(s)
            } else {
                let pieces = split_by(s, &sep);
                let mut vs: Vec<Value> = Vec::new();
                let mut i: usize = 0;
                while i < pieces.len()
                    invariant
                        0 <= i <= pieces@.len(),
                        vs@.len() == i,
                        forall|j: int|
                            0 <= j < i ==> (#[trigger] vs@[j] matches Value::Str(p) && p@
                                == pieces@[j]@),
                    decreases pieces.len() - i,
                {
                    vs.push(Value::Str(clone_chars(&pieces[i])));
                    i = i + 1;
                }
                proof {
                    assert forall|j: int| 0 <= j < vs@.len() implies (#[trigger] vs@[j] matches Value::Str(
                        p,
                    ) && p@ == spec_split(s@, sep@)[j]) by {
                        assert(views(pieces@)[j] == pieces@[j]@);
                    }
                }
                vs
            };
            let ghost full = parts@;
            if args.len() > 1 {
                let lim = args[1].to_number().to_usize_sat();
                if lim < parts.len() {
                    parts.truncate(lim);
                    assert(forall|j: int| 0 <= j < parts@.len() ==> parts@[j] == full[j]);
                }
            }
            Value::Array(parts)
        } else if eq_str(method, "concat") {
            let mut out = clone_chars(s);
            let mut i: usize = 0;
            assert(string_views(args@.take(0)) =~= Seq::<Seq<char>>::empty());
            while i < args.len()
                invariant
                    0 <= i <= args@.len(),
                    all_strings(args@) ==> out@ == s@ + spec_join(
                        string_views(args@.take(i as int)),
                        seq![],
                    ),
                decreases args.len() - i,
            {
                let ghost before = out@;
                push_all(&mut out, args[i].to_string_val().as_slice());
                proof {
                    let p = string_views(args@.take(i + 1));
                    assert(p.drop_last() =~= string_views(args@.take(i as int)));
                    if all_strings(args@) {
                        assert(args@[i as int] is Str);
                        assert(p.last() == args@[i as int]->Str_0@);
                        if i > 0 {
                            assert(out@ =~= s@ + spec_join(p, seq![]));
                        } else {
                            assert(out@ =~= s@ + spec_join(p, seq![]));
                        }
                    }
                }
                i = i + 1;
            }
            assert(args@.take(args@.len() as int) =~= args@);
            Value::Str(out)
        } else if eq_str(method, "charAt") {
            let idx = if args.len() > 0 {
                args[0].to_number().to_usize_sat()
            } else {
                0
            };
            if idx < s.len() {
                Value::Str(char_to_string(s[idx]))
            } else {
                Value::Str(Vec::new())
            }
        } else if eq_str(method, "charCodeAt") || eq_str(method, "codePointAt") {
            let idx = if args.len() > 0 {
                args[0].to_number().to_usize_sat()
            } else {
                0
            };
            if idx < s.len() {
                let c = s[idx];
                let code = (c as u32) as u64;
                let x = Double::from_u64(code);
                assert(code < 0x20_0000_0000_0000);
                assert(spec_is_int_value(x, (s@[idx as int] as u32) as int));
                Value::Number(x)
            } else {
                Value::Number(Double::nan())
            }
        } else if eq_str(method, "indexOf") {
            let needle = arg_string(args, 0);
            let from = if args.len() > 1 {
                args[1].to_number().to_usize_sat()
            } else {
                0
            };
            let found = byte_find(s, &needle, from);
            let v = index_or_minus_one(found);
            proof {
                if args@.len() > 1 {
                    if let Value::Number(d) = args@[1] {
                        assert(from as int == spec_clamp(spec_trunc(d), 0, usize::MAX as int));
                    }
                }
                assert(v matches Value::Number(x) && index_value(x, found));
                if str_arg(args@, 0) is Some {
                    assert(needle@ == str_arg(args@, 0)->0);
                }
            }
            v
        } else if eq_str(method, "lastIndexOf") {
            let needle = arg_string(args, 0);
            let found = byte_rfind(s, &needle);
            let v = index_or_minus_one(found);
            proof {
                if str_arg(args@, 0) is Some {
                    assert(needle@ == str_arg(args@, 0)->0);
                }
            }
            v
        } else if eq_str(method, "substring") || eq_str(method, "slice") {
            let len = s.len() as i128;
            let mut start = if args.len() > 0 {
                args[0].to_number().to_i64() as i128
            } else {
                0
            };
            let mut end = if args.len() > 1 {
                args[1].to_number().to_i64() as i128
            } else {
                len
            };
            let ghost a0 = start as int;
            let ghost b0 = end as int;
            if eq_str(method, "slice") {
                if start < 0 {
                    start = if len + start > 0 {
                        len + start
                    } else {
                        0
                    };
                }
                if end < 0 {
                    end = if len + end > 0 {
                        len + end
                    } else {
                        0
                    };
                }
            } else {
                if start < 0 {
                    start = 0;
                }
                if end < 0 {
                    end = 0;
                }
            }
            Value::Str(char_range(s, start, end))
        } else if eq_str(method, "substr") {
            let len = s.len() as i128;
            let mut start = if args.len() > 0 {
                args[0].to_number().to_i64() as i128
            } else {
                0
            };
            let ghost a0 = start as int;
            if start < 0 {
                start = if len + start > 0 {
                    len + start
                } else {
                    0
                };
            }
            let count = if args.len() > 1 {
                args[1].to_number().to_usize_sat() as i128
            } else {
                len
            };
            assert(start == slice_bound(a0, s@.len() as int));
            Value::Str(char_range(s, start, start + count))
        } else if eq_str(method, "toLowerCase") || eq_str(method, "toLocaleLowerCase") {
            let mut out: Vec<char> = Vec::new();
            let mut i: usize = 0;
            while i < s.len()
                invariant
                    0 <= i <= s@.len(),
                    out@ == spec_lower(s@.subrange(0, i as int)),
                decreases s.len() - i,
            {
                proof {
                    assert(s@.subrange(0, i + 1).drop_last() =~= s@.subrange(0, i as int));
                }
                push_all(&mut out, crate::text::char_to_lowercase(s[i]).as_slice());
                i = i + 1;
            }
            assert(s@.subrange(0, s@.len() as int) =~= s@);
            Value::Str(out)
        } else if eq_str(method, "toUpperCase") || eq_str(method, "toLocaleUpperCase") {
            let mut out: Vec<char> = Vec::new();
            let mut i: usize = 0;
            while i < s.len()
                invariant
                    0 <= i <= s@.len(),
                    out@ == spec_upper(s@.subrange(0, i as int)),
                decreases s.len() - i,
            {
                proof {
                    assert(s@.subrange(0, i + 1).drop_last() =~= s@.subrange(0, i as int));
                }
                push_all(&mut out, crate::text::char_to_uppercase(s[i]).as_slice());
                i = i + 1;
            }
            assert(s@.subrange(0, s@.len() as int) =~= s@);
            Value::Str(out)
        } else if eq_str(method, "replace") {
            let pattern = arg_string(args, 0);
            let replacement = arg_string(args, 1);
            proof {
                if args@.len() == 0 {
                    assert(pattern@ =~= Seq::<char>::empty());
                }
                if args@.len() <= 1 {
                    assert(replacement@ =~= Seq::<char>::empty());
                }
            }
            Value::Str(
                crate::builtins::replace_first(
                    s.as_slice(),
                    pattern.as_slice(),
                    replacement.as_slice(),
                ),
            )
        } else if eq_str(method, "repeat") {
            let count = if args.len() > 0 {
                args[0].to_number().to_usize_sat()
            } else {
                0
            };
            let count = if count > 10000 {
                10000
            } else {
                count
            };
            Value::Str(repeat_chars(s, count))
        } else if eq_str(method, "padStart") || eq_str(method, "padEnd") {
            let target_len = if args.len() > 0 {
                args[0].to_number().to_usize_sat()
            } else {
                0
            };
            let pad_str = if args.len() > 1 {
                args[1].to_string_val()
            } else {
                let sp = str_to_chars(" ");
                proof {
                    reveal_strlit(" ");
                    assert(sp@ =~= seq![' ']);
                }
                sp
            };
            if s.len() >= target_len {
                Value::Str(clone_chars(s))
            } else {
                let pad = padding(&pad_str, target_len - s.len());
                if eq_str(method, "padStart") {
                    let mut out = pad;
                    push_all(&mut out, s.as_slice());
                    Value::Str(out)
                } else {
                    let mut out = clone_chars(s);
                    push_all(&mut out, pad.as_slice());
                    Value::Str(out)
                }
            }
        } else if eq_str(method, "match") {
            let mut regex: Option<&Vec<char>> = None;
            if args.len() > 0 {
                if let Value::Regex(pattern, _) = &args[0] {
                    regex = Some(pattern);
                }
            }
            match regex {
                Some(pattern) => match crate::regex::simple_regex_match(s, pattern) {
                    Some(m) => Value::Array(vec![Value::Str(m)]),
                    None => Value::Null,
                },
                None => {
                    let needle = arg_string(args, 0);
                    proof {
                        if args@.len() == 0 {
                            assert(needle@ =~= Seq::<char>::empty());
                        }
                    }
                    if contains(s, &needle) {
                        Value::Array(vec![Value::Str(needle)])
                    } else {
                        Value::Null
                    }
                },
            }
        } else if eq_str(method, "search") {
            let needle = arg_string(args, 0);
            let found = byte_find(s, &needle, 0);
            let v = index_or_minus_one(found);
            proof {
                if str_arg(args@, 0) is Some {
                    assert(needle@ == str_arg(args@, 0)->0);
                }
            }
            v
        } else {
            Value::Undefined
        };
        proof {
            let (str, m, a) = (s@, method@, args@);
            assert({
                let (s, method, args, r) = (str, m, a, v);
                method == "trim"@ ==> (r matches Value::Str(t) && t@ == spec_trim(s))
            });
            assert({
                let (s, method, args, r) = (str, m, a, v);
                method == "trimStart"@ || method == "trimLeft"@ ==> (r matches Value::Str(t) && t@
                    == spec_trim_start(s))
            });
            assert({
                let (s, method, args, r) = (str, m, a, v);
                method == "trimEnd"@ || method == "trimRight"@ ==> (r matches Value::Str(t) && t@
                    == spec_trim_end(s))
            });
            assert({
                let (s, method, args, r) = (str, m, a, v);
                method == "toString"@ || method == "valueOf"@ ==> (r matches Value::Str(t) && t@ == s)
            });
            assert({
                let (s, method, args, r) = (str, m, a, v);
                method == "includes"@ ==> (str_arg(args, 0) matches Some(n) ==> r == Value::Bool(
                    exists|i: int| occurs_at(s, n, i),
                ))
            });
            assert({
                let (s, method, args, r) = (str, m, a, v);
                method == "startsWith"@ ==> (str_arg(args, 0) matches Some(n) ==> r == Value::Bool(
                    n.len() <= s.len() && s.subrange(0, n.len() as int) == n,
                ))
            });
            assert({
                let (s, method, args, r) = (str, m, a, v);
                method == "endsWith"@ ==> (str_arg(args, 0) matches Some(n) ==> r == Value::Bool(
                    n.len() <= s.len() && s.subrange(s.len() - n.len(), s.len() as int) == n,
                ))
            });
            assert({
                let (s, method, args, r) = (str, m, a, v);
                method == "replaceAll"@ ==> (str_arg(args, 0) matches Some(a) ==> (str_arg(args, 1) matches Some(
                    b,
                ) ==> (r matches Value::Str(t) && t@ == spec_replace_all(s, a, b))))
            });
            assert({
                let (s, method, args, r) = (str, m, a, v);
                method == "split"@ && args.len() >= 1 ==> (args[0] matches Value::Str(sep) ==> (sep@.len() > 0
                    ==> (uint_arg(args, 1, spec_split(s, sep@).len() as int) matches Some(lim) ==> (r matches Value::Array(
                    parts,
                ) && parts@.len() == (if lim < spec_split(s, sep@).len() {
                    lim
                } else {
                    spec_split(s, sep@).len() as int
                }) && forall|i: int|
                    0 <= i < parts@.len() ==> (#[trigger] parts@[i] matches Value::Str(p) && p@ == spec_split(
                        s,
                        sep@,
                    )[i])))))
            });
            assert({
                let (s, method, args, r) = (str, m, a, v);
                method == "concat"@ && all_strings(args) ==> (r matches Value::Str(t) && t@ == s + spec_join(
                    string_views(args),
                    seq![],
                ))
            });
            assert({
                let (s, method, args, r) = (str, m, a, v);
                method == "charAt"@ ==> (uint_arg(args, 0, 0) matches Some(i) ==> (r matches Value::Str(t)
                    && t@ == (if i < s.len() {
                    seq![s[i]]
                } else {
                    Seq::empty()
                })))
            });
            assert({
                let (s, method, args, r) = (str, m, a, v);
                method == "charCodeAt"@ || method == "codePointAt"@ ==> (uint_arg(args, 0, 0) matches Some(i)
                    ==> (r matches Value::Number(x) && (if i < s.len() {
                    spec_is_int_value(x, (s[i] as u32) as int)
                } else {
                    x.is_nan_spec()
                })))
            });
            assert({
                let (s, method, args, r) = (str, m, a, v);
                method == "slice"@ ==> (int_arg(args, 0, 0) matches Some(a) ==> (int_arg(args, 1, s.len() as int) matches Some(
                    b,
                ) ==> (r matches Value::Str(t) && t@ == spec_char_range(
                    s,
                    slice_bound(a, s.len() as int),
                    slice_bound(b, s.len() as int),
                ))))
            });
            assert({
                let (s, method, args, r) = (str, m, a, v);
                method == "substring"@ ==> (int_arg(args, 0, 0) matches Some(a) ==> (int_arg(args, 1, s.len() as int) matches Some(
                    b,
                ) ==> (r matches Value::Str(t) && t@ == spec_char_range(
                    s,
                    if a < 0 {
                        0
                    } else {
                        a
                    },
                    if b < 0 {
                        0
                    } else {
                        b
                    },
                ))))
            });
            assert({
                let (s, method, args, r) = (str, m, a, v);
                method == "substr"@ ==> (int_arg(args, 0, 0) matches Some(a) ==> (uint_arg(args, 1, s.len() as int) matches Some(
                    c,
                ) ==> (r matches Value::Str(t) && t@ == spec_char_range(
                    s,
                    slice_bound(a, s.len() as int),
                    slice_bound(a, s.len() as int) + c,
                ))))
            });
            assert({
                let (s, method, args, r) = (str, m, a, v);
                method == "toLowerCase"@ || method == "toLocaleLowerCase"@ ==> (r matches Value::Str(t) && t@
                    == spec_lower(s))
            });
            assert({
                let (s, method, args, r) = (str, m, a, v);
                method == "toUpperCase"@ || method == "toLocaleUpperCase"@ ==> (r matches Value::Str(t) && t@
                    == spec_upper(s))
            });
            assert({
                let (s, method, args, r) = (str, m, a, v);
                method == "replace"@ ==> (str_arg(args, 0) matches Some(a) ==> (str_arg(args, 1) matches Some(b)
                    ==> (r matches Value::Str(t) && replaced_first(s, a, b, t@))))
            });
            assert({
                let (s, method, args, r) = (str, m, a, v);
                method == "repeat"@ ==> (uint_arg(args, 0, 0) matches Some(c) ==> (r matches Value::Str(t) && t@
                    == spec_repeat(s, if c > 10000 {
                    10000
                } else {
                    c as nat
                })))
            });
            assert({
                let (s, method, args, r) = (str, m, a, v);
                method == "padStart"@ ==> (uint_arg(args, 0, 0) matches Some(n) ==> (pad_arg(args) matches Some(
                    p,
                ) ==> (r matches Value::Str(t) && t@ == (if s.len() >= n {
                    s
                } else {
                    spec_padding(p, (n - s.len()) as nat) + s
                }))))
            });
            assert({
                let (s, method, args, r) = (str, m, a, v);
                method == "padEnd"@ ==> (uint_arg(args, 0, 0) matches Some(n) ==> (pad_arg(args) matches Some(
                    p,
                ) ==> (r matches Value::Str(t) && t@ == (if s.len() >= n {
                    s
                } else {
                    s + spec_padding(p, (n - s.len()) as nat)
                }))))
            });
            assert({
                let (s, method, args, r) = (str, m, a, v);
                method == "match"@ ==> (str_arg(args, 0) matches Some(n) ==> (if exists|i: int|
                    occurs_at(s, n, i) {
                    r matches Value::Array(v) && v@.len() == 1 && (v@[0] matches Value::Str(m) && m@ == n)
                } else {
                    r is Null
                }))
            });
            assert({
                let (s, method, args, r) = (str, m, a, v);
                method == "indexOf"@ || method == "lastIndexOf"@ || method == "search"@ ==> r is Number
            });
            assert({
                let (s, method, args, r) = (str, m, a, v);
                !string_method_known(method) ==> r is Undefined
            });
        }
        Ok(v)
    }

    pub fn eval_regex_method(
        &self,
        pattern: &Vec<char>,
        flags: &Vec<char>,
        method: &[char],
        args: &Vec<Value>,
    ) -> (r: Result<Value, Vec<char>>)
        ensures
            r is Ok,
            method@ == "test"@ ==> (r matches Ok(Value::Bool(b)) && (pattern@.len() == 0 ==> b)),
            method@ == "exec"@ ==> (r matches Ok(v) && (v is Null || (v matches Value::Array(a)
                && a@.len() == 1 && (a@[0] matches Value::Str(m) && (str_arg(args@, 0) matches Some(t)
                ==> is_text_piece(t, m@))))) && (pattern@.len() == 0 ==> (v matches Value::Array(a)
                && a@.len() == 1 && (a@[0] matches Value::Str(m) && m@.len() == 0)))),
            !(method@ == "test"@ || method@ == "exec"@) ==> r == Ok::<Value, Vec<char>>(
                Value::Undefined,
            ),
    {
        proof {
            reveal_strlit("test");
            reveal_strlit("exec");
            assert("test"@[0] != "exec"@[0]);
        }
        if eq_str(method, "test") {
            let s = arg_string(args, 0);
            Ok(Value::Bool(crate::regex::simple_regex_match(&s, pattern).is_some()))
        } else if eq_str(method, "exec") {
            let s = arg_string(args, 0);
            proof {
                if args@.len() == 0 {
                    assert(s@ =~= Seq::<char>::empty());
                }
            }
            match crate::regex::simple_regex_match(&s, pattern) {
                Some(m) => Ok(Value::Array(vec![Value::Str(m)])),
                None => Ok(Value::Null),
            }
        } else {
            Ok(Value::Undefined)
        }
    }

    /// `Math.<method>(args)`; unknown methods give NaN.
    pub fn eval_math_call(&mut self, method: &[char], args: &Vec<Value>) -> (r: Value)
        ensures
            r is Number,
            final(self).scopes == old(self).scopes,
            final(self).output == old(self).output,
            final(self).cookie == old(self).cookie,
            final(self).call_depth == old(self).call_depth,
            method@ != "random"@ ==> final(self).rng_state == old(self).rng_state,
            math_call_result(method@, args@, r),
    {
        proof {
            lemma_math_names();
        }
        let zero = Double::zero(false);
        let a = arg_number(args, 0, zero);
        let b = arg_number(args, 1, zero);
        let n = if eq_str(method, "floor") {
            floor(&a)
        } else if eq_str(method, "ceil") {
            ceil(&a)
        } else if eq_str(method, "round") {
            round(&a)
        } else if eq_str(method, "abs") {
            if a.lt(&zero) {
                a.neg()
            } else {
                a
            }
        } else if eq_str(method, "min") || eq_str(method, "max") {
            let is_min = eq_str(method, "min");
            if args.len() == 0 {
                Double::infinity(!is_min)
            } else {
                let mut best = args[0].to_number();
                let ghost mut bk: int = 0;
                let mut i: usize = 1;
                while i < args.len()
                    invariant
                        1 <= i <= args@.len(),
                        is_min == (method@ == "min"@),
                        numbers_no_nan(args@) ==> 0 <= bk < i && best == num_of(args@[bk]) && forall|j: int|
                            0 <= j < i ==> (is_min ==> spec_order_key(best.bits) <= spec_order_key(
                                num_of(#[trigger] args@[j]).bits,
                            )) && (!is_min ==> spec_order_key(best.bits) >= spec_order_key(
                                num_of(args@[j]).bits,
                            )),
                    decreases args.len() - i,
                {
                    let v = args[i].to_number();
                    proof {
                        if numbers_no_nan(args@) {
                            assert(args@[i as int] is Number);
                            assert(v == num_of(args@[i as int]));
                            assert(!num_of(args@[bk]).is_nan_spec());
                        }
                    }
                    if (is_min && v.lt(&best)) || (!is_min && v.gt(&best)) {
                        best = v;
                        proof {
                            bk = i as int;
                        }
                    }
                    i = i + 1;
                }
                proof {
                    if numbers_no_nan(args@) {
                        assert(args@[bk] is Number);
                        assert(args@[bk] == Value::Number(best));
                    }
                }
                best
            }
        } else if eq_str(method, "pow") {
            pow(&a, &b)
        } else if eq_str(method, "sqrt") {
            sqrt(&a)
        } else if eq_str(method, "log") {
            ln(&a)
        } else if eq_str(method, "log2") {
            ln(&a).div(&cst(crate::mathfn::LN_2_BITS))
        } else if eq_str(method, "log10") {
            ln(&a).div(&cst(crate::mathfn::LN_10_BITS))
        } else if eq_str(method, "sin") {
            sin(&a)
        } else if eq_str(method, "cos") {
            cos(&a)
        } else if eq_str(method, "tan") {
            let c = cos(&a);
            if c.is_zero() {
                Double::infinity(false)
            } else {
                sin(&a).div(&c)
            }
        } else if eq_str(method, "atan2") {
            atan2(&a, &b)
        } else if eq_str(method, "random") {
            self.next_random()
        } else if eq_str(method, "sign") {
            if a.gt(&zero) {
                Double::one()
            } else if a.lt(&zero) {
                Double::one().neg()
            } else {
                zero
            }
        } else if eq_str(method, "trunc") {
            trunc(&a)
        } else if eq_str(method, "cbrt") {
            cbrt(&a)
        } else if eq_str(method, "exp") {
            exp_fn(&a)
        } else if eq_str(method, "clz32") {
            let x = a.to_i32_sat() as u32;
            Double::from_u64(leading_zeros(x) as u64)
        } else if eq_str(method, "imul") {
            let x = a.to_i32_sat();
            let y = b.to_i32_sat();
            Double::from_i64(x.wrapping_mul(y) as i64)
        } else if eq_str(method, "fround") {
            a.round_to_single()
        } else if eq_str(method, "hypot") {
            let mut sum = Double::zero(false);
            let mut i: usize = 0;
            while i < args.len()
                invariant
                    0 <= i <= args@.len(),
                decreases args.len() - i,
            {
                let v = args[i].to_number();
                sum = sum.add(&v.mul(&v));
                i = i + 1;
            }
            sqrt(&sum)
        } else {
            Double::nan()
        };
        Value::Number(n)
    }
}

/// The entries of the object that `args` starts with; none when it starts with something else.
pub open spec fn first_object_entries(args: Seq<Value>) -> Seq<(Vec<char>, Value)> {
    if args.len() > 0 && args[0] is Object {
        args[0]->Object_0.seq()
    } else {
        Seq::empty()
    }
}

/// `e` is what `Object.keys` (`which == 0`), `Object.values` (1) or `Object.entries` (2)
/// lists for the entry `en`: its name, a copy of its value, or the pair of both.
pub open spec fn lists_entry(which: int, en: (Vec<char>, Value), e: Value) -> bool {
    if which == 0 {
        e matches Value::Str(s) && s@ == en.0@
    } else if which == 1 {
        equiv(en.1, e)
    } else {
        e matches Value::Array(p) && p@.len() == 2 && (p@[0] matches Value::Str(s) && s@ == en.0@)
            && equiv(en.1, p@[1])
    }
}

/// `r` is the array that lists every entry of `entries`, in their order.
pub open spec fn lists_entries(which: int, entries: Seq<(Vec<char>, Value)>, r: Value) -> bool {
    r matches Value::Array(v) && v@.len() == entries.len() && forall|i: int|
        0 <= i < entries.len() ==> lists_entry(which, entries[i], #[trigger] v@[i])
}

/// What `Object.assign(target, ...sources)` holds under `k`: the value of the last
/// object that has `k`, the target included; nothing when none has it.
pub open spec fn assign_source(args: Seq<Value>, k: Seq<char>) -> Option<Value>
    decreases args.len(),
{
    if args.len() == 0 {
        None
    } else if args.len() == 1 {
        if args[0] is Object {
            args[0]->Object_0.get_spec(k)
        } else {
            None
        }
    } else if args.last() is Object && args.last()->Object_0.get_spec(k) is Some {
        args.last()->Object_0.get_spec(k)
    } else {
        assign_source(args.drop_last(), k)
    }
}

/// What `Object.method(args)` gives.
pub open spec fn object_static_result(method: Seq<char>, args: Seq<Value>, r: Value) -> bool {
    &&& method == "keys"@ ==> lists_entries(0, first_object_entries(args), r)
    &&& method == "values"@ ==> lists_entries(1, first_object_entries(args), r)
    &&& method == "entries"@ ==> lists_entries(2, first_object_entries(args), r)
    &&& method == "assign"@ ==> (r matches Value::Object(t) && forall|k: Seq<char>|
        opt_equiv(assign_source(args, k), #[trigger] t.get_spec(k)))
    &&& (method == "freeze"@ || method == "seal"@ || method == "create"@ || method
        == "defineProperty"@) ==> (if args.len() > 0 {
        equiv(args[0], r)
    } else {
        r matches Value::Object(m) && m.seq().len() == 0
    })
    &&& !(method == "keys"@ || method == "values"@ || method == "entries"@ || method == "assign"@
        || method == "freeze"@ || method == "seal"@ || method == "create"@ || method
        == "defineProperty"@) ==> r is Undefined
}

/// `Object.keys`, `values`, `entries`, `assign`, and the identity stubs `freeze`,
/// `seal`, `create`, `defineProperty`.
pub fn object_static_call(method: &[char], args: &Vec<Value>) -> (r: Value)
    ensures
        object_static_result(method@, args@, r),
{
    proof {
        reveal_strlit("keys");
        reveal_strlit("values");
        reveal_strlit("entries");
        reveal_strlit("assign");
        reveal_strlit("freeze");
        reveal_strlit("seal");
        reveal_strlit("create");
        reveal_strlit("defineProperty");
        assert("keys"@.len() == 4 && "keys"@[0] == 'k');
        assert("values"@.len() == 6 && "values"@[0] == 'v');
        assert("entries"@.len() == 7);
        assert("assign"@.len() == 6 && "assign"@[0] == 'a');
        assert("freeze"@.len() == 6 && "freeze"@[0] == 'f');
        assert("seal"@.len() == 4 && "seal"@[0] == 's');
        assert("create"@.len() == 6 && "create"@[0] == 'c');
        assert("defineProperty"@.len() == 14);
    }
    let first_map: Option<&PropMap> = if args.len() > 0 {
        match &args[0] {
            Value::Object(m) => Some(m),
            _ => None,
        }
    } else {
        None
    };
    if eq_str(method, "keys") || eq_str(method, "values") || eq_str(method, "entries") {
        let which: u8 = if eq_str(method, "keys") {
            0
        } else if eq_str(method, "values") {
            1
        } else {
            2
        };
        let mut out: Vec<Value> = Vec::new();
        if let Some(map) = first_map {
            let mut i: usize = 0;
            while i < map.len()
                invariant
                    0 <= i <= map.seq().len(),
                    out@.len() == i,
                    which <= 2,
                    forall|j: int| 0 <= j < i ==> lists_entry(which as int, map.seq()[j], #[trigger] out@[j]),
                decreases map.seq().len() - i,
            {
                let k = Value::Str(clone_chars(map.key_at(i)));
                let v = clone_value(map.value_at(i));
                if which == 0 {
                    out.push(k);
                } else if which == 1 {
                    out.push(v);
                } else {
                    let pair = vec![k, v];
                    out.push(Value::Array(pair));
                }
                i = i + 1;
            }
        }
        Value::Array(out)
    } else if eq_str(method, "assign") {
        let mut target = match first_map {
            Some(m) => clone_map(m),
            None => PropMap::new(),
        };
        proof {
            if args@.len() > 0 {
                assert forall|k: Seq<char>| opt_equiv(assign_source(args@.take(1), k), #[trigger] target.get_spec(k)) by {
                    assert(args@.take(1).len() == 1 && args@.take(1)[0] == args@[0]);
                    if args@[0] is Object {
                        assert(first_map matches Some(m) && *m == args@[0]->Object_0);
                    }
                }
            } else {
                assert forall|k: Seq<char>| opt_equiv(assign_source(args@, k), #[trigger] target.get_spec(k)) by {
                }
            }
        }
        let mut i: usize = 1;
        while i < args.len()
            invariant
                1 <= i,
                i <= args@.len() || args@.len() == 0,
                args@.len() > 0 ==> forall|k: Seq<char>| opt_equiv(assign_source(args@.take(i as int), k), #[trigger] target.get_spec(k)),
                args@.len() == 0 ==> forall|k: Seq<char>| opt_equiv(assign_source(args@, k), #[trigger] target.get_spec(k)),
            decreases args.len() - i,
        {
            let ghost before = target;
            if let Value::Object(m) = &args[i] {
                target.extend_from(m);
            }
            proof {
                let t = args@.take(i + 1);
                assert(t.drop_last() =~= args@.take(i as int));
                assert(t.last() == args@[i as int]);
                assert forall|k: Seq<char>| opt_equiv(assign_source(t, k), #[trigger] target.get_spec(k)) by {
                    assert(opt_equiv(assign_source(args@.take(i as int), k), before.get_spec(k)));
                }
            }
            i = i + 1;
        }
        proof {
            if args@.len() > 0 {
                assert(args@.take(i as int) =~= args@);
            }
        }
        Value::Object(target)
    } else if eq_str(method, "freeze") || eq_str(method, "seal") || eq_str(method, "create")
        || eq_str(method, "defineProperty") {
        if args.len() > 0 {
            clone_value(&args[0])
        } else {
            Value::Object(PropMap::new())
        }
    } else {
        Value::Undefined
    }
}

/// `arr` flattened `depth` levels deep.
/// `s` flattened `depth` levels deep: while levels remain, each element that is an array
/// gives way to its own elements, flattened one level less.
pub open spec fn spec_flatten(s: Seq<Value>, depth: nat) -> Seq<Value>
    decreases depth, s.len(),
{
    if s.len() == 0 {
        Seq::empty()
    } else {
        spec_flatten(s.drop_last(), depth) + (if depth > 0 && s.last() is Array {
            spec_flatten(s.last()->Array_0@, (depth - 1) as nat)
        } else {
            seq![s.last()]
        })
    }
}

/// Element by element equivalent sequences.
pub open spec fn seq_equiv(a: Seq<Value>, b: Seq<Value>) -> bool {
    a.len() == b.len() && forall|i: int| 0 <= i < a.len() ==> equiv(#[trigger] a[i], b[i])
}

pub fn flatten_array(arr: &Vec<Value>, depth: usize) -> (r: Vec<Value>)
    ensures
        seq_equiv(spec_flatten(arr@, depth as nat), r@),
    decreases arr,
{
    let mut result: Vec<Value> = Vec::new();
    let mut i: usize = 0;
    assert(arr@.take(0) =~= Seq::<Value>::empty());
    while i < arr.len()
        invariant
            0 <= i <= arr@.len(),
            seq_equiv(spec_flatten(arr@.take(i as int), depth as nat), result@),
        decreases arr.len() - i,
    {
        proof {
            assert(decreases_to!(arr => arr@));
            assert(decreases_to!(arr@ => arr@[i as int]));
        }
        let ghost before = result@;
        let ghost t = arr@.take(i + 1);
        proof {
            assert(t.drop_last() =~= arr@.take(i as int));
            assert(t.last() == arr@[i as int]);
        }
        let mut done = false;
        if depth > 0 {
            if let Value::Array(inner) = &arr[i] {
                let mut flat = flatten_array(inner, depth - 1);
                let ghost fl = flat@;
                result.append(&mut flat);
                done = true;
                proof {
                    let a1 = spec_flatten(arr@.take(i as int), depth as nat);
                    let a2 = spec_flatten(inner@, (depth - 1) as nat);
                    assert(spec_flatten(t, depth as nat) == a1 + a2);
                    assert(result@ =~= before + fl);
                    assert forall|j: int| 0 <= j < (a1 + a2).len() implies equiv(#[trigger] (a1 + a2)[j], result@[j]) by {
                        if j < a1.len() {
                            assert(equiv(a1[j], before[j]));
                        } else {
                            assert(equiv(a2[j - a1.len()], fl[j - a1.len()]));
                        }
                    }
                }
            }
        }
        if !done {
            let c = clone_value(&arr[i]);
            result.push(c);
            proof {
                let a1 = spec_flatten(arr@.take(i as int), depth as nat);
                assert(spec_flatten(t, depth as nat) == a1 + seq![arr@[i as int]]);
                assert forall|j: int| 0 <= j < a1.len() + 1 implies equiv(#[trigger] (a1 + seq![arr@[i as int]])[j], result@[j]) by {
                    if j < a1.len() {
                        assert(equiv(a1[j], before[j]));
                    }
                }
            }
        }
        i = i + 1;
    }
    assert(arr@.take(arr@.len() as int) =~= arr@);
    result
}

/// `p` lists each index below `n` once.
pub open spec fn is_index_perm(p: Seq<int>, n: int) -> bool {
    &&& p.len() == n
    &&& forall|j: int| 0 <= j < n ==> 0 <= #[trigger] p[j] < n
    &&& forall|a: int, b: int| 0 <= a < b < n ==> #[trigger] p[a] != #[trigger] p[b]
}

/// `r` holds copies of the items of `arr` in the order `p`; when all items are strings (or,
/// more generally, all have string forms), that order is ascending by those strings and
/// keeps equal ones in the order they came in.
pub open spec fn sorted_as(arr: Seq<Value>, p: Seq<int>, r: Seq<Value>) -> bool {
    &&& r.len() == p.len()
    &&& forall|j: int| 0 <= j < r.len() ==> equiv(arr[p[j]], #[trigger] r[j])
    &&& all_strings(arr) ==> forall|a: int, b: int|
        0 <= a < b < r.len() ==> !spec_str_less(
            #[trigger] arr[p[b]]->Str_0@,
            #[trigger] arr[p[a]]->Str_0@,
        ) && (arr[p[a]]->Str_0@ == arr[p[b]]->Str_0@ ==> p[a] < p[b])
    &&& all_formed(arr) ==> forall|a: int, b: int|
        0 <= a < b < r.len() ==> !spec_str_less(
            #[trigger] string_form(arr[p[b]])->0,
            #[trigger] string_form(arr[p[a]])->0,
        ) && (string_form(arr[p[a]])->0 == string_form(arr[p[b]])->0 ==> p[a] < p[b])
}

/// `str_less` is asymmetric.
proof fn lemma_str_less_asym(a: Seq<char>, b: Seq<char>)
    requires
        spec_str_less(a, b),
    ensures
        !spec_str_less(b, a),
{
    if spec_str_less(b, a) {
        lemma_str_less_transitive(a, b, a);
        lemma_str_less_irreflexive(a);
    }
}

/// Keys in ascending order, equal keys in the order of their indices.
pub open spec fn keys_in_order(keys: Seq<Seq<char>>, idx: Seq<int>) -> bool {
    forall|a: int, b: int|
        0 <= a < b < keys.len() ==> !spec_str_less(#[trigger] keys[b], #[trigger] keys[a]) && (
        keys[a] == keys[b] ==> idx[a] < idx[b])
}

/// The array sorted by the string forms of its elements (stable).
pub fn sort_by_string(arr: &Vec<Value>) -> (r: Vec<Value>)
    ensures
        r@.len() == arr@.len(),
        exists|p: Seq<int>| #[trigger] is_index_perm(p, arr@.len() as int) && sorted_as(arr@, p, r@),
{
    let mut keyed: Vec<(Vec<char>, Value)> = Vec::new();
    let ghost mut idx: Seq<int> = Seq::empty();
    let mut i: usize = 0;
    while i < arr.len()
        invariant
            0 <= i <= arr@.len(),
            keyed@.len() == i,
            idx.len() == i,
            forall|m: int| 0 <= m < i ==> 0 <= #[trigger] idx[m] < i,
            forall|a: int, b: int| 0 <= a < b < i ==> #[trigger] idx[a] != #[trigger] idx[b],
            forall|m: int| 0 <= m < i ==> equiv(arr@[idx[m]], (#[trigger] keyed@[m]).1),
            all_strings(arr@) ==> forall|m: int| 0 <= m < i ==> (#[trigger] keyed@[m]).0@ == arr@[idx[m]]->Str_0@,
            all_formed(arr@) ==> forall|m: int| 0 <= m < i ==> (#[trigger] keyed@[m]).0@ == string_form(arr@[idx[m]])->0,
            keys_in_order(keyed@.map_values(|e: (Vec<char>, Value)| e.0@), idx),
        decreases arr.len() - i,
    {
        let key = arr[i].to_string_val();
        let item = clone_value(&arr[i]);
        let ghost ks = keyed@.map_values(|e: (Vec<char>, Value)| e.0@);
        // insert after every element whose key is not greater
        let mut pos = keyed.len();
        while pos > 0 && str_less(key.as_slice(), keyed[pos - 1].0.as_slice())
            invariant
                pos <= keyed@.len(),
                ks == keyed@.map_values(|e: (Vec<char>, Value)| e.0@),
                forall|m: int| pos <= m < keyed@.len() ==> spec_str_less(key@, #[trigger] ks[m]),
            decreases pos,
        {
            pos = pos - 1;
        }
        let ghost old_keyed = keyed@;
        let ghost old_idx = idx;
        keyed.insert(pos, (key, item));
        proof {
            idx = old_idx.insert(pos as int, i as int);
            let nks = keyed@.map_values(|e: (Vec<char>, Value)| e.0@);
            assert(nks =~= ks.insert(pos as int, key@));
            assert forall|a: int, b: int| 0 <= a < b < nks.len() implies !spec_str_less(
                #[trigger] nks[b],
                #[trigger] nks[a],
            ) && (nks[a] == nks[b] ==> idx[a] < idx[b]) by {
                let p = pos as int;
                if b < p {
                    assert(nks[a] == ks[a] && nks[b] == ks[b]);
                } else if a > p {
                    assert(nks[a] == ks[a - 1] && nks[b] == ks[b - 1]);
                } else if a < p && b > p {
                    assert(nks[a] == ks[a] && nks[b] == ks[b - 1]);
                    if spec_str_less(ks[b - 1], ks[a]) {
                        // a < b - 1 in the old order
                        assert(false);
                    }
                } else if b == p {
                    assert(nks[b] == key@ && nks[a] == ks[a]);
                    assert(!spec_str_less(key@, ks[p - 1]));
                    if spec_str_less(key@, ks[a]) {
                        if ks[p - 1] == ks[a] {
                        } else {
                            lemma_str_less_total(ks[p - 1], ks[a]);
                            if a < p - 1 {
                                assert(!spec_str_less(ks[p - 1], ks[a]));
                            }
                            lemma_str_less_transitive(key@, ks[a], ks[p - 1]);
                        }
                    }
                } else {
                    assert(a == p && b > p);
                    assert(nks[a] == key@ && nks[b] == ks[b - 1]);
                    assert(spec_str_less(key@, ks[b - 1]));
                    lemma_str_less_asym(key@, ks[b - 1]);
                    lemma_str_less_irreflexive(key@);
                }
            }
            assert(keys_in_order(nks, idx));
            assert forall|m: int| 0 <= m < i + 1 implies equiv(arr@[idx[m]], (#[trigger] keyed@[m]).1) by {
                if m < pos {
                    assert(keyed@[m] == old_keyed[m]);
                } else if m > pos {
                    assert(keyed@[m] == old_keyed[m - 1]);
                }
            }
            if all_formed(arr@) {
                assert forall|m: int| 0 <= m < i + 1 implies (#[trigger] keyed@[m]).0@ == string_form(arr@[idx[m]])->0 by {
                    if m < pos {
                        assert(keyed@[m] == old_keyed[m]);
                    } else if m > pos {
                        assert(keyed@[m] == old_keyed[m - 1]);
                    } else {
                        assert(string_form(arr@[i as int]) is Some);
                    }
                }
            }
            if all_strings(arr@) {
                assert forall|m: int| 0 <= m < i + 1 implies (#[trigger] keyed@[m]).0@ == arr@[idx[m]]->Str_0@ by {
                    if m < pos {
                        assert(keyed@[m] == old_keyed[m]);
                    } else if m > pos {
                        assert(keyed@[m] == old_keyed[m - 1]);
                    } else {
                        assert(arr@[i as int] is Str);
                    }
                }
            }
            assert forall|a: int, b: int| 0 <= a < b < i + 1 implies #[trigger] idx[a] != #[trigger] idx[b] by {
                let p = pos as int;
                if a < p && b < p {
                } else if a > p {
                } else if a < p && b > p {
                } else if a == p {
                    assert(old_idx[b - 1] < i);
                } else {
                    assert(b == p);
                    assert(old_idx[a] < i);
                }
            }
        }
        i = i + 1;
    }
    let mut out: Vec<Value> = Vec::new();
    let mut k: usize = 0;
    while k < keyed.len()
        invariant
            0 <= k <= keyed@.len(),
            out@.len() == k,
            forall|m: int| 0 <= m < k ==> equiv((#[trigger] keyed@[m]).1, out@[m]),
        decreases keyed.len() - k,
    {
        out.push(clone_value(&keyed[k].1));
        k = k + 1;
    }
    proof {
        let n = arr@.len() as int;
        assert forall|j: int| 0 <= j < out@.len() implies equiv(arr@[idx[j]], #[trigger] out@[j]) by {
            assert(equiv(arr@[idx[j]], keyed@[j].1));
            assert(equiv(keyed@[j].1, out@[j]));
            lemma_equiv_trans(arr@[idx[j]], keyed@[j].1, out@[j]);
        }
        if all_strings(arr@) {
            let ks = keyed@.map_values(|e: (Vec<char>, Value)| e.0@);
            assert forall|a: int, b: int| 0 <= a < b < out@.len() implies !spec_str_less(
                #[trigger] arr@[idx[b]]->Str_0@,
                #[trigger] arr@[idx[a]]->Str_0@,
            ) && (arr@[idx[a]]->Str_0@ == arr@[idx[b]]->Str_0@ ==> idx[a] < idx[b]) by {
                assert(ks[a] == keyed@[a].0@ && ks[b] == keyed@[b].0@);
            }
        }
        if all_formed(arr@) {
            let ks = keyed@.map_values(|e: (Vec<char>, Value)| e.0@);
            assert forall|a: int, b: int| 0 <= a < b < out@.len() implies !spec_str_less(
                #[trigger] string_form(arr@[idx[b]])->0,
                #[trigger] string_form(arr@[idx[a]])->0,
            ) && (string_form(arr@[idx[a]])->0 == string_form(arr@[idx[b]])->0 ==> idx[a] < idx[b]) by {
                assert(ks[a] == keyed@[a].0@ && ks[b] == keyed@[b].0@);
            }
        }
        assert(is_index_perm(idx, n));
        assert(sorted_as(arr@, idx, out@));
    }
    out
}

/// `===` gives the same answer against equivalent values.
pub proof fn lemma_strict_eq_equiv(a: Value, b: Value, c: Value)
    requires
        equiv(b, c),
    ensures
        spec_strict_eq(a, b) == spec_strict_eq(a, c),
{
}

/// Argument `i`, or `undefined` where it is absent.
pub open spec fn spec_arg(args: Seq<Value>, i: int) -> Value {
    if 0 <= i < args.len() {
        args[i]
    } else {
        Value::Undefined
    }
}

/// Argument `i` read as `x as i64` where it is a number, `dflt` where it is absent;
/// nothing for any other value.
pub open spec fn int_arg(args: Seq<Value>, i: int, dflt: int) -> Option<int> {
    if i >= args.len() {
        Some(dflt)
    } else {
        match args[i] {
            Value::Number(x) => Some(spec_clamp(spec_trunc(x), i64::MIN as int, i64::MAX as int)),
            _ => None,
        }
    }
}

/// Argument `i` read as `x as usize` where it is a number, `dflt` where it is absent;
/// nothing for any other value.
pub open spec fn uint_arg(args: Seq<Value>, i: int, dflt: int) -> Option<int> {
    if i >= args.len() {
        Some(dflt)
    } else {
        match args[i] {
            Value::Number(x) => Some(spec_clamp(spec_trunc(x), 0, usize::MAX as int)),
            _ => None,
        }
    }
}

/// A `slice` bound on `len` items: a negative bound counts from the end, never below 0.
pub open spec fn slice_bound(b: int, len: int) -> int {
    if b < 0 {
        if len + b > 0 {
            len + b
        } else {
            0
        }
    } else {
        b
    }
}

/// The items of `arr.slice(start, end)`.
pub open spec fn spec_slice(arr: Seq<Value>, start: int, end: int) -> Seq<Value> {
    let s = slice_bound(start, arr.len() as int);
    let e0 = slice_bound(end, arr.len() as int);
    let e = if e0 > arr.len() {
        arr.len() as int
    } else {
        e0
    };
    if s >= e {
        Seq::empty()
    } else {
        arr.subrange(s, e)
    }
}

/// The items that `arr.splice(start, count)` takes out.
pub open spec fn spec_splice_removed(arr: Seq<Value>, start: int, count: int) -> Seq<Value> {
    let n = arr.len() as int;
    let end = if count > n || start > n - count {
        n
    } else {
        start + count
    };
    if start < n {
        arr.subrange(start, end)
    } else {
        Seq::empty()
    }
}

/// What `concat` appends: the items of each array argument, any other argument itself.
pub open spec fn spec_concat_args(args: Seq<Value>) -> Seq<Value>
    decreases args.len(),
{
    if args.len() == 0 {
        Seq::empty()
    } else {
        spec_concat_args(args.drop_last()) + match args.last() {
            Value::Array(o) => o@,
            a => seq![a],
        }
    }
}

/// `i` is where `indexOf` finds `v` in `arr`: the first strictly equal item, or -1.
pub open spec fn first_match_index(arr: Seq<Value>, v: Value, i: int) -> bool {
    if i >= 0 {
        i < arr.len() && spec_strict_eq(arr[i], v) && forall|j: int|
            0 <= j < i ==> !spec_strict_eq(#[trigger] arr[j], v)
    } else {
        i == -1 && forall|j: int| 0 <= j < arr.len() ==> !spec_strict_eq(#[trigger] arr[j], v)
    }
}

/// The methods that `array_method` knows.
pub open spec fn array_method_known(m: Seq<char>) -> bool {
    m == "includes"@ || m == "pop"@ || m == "shift"@ || m == "reverse"@ || m == "fill"@ || m
        == "toString"@ || m == "join"@ || m == "push"@ || m == "unshift"@ || m == "indexOf"@ || m
        == "slice"@ || m == "concat"@ || m == "flat"@ || m == "sort"@ || m == "splice"@
}

/// What `array_method(arr, method, args)` gives.
pub open spec fn array_method_result(arr: Seq<Value>, method: Seq<char>, args: Seq<Value>, r: Value) -> bool {
    &&& method == "includes"@ ==> r == Value::Bool(
        exists|i: int| 0 <= i < arr.len() && spec_strict_eq(#[trigger] arr[i], spec_arg(args, 0)),
    )
    &&& method == "pop"@ ==> (if arr.len() > 0 {
        equiv(arr.last(), r)
    } else {
        r is Undefined
    })
    &&& method == "shift"@ ==> (if arr.len() > 0 {
        equiv(arr[0], r)
    } else {
        r is Undefined
    })
    &&& method == "reverse"@ ==> (r matches Value::Array(v) && v@.len() == arr.len() && forall|i: int|
        0 <= i < arr.len() ==> equiv(arr[arr.len() - 1 - i], #[trigger] v@[i]))
    &&& method == "fill"@ ==> (r matches Value::Array(v) && v@.len() == arr.len() && forall|i: int|
        0 <= i < arr.len() ==> equiv(spec_arg(args, 0), #[trigger] v@[i]))
    &&& method == "toString"@ && all_strings(arr) ==> (r matches Value::Str(t) && t@ == spec_join(
        string_views(arr),
        ","@,
    ))
    &&& method == "join"@ && all_strings(arr) && args.len() > 0 ==> (args[0] matches Value::Str(
        sep,
    ) ==> (r matches Value::Str(t) && t@ == spec_join(string_views(arr), sep@)))
    &&& method == "join"@ && all_formed(arr) && args.len() > 0 ==> (args[0] matches Value::Str(
        sep,
    ) ==> (r matches Value::Str(t) && t@ == spec_join(string_forms(arr), sep@)))
    &&& (method == "toString"@ || (method == "join"@ && args.len() == 0)) && all_formed(arr) ==> (
    r matches Value::Str(t) && t@ == spec_join(string_forms(arr), ","@))
    &&& method == "push"@ || method == "unshift"@ ==> (r matches Value::Number(x) && (arr.len()
        + args.len() < 0x20_0000_0000_0000 ==> spec_is_int_value(x, (arr.len() + args.len()) as int)))
    &&& method == "indexOf"@ ==> (r matches Value::Number(x) && (arr.len() < 0x20_0000_0000_0000
        ==> exists|i: int| #[trigger] first_match_index(arr, spec_arg(args, 0), i)
        && spec_is_int_value(x, i)))
    &&& method == "slice"@ ==> (r matches Value::Array(v) && (int_arg(args, 0, 0) matches Some(
        s0,
    ) ==> (int_arg(args, 1, arr.len() as int) matches Some(e0) ==> seq_equiv(
        spec_slice(arr, s0, e0),
        v@,
    ))))
    &&& method == "concat"@ ==> (r matches Value::Array(v) && seq_equiv(
        arr + spec_concat_args(args),
        v@,
    ))
    &&& method == "flat"@ ==> (r matches Value::Array(v) && (uint_arg(args, 0, 1) matches Some(d)
        ==> seq_equiv(spec_flatten(arr, d as nat), v@)))
    &&& method == "sort"@ ==> (r matches Value::Array(v) && v@.len() == arr.len() && exists|
        p: Seq<int>,
    | #[trigger] is_index_perm(p, arr.len() as int) && sorted_as(arr, p, v@))
    &&& method == "splice"@ ==> (r matches Value::Array(v) && (uint_arg(args, 0, 0) matches Some(
        st,
    ) ==> (uint_arg(args, 1, arr.len() as int) matches Some(dc) ==> seq_equiv(
        spec_splice_removed(arr, st, dc),
        v@,
    ))))
    &&& !array_method_known(method) ==> r is Undefined
}

/// The array methods that take no callback.
pub fn array_method(arr: &Vec<Value>, method: &[char], args: &Vec<Value>) -> (r: Value)
    ensures
        array_method_result(arr@, method@, args@, r),
{
    proof {
        reveal_strlit("includes");
        reveal_strlit("pop");
        reveal_strlit("shift");
        reveal_strlit("reverse");
        reveal_strlit("fill");
        reveal_strlit("toString");
        reveal_strlit("join");
        reveal_strlit("push");
        reveal_strlit("unshift");
        reveal_strlit("indexOf");
        reveal_strlit("slice");
        reveal_strlit("concat");
        reveal_strlit("flat");
        reveal_strlit("sort");
        reveal_strlit("splice");
        reveal_strlit(",");
        assert("includes"@.len() == 8 && "pop"@.len() == 3 && "shift"@.len() == 5 && "reverse"@.len()
            == 7 && "fill"@.len() == 4 && "toString"@.len() == 8 && "join"@.len() == 4
            && "push"@.len() == 4 && "unshift"@.len() == 7 && "indexOf"@.len() == 7
            && "slice"@.len() == 5 && "concat"@.len() == 6 && "flat"@.len() == 4 && "sort"@.len()
            == 4 && "splice"@.len() == 6);
        assert("includes"@[0] != "toString"@[0] && "fill"@[0] != "join"@[0] && "fill"@[0]
            != "push"@[0] && "fill"@[1] != "flat"@[1] && "fill"@[0] != "sort"@[0] && "join"@[0]
            != "push"@[0] && "join"@[0] != "flat"@[0] && "join"@[0] != "sort"@[0] && "push"@[0]
            != "flat"@[0] && "push"@[0] != "sort"@[0] && "flat"@[0] != "sort"@[0] && "shift"@[1]
            != "slice"@[1] && "concat"@[0] != "splice"@[0] && "reverse"@[0] != "unshift"@[0]
            && "reverse"@[0] != "indexOf"@[0] && "unshift"@[0] != "indexOf"@[0]);
    }
    let n = arr.len();
    if eq_str(method, "includes") {
        let needle = arg_or_undefined(args, 0);
        let ghost orig = spec_arg(args@, 0);
        let mut i: usize = 0;
        let mut found = false;
        while i < n
            invariant_except_break
                !found,
            invariant
                n == arr@.len(),
                0 <= i <= n,
                equiv(orig, needle),
                forall|j: int| 0 <= j < i ==> !spec_strict_eq(#[trigger] arr@[j], orig),
            ensures
                found ==> i < n && spec_strict_eq(arr@[i as int], orig),
                !found ==> i == n,
            decreases n - i,
        {
            proof {
                lemma_strict_eq_equiv(arr@[i as int], orig, needle);
            }
            if arr[i].strict_eq(&needle) {
                found = true;
                break;
            }
            i = i + 1;
        }
        Value::Bool(found)
    } else if eq_str(method, "pop") {
        if n > 0 {
            clone_value(&arr[n - 1])
        } else {
            Value::Undefined
        }
    } else if eq_str(method, "shift") {
        if n > 0 {
            clone_value(&arr[0])
        } else {
            Value::Undefined
        }
    } else if eq_str(method, "reverse") {
        let mut result: Vec<Value> = Vec::new();
        let mut i = n;
        while i > 0
            invariant
                i <= n,
                n == arr@.len(),
                result@.len() == n - i,
                forall|j: int| 0 <= j < n - i ==> equiv(arr@[n - 1 - j], #[trigger] result@[j]),
            decreases i,
        {
            i = i - 1;
            result.push(clone_value(&arr[i]));
        }
        Value::Array(result)
    } else if eq_str(method, "fill") {
        let fill_val = arg_or_undefined(args, 0);
        let ghost orig = spec_arg(args@, 0);
        let mut result: Vec<Value> = Vec::new();
        let mut i: usize = 0;
        while i < n
            invariant
                0 <= i <= n,
                n == arr@.len(),
                result@.len() == i,
                equiv(orig, fill_val),
                forall|j: int| 0 <= j < i ==> equiv(orig, #[trigger] result@[j]),
            decreases n - i,
        {
            let c = clone_value(&fill_val);
            proof {
                crate::value::lemma_equiv_trans(orig, fill_val, c);
            }
            result.push(c);
            i = i + 1;
        }
        Value::Array(result)
    } else if eq_str(method, "join") || eq_str(method, "toString") {
        let sep = if eq_str(method, "join") && args.len() > 0 {
            args[0].to_string_val()
        } else {
            let c = vec![','];
            assert(c@ =~= ","@);
            c
        };
        Value::Str(join_values(arr, &sep))
    } else if eq_str(method, "push") || eq_str(method, "unshift") {
        let total = match (n as u64).checked_add(args.len() as u64) {
            Some(t) => Double::from_u64(t),
            None => Double::from_u64(n as u64).add(&Double::from_u64(args.len() as u64)),
        };
        Value::Number(total)
    } else if eq_str(method, "indexOf") {
        let needle = arg_or_undefined(args, 0);
        let ghost orig = spec_arg(args@, 0);
        let mut i: usize = 0;
        let mut found = false;
        while i < n
            invariant_except_break
                !found,
            invariant
                n == arr@.len(),
                0 <= i <= n,
                equiv(orig, needle),
                forall|j: int| 0 <= j < i ==> !spec_strict_eq(#[trigger] arr@[j], orig),
            ensures
                found ==> i < n && spec_strict_eq(arr@[i as int], orig),
                !found ==> i == n,
            decreases n - i,
        {
            proof {
                lemma_strict_eq_equiv(arr@[i as int], orig, needle);
            }
            if arr[i].strict_eq(&needle) {
                found = true;
                break;
            }
            i = i + 1;
        }
        if found {
            assert(first_match_index(arr@, orig, i as int));
            Value::Number(Double::from_usize(i))
        } else {
            assert(first_match_index(arr@, orig, -1));
            Value::Number(Double::from_i64(-1))
        }
    } else if eq_str(method, "slice") {
        let len = n as i128;
        let mut start = if args.len() > 0 {
            args[0].to_number().to_i64() as i128
        } else {
            0
        };
        let mut end = if args.len() > 1 {
            args[1].to_number().to_i64() as i128
        } else {
            len
        };
        let ghost s0 = start as int;
        let ghost e0 = end as int;
        if start < 0 {
            start = if len + start > 0 {
                len + start
            } else {
                0
            };
        }
        if end < 0 {
            end = if len + end > 0 {
                len + end
            } else {
                0
            };
        }
        let e = if end > len {
            len
        } else {
            end
        };
        assert(start == slice_bound(s0, n as int));
        if start >= e {
            assert(spec_slice(arr@, s0, e0) =~= Seq::<Value>::empty());
            Value::Array(Vec::new())
        } else {
            let v = clone_range(arr, start as usize, e as usize);
            assert(spec_slice(arr@, s0, e0) =~= arr@.subrange(start as int, e as int));
            Value::Array(v)
        }
    } else if eq_str(method, "concat") {
        let mut result = clone_values(arr);
        let mut i: usize = 0;
        proof {
            assert(args@.take(0) =~= Seq::<Value>::empty());
            assert(arr@ + spec_concat_args(args@.take(0)) =~= arr@);
        }
        while i < args.len()
            invariant
                0 <= i <= args@.len(),
                seq_equiv(arr@ + spec_concat_args(args@.take(i as int)), result@),
            decreases args.len() - i,
        {
            let ghost before = result@;
            proof {
                assert(args@.take(i + 1).drop_last() =~= args@.take(i as int));
                assert(args@.take(i + 1).last() == args@[i as int]);
            }
            match &args[i] {
                Value::Array(other) => {
                    let mut c = clone_values(other);
                    result.append(&mut c);
                    proof {
                        assert(arr@ + spec_concat_args(args@.take(i + 1)) =~= (arr@
                            + spec_concat_args(args@.take(i as int))) + other@);
                    }
                },
                a => {
                    let c = clone_value(a);
                    result.push(c);
                    proof {
                        assert(arr@ + spec_concat_args(args@.take(i + 1)) =~= (arr@
                            + spec_concat_args(args@.take(i as int))).push(*a));
                    }
                },
            }
            i = i + 1;
        }
        proof {
            assert(args@.take(args@.len() as int) =~= args@);
        }
        Value::Array(result)
    } else if eq_str(method, "flat") {
        let depth = if args.len() > 0 {
            args[0].to_number().to_usize_sat()
        } else {
            1
        };
        Value::Array(flatten_array(arr, depth))
    } else if eq_str(method, "sort") {
        Value::Array(sort_by_string(arr))
    } else if eq_str(method, "splice") {
        let start = if args.len() > 0 {
            args[0].to_number().to_usize_sat()
        } else {
            0
        };
        let delete_count = if args.len() > 1 {
            args[1].to_number().to_usize_sat()
        } else {
            n
        };
        let end = if delete_count > n || start > n - delete_count {
            n
        } else {
            start + delete_count
        };
        if start < n {
            let v = clone_range(arr, start, end);
            Value::Array(v)
        } else {
            Value::Array(Vec::new())
        }
    } else {
        Value::Undefined
    }
}

/// Copies of `arr[from..to]`.
fn clone_range(arr: &Vec<Value>, from: usize, to: usize) -> (r: Vec<Value>)
    requires
        from <= to <= arr@.len(),
    ensures
        seq_equiv(arr@.subrange(from as int, to as int), r@),
{
    let mut out: Vec<Value> = Vec::new();
    let mut i = from;
    while i < to
        invariant
            from <= i <= to <= arr@.len(),
            seq_equiv(arr@.subrange(from as int, i as int), out@),
        decreases to - i,
    {
        out.push(clone_value(&arr[i]));
        i = i + 1;
    }
    out
}

} // verus!
