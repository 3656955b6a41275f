//! Number parsing with the interpreter's own decimal algorithm: digits are accumulated
//! in binary64 arithmetic (`v * 10 + d`, fractional digits scaled by repeated `0.1`),
//! then the exponent is applied by repeated multiplication or division by ten.
use vstd::prelude::*;
use crate::double::{Double, Class, spec_is_int_value, spec_safe_int, safe_limit, lemma_zero_int};
use crate::text::{trim, slice_range, str_to_chars, eq_str, spec_trim};

verus! {

pub const TEN_BITS: u64 = 0x4024000000000000u64;
pub const TENTH_BITS: u64 = 0x3fb999999999999au64;

pub open spec fn spec_is_digit_char(c: char) -> bool {
    '0' <= c <= '9'
}

/// Value of a digit character as a binary64 number.
fn digit_value(c: char) -> (r: Double)
    requires
        spec_is_digit_char(c),
    ensures
        spec_is_int_value(r, (c as u32) - 0x30),
{
    Double::from_u64(((c as u32) - 0x30) as u64)
}

/// `10^n`.
pub open spec fn spec_pow10(n: nat) -> int
    decreases n,
{
    if n == 0 {
        1
    } else {
        10 * spec_pow10((n - 1) as nat)
    }
}

/// `10^n <= 10^14` for `n <= 14`.
proof fn lemma_pow10_le(n: nat)
    requires
        n <= 14,
    ensures
        1 <= spec_pow10(n) <= 100_000_000_000_000,
{
    lemma_pow10_mono(n, 14);
    assert(spec_pow10(14) == 100_000_000_000_000) by {
        reveal_with_fuel(spec_pow10, 15);
    }
}

/// `1 <= 10^n <= 10^15` for `n <= 15`.
pub proof fn lemma_pow10_le_15(n: nat)
    requires
        n <= 15,
    ensures
        1 <= spec_pow10(n) <= 1_000_000_000_000_000,
{
    lemma_pow10_mono(n, 15);
    assert(spec_pow10(15) == 1_000_000_000_000_000) by {
        reveal_with_fuel(spec_pow10, 16);
    }
}

/// `10^n` grows with `n`.
proof fn lemma_pow10_mono(n: nat, m: nat)
    requires
        n <= m,
    ensures
        1 <= spec_pow10(n) <= spec_pow10(m),
    decreases m,
{
    if m > n {
        lemma_pow10_mono(n, (m - 1) as nat);
    } else {
        lemma_pow10_pos(n);
    }
}

/// `10^n >= 1`.
proof fn lemma_pow10_pos(n: nat)
    ensures
        spec_pow10(n) >= 1,
    decreases n,
{
    if n > 0 {
        lemma_pow10_pos((n - 1) as nat);
    }
}

/// `10^exp` by repeated multiplication (or division for negative `exp`) starting from 1;
/// exact for `0 <= exp <= 15`.
pub fn pow10(exp: i32) -> (r: Double)
    ensures
        exp == 0 ==> r.bits == 0x3FF0_0000_0000_0000,
        0 <= exp <= 15 ==> spec_is_int_value(r, spec_pow10(exp as nat)),
{
    let ten = Double::from_u64(10);
    let mut result = Double::one();
    if exp >= 0 {
        let mut i: i32 = 0;
        while i < exp
            invariant
                0 <= i <= exp,
                i == 0 ==> result.bits == 0x3FF0_0000_0000_0000,
                spec_is_int_value(ten, 10),
                exp <= 15 ==> spec_is_int_value(result, spec_pow10(i as nat)),
            ensures
                exp == 0 ==> result.bits == 0x3FF0_0000_0000_0000,
                exp <= 15 ==> spec_is_int_value(result, spec_pow10(exp as nat)),
            decreases exp - i,
        {
            proof {
                if exp <= 15 {
                    lemma_pow10_le(i as nat);
                    assert(spec_safe_int(result, spec_pow10(i as nat)));
                    assert(spec_safe_int(ten, 10));
                    assert(spec_pow10((i + 1) as nat) == spec_pow10(i as nat) * 10);
                }
            }
            if result.is_infinite() {
                // further products stay infinite
                break;
            }
            result = result.mul(&ten);
            i = i + 1;
        }
    } else {
        let n: i64 = -(exp as i64);
        let mut i: i64 = 0;
        while i < n
            invariant
                0 <= i <= n,
            decreases n - i,
        {
            if result.is_zero() {
                // further quotients stay zero
                break;
            }
            result = result.div(&ten);
            i = i + 1;
        }
    }
    result
}

/// Position of the first `e` or `E` in `s`, if any.
fn find_exp_marker(s: &[char]) -> (r: Option<usize>)
    ensures
        r matches Some(i) ==> i < s@.len() && (s@[i as int] == 'e' || s@[i as int] == 'E') && forall|j: int|
            0 <= j < i ==> s@[j] != 'e' && s@[j] != 'E',
        r is None ==> forall|j: int| 0 <= j < s@.len() ==> s@[j] != 'e' && s@[j] != 'E',
{
    let mut i: usize = 0;
    while i < s.len()
        invariant
            0 <= i <= s@.len(),
            forall|j: int| 0 <= j < i ==> s@[j] != 'e' && s@[j] != 'E',
        decreases s.len() - i,
    {
        if s[i] == 'e' || s[i] == 'E' {
            return Some(i);
        }
        i = i + 1;
    }
    None
}

/// Position of the first `c` in `s`, if any.
pub fn find_char(s: &[char], c: char) -> (r: Option<usize>)
    ensures
        r matches Some(i) ==> i < s@.len() && s@[i as int] == c && forall|j: int|
            0 <= j < i ==> s@[j] != c,
        r is None ==> forall|j: int| 0 <= j < s@.len() ==> s@[j] != c,
{
    let mut i: usize = 0;
    while i < s.len()
        invariant
            0 <= i <= s@.len(),
            forall|j: int| 0 <= j < i ==> s@[j] != c,
        decreases s.len() - i,
    {
        if s[i] == c {
            return Some(i);
        }
        i = i + 1;
    }
    None
}

/// Reading exponent digits from `i` on with `e` read so far: each digit makes
/// `e * 10 + d` (wrapping); another character is skipped, or ends the reading where
/// `stop` is set.
pub open spec fn spec_exponent_from(digits: Seq<char>, i: int, e: i32, stop: bool) -> i32
    decreases digits.len() - i,
{
    if i < 0 || i >= digits.len() {
        e
    } else if '0' <= digits[i] <= '9' {
        spec_exponent_from(
            digits,
            i + 1,
            e.wrapping_mul(10).wrapping_add(((digits[i] as u32) - 0x30) as i32),
            stop,
        )
    } else if stop {
        e
    } else {
        spec_exponent_from(digits, i + 1, e, stop)
    }
}

/// Accumulates the exponent digits (`e = e * 10 + d`, wrapping like release builds).
fn exponent_value(digits: &[char], stop_at_non_digit: bool) -> (r: i32)
    ensures
        r == spec_exponent_from(digits@, 0, 0, stop_at_non_digit),
{
    let mut exp_val: i32 = 0;
    let mut i: usize = 0;
    while i < digits.len()
        invariant
            0 <= i <= digits@.len(),
            spec_exponent_from(digits@, 0, 0, stop_at_non_digit) == spec_exponent_from(
                digits@,
                i as int,
                exp_val,
                stop_at_non_digit,
            ),
        ensures
            spec_exponent_from(digits@, 0, 0, stop_at_non_digit) == exp_val,
        decreases digits.len() - i,
    {
        let c = digits[i];
        if '0' <= c && c <= '9' {
            let d = ((c as u32) - 0x30) as i32;
            exp_val = exp_val.wrapping_mul(10).wrapping_add(d);
        } else if stop_at_non_digit {
            break;
        }
        i = i + 1;
    }
    exp_val
}

/// The float parser of number literals: non-digit characters inside the parts are skipped.
pub fn parse_float(text: &[char]) -> (r: Result<Double, Vec<char>>)
    ensures
        r is Err <==> spec_trim(text@).len() == 0,
        r matches Err(msg) ==> msg@ == "empty number"@,
{
    let t = trim(text);
    if t.len() == 0 {
        return Err(str_to_chars("empty number"));
    }
    let negative = t[0] == '-';
    let s = if negative {
        slice_range(t.as_slice(), 1, t.len())
    } else {
        slice_range(t.as_slice(), 0, t.len())
    };
    let (mantissa, exp_part) = match find_exp_marker(s.as_slice()) {
        Some(p) => (slice_range(s.as_slice(), 0, p), Some(slice_range(s.as_slice(), p + 1, s.len()))),
        None => (slice_range(s.as_slice(), 0, s.len()), None),
    };
    let (int_part, frac_part) = match find_char(mantissa.as_slice(), '.') {
        Some(p) => (
            slice_range(mantissa.as_slice(), 0, p),
            Some(slice_range(mantissa.as_slice(), p + 1, mantissa.len())),
        ),
        None => (slice_range(mantissa.as_slice(), 0, mantissa.len()), None),
    };
    let ten = Double::from_bits(TEN_BITS);
    let tenth = Double::from_bits(TENTH_BITS);
    let mut val = Double::zero(false);
    let mut i: usize = 0;
    while i < int_part.len()
        invariant
            0 <= i <= int_part@.len(),
        decreases int_part.len() - i,
    {
        let c = int_part[i];
        if '0' <= c && c <= '9' {
            val = val.mul(&ten).add(&digit_value(c));
        }
        i = i + 1;
    }
    match frac_part {
        Some(frac) => {
            let mut frac_mul = tenth;
            let mut j: usize = 0;
            while j < frac.len()
                invariant
                    0 <= j <= frac@.len(),
                decreases frac.len() - j,
            {
                let c = frac[j];
                if '0' <= c && c <= '9' {
                    val = val.add(&digit_value(c).mul(&frac_mul));
                    frac_mul = frac_mul.mul(&tenth);
                }
                j = j + 1;
            }
        },
        None => {},
    }
    match exp_part {
        Some(exp) => {
            let (exp_neg, digits) = if exp.len() > 0 && exp[0] == '-' {
                (true, slice_range(exp.as_slice(), 1, exp.len()))
            } else if exp.len() > 0 && exp[0] == '+' {
                (false, slice_range(exp.as_slice(), 1, exp.len()))
            } else {
                (false, slice_range(exp.as_slice(), 0, exp.len()))
            };
            let mut e = exponent_value(digits.as_slice(), false);
            if exp_neg {
                e = 0i32.wrapping_sub(e);
            }
            val = val.mul(&pow10(e));
        },
        None => {},
    }
    if negative {
        val = val.neg();
    }
    Ok(val)
}

/// Whether `s` starts with the characters of `prefix`.
pub fn starts_with(s: &[char], prefix: &[char]) -> (r: bool)
    ensures
        r == (prefix@.len() <= s@.len() && s@.subrange(0, prefix@.len() as int) == prefix@),
{
    if prefix.len() > s.len() {
        return false;
    }
    let mut i: usize = 0;
    while i < prefix.len()
        invariant
            prefix@.len() <= s@.len(),
            0 <= i <= prefix@.len(),
            forall|j: int| 0 <= j < i ==> s@[j] == prefix@[j],
        decreases prefix.len() - i,
    {
        if s[i] != prefix[i] {
            assert(s@.subrange(0, prefix@.len() as int)[i as int] != prefix@[i as int]);
            return false;
        }
        i = i + 1;
    }
    assert(s@.subrange(0, prefix@.len() as int) =~= prefix@);
    true
}

/// Whether `s` starts with the literal `lit`.
pub fn starts_with_str(s: &[char], lit: &str) -> (r: bool)
    ensures
        r == (lit@.len() <= s@.len() && s@.subrange(0, lit@.len() as int) == lit@),
{
    let p = str_to_chars(lit);
    starts_with(s, p.as_slice())
}

/// Value of `0-9`, `a-z`, `A-Z` as a digit.
pub open spec fn spec_digit_of(c: char) -> Option<u32> {
    if '0' <= c && c <= '9' {
        Some((c as u32 - 0x30) as u32)
    } else if 'a' <= c && c <= 'z' {
        Some((c as u32 - 0x61 + 10) as u32)
    } else if 'A' <= c && c <= 'Z' {
        Some((c as u32 - 0x41 + 10) as u32)
    } else {
        None
    }
}

/// Every character is a digit below `radix`.
pub open spec fn all_digits(d: Seq<char>, radix: u32) -> bool {
    forall|i: int| 0 <= i < d.len() ==> (#[trigger] spec_digit_of(d[i]) matches Some(v) && v < radix)
}

/// The number that the digits `d` write in base `radix`.
pub open spec fn digits_value(d: Seq<char>, radix: u32) -> int
    decreases d.len(),
{
    if d.len() == 0 {
        0
    } else {
        digits_value(d.drop_last(), radix) * radix + spec_digit_of(d.last())->0
    }
}

/// `u64::from_str_radix`: an optional `+`, then one or more digits of the radix and
/// nothing else, whose value fits in 64 bits.
pub open spec fn spec_from_str_radix(s: Seq<char>, radix: u32) -> Option<u64> {
    let d = if s.len() > 0 && s[0] == '+' {
        s.drop_first()
    } else {
        s
    };
    if d.len() == 0 || !all_digits(d, radix) || digits_value(d, radix) > u64::MAX {
        None
    } else {
        Some(digits_value(d, radix) as u64)
    }
}

proof fn lemma_digits_value_prefix(d: Seq<char>, radix: u32, k: int)
    requires
        all_digits(d, radix),
        radix >= 1,
        0 <= k <= d.len(),
    ensures
        0 <= digits_value(d.take(k), radix) <= digits_value(d, radix),
    decreases d.len() - k,
{
    if k < d.len() {
        lemma_digits_value_prefix(d, radix, k + 1);
        let t = d.take(k + 1);
        assert(t.drop_last() =~= d.take(k));
        assert(t.last() == d[k]);
        assert(spec_digit_of(d[k]) matches Some(v) && v < radix);
        lemma_digits_value_nonneg(d.take(k), radix);
        assert(digits_value(d.take(k), radix) * radix >= digits_value(d.take(k), radix)) by (
        nonlinear_arith)
            requires
                digits_value(d.take(k), radix) >= 0,
                radix >= 1,
        ;
    } else {
        assert(d.take(k) =~= d);
        lemma_digits_value_nonneg(d, radix);
    }
}

proof fn lemma_digits_value_nonneg(d: Seq<char>, radix: u32)
    requires
        all_digits(d, radix),
    ensures
        digits_value(d, radix) >= 0,
    decreases d.len(),
{
    if d.len() > 0 {
        assert(all_digits(d.drop_last(), radix)) by {
            assert forall|i: int| 0 <= i < d.drop_last().len() implies (#[trigger] spec_digit_of(
                d.drop_last()[i],
            ) matches Some(v) && v < radix) by {
                assert(d.drop_last()[i] == d[i]);
            }
        }
        lemma_digits_value_nonneg(d.drop_last(), radix);
        assert(spec_digit_of(d[d.len() - 1]) matches Some(v) && v < radix);
        assert(digits_value(d.drop_last(), radix) * radix >= 0) by (nonlinear_arith)
            requires
                digits_value(d.drop_last(), radix) >= 0,
        ;
    }
}

/// Parses an unsigned integer in the given radix (2..=16) the way `u64::from_str_radix`
/// does: an optional `+`, then at least one digit of the radix and nothing else, no
/// overflow.
pub fn u64_from_radix(s: &[char], radix: u32) -> (r: Option<u64>)
    requires
        2 <= radix <= 16,
    ensures
        r == spec_from_str_radix(s@, radix),
{
    if s.len() == 0 {
        return None;
    }
    let mut i: usize = 0;
    if s[0] == '+' {
        if s.len() == 1 {
            return None;
        }
        i = 1;
    }
    let start = i;
    let ghost d = if s@[0] == '+' {
        s@.drop_first()
    } else {
        s@
    };
    assert(d =~= s@.skip(start as int));
    let mut val: u64 = 0;
    assert(d.take(0) =~= Seq::<char>::empty());
    while i < s.len()
        invariant
            start <= i <= s@.len(),
            start == 0 || start == 1,
            d =~= s@.skip(start as int),
            d == (if s@.len() > 0 && s@[0] == '+' {
                s@.drop_first()
            } else {
                s@
            }),
            d.len() > 0,
            2 <= radix <= 16,
            all_digits(d.take(i - start), radix),
            val == digits_value(d.take(i - start), radix),
        decreases s.len() - i,
    {
        let ghost k = i - start;
        assert(d[k] == s@[i as int]);
        let dg = match digit_of(s[i]) {
            Some(x) => x,
            None => {
                assert(!all_digits(d, radix)) by {
                    assert(!(spec_digit_of(d[k]) matches Some(v) && v < radix));
                }
                return None;
            },
        };
        if dg >= radix {
            assert(!all_digits(d, radix)) by {
                assert(!(spec_digit_of(d[k]) matches Some(v) && v < radix));
            }
            return None;
        }
        let ghost t = d.take(k + 1);
        assert(t.drop_last() =~= d.take(k));
        assert(t.last() == d[k]);
        assert(all_digits(t, radix)) by {
            assert forall|j: int| 0 <= j < t.len() implies (#[trigger] spec_digit_of(t[j]) matches Some(
                v,
            ) && v < radix) by {
                if j < k {
                    assert(t[j] == d.take(k)[j]);
                }
            }
        }
        let dd = dg as u64;
        let rr = radix as u64;
        match val.checked_mul(rr) {
            Some(v1) => match v1.checked_add(dd) {
                Some(v2) => {
                    val = v2;
                },
                None => {
                    proof {
                        if all_digits(d, radix) {
                            lemma_digits_value_prefix(d, radix, k + 1);
                        }
                    }
                    return None;
                },
            },
            None => {
                proof {
                    if all_digits(d, radix) {
                        lemma_digits_value_prefix(d, radix, k + 1);
                        lemma_digits_value_nonneg(d.take(k), radix);
                    }
                }
                return None;
            },
        }
        i = i + 1;
    }
    assert(d.take(i - start) =~= d);
    Some(val)
}

/// Value of `0-9`, `a-z`, `A-Z` as a digit (up to 35).
pub fn digit_of(c: char) -> (r: Option<u32>)
    ensures
        r == spec_digit_of(c),
        r matches Some(d) ==> d < 36,
{
    if '0' <= c && c <= '9' {
        Some((c as u32) - 0x30)
    } else if 'a' <= c && c <= 'z' {
        Some((c as u32) - 0x61 + 10)
    } else if 'A' <= c && c <= 'Z' {
        Some((c as u32) - 0x41 + 10)
    } else {
        None
    }
}

/// The interpreter's `Number(string)` conversion of a string: NaN for the empty string
/// and for malformed input, `Infinity` words, `0x` hex, decimal with fraction and exponent.
/// What `parseFloat` gives for the special texts: NaN for blank text, the infinities
/// for their names.
pub open spec fn float_text_specials(text: Seq<char>, r: Double) -> bool {
    &&& spec_trim(text).len() == 0 ==> r.is_nan_spec()
    &&& spec_trim(text) == "Infinity"@ || spec_trim(text) == "+Infinity"@ ==> r.is_inf_spec()
        && !r.is_neg_spec()
    &&& spec_trim(text) == "-Infinity"@ ==> r.is_inf_spec() && r.is_neg_spec()
}

/// A prefix of decimal digits writes at most the number the whole digits write.
proof fn lemma_digits_prefix(d: Seq<char>, i: int)
    requires
        all_digits(d, 10),
        0 <= i <= d.len(),
    ensures
        0 <= digits_value(d.take(i), 10) <= digits_value(d, 10),
    decreases d.len(),
{
    if d.len() == 0 {
        assert(d.take(i) =~= d);
    } else if i == d.len() {
        assert(d.take(i) =~= d);
        lemma_digits_prefix(d.drop_last(), i - 1);
        assert(d.drop_last().take(i - 1) =~= d.drop_last());
        assert(spec_digit_of(d[d.len() - 1]) matches Some(v) && v < 10);
    } else {
        assert(all_digits(d.drop_last(), 10)) by {
            assert forall|k: int| 0 <= k < d.drop_last().len() implies (#[trigger] spec_digit_of(
                d.drop_last()[k],
            ) matches Some(v) && v < 10) by {
                assert(d.drop_last()[k] == d[k]);
            }
        }
        lemma_digits_prefix(d.drop_last(), i);
        assert(d.drop_last().take(i) =~= d.take(i));
        lemma_digits_prefix(d.drop_last(), d.len() - 1);
        assert(d.drop_last().take(d.len() - 1) =~= d.drop_last());
        assert(spec_digit_of(d[d.len() - 1]) matches Some(v) && v < 10);
    }
}

/// `t` is decimal digits, `e`, then decimal digits, with the `e` at `i`.
pub open spec fn exp_numeral_at(t: Seq<char>, i: int) -> bool {
    0 < i && i + 1 < t.len() && t[i] == 'e' && all_digits(t.take(i), 10) && all_digits(
        t.skip(i + 1),
        10,
    )
}

/// Such a numeral whose exponent is at most 15 and whose value is a safe integer.
pub open spec fn small_exp_numeral(t: Seq<char>, i: int) -> bool {
    exp_numeral_at(t, i) && digits_value(t.skip(i + 1), 10) <= 15 && digits_value(t.take(i), 10)
        * spec_pow10(digits_value(t.skip(i + 1), 10) as nat) < safe_limit()
}

/// The value such a numeral writes: the digits times ten to the exponent.
pub open spec fn exp_numeral_value(t: Seq<char>, i: int) -> int {
    digits_value(t.take(i), 10) * spec_pow10(digits_value(t.skip(i + 1), 10) as nat)
}

/// Accumulating small exponent digits gives their value.
proof fn lemma_exponent_digits(ks: Seq<char>, j: int)
    requires
        all_digits(ks, 10),
        digits_value(ks, 10) <= 15,
        0 <= j <= ks.len(),
    ensures
        spec_exponent_from(ks, j, digits_value(ks.take(j), 10) as i32, true) == digits_value(ks, 10),
    decreases ks.len() - j,
{
    lemma_digits_prefix(ks, j);
    if j == ks.len() {
        assert(ks.take(j) =~= ks);
    } else {
        lemma_digits_prefix(ks, j + 1);
        assert(ks.take(j + 1).drop_last() =~= ks.take(j));
        assert(ks.take(j + 1).last() == ks[j]);
        assert(spec_digit_of(ks[j]) matches Some(v) && v < 10);
        let e = digits_value(ks.take(j), 10) as i32;
        let d = ((ks[j] as u32) - 0x30) as i32;
        assert(0 <= e <= 15 && 0 <= d <= 9);
        assert(e.wrapping_mul(10) == e * 10) by {
            assert(0 <= e * 10 <= 150);
        }
        assert(e.wrapping_mul(10).wrapping_add(d) == e * 10 + d);
        lemma_exponent_digits(ks, j + 1);
    }
}

/// Decimal digits and nothing else, after trimming.
pub open spec fn plain_digits(text: Seq<char>) -> bool {
    spec_trim(text).len() > 0 && all_digits(spec_trim(text), 10)
}

/// A `-` and then decimal digits, after trimming.
pub open spec fn minus_digits(text: Seq<char>) -> bool {
    spec_trim(text).len() > 1 && spec_trim(text)[0] == '-' && all_digits(spec_trim(text).skip(1), 10)
}

#[verifier::rlimit(100)]
#[verifier::spinoff_prover]
pub fn parse_float_simple(text: &[char]) -> (r: Double)
    ensures
        float_text_specials(text@, r),
        plain_digits(text@) && digits_value(spec_trim(text@), 10) < safe_limit() ==> spec_is_int_value(
            r,
            digits_value(spec_trim(text@), 10),
        ),
        minus_digits(text@) && digits_value(spec_trim(text@).skip(1), 10) < safe_limit()
            ==> spec_is_int_value(r, -digits_value(spec_trim(text@).skip(1), 10)),
        forall|i: int|
            #[trigger] small_exp_numeral(spec_trim(text@), i) ==> spec_is_int_value(
                r,
                exp_numeral_value(spec_trim(text@), i),
            ),
{
    let ghost dig = plain_digits(text@) && digits_value(spec_trim(text@), 10) < safe_limit();
    let ghost t = spec_trim(text@);
    let ghost dexp = exists|i: int| #[trigger] small_exp_numeral(t, i);
    let ghost ie = choose|i: int| #[trigger] small_exp_numeral(t, i);
    let ghost ok = dig || dexp;
    let ghost ds = if dig {
        t
    } else {
        t.take(ie)
    };
    let ghost ks = t.skip(ie + 1);
    let ghost u = t.skip(1);
    let ghost mdig = minus_digits(text@) && digits_value(u, 10) < safe_limit();
    proof {
        if mdig {
            assert(spec_digit_of(u[0]) matches Some(v) && v < 10);
            assert(u[0] == t[1]);
            if u.len() > 1 {
                assert(spec_digit_of(u[1]) matches Some(v) && v < 10);
            }
        }
        if dig {
            assert(spec_digit_of(t[0]) matches Some(v) && v < 10);
            if t.len() > 1 {
                assert(spec_digit_of(t[1]) matches Some(v) && v < 10);
            }
        }
        if dexp && !dig {
            assert(small_exp_numeral(t, ie));
            assert(t.take(ie)[0] == t[0]);
            assert(spec_digit_of(t[0]) matches Some(v) && v < 10);
            if ie > 1 {
                assert(t.take(ie)[1] == t[1]);
                assert(spec_digit_of(t[1]) matches Some(v) && v < 10);
            }
            assert(t[1] != 'x' && t[1] != 'X');
            lemma_pow10_pos(digits_value(ks, 10) as nat);
            lemma_digits_prefix(ds, 0);
            assert(ds.take(0) =~= Seq::<char>::empty());
            assert(digits_value(ds, 10) <= exp_numeral_value(t, ie)) by (nonlinear_arith)
                requires
                    digits_value(ds, 10) >= 0,
                    spec_pow10(digits_value(ks, 10) as nat) >= 1,
                    exp_numeral_value(t, ie) == digits_value(ds, 10) * spec_pow10(
                        digits_value(ks, 10) as nat,
                    ),
            ;
        }
    }
    proof {
        reveal_strlit("Infinity");
        reveal_strlit("+Infinity");
        reveal_strlit("-Infinity");
        assert("Infinity"@.len() == 8 && "+Infinity"@[0] == '+' && "-Infinity"@[0] == '-'
            && "Infinity"@[0] == 'I' && "-Infinity"@[1] == 'I');
    }
    let s0 = trim(text);
    if s0.len() == 0 {
        return Double::nan();
    }
    if eq_str(&s0, "Infinity") || eq_str(&s0, "+Infinity") {
        return Double::infinity(false);
    }
    if eq_str(&s0, "-Infinity") {
        return Double::infinity(true);
    }
    let (neg, s) = if s0[0] == '-' {
        (true, slice_range(s0.as_slice(), 1, s0.len()))
    } else if s0[0] == '+' {
        (false, slice_range(s0.as_slice(), 1, s0.len()))
    } else {
        (false, slice_range(s0.as_slice(), 0, s0.len()))
    };
    proof {
        reveal_strlit("0x");
        reveal_strlit("0X");
    }
    proof {
        if dig {
            assert(s0@ == t);
            assert(s@ =~= t);
            assert("0x"@[1] == 'x' && "0X"@[1] == 'X' && "0x"@.len() == 2 && "0X"@.len() == 2);
            assert forall|j: int| 0 <= j < t.len() implies t[j] != 'e' && t[j] != 'E' && t[j] != '.'
                && t[j] != 'x' && t[j] != 'X' by {
                assert(spec_digit_of(t[j]) matches Some(v) && v < 10);
            }
            if t.len() >= 2 {
                assert(s@.subrange(0, 2)[1] == t[1]);
            }
        }
        if mdig {
            assert(s0@ == t);
            assert(s@ =~= u);
            assert("0x"@[1] == 'x' && "0X"@[1] == 'X' && "0x"@.len() == 2 && "0X"@.len() == 2);
            assert forall|j: int| 0 <= j < u.len() implies u[j] != 'e' && u[j] != 'E' && u[j] != '.'
                && u[j] != 'x' && u[j] != 'X' by {
                assert(spec_digit_of(u[j]) matches Some(v) && v < 10);
            }
            if u.len() >= 2 {
                assert(s@.subrange(0, 2)[1] == u[1]);
            }
        }
        if dexp && !dig {
            assert(s0@ == t);
            assert(s@ =~= t);
            assert("0x"@[1] == 'x' && "0X"@[1] == 'X' && "0x"@.len() == 2 && "0X"@.len() == 2);
            assert(s@.subrange(0, 2)[1] == t[1]);
            assert forall|j: int| 0 <= j < ie implies t[j] != 'e' && t[j] != 'E' && t[j] != '.' by {
                assert(t.take(ie)[j] == t[j]);
                assert(spec_digit_of(t.take(ie)[j]) matches Some(v) && v < 10);
            }
        }
    }
    if starts_with_str(&s, "0x") || starts_with_str(&s, "0X") {
        let hex = slice_range(s.as_slice(), 2, s.len());
        return match u64_from_radix(hex.as_slice(), 16) {
            Some(v) => {
                if neg {
                    Double::from_u64(v).neg()
                } else {
                    Double::from_u64(v)
                }
            },
            None => Double::nan(),
        };
    }
    let (mantissa, exp_part) = match find_exp_marker(s.as_slice()) {
        Some(p) => (slice_range(s.as_slice(), 0, p), Some(slice_range(s.as_slice(), p + 1, s.len()))),
        None => (slice_range(s.as_slice(), 0, s.len()), None),
    };
    let (int_part, frac_part) = match find_char(mantissa.as_slice(), '.') {
        Some(p) => (
            slice_range(mantissa.as_slice(), 0, p),
            Some(slice_range(mantissa.as_slice(), p + 1, mantissa.len())),
        ),
        None => (slice_range(mantissa.as_slice(), 0, mantissa.len()), None),
    };
    let ten = Double::from_u64(10);
    let tenth = Double::from_bits(TENTH_BITS);
    let mut val = Double::zero(false);
    proof {
        lemma_zero_int(val);
        if dexp && !dig {
            assert(mantissa@ =~= ds);
            assert forall|j: int| 0 <= j < ds.len() implies ds[j] != '.' by {
                assert(spec_digit_of(ds[j]) matches Some(v) && v < 10);
            }
            assert(int_part@ =~= ds);
            assert(frac_part is None);
            assert(exp_part matches Some(x) && x@ == ks);
            assert(!neg);
        }
        if dig {
            assert(s@ =~= t);
            assert(mantissa@ =~= t);
            assert(int_part@ =~= t);
            assert(frac_part is None);
            assert(exp_part is None);
            assert(!neg);
        }
        if mdig {
            assert(s@ =~= u);
            assert(mantissa@ =~= u);
            assert(int_part@ =~= u);
            assert(frac_part is None);
            assert(exp_part is None);
            assert(neg);
        }
    }
    let mut i: usize = 0;
    while i < int_part.len()
        invariant
            0 <= i <= int_part@.len(),
            !(spec_trim(text@) == "Infinity"@ || spec_trim(text@) == "+Infinity"@ || spec_trim(
                text@,
            ) == "-Infinity"@),
            spec_is_int_value(ten, 10),
            dig == (plain_digits(text@) && digits_value(spec_trim(text@), 10) < safe_limit()),
            t == spec_trim(text@),
            dig ==> int_part@ == t && spec_is_int_value(val, digits_value(t.take(i as int), 10)),
            dexp == (exists|i: int| #[trigger] small_exp_numeral(t, i)),
            ie == choose|i: int| #[trigger] small_exp_numeral(t, i),
            ok == (dig || dexp),
            ds == (if dig { t } else { t.take(ie) }),
            ks == t.skip(ie + 1),
            dexp && !dig ==> small_exp_numeral(t, ie) && all_digits(ds, 10) && digits_value(ds, 10)
                < safe_limit(),
            dexp && !dig ==> int_part@ == ds && spec_is_int_value(val, digits_value(ds.take(i as int), 10)),
            u == t.skip(1),
            mdig == (minus_digits(text@) && digits_value(u, 10) < safe_limit()),
            mdig ==> int_part@ == u && spec_is_int_value(val, digits_value(u.take(i as int), 10)),
        decreases int_part.len() - i,
    {
        let c = int_part[i];
        if '0' <= c && c <= '9' {
            let ghost x = digits_value(t.take(i as int), 10);
            let ghost dv = (c as u32 - 0x30) as int;
            proof {
                if dexp && !dig {
                    lemma_digits_prefix(ds, i + 1);
                    lemma_digits_prefix(ds, i as int);
                    assert(ds.take(i + 1).drop_last() =~= ds.take(i as int));
                    assert(ds.take(i + 1).last() == c);
                    assert(spec_safe_int(val, digits_value(ds.take(i as int), 10)));
                    assert(spec_safe_int(ten, 10));
                }
                if dig {
                    lemma_digits_prefix(t, i + 1);
                    lemma_digits_prefix(t, i as int);
                    assert(t.take(i + 1).drop_last() =~= t.take(i as int));
                    assert(t.take(i + 1).last() == c);
                    assert(digits_value(t.take(i + 1), 10) == x * 10 + dv);
                    assert(spec_safe_int(val, x));
                    assert(spec_safe_int(ten, 10));
                }
                if mdig {
                    lemma_digits_prefix(u, i + 1);
                    lemma_digits_prefix(u, i as int);
                    assert(u.take(i + 1).drop_last() =~= u.take(i as int));
                    assert(u.take(i + 1).last() == c);
                    assert(spec_safe_int(val, digits_value(u.take(i as int), 10)));
                    assert(spec_safe_int(ten, 10));
                }
            }
            let p = val.mul(&ten);
            let d = digit_value(c);
            proof {
                if dig {
                    assert(spec_safe_int(p, x * 10));
                    assert(spec_safe_int(d, dv));
                }
                if dexp && !dig {
                    let y = digits_value(ds.take(i as int), 10);
                    assert(digits_value(ds.take(i + 1), 10) == y * 10 + dv);
                    assert(spec_safe_int(p, y * 10));
                    assert(spec_safe_int(d, dv));
                }
                if mdig {
                    let y = digits_value(u.take(i as int), 10);
                    assert(digits_value(u.take(i + 1), 10) == y * 10 + dv);
                    assert(spec_safe_int(p, y * 10));
                    assert(spec_safe_int(d, dv));
                }
            }
            val = p.add(&d);
        } else {
            proof {
                if dig {
                    assert(spec_digit_of(t[i as int]) matches Some(v) && v < 10);
                }
                if dexp && !dig {
                    assert(spec_digit_of(ds[i as int]) matches Some(v) && v < 10);
                }
                if mdig {
                    assert(spec_digit_of(u[i as int]) matches Some(v) && v < 10);
                }
            }
            return Double::nan();
        }
        i = i + 1;
    }
    proof {
        if dig {
            assert(t.take(int_part@.len() as int) =~= t);
        }
        if dexp && !dig {
            assert(ds.take(int_part@.len() as int) =~= ds);
        }
        if mdig {
            assert(u.take(int_part@.len() as int) =~= u);
            lemma_digits_prefix(u, 0);
            assert(spec_safe_int(val, digits_value(u, 10)));
        }
    }
    match frac_part {
        Some(frac) => {
            let mut mul = tenth;
            let mut j: usize = 0;
            while j < frac.len()
                invariant
                    0 <= j <= frac@.len(),
                decreases frac.len() - j,
            {
                let c = frac[j];
                if '0' <= c && c <= '9' {
                    val = val.add(&digit_value(c).mul(&mul));
                    mul = mul.mul(&tenth);
                } else {
                    break;
                }
                j = j + 1;
            }
        },
        None => {},
    }
    match exp_part {
        Some(exp) => {
            let (exp_neg, digits) = if exp.len() > 0 && exp[0] == '-' {
                (true, slice_range(exp.as_slice(), 1, exp.len()))
            } else if exp.len() > 0 && exp[0] == '+' {
                (false, slice_range(exp.as_slice(), 1, exp.len()))
            } else {
                (false, slice_range(exp.as_slice(), 0, exp.len()))
            };
            let mut e = exponent_value(digits.as_slice(), true);
            proof {
                if dexp && !dig {
                    assert(exp@ == ks);
                    assert(ks[0] == t[ie + 1]);
                    assert(spec_digit_of(ks[0]) matches Some(v) && v < 10);
                    assert(!exp_neg);
                    assert(digits@ =~= ks);
                    assert(ks.take(0) =~= Seq::<char>::empty());
                    lemma_exponent_digits(ks, 0);
                    assert(e == digits_value(ks, 10));
                    lemma_digits_prefix(ks, 0);
                    lemma_pow10_le_15(digits_value(ks, 10) as nat);
                    assert(spec_is_int_value(val, digits_value(ds, 10)));
                    assert(spec_safe_int(val, digits_value(ds, 10)));
                }
            }
            if exp_neg {
                e = 0i32.wrapping_sub(e);
            }
            val = val.mul(&pow10(e));
        },
        None => {},
    }
    proof {
        assert forall|k: int| #[trigger] small_exp_numeral(t, k) implies spec_is_int_value(
            val,
            exp_numeral_value(t, k),
        ) by {
            assert(dexp);
            assert(small_exp_numeral(t, ie));
            if dig {
                assert(spec_digit_of(t[k]) matches Some(v) && v < 10);
            }
            if k < ie {
                assert(t.take(ie)[k] == t[k]);
                assert(spec_digit_of(t.take(ie)[k]) matches Some(v) && v < 10);
            }
            if ie < k {
                assert(t.take(k)[ie] == t[ie]);
                assert(spec_digit_of(t.take(k)[ie]) matches Some(v) && v < 10);
            }
        }
    }
    if neg {
        val.neg()
    } else {
        val
    }
}

} // verus!
