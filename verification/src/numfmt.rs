//! Number to text: the shortest decimal that reads back as the same binary64 value
//! (what Rust's `{}` and `{:?}` print for `f64`), and the interpreter's number formats.
use vstd::prelude::*;
use crate::double::{Double, Class, pow2_u128, spec_pow2, spec_trunc_mag, spec_trunc, spec_clamp, spec_scaled, spec_int_part, spec_is_int_value, spec_order_key, spec_exp_field, spec_frac_field, lemma_frac_of_mag, lemma_trunc_mag_nonneg, lemma_trunc_below, lemma_pow2_mono, lemma_pow2_add, law_order_key_is_value_order, SIGN_BIT};
use crate::bignum::{Big, pow10_nat};
use crate::text::{push_str, push_all, str_to_chars};
use crate::mathfn::{round, trunc, lemma_int_part_read};
use crate::numparse::{pow10, spec_pow10};
use crate::double::{spec_safe_int, lemma_safe_int_parts, lemma_zero_int};

verus! {

/// The decimal digits of `v`: no sign, no leading zeros, "0" for zero.
pub open spec fn spec_dec(v: nat) -> Seq<char>
    decreases v,
{
    if v < 10 {
        seq![spec_digit_char(v)]
    } else {
        spec_dec(v / 10).push(spec_digit_char(v % 10))
    }
}

/// The character of a decimal digit.
pub open spec fn spec_digit_char(d: nat) -> char {
    (0x30 + d) as char
}

/// The digits of `x` if it is positive, else nothing: what is left to write of a number
/// whose lower digits have been written.
pub open spec fn dec_head(x: nat) -> Seq<char> {
    if x > 0 {
        spec_dec(x)
    } else {
        Seq::empty()
    }
}

/// `s` back to front.
pub open spec fn reversed(s: Seq<char>) -> Seq<char> {
    Seq::new(s.len(), |j: int| s[s.len() - 1 - j])
}

/// Decimal digits of `v` (no sign, no leading zeros; "0" for zero).
pub fn u64_to_dec(v: u64) -> (r: Vec<char>)
    ensures
        r@ == spec_dec(v as nat),
        r@.len() >= 1,
{
    let mut digits: Vec<char> = Vec::new();
    let mut x = v;
    digits.push(dec_digit((x % 10) as u32));
    x = x / 10;
    proof {
        assert(reversed(digits@) =~= seq![spec_digit_char((v % 10) as nat)]);
    }
    while x > 0
        invariant
            digits@.len() >= 1,
            spec_dec(v as nat) == dec_head(x as nat) + reversed(digits@),
        decreases x,
    {
        let ghost before = digits@;
        let c = dec_digit((x % 10) as u32);
        digits.push(c);
        proof {
            assert(reversed(digits@) =~= seq![c] + reversed(before));
            assert(dec_head(x as nat) =~= dec_head((x / 10) as nat) + seq![c]);
            assert(dec_head(x as nat) + reversed(before) =~= dec_head((x / 10) as nat) + reversed(
                digits@,
            ));
        }
        x = x / 10;
    }
    proof {
        assert(dec_head(0) + reversed(digits@) =~= reversed(digits@));
    }
    let r = reverse_chars(&digits);
    assert(r@ =~= reversed(digits@));
    r
}

/// The digit character for `d < 10`.
pub fn dec_digit(d: u32) -> (r: char)
    requires
        d < 10,
    ensures
        '0' <= r <= '9',
        r as u32 == 0x30 + d,
        r == spec_digit_char(d as nat),
{
    ((0x30 + d) as u8) as char
}

/// The characters of `v` in reverse order.
pub fn reverse_chars(v: &Vec<char>) -> (r: Vec<char>)
    ensures
        r@.len() == v@.len(),
        forall|i: int| 0 <= i < v@.len() ==> r@[i] == v@[v@.len() - 1 - i],
{
    let mut r: Vec<char> = Vec::new();
    let mut i = v.len();
    while i > 0
        invariant
            i <= v@.len(),
            r@.len() == v@.len() - i,
            forall|j: int| 0 <= j < r@.len() ==> r@[j] == v@[v@.len() - 1 - j],
        decreases i,
    {
        i = i - 1;
        r.push(v[i]);
    }
    r
}

/// Decimal text of a signed integer: `-` before the digits of its magnitude when negative.
pub open spec fn spec_int_dec(v: int) -> Seq<char> {
    if v < 0 {
        seq!['-'] + spec_dec((-v) as nat)
    } else {
        spec_dec(v as nat)
    }
}

/// Decimal text of a signed integer (`format!("{}", v)`).
pub fn i64_to_dec(v: i64) -> (r: Vec<char>)
    ensures
        r@ == spec_int_dec(v as int),
{
    if v < 0 {
        let mag: u64 = if v == i64::MIN {
            0x8000_0000_0000_0000u64
        } else {
            (-v) as u64
        };
        let mut out: Vec<char> = Vec::new();
        out.push('-');
        push_all(&mut out, u64_to_dec(mag).as_slice());
        out
    } else {
        u64_to_dec(v as u64)
    }
}

/// `D * 10^k` multiplied by `10^max(-k, 0) * 2^max(-t, 0)`, an integer.
pub open spec fn dec_side(d: nat, k: int, t: int) -> nat {
    d * pow10_nat((if k >= 0 { k } else { 0 }) as nat) * spec_pow2((if t < 0 { -t } else { 0 }) as nat)
}

/// `x * 2^t` multiplied by `10^max(-k, 0) * 2^max(-t, 0)`, an integer.
pub open spec fn bin_side(x: nat, k: int, t: int) -> nat {
    x * pow10_nat((if k < 0 { -k } else { 0 }) as nat) * spec_pow2((if t >= 0 { t } else { 0 }) as nat)
}

/// `D * 10^k` compared with `x * 2^t`: -1, 0 or 1.
fn compare_scaled(d: u64, k: i32, x: u64, t: i32) -> (r: i8)
    requires
        -2000 <= k <= 2000,
        -2000 <= t <= 2000,
    ensures
        r == -1 <==> dec_side(d as nat, k as int, t as int) < bin_side(x as nat, k as int, t as int),
        r == 0 <==> dec_side(d as nat, k as int, t as int) == bin_side(x as nat, k as int, t as int),
        r == 1 <==> dec_side(d as nat, k as int, t as int) > bin_side(x as nat, k as int, t as int),
{
    let mut left = Big::from_u64(d);
    let mut right = Big::from_u64(x);
    let ghost kp: nat = (if k >= 0 { k as int } else { 0 }) as nat;
    let ghost kn: nat = (if k < 0 { -k } else { 0 }) as nat;
    let ghost tp: nat = (if t >= 0 { t as int } else { 0 }) as nat;
    let ghost tn: nat = (if t < 0 { -t } else { 0 }) as nat;
    assert(pow10_nat(0) == 1);
    assert(spec_pow2(0) == 1);
    if k >= 0 {
        left.mul_pow10(k as u32);
        proof {
            vstd::arithmetic::mul::lemma_mul_basics(x as int);
        }
    } else {
        right.mul_pow10((-k) as u32);
        proof {
            vstd::arithmetic::mul::lemma_mul_basics(d as int);
        }
    }
    assert(left.value() == d * pow10_nat(kp));
    assert(right.value() == x * pow10_nat(kn));
    let ghost l0 = left.value();
    let ghost r0 = right.value();
    if t >= 0 {
        right.shl(t as u32);
        proof {
            assert(tn == 0);
            vstd::arithmetic::mul::lemma_mul_basics(l0 as int);
        }
    } else {
        left.shl((-t) as u32);
        proof {
            assert(tp == 0);
            vstd::arithmetic::mul::lemma_mul_basics(r0 as int);
        }
    }
    assert(left.value() == l0 * spec_pow2(tn));
    assert(right.value() == r0 * spec_pow2(tp));
    left.compare(&right)
}

/// The shortest decimal `(digits, k)` with value `digits * 10^k` that reads back as
/// `m * 2^e` (a finite positive value); among shortest candidates the closest.
pub fn shortest_digits(m: u64, e: i32) -> (r: (u64, i32))
    requires
        0 < m < 0x20_0000_0000_0000u64,
        -1074 <= e <= 971,
    ensures
        spec_reads_back(m as nat, e as int, r.0 as nat, r.1 as int) || (pow10_nat(16) <= r.0
            < pow10_nat(17)),
{
    let boundary = m == 0x10_0000_0000_0000u64 && e > -1074;
    let v4: u64 = m * 4;
    let hi4: u64 = v4 + 2;
    let lo4: u64 = if boundary {
        v4 - 1
    } else {
        v4 - 2
    };
    let inclusive = m % 2 == 0;
    let t = e - 2;
    // decimal exponent p with 10^p <= v < 10^(p+1)
    let len = crate::double::bit_len(m as u128) as i64;
    let b2: i64 = (e as i64) + len - 1;
    let mut p: i64 = if b2 >= 0 {
        (b2 * 78913) / 262144
    } else {
        -(((-b2) * 78913 + 262143) / 262144)
    };
    if p > 400 {
        p = 400;
    }
    if p < -400 {
        p = -400;
    }
    let mut guard: u32 = 0;
    while guard < 4 && p + 1 <= 400 && compare_scaled(1, (p + 1) as i32, v4, t) <= 0
        invariant
            -400 <= p <= 400,
            -1076 <= t <= 969,
        decreases 4 - guard,
    {
        p = p + 1;
        guard = guard + 1;
    }
    guard = 0;
    while guard < 4 && p >= -400 && compare_scaled(1, p as i32, v4, t) > 0
        invariant
            -401 <= p <= 400,
            -1076 <= t <= 969,
        decreases 4 - guard,
    {
        p = p - 1;
        guard = guard + 1;
    }
    if p < -400 {
        p = -400;
    }
    let mut n: i64 = 1;
    let mut pow_lo: u64 = 1;
    let mut last: (u64, i32) = (m, 0);
    proof {
        assert(pow10_nat(0) == 1);
        assert(pow10_nat(16) == 10_000_000_000_000_000) by {
            reveal_with_fuel(pow10_nat, 17);
        }
        assert(pow10_nat(17) == 100_000_000_000_000_000) by {
            reveal_with_fuel(pow10_nat, 18);
        }
    }
    while n <= 17 && pow_lo <= 100_000_000_000_000_000u64
        invariant
            1 <= n <= 18,
            -400 <= p <= 400,
            1 <= pow_lo,
            pow_lo == pow10_nat((n - 1) as nat),
            n <= 17 ==> pow_lo <= 10_000_000_000_000_000u64,
            pow10_nat(16) == 10_000_000_000_000_000,
            pow10_nat(17) == 100_000_000_000_000_000,
            n >= 2 ==> pow10_nat((n - 2) as nat) <= last.0 < pow10_nat((n - 1) as nat),
            0 < v4 < 0x80_0000_0000_0000u64,
            v4 == 4 * m,
            lo4 == (if m == 0x10_0000_0000_0000u64 && e > -1074 {
                v4 - 1
            } else {
                v4 - 2
            }),
            lo4 < v4,
            hi4 == v4 + 2,
            t == e - 2,
            inclusive == (m % 2 == 0),
            -1076 <= t <= 969,
        decreases 18 - n,
    {
        let k = (p - n + 1) as i32;
        let pow_hi: u64 = pow_lo * 10;
        // largest D in [pow_lo, pow_hi) with D * 10^k <= v
        let mut lo: u64 = pow_lo;
        let mut hi: u64 = pow_hi;
        while hi - lo > 1
            invariant
                pow_lo <= lo < hi <= pow_hi,
                pow_hi <= 1_000_000_000_000_000_000u64,
                -416 <= k <= 400,
                -1076 <= t <= 969,
            decreases hi - lo,
        {
            let mid = lo + (hi - lo) / 2;
            if compare_scaled(mid, k, v4, t) <= 0 {
                lo = mid;
            } else {
                hi = mid;
            }
        }
        let d_floor = lo;
        let d_ceil = lo + 1;
        last = (d_floor, k);
        let floor_ok = accepts(d_floor, k, lo4, hi4, t, inclusive);
        let ceil_ok = accepts(d_ceil, k, lo4, hi4, t, inclusive);
        if floor_ok || ceil_ok {
            let chosen = if floor_ok && ceil_ok {
                // closer of the two; ties to the even one
                let c = compare_scaled(2 * d_floor + 1, k, v4 * 2, t);
                if c > 0 {
                    d_floor
                } else if c < 0 {
                    d_ceil
                } else if d_floor % 2 == 0 {
                    d_floor
                } else {
                    d_ceil
                }
            } else if floor_ok {
                d_floor
            } else {
                d_ceil
            };
            let mut dd = chosen;
            let mut kk = k;
            while dd > 0 && dd % 10 == 0 && kk < 2000
                invariant
                    -2000 <= kk <= 2000,
                    spec_reads_back(m as nat, e as int, dd as nat, kk as int),
                decreases dd,
            {
                proof {
                    let d1 = (dd / 10) as nat;
                    assert(dd as nat == 10 * d1);
                    let v = 4 * m as nat;
                    let lo = (if m == 0x10_0000_0000_0000u64 && e > -1074 {
                        v - 1
                    } else {
                        v - 2
                    }) as nat;
                    lemma_drop_zero(d1, kk as int, lo, e - 2);
                    lemma_drop_zero(d1, kk as int, v + 2, e - 2);
                }
                dd = dd / 10;
                kk = kk + 1;
            }
            return (dd, kk);
        }
        proof {
            assert(pow10_nat(n as nat) == 10 * pow10_nat((n - 1) as nat));
            if n <= 16 {
                lemma_pow10_mono((n - 1) as nat, 15);
                assert(pow10_nat(16) == 10 * pow10_nat(15));
            }
        }
        pow_lo = pow_hi;
        n = n + 1;
    }
    // 17 significant digits always identify a binary64 value, so this is not reached
    last
}

/// `D * 10^k` lies in the interval `(lo4, hi4) * 2^t`, ends included when `inclusive`.
pub open spec fn spec_accepts(d: nat, k: int, lo4: nat, hi4: nat, t: int, inclusive: bool) -> bool {
    if inclusive {
        dec_side(d, k, t) >= bin_side(lo4, k, t) && dec_side(d, k, t) <= bin_side(hi4, k, t)
    } else {
        dec_side(d, k, t) > bin_side(lo4, k, t) && dec_side(d, k, t) < bin_side(hi4, k, t)
    }
}

/// `D * 10^k` lies in the rounding interval of the binary64 value `m * 2^e`: between the
/// half-way points to its neighbours (included when `m` is even, as ties round to even),
/// so that it reads back as that value.
pub open spec fn spec_reads_back(m: nat, e: int, d: nat, k: int) -> bool {
    let v4 = 4 * m;
    let lo4 = if m == 0x10_0000_0000_0000 && e > -1074 {
        v4 - 1
    } else {
        v4 - 2
    };
    spec_accepts(d, k, lo4 as nat, v4 + 2, e - 2, m % 2 == 0)
}

/// `10^a <= 10^b` for `a <= b`.
proof fn lemma_pow10_mono(a: nat, b: nat)
    requires
        a <= b,
    ensures
        1 <= pow10_nat(a) <= pow10_nat(b),
    decreases b,
{
    if a < b {
        lemma_pow10_mono(a, (b - 1) as nat);
    } else if a > 0 {
        lemma_pow10_mono((a - 1) as nat, (a - 1) as nat);
    }
}

/// Multiplying both sides by the same positive number keeps their order.
proof fn lemma_scale_order(a: int, b: int, c: int)
    requires
        c > 0,
    ensures
        (c * a < c * b) == (a < b),
        (c * a == c * b) == (a == b),
{
    if a < b {
        assert(c * a < c * b) by (nonlinear_arith)
            requires
                c > 0,
                a < b,
        ;
    } else if a > b {
        assert(c * a > c * b) by (nonlinear_arith)
            requires
                c > 0,
                a > b,
        ;
    }
}

/// A trailing zero moved from the digits into the exponent leaves the comparison as it
/// was: `(10 D) * 10^k` and `D * 10^(k+1)` are the same number.
proof fn lemma_drop_zero(d: nat, k: int, x: nat, t: int)
    ensures
        (dec_side(10 * d, k, t) < bin_side(x, k, t)) == (dec_side(d, k + 1, t) < bin_side(
            x,
            k + 1,
            t,
        )),
        (dec_side(10 * d, k, t) == bin_side(x, k, t)) == (dec_side(d, k + 1, t) == bin_side(
            x,
            k + 1,
            t,
        )),
{
    let p = spec_pow2((if t < 0 { -t } else { 0 }) as nat);
    let q = spec_pow2((if t >= 0 { t } else { 0 }) as nat);
    assert(pow10_nat(0) == 1);
    if k >= 0 {
        let a = pow10_nat(k as nat);
        assert(pow10_nat((k + 1) as nat) == 10 * a);
        assert((10 * d) * a * p == d * (10 * a) * p) by (nonlinear_arith);
        assert(dec_side(10 * d, k, t) == dec_side(d, k + 1, t));
        assert(bin_side(x, k, t) == bin_side(x, k + 1, t));
    } else {
        let a = pow10_nat((-k - 1) as nat);
        assert(pow10_nat((-k) as nat) == 10 * a);
        let lhs = d * 1 * p;
        let rhs = x * a * q;
        assert((10 * d) * 1 * p == 10 * lhs) by (nonlinear_arith)
            requires
                lhs == d * 1 * p,
        ;
        assert(x * (10 * a) * q == 10 * rhs) by (nonlinear_arith)
            requires
                rhs == x * a * q,
        ;
        assert(dec_side(10 * d, k, t) == 10 * lhs);
        assert(bin_side(x, k, t) == 10 * rhs);
        assert(dec_side(d, k + 1, t) == lhs);
        assert(bin_side(x, k + 1, t) == rhs);
        lemma_scale_order(lhs as int, rhs as int, 10);
    }
}

/// Whether `D * 10^k` lies in the rounding interval `(lo4, hi4) * 2^t` (ends included
/// when `inclusive`).
fn accepts(d: u64, k: i32, lo4: u64, hi4: u64, t: i32, inclusive: bool) -> (r: bool)
    requires
        -2000 <= k <= 2000,
        -2000 <= t <= 2000,
    ensures
        r == spec_accepts(d as nat, k as int, lo4 as nat, hi4 as nat, t as int, inclusive),
{
    let cl = compare_scaled(d, k, lo4, t);
    let ch = compare_scaled(d, k, hi4, t);
    if inclusive {
        cl >= 0 && ch <= 0
    } else {
        cl > 0 && ch < 0
    }
}

/// `n` zero characters.
pub open spec fn zero_chars(n: nat) -> Seq<char> {
    Seq::new(n, |i: int| '0')
}

/// The plain decimal text of `digits * 10^k`: the digits followed by `k` zeros, or with a
/// decimal point `-k` places from their end, after `0.` and zeros where there are fewer
/// digits than that.
pub open spec fn spec_plain_decimal(digits: nat, k: int) -> Seq<char> {
    let ds = spec_dec(digits);
    let pt = ds.len() + k;
    if k >= 0 {
        ds + zero_chars(k as nat)
    } else if pt > 0 {
        ds.take(pt) + seq!['.'] + ds.skip(pt)
    } else {
        seq!['0', '.'] + zero_chars((-pt) as nat) + ds
    }
}

/// Plain decimal text of `digits * 10^k` without exponent (`{}` on `f64`).
pub fn plain_decimal(digits: u64, k: i32) -> (r: Vec<char>)
    ensures
        r@ == spec_plain_decimal(digits as nat, k as int),
{
    let ds = u64_to_dec(digits);
    let mut out: Vec<char> = Vec::new();
    if k >= 0 {
        push_all(&mut out, ds.as_slice());
        let mut i: i32 = 0;
        while i < k
            invariant
                0 <= i <= k,
                out@ =~= ds@ + zero_chars(i as nat),
            decreases k - i,
        {
            out.push('0');
            i = i + 1;
        }
    } else {
        let l = ds.len() as i128;
        let pt: i128 = l + (k as i128);
        if pt > 0 {
            let mut i: usize = 0;
            while i < ds.len()
                invariant
                    0 <= i <= ds@.len(),
                    l == ds@.len(),
                    0 < pt < l,
                    i <= pt ==> out@ =~= ds@.take(i as int),
                    i > pt ==> out@ =~= ds@.take(pt as int) + seq!['.'] + ds@.subrange(
                        pt as int,
                        i as int,
                    ),
                decreases ds.len() - i,
            {
                if i as i128 == pt {
                    out.push('.');
                }
                out.push(ds[i]);
                i = i + 1;
            }
            assert(ds@.subrange(pt as int, l as int) =~= ds@.skip(pt as int));
        } else {
            proof {
                reveal_strlit("0.");
            }
            push_str(&mut out, "0.");
            let mut z: i128 = 0;
            while z < -pt
                invariant
                    -0x8000_0000 <= pt <= 0,
                    0 <= z <= -pt,
                    out@ =~= seq!['0', '.'] + zero_chars(z as nat),
                decreases -pt - z,
            {
                out.push('0');
                z = z + 1;
            }
            push_all(&mut out, ds.as_slice());
        }
    }
    out
}

/// `D * 10^k` is the decimal printed for the finite nonzero `x`: it reads back as `x`
/// (or, where no decimal of at most 17 digits was found to, it has 17 digits).
pub open spec fn spec_decimal_of(x: Double, d: nat, k: int) -> bool {
    spec_reads_back(x.sig_spec() as nat, x.exp_spec(), d, k) || (pow10_nat(16) <= d < pow10_nat(
        17,
    ))
}

/// `-` for a negative value, nothing otherwise.
pub open spec fn sign_text(x: Double) -> Seq<char> {
    if x.is_neg_spec() {
        seq!['-']
    } else {
        Seq::empty()
    }
}

/// A finite nonzero binary64 value.
pub open spec fn is_finite_nonzero(x: Double) -> bool {
    !x.is_nan_spec() && !x.is_inf_spec() && !x.is_zero_spec()
}

/// `format!("{}", x)` for a binary64 value.
pub fn display_number(x: &Double) -> (r: Vec<char>)
    ensures
        x.is_nan_spec() ==> r@ == "NaN"@,
        x.is_inf_spec() ==> r@ == (if x.is_neg_spec() {
            "-inf"@
        } else {
            "inf"@
        }),
        x.is_zero_spec() ==> r@ == (if x.is_neg_spec() {
            "-0"@
        } else {
            "0"@
        }),
        is_finite_nonzero(*x) ==> exists|d: nat, k: int|
            #![trigger spec_plain_decimal(d, k)]
            spec_decimal_of(*x, d, k) && r@ == sign_text(*x) + spec_plain_decimal(d, k),
{
    match x.classify() {
        Class::Nan => str_to_chars("NaN"),
        Class::Inf(neg) => if neg {
            str_to_chars("-inf")
        } else {
            str_to_chars("inf")
        },
        Class::Zero(neg) => if neg {
            str_to_chars("-0")
        } else {
            str_to_chars("0")
        },
        Class::Finite(neg, m, e) => {
            let (d, k) = shortest_digits(m, e);
            let mut out: Vec<char> = Vec::new();
            if neg {
                out.push('-');
            }
            assert(out@ =~= sign_text(*x));
            push_all(&mut out, plain_decimal(d, k).as_slice());
            assert(spec_decimal_of(*x, d as nat, k as int));
            assert(out@ == sign_text(*x) + spec_plain_decimal(d as nat, k as int));
            out
        },
    }
}

/// `D * 10^k` in scientific notation: the first digit, the other digits after a point
/// when there are any, `e` and the decimal exponent.
pub open spec fn spec_sci_decimal(d: nat, k: int) -> Seq<char> {
    let ds = spec_dec(d);
    ds.take(1) + (if ds.len() > 1 {
        seq!['.'] + ds.skip(1)
    } else {
        Seq::empty()
    }) + seq!['e'] + spec_int_dec(k + ds.len() - 1)
}

/// The `{:?}` text of `D * 10^k`: scientific below 1e-4 and from 1e16 on, else plain with
/// `.0` after an integer.
pub open spec fn spec_debug_decimal(d: nat, k: int) -> Seq<char> {
    let se = k + spec_dec(d).len() - 1;
    if se < -4 || se >= 16 {
        spec_sci_decimal(d, k)
    } else if k >= 0 {
        spec_plain_decimal(d, k) + seq!['.', '0']
    } else {
        spec_plain_decimal(d, k)
    }
}

/// `format!("{:?}", x)` for a binary64 value: plain decimal with at least one fractional
/// digit, or scientific notation below 1e-4 and from 1e16 on.
pub fn debug_number(x: &Double) -> (r: Vec<char>)
    ensures
        x.is_nan_spec() ==> r@ == "NaN"@,
        x.is_inf_spec() ==> r@ == (if x.is_neg_spec() {
            "-inf"@
        } else {
            "inf"@
        }),
        x.is_zero_spec() ==> r@ == (if x.is_neg_spec() {
            "-0.0"@
        } else {
            "0.0"@
        }),
        is_finite_nonzero(*x) ==> exists|d: nat, k: int|
            #![trigger spec_debug_decimal(d, k)]
            spec_decimal_of(*x, d, k) && r@ == sign_text(*x) + spec_debug_decimal(d, k),
{
    match x.classify() {
        Class::Nan => str_to_chars("NaN"),
        Class::Inf(neg) => if neg {
            str_to_chars("-inf")
        } else {
            str_to_chars("inf")
        },
        Class::Zero(neg) => if neg {
            str_to_chars("-0.0")
        } else {
            str_to_chars("0.0")
        },
        Class::Finite(neg, m, e) => {
            let (d, k) = shortest_digits(m, e);
            let mut out: Vec<char> = Vec::new();
            if neg {
                out.push('-');
            }
            assert(out@ =~= sign_text(*x));
            push_all(&mut out, debug_decimal(d, k).as_slice());
            assert(spec_decimal_of(*x, d as nat, k as int));
            assert(out@ == sign_text(*x) + spec_debug_decimal(d as nat, k as int));
            out
        },
    }
}

/// A number below `10^n` has at most `n` digits.
proof fn lemma_dec_len(v: nat, n: nat)
    requires
        v < pow10_nat(n),
        n >= 1,
    ensures
        spec_dec(v).len() <= n,
    decreases v,
{
    if v >= 10 {
        if n == 1 {
            assert(pow10_nat(1) == 10 * pow10_nat(0));
            assert(pow10_nat(0) == 1);
        }
        assert(pow10_nat(n) == 10 * pow10_nat((n - 1) as nat));
        lemma_dec_len(v / 10, (n - 1) as nat);
    }
}

/// The `{:?}` text of `d * 10^k`.
fn debug_decimal(d: u64, k: i32) -> (r: Vec<char>)
    ensures
        r@ == spec_debug_decimal(d as nat, k as int),
{
    let ds = u64_to_dec(d);
    proof {
        assert(pow10_nat(20) == 100_000_000_000_000_000_000) by {
            reveal_with_fuel(pow10_nat, 21);
        }
        lemma_dec_len(d as nat, 20);
    }
    let sci_exp: i128 = (k as i128) + (ds.len() as i128) - 1;
    let mut out: Vec<char> = Vec::new();
    if sci_exp < -4 || sci_exp >= 16 {
        out.push(ds[0]);
        assert(out@ =~= ds@.take(1));
        if ds.len() > 1 {
            out.push('.');
            let mut i: usize = 1;
            while i < ds.len()
                invariant
                    1 <= i <= ds@.len(),
                    out@ =~= ds@.take(1) + seq!['.'] + ds@.subrange(1, i as int),
                decreases ds.len() - i,
            {
                out.push(ds[i]);
                i = i + 1;
            }
            assert(ds@.subrange(1, ds@.len() as int) =~= ds@.skip(1));
        }
        let ghost mant = out@;
        out.push('e');
        if sci_exp < 0 {
            out.push('-');
            let mag = (-sci_exp) as u64;
            assert(mag as nat == -sci_exp);
            push_all(&mut out, u64_to_dec(mag).as_slice());
            assert(out@ =~= mant + seq!['e'] + (seq!['-'] + spec_dec(mag as nat)));
            assert(spec_int_dec(sci_exp as int) == seq!['-'] + spec_dec(mag as nat));
        } else {
            let mag = sci_exp as u64;
            assert(mag as nat == sci_exp);
            push_all(&mut out, u64_to_dec(mag).as_slice());
            assert(out@ =~= mant + seq!['e'] + spec_dec(mag as nat));
            assert(spec_int_dec(sci_exp as int) == spec_dec(mag as nat));
        }
        assert(out@ =~= mant + seq!['e'] + spec_int_dec(sci_exp as int));
        assert(out@ =~= spec_sci_decimal(d as nat, k as int));
    } else {
        push_all(&mut out, plain_decimal(d, k).as_slice());
        if k >= 0 {
            proof {
                reveal_strlit(".0");
            }
            push_str(&mut out, ".0");
        }
    }
    out
}

pub const E15_BITS: u64 = 0x430c6bf526340000u64;

/// The interpreter's number-to-string: NaN, Infinity, integers below 1e15 as integers,
/// everything else as Rust prints `f64`.
pub fn format_number(n: &Double) -> (r: Vec<char>)
    ensures
        n.is_nan_spec() ==> r@ == "NaN"@,
        n.is_inf_spec() ==> r@ == (if n.is_neg_spec() {
            "-Infinity"@
        } else {
            "Infinity"@
        }),
        n.is_zero_spec() ==> r@ == "0"@,
        is_finite_nonzero(*n) && spec_is_integral(*n) && spec_trunc_mag(*n)
            < 1_000_000_000_000_000 ==> r@ == spec_int_dec(spec_int_part(*n)),
        is_finite_nonzero(*n) && !(spec_is_integral(*n) && spec_trunc_mag(*n)
            < 1_000_000_000_000_000) ==> exists|d: nat, k: int|
            #![trigger spec_plain_decimal(d, k)]
            spec_decimal_of(*n, d, k) && r@ == sign_text(*n) + spec_plain_decimal(d, k),
{
    if n.is_nan() {
        return str_to_chars("NaN");
    }
    if n.is_infinite() {
        return if n.is_negative() {
            str_to_chars("-Infinity")
        } else {
            str_to_chars("Infinity")
        };
    }
    if n.is_zero() {
        return str_to_chars("0");
    }
    let as_int = n.to_i64();
    proof {
        if spec_trunc_mag(*n) < 0x1F_FFFF_FFFF_FFFF {
            lemma_int_part_read(*n, as_int);
        }
    }
    let fi = Double::from_i64(as_int);
    let e15 = Double::from_bits(E15_BITS);
    let mag = n.abs();
    proof {
        lemma_integer_test(*n, as_int, fi, mag, e15);
    }
    if n.eq(&fi) && mag.lt(&e15) {
        let r = i64_to_dec(as_int);
        return r;
    }
    display_number(n)
}

/// `x` is an integer.
pub open spec fn spec_is_integral(x: Double) -> bool {
    spec_scaled(x) == spec_int_part(x) * spec_pow2(1074)
}

/// The test `format_number` makes: `x == as_int as f64 && |x| < 1e15` holds exactly for an
/// integer below `10^15` in magnitude, whose integer part `as_int` then is.
proof fn lemma_integer_test(x: Double, as_int: i64, fi: Double, mag: Double, e15: Double)
    requires
        is_finite_nonzero(x),
        as_int == spec_clamp(spec_trunc(x), i64::MIN as int, i64::MAX as int),
        spec_trunc_mag(x) < 0x1F_FFFF_FFFF_FFFF ==> as_int == spec_int_part(x),
        -0x20_0000_0000_0000 < as_int < 0x20_0000_0000_0000 ==> spec_is_int_value(fi, as_int as int),
        !mag.is_nan_spec() && mag.bits == x.bits % SIGN_BIT,
        e15.bits == E15_BITS,
    ensures
        ((spec_order_key(x.bits) == spec_order_key(fi.bits) && !fi.is_nan_spec()) && spec_order_key(
            mag.bits,
        ) < spec_order_key(e15.bits)) == (spec_is_integral(x) && spec_trunc_mag(x)
            < 1_000_000_000_000_000),
        spec_is_integral(x) && spec_trunc_mag(x) < 1_000_000_000_000_000 ==> as_int
            == spec_int_part(x),
{
    let p = spec_pow2(1074);
    lemma_pow2_mono(0, 1074);
    lemma_trunc_mag_nonneg(x);
    lemma_trunc_below(x);
    lemma_frac_of_mag(x.bits);
    lemma_frac_of_mag(mag.bits);
    let full = x.sig_spec() * spec_pow2((x.exp_spec() + 1074) as nat);
    assert(mag.sig_spec() == x.sig_spec() && mag.exp_spec() == x.exp_spec());
    assert(!mag.is_neg_spec());
    assert(spec_scaled(mag) == full);
    // the value of 1e15
    lemma_e15(e15);
    law_order_key_is_value_order(mag, e15);
    let m = spec_trunc_mag(x);
    if m < 0x1F_FFFF_FFFF_FFFF {
        law_order_key_is_value_order(x, fi);
        assert((-m) * p == -(m * p)) by (nonlinear_arith);
        if spec_is_integral(x) {
            assert(full == m * p);
            if m < 1_000_000_000_000_000 {
                assert(m * p < 1_000_000_000_000_000 * p) by (nonlinear_arith)
                    requires
                        m < 1_000_000_000_000_000,
                        p >= 1,
                ;
            } else {
                assert(m * p >= 1_000_000_000_000_000 * p) by (nonlinear_arith)
                    requires
                        m >= 1_000_000_000_000_000,
                        p >= 1,
                ;
            }
        }
    } else {
        assert(m * p >= 1_000_000_000_000_000 * p) by (nonlinear_arith)
            requires
                m >= 1_000_000_000_000_000,
                p >= 1,
        ;
    }
}

/// The encoding `E15_BITS` is `10^15`.
proof fn lemma_e15(e15: Double)
    requires
        e15.bits == E15_BITS,
    ensures
        !e15.is_nan_spec() && !e15.is_inf_spec() && !e15.is_neg_spec(),
        spec_scaled(e15) == 1_000_000_000_000_000 * spec_pow2(1074),
{
    assert(spec_exp_field(E15_BITS) == 1072);
    assert(spec_frac_field(E15_BITS) == 0xc_6bf5_2634_0000);
    assert(e15.sig_spec() == 8_000_000_000_000_000);
    assert(e15.exp_spec() == -3);
    lemma_pow2_add(3, 1071);
    assert(spec_pow2(3) == 8) by {
        reveal_with_fuel(spec_pow2, 4);
    }
    assert(8_000_000_000_000_000 * spec_pow2(1071) == 1_000_000_000_000_000 * (8 * spec_pow2(1071)))
        by (nonlinear_arith);
}

/// The character of a digit value in `toString(radix)`: the value taken as a byte,
/// `0`-`9` below ten, from `a` on above (wrapping around the byte range).
pub open spec fn spec_radix_digit(v: nat) -> char {
    let d = v % 256;
    if d < 10 {
        (48 + d) as char
    } else {
        ((87 + d) % 256) as char
    }
}

/// The digits of `v` in base `radix`, most significant first.
pub open spec fn spec_radix_text(v: nat, radix: nat) -> Seq<char>
    decreases v,
{
    if radix < 2 || v < radix {
        seq![spec_radix_digit(v)]
    } else {
        proof {
            assert(v / radix < v) by (nonlinear_arith)
                requires
                    radix >= 2,
                    v >= radix,
            ;
        }
        spec_radix_text(v / radix, radix).push(spec_radix_digit(v % radix))
    }
}

/// The magnitude of a finite value truncated toward zero, saturating at `u64::MAX`.
pub open spec fn spec_trunc_u64(x: Double) -> nat {
    if spec_trunc_mag(x) > u64::MAX {
        u64::MAX as nat
    } else {
        spec_trunc_mag(x) as nat
    }
}

/// What `toString(radix)` gives for a finite nonzero value and a radix from 2 on other
/// than 10: `0` when the truncated magnitude is zero, else the sign and its digits.
pub open spec fn spec_radix_string(x: Double, radix: nat) -> Seq<char> {
    let v = spec_trunc_u64(x);
    if v == 0 {
        seq!['0']
    } else {
        sign_text(x) + spec_radix_text(v, radix)
    }
}

/// Digits left to write of `x` and digits written (least significant first) make up
/// the digits of the whole number.
pub open spec fn radix_head(x: nat, radix: nat) -> Seq<char> {
    if x > 0 {
        spec_radix_text(x, radix)
    } else {
        Seq::empty()
    }
}

/// `Number.prototype.toString(radix)`: radix 10 as `format_number`, otherwise the
/// truncated magnitude in the radix with lowercase digits (digit values past `z` wrap
/// around the byte range as the byte arithmetic does). Radix 0 and 1 have no digits.
pub fn number_to_string(n: &Double, radix: u32) -> (r: Result<Vec<char>, Vec<char>>)
    ensures
        r is Err ==> radix < 2 && is_finite_nonzero(*n),
        r matches Err(msg) ==> msg@ == "toString() radix must be at least 2"@,
        n.is_nan_spec() ==> (r matches Ok(s) && s@ == "NaN"@),
        n.is_inf_spec() ==> (r matches Ok(s) && s@ == (if n.is_neg_spec() {
            "-Infinity"@
        } else {
            "Infinity"@
        })),
        n.is_zero_spec() ==> (r matches Ok(s) && s@ == "0"@),
        radix >= 2 && radix != 10 && is_finite_nonzero(*n) ==> (r matches Ok(s) && s@
            == spec_radix_string(*n, radix as nat)),
{
    if radix == 10 {
        return Ok(format_number(n));
    }
    if n.is_nan() {
        return Ok(str_to_chars("NaN"));
    }
    if n.is_infinite() {
        return Ok(
            if n.is_negative() {
                str_to_chars("-Infinity")
            } else {
                str_to_chars("Infinity")
            },
        );
    }
    let neg = n.lt(&Double::zero(false));
    let mag = if neg {
        n.neg()
    } else {
        *n
    };
    proof {
        lemma_frac_of_mag(n.bits);
        lemma_frac_of_mag(mag.bits);
        if !n.is_zero_spec() {
            assert(n.bits % SIGN_BIT > 0);
        }
        assert(mag.sig_spec() == n.sig_spec());
        assert(mag.exp_spec() == n.exp_spec());
        assert(!n.is_zero_spec() ==> !mag.is_neg_spec());
    }
    let mut val = mag.to_u64_sat();
    proof {
        if is_finite_nonzero(*n) {
            assert(is_finite_nonzero(mag));
            assert(spec_trunc_mag(mag) == spec_trunc_mag(*n));
            lemma_trunc_mag_nonneg(*n);
            assert(val == spec_trunc_u64(*n));
        }
    }
    if val == 0 {
        proof {
            reveal_strlit("0");
        }
        return Ok(str_to_chars("0"));
    }
    if radix < 2 {
        return Err(str_to_chars("toString() radix must be at least 2"));
    }
    proof {
        assert(neg == n.is_neg_spec());
        assert(val == spec_trunc_u64(*n));
    }
    let ghost v0 = val as nat;
    let r = radix as u64;
    let mut digits: Vec<char> = Vec::new();
    assert(reversed(digits@) =~= Seq::<char>::empty());
    while val > 0
        invariant
            r >= 2,
            r == radix,
            v0 > 0,
            spec_radix_text(v0, r as nat) == radix_head(val as nat, r as nat) + reversed(digits@),
        decreases val,
    {
        let ghost before = digits@;
        let d = #[verifier::truncate] ((val % r) as u8);
        let b: u8 = if d < 10 {
            48 + d
        } else {
            97u8.wrapping_add(d).wrapping_sub(10)
        };
        proof {
            let vr = val % r;
            assert(d as u64 == vr % 256) by (bit_vector)
                requires
                    d == vr as u8,
            ;
            if d >= 10 {
                assert(b as nat == (87 + d as nat) % 256);
            }
            assert(b as char == spec_radix_digit((val % r) as nat));
        }
        digits.push(b as char);
        assert(val / r < val) by (nonlinear_arith)
            requires
                val > 0,
                r >= 2,
        ;
        proof {
            assert(reversed(digits@) =~= seq![b as char] + reversed(before));
            if val < r {
                assert(val / r == 0 && val % r == val) by (nonlinear_arith)
                    requires
                        val < r,
                        r >= 2,
                ;
            } else {
                assert(val / r > 0) by (nonlinear_arith)
                    requires
                        val >= r,
                        r >= 2,
                ;
            }
            assert(radix_head(val as nat, r as nat) =~= radix_head((val / r) as nat, r as nat)
                + seq![b as char]);
        }
        val = val / r;
    }
    assert(radix_head(0, r as nat) + reversed(digits@) =~= reversed(digits@));
    let mut out: Vec<char> = Vec::new();
    if neg {
        out.push('-');
    }
    assert(out@ =~= sign_text(*n));
    let rev = reverse_chars(&digits);
    assert(rev@ =~= reversed(digits@));
    push_all(&mut out, rev.as_slice());
    Ok(out)
}

/// `k` zero characters (none when `k` is not positive).
pub open spec fn spec_zero_pad(k: int) -> Seq<char> {
    Seq::new(if k > 0 { k as nat } else { 0 }, |i: int| '0')
}

/// The text `toFixed` builds from an integer part `a` and a scaled fraction `f`: the
/// integer in decimal, a point, and the fraction's decimal digits left-padded with zeros
/// to `digits` places.
pub open spec fn spec_fixed_text(a: int, f: nat, digits: nat) -> Seq<char> {
    spec_int_dec(a) + seq!['.'] + spec_zero_pad(digits - spec_dec(f).len()) + spec_dec(f)
}

/// `Number.prototype.toFixed(digits)` as the interpreter computes it.
#[verifier::rlimit(100)]
#[verifier::spinoff_prover]
pub fn to_fixed(n: &Double, digits: usize) -> (r: Vec<char>)
    ensures
        digits == 0 ==> exists|a: i64| r@ == #[trigger] spec_int_dec(a as int),
        digits == 0 && n.is_nan_spec() ==> r@ == spec_int_dec(0),
        digits > 0 ==> exists|a: i64, f: u64|
            r@ == #[trigger] spec_fixed_text(a as int, f as nat, digits as nat),
        digits > 0 && n.is_nan_spec() ==> r@ == spec_fixed_text(0, 0, digits as nat),
        0 < digits <= 15 ==> forall|v: int|
            #[trigger] spec_safe_int(*n, v) && v != 0 && -0x10_0000_0000_0000 < v * spec_pow10(
                digits as nat,
            ) < 0x10_0000_0000_0000 ==> r@ == spec_fixed_text(v, 0, digits as nat),
{
    if digits == 0 {
        let k = round(n).to_i64();
        let out = i64_to_dec(k);
        assert(out@ == spec_int_dec(k as int));
        return out;
    }
    let ghost iv = choose|v: int| spec_safe_int(*n, v);
    let ghost exact = digits <= 15 && spec_safe_int(*n, iv) && iv != 0 && -0x10_0000_0000_0000 < iv
        * spec_pow10(digits as nat) < 0x10_0000_0000_0000;
    let ghost k = spec_pow10(digits as nat);
    let factor = pow10(digits as i32);
    proof {
        if exact {
            crate::numparse::lemma_pow10_le_15(digits as nat);
            assert(spec_safe_int(factor, k));
            assert(spec_safe_int(*n, iv));
            assert(iv * k != 0) by (nonlinear_arith)
                requires
                    iv != 0,
                    k >= 1,
            ;
            vstd::arithmetic::div_mod::lemma_mod_multiples_basic(iv, k);
            vstd::arithmetic::div_mod::lemma_div_multiples_vanish(iv, k);
            assert(iv * k == k * iv) by (nonlinear_arith);
            assert((iv * k) / k == iv);
            assert((iv * k) % k == 0);
            assert(spec_is_int_value(factor, k));
        }
    }
    let rounded = round(&n.mul(&factor)).div(&factor);
    proof {
        if exact {
            assert(spec_is_int_value(rounded, iv));
            assert(-0x10_0000_0000_0000 < iv < 0x10_0000_0000_0000) by (nonlinear_arith)
                requires
                    -0x10_0000_0000_0000 < iv * k < 0x10_0000_0000_0000,
                    k >= 1,
            ;
            lemma_safe_int_parts(rounded, iv);
        }
    }
    let int_part = trunc(&rounded).to_i64();
    proof {
        if exact {
            assert(int_part == iv);
            assert(spec_safe_int(rounded, iv));
        }
    }
    let frac = rounded.sub(&Double::from_i64(int_part)).abs();
    proof {
        if exact {
            assert(frac.bits == 0);
            lemma_zero_int(frac);
            assert(spec_safe_int(frac, 0));
            assert(spec_safe_int(factor, k));
            assert(0 * k == 0);
        }
    }
    let frac_scaled = round(&frac.mul(&factor)).to_u64_sat();
    let frac_str = u64_to_dec(frac_scaled);
    let mut pad: Vec<char> = Vec::new();
    let mut len = frac_str.len();
    while len < digits
        invariant
            frac_str@.len() <= len,
            len <= if digits > frac_str@.len() { digits as int } else { frac_str@.len() as int },
            pad@ == Seq::new((len - frac_str@.len()) as nat, |i: int| '0'),
        decreases digits - len,
    {
        pad.push('0');
        len = len + 1;
        assert(pad@ =~= Seq::new((len - frac_str@.len()) as nat, |i: int| '0'));
    }
    assert(pad@ =~= spec_zero_pad(digits - frac_str@.len()));
    let mut out = i64_to_dec(int_part);
    out.push('.');
    push_all(&mut out, pad.as_slice());
    push_all(&mut out, frac_str.as_slice());
    assert(out@ =~= spec_fixed_text(int_part as int, frac_scaled as nat, digits as nat));
    proof {
        assert forall|v: int|
            #[trigger] spec_safe_int(*n, v) && v != 0 && -0x10_0000_0000_0000 < v * spec_pow10(
                digits as nat,
            ) < 0x10_0000_0000_0000 && digits <= 15 implies out@ == spec_fixed_text(
            v,
            0,
            digits as nat,
        ) by {
            crate::double::lemma_safe_value(*n, v);
            assert(iv == v);
            assert(exact);
            assert(frac_scaled == 0);
        }
    }
    out
}

} // verus!
