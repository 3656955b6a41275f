//! IEEE 754 binary64 numbers ("doubles") computed with integer arithmetic.
//!
//! A `Double` holds the 64-bit interchange encoding of a JavaScript number.
//! All arithmetic rounds to nearest, ties to even, exactly as the hardware
//! operations of binary64 do.
use vstd::prelude::*;

verus! {

pub const SIGN_BIT: u64 = 0x8000_0000_0000_0000u64;
pub const EXP_MASK: u64 = 0x7FF0_0000_0000_0000u64;
pub const FRAC_ONE: u64 = 0x0010_0000_0000_0000u64;
pub const QNAN_BITS: u64 = 0x7FF8_0000_0000_0000u64;
pub const INF_BITS: u64 = 0x7FF0_0000_0000_0000u64;

/// A binary64 value, stored as its bit pattern.
#[derive(Clone, Copy, Debug, PartialEq, Eq, Structural)]
pub struct Double {
    pub bits: u64,
}

/// The decoded form of a binary64 value.
pub enum Class {
    Nan,
    Inf(bool),
    Zero(bool),
    /// `(negative, m, e)`: the value `(-1)^negative * m * 2^e`, with `0 < m < 2^53`.
    Finite(bool, u64, i32),
}

/// Sign bit of an encoding.
pub open spec fn spec_negative(bits: u64) -> bool {
    bits >= SIGN_BIT
}

/// Biased exponent field of an encoding.
pub open spec fn spec_exp_field(bits: u64) -> int {
    ((bits % SIGN_BIT) / FRAC_ONE) as int
}

/// Fraction field of an encoding.
pub open spec fn spec_frac_field(bits: u64) -> int {
    (bits % FRAC_ONE) as int
}

pub open spec fn spec_is_nan(bits: u64) -> bool {
    spec_exp_field(bits) == 2047 && spec_frac_field(bits) != 0
}

pub open spec fn spec_is_inf(bits: u64) -> bool {
    spec_exp_field(bits) == 2047 && spec_frac_field(bits) == 0
}

pub open spec fn spec_is_zero(bits: u64) -> bool {
    spec_exp_field(bits) == 0 && spec_frac_field(bits) == 0
}

impl Double {
    pub open spec fn is_nan_spec(self) -> bool {
        spec_is_nan(self.bits)
    }

    pub open spec fn is_inf_spec(self) -> bool {
        spec_is_inf(self.bits)
    }

    pub open spec fn is_zero_spec(self) -> bool {
        spec_is_zero(self.bits)
    }

    pub open spec fn is_neg_spec(self) -> bool {
        spec_negative(self.bits)
    }

    /// The significand of a finite value: the fraction field, with the hidden bit of a
    /// normal value (biased exponent above 0) added.
    pub open spec fn sig_spec(self) -> int {
        if spec_exp_field(self.bits) == 0 {
            spec_frac_field(self.bits)
        } else {
            spec_frac_field(self.bits) + FRAC_ONE
        }
    }

    /// The binary exponent of a finite value: its magnitude is `sig_spec() * 2^exp_spec()`.
    pub open spec fn exp_spec(self) -> int {
        if spec_exp_field(self.bits) == 0 {
            -1074
        } else {
            spec_exp_field(self.bits) - 1075
        }
    }

    pub fn from_bits(bits: u64) -> (r: Double)
        ensures
            r.bits == bits,
    {
        Double { bits }
    }

    pub fn nan() -> (r: Double)
        ensures
            r.is_nan_spec(),
    {
        Double { bits: QNAN_BITS }
    }

    pub fn infinity(negative: bool) -> (r: Double)
        ensures
            r.is_inf_spec(),
            r.is_neg_spec() == negative,
    {
        if negative {
            Double { bits: INF_BITS + SIGN_BIT }
        } else {
            Double { bits: INF_BITS }
        }
    }

    pub fn zero(negative: bool) -> (r: Double)
        ensures
            r.is_zero_spec(),
            r.is_neg_spec() == negative,
            r.bits == (if negative {
                SIGN_BIT
            } else {
                0
            }),
    {
        if negative {
            Double { bits: SIGN_BIT }
        } else {
            Double { bits: 0 }
        }
    }

    pub fn one() -> (r: Double)
        ensures
            r.bits == 0x3ff0000000000000u64,
            spec_is_int_value(r, 1),
    {
        let r = Double { bits: 0x3ff0000000000000u64 };
        proof {
            lemma_pow2_52_53();
            lemma_pow2_add(52, 1022);
            assert(r.sig_spec() == 0x10_0000_0000_0000);
            assert(r.exp_spec() == -52);
            assert(spec_scaled(r) == spec_pow2(52) * spec_pow2(1022));
        }
        r
    }

    pub fn is_nan(&self) -> (r: bool)
        ensures
            r == self.is_nan_spec(),
    {
        let e = (self.bits % SIGN_BIT) / FRAC_ONE;
        let f = self.bits % FRAC_ONE;
        e == 2047 && f != 0
    }

    pub fn is_infinite(&self) -> (r: bool)
        ensures
            r == self.is_inf_spec(),
    {
        let e = (self.bits % SIGN_BIT) / FRAC_ONE;
        let f = self.bits % FRAC_ONE;
        e == 2047 && f == 0
    }

    pub fn is_finite(&self) -> (r: bool)
        ensures
            r == !(self.is_inf_spec() || self.is_nan_spec()),
    {
        let e = (self.bits % SIGN_BIT) / FRAC_ONE;
        e != 2047
    }

    pub fn is_zero(&self) -> (r: bool)
        ensures
            r == self.is_zero_spec(),
    {
        let e = (self.bits % SIGN_BIT) / FRAC_ONE;
        let f = self.bits % FRAC_ONE;
        e == 0 && f == 0
    }

    pub fn is_negative(&self) -> (r: bool)
        ensures
            r == self.is_neg_spec(),
    {
        self.bits >= SIGN_BIT
    }

    /// Decodes the value into its class; finite values as `m * 2^e`.
    pub fn classify(&self) -> (c: Class)
        ensures
            c is Nan <==> self.is_nan_spec(),
            c is Inf <==> self.is_inf_spec(),
            c is Zero <==> self.is_zero_spec(),
            c matches Class::Inf(n) ==> n == self.is_neg_spec(),
            c matches Class::Zero(n) ==> n == self.is_neg_spec(),
            c matches Class::Finite(n, m, e) ==> n == self.is_neg_spec() && 0 < m
                < 0x20_0000_0000_0000u64 && -1074 <= e <= 971 && m == self.sig_spec() && e
                == self.exp_spec(),
    {
        let neg = self.bits >= SIGN_BIT;
        let e = (self.bits % SIGN_BIT) / FRAC_ONE;
        let f = self.bits % FRAC_ONE;
        if e == 2047 {
            if f != 0 {
                Class::Nan
            } else {
                Class::Inf(neg)
            }
        } else if e == 0 {
            if f == 0 {
                Class::Zero(neg)
            } else {
                Class::Finite(neg, f, -1074)
            }
        } else {
            Class::Finite(neg, f + FRAC_ONE, (e as i32) - 1075)
        }
    }

    pub fn neg(&self) -> (r: Double)
        ensures
            self.is_nan_spec() ==> r.is_nan_spec(),
            !self.is_nan_spec() ==> r.is_neg_spec() != self.is_neg_spec() && r.bits % SIGN_BIT
                == self.bits % SIGN_BIT,
            forall|v: int| #[trigger] spec_safe_int(*self, v) ==> spec_safe_int(r, -v),
    {
        let r = if self.is_nan() {
            *self
        } else if self.bits >= SIGN_BIT {
            Double { bits: self.bits - SIGN_BIT }
        } else {
            Double { bits: self.bits + SIGN_BIT }
        };
        proof {
            if !self.is_nan_spec() {
                lemma_neg_scaled(*self, r);
            }
        }
        r
    }

    pub fn abs(&self) -> (r: Double)
        ensures
            self.is_nan_spec() ==> r.is_nan_spec(),
            !self.is_nan_spec() ==> r.bits == self.bits % SIGN_BIT,
            spec_is_int_value(*self, 0) ==> r.bits == 0,
    {
        proof {
            if spec_is_int_value(*self, 0) {
                lemma_int_zero_is_zero(*self);
            }
        }
        if self.bits >= SIGN_BIT && !self.is_nan() {
            Double { bits: self.bits - SIGN_BIT }
        } else {
            *self
        }
    }
}

/// Number of significant bits of `m`: the `n` with `2^(n-1) <= m < 2^n` (0 for zero).
pub open spec fn spec_bit_len(m: nat) -> nat
    decreases m,
{
    if m == 0 {
        0
    } else {
        1 + spec_bit_len(m / 2)
    }
}

/// `m` lies between the powers of two its bit length names.
pub proof fn lemma_bit_len_bounds(m: nat)
    ensures
        m < spec_pow2(spec_bit_len(m)),
        m > 0 ==> spec_pow2((spec_bit_len(m) - 1) as nat) <= m,
    decreases m,
{
    if m > 0 {
        lemma_bit_len_bounds(m / 2);
        if m / 2 > 0 {
            assert(spec_pow2((spec_bit_len(m) - 1) as nat) == 2 * spec_pow2((spec_bit_len(m / 2) - 1) as nat));
        } else {
            assert(spec_bit_len(m / 2) == 0);
            assert(spec_pow2(0) == 1);
        }
    } else {
        assert(spec_pow2(0) == 1);
    }
}

/// A number below `2^k` has at most `k` bits.
pub proof fn lemma_bit_len_at_most(m: nat, k: nat)
    requires
        m < spec_pow2(k),
    ensures
        spec_bit_len(m) <= k,
{
    lemma_bit_len_bounds(m);
    if spec_bit_len(m) > k {
        lemma_pow2_mono(k, (spec_bit_len(m) - 1) as nat);
    }
}

/// Number of significant bits of `m`.
pub fn bit_len(m: u128) -> (r: u32)
    ensures
        r <= 128,
        m == 0 <==> r == 0,
        r == spec_bit_len(m as nat),
{
    let mut n: u32 = 0;
    let mut v: u128 = m;
    while v != 0 && n < 128
        invariant
            n <= 128,
            m == 0 ==> v == 0 && n == 0,
            m != 0 && n == 0 ==> v == m,
            spec_bit_len(m as nat) == n + spec_bit_len(v as nat),
        decreases 128 - n,
    {
        v = v / 2;
        n = n + 1;
    }
    proof {
        if v != 0 {
            // n == 128 would leave v = m / 2^128 == 0
            assert(spec_bit_len(v as nat) >= 1);
            lemma_pow2_64();
            lemma_pow2_add(64, 64);
            assert(spec_pow2(128) == 0x1_0000_0000_0000_0000_0000_0000_0000_0000);
            lemma_bit_len_at_most(m as nat, 128);
        }
    }
    n
}

/// Rounds `(m + s) * 2^e` to a binary floating point number of `prec` significant bits
/// whose quantum is at least `2^qmin` (round to nearest, ties to even), where `s` is a
/// value strictly between 0 and 1 when `sticky` holds and 0 otherwise.
/// Returns `(sig, q)` with the result `sig * 2^q`; `sig <= 2^prec`.
pub fn round_to_precision(m: u128, e: i32, sticky: bool, prec: u32, qmin: i32) -> (r: (u128, i32))
    requires
        1 <= prec <= 64,
        -2000 <= qmin <= 0,
        -4000 <= e <= 4000,
    ensures
        r.0 <= spec_pow2(prec as nat),
        r.1 >= qmin,
        r.1 <= 4200,
        m > 0 && spec_bit_len(m as nat) <= prec && e + spec_bit_len(m as nat) - prec >= qmin ==> (
        r.1 == e + spec_bit_len(m as nat) - prec && r.0 == m * spec_pow2(
            (prec - spec_bit_len(m as nat)) as nat,
        )),
{
    let len = bit_len(m) as i32;
    let mut q: i32 = e + len - (prec as i32);
    if q < qmin {
        q = qmin;
    }
    let shift: i32 = q - e;
    if shift <= 0 {
        // exact: m * 2^(-shift) has at most prec bits
        let s = (-shift) as u32;
        if s >= 128 || m == 0 {
            return (0, q);
        }
        let p = pow2_u128(prec);
        proof {
            if spec_bit_len(m as nat) <= prec && e + spec_bit_len(m as nat) - prec >= qmin {
                lemma_bit_len_bounds(m as nat);
                let lp = spec_pow2(spec_bit_len(m as nat));
                lemma_pow2_add(spec_bit_len(m as nat), s as nat);
                assert(s + spec_bit_len(m as nat) == prec);
                assert(m * spec_pow2(s as nat) < lp * spec_pow2(s as nat)) by (nonlinear_arith)
                    requires
                        m < lp,
                        spec_pow2(s as nat) >= 1,
                ;
                lemma_pow2_mono(prec as nat, 64);
                lemma_pow2_64();
                lemma_pow2_mono(0, s as nat);
            }
        }
        let sig = shl_u128(m, s, prec);
        if sig > p {
            (p, q)
        } else {
            (sig, q)
        }
    } else {
        let (sig0, rem_half, rem_more) = shr_round_parts(m, shift as u32);
        let more = rem_more || sticky;
        let p = pow2_u128(prec);
        let mut sig = if sig0 > p {
            p
        } else {
            sig0
        };
        if rem_half && (more || sig % 2 == 1) && sig < p {
            sig = sig + 1;
        }
        (sig, q)
    }
}

pub open spec fn spec_pow2(n: nat) -> nat
    decreases n,
{
    if n == 0 {
        1
    } else {
        2 * spec_pow2((n - 1) as nat)
    }
}

/// `2^n` for `n <= 64`.
pub fn pow2_u128(n: u32) -> (r: u128)
    requires
        n <= 64,
    ensures
        r == spec_pow2(n as nat),
        r >= 1,
        r <= 0x1_0000_0000_0000_0000u128,
{
    let mut r: u128 = 1;
    let mut i: u32 = 0;
    proof {
        lemma_pow2_mono(0, 64);
        lemma_pow2_64();
    }
    while i < n
        invariant
            i <= n <= 64,
            r == spec_pow2(i as nat),
            r <= spec_pow2(i as nat),
            1 <= r,
            spec_pow2(i as nat) <= spec_pow2(64),
            spec_pow2(64) == 0x1_0000_0000_0000_0000int,
        decreases n - i,
    {
        proof {
            lemma_pow2_mono((i + 1) as nat, 64);
        }
        r = r * 2;
        i = i + 1;
    }
    proof {
        lemma_pow2_64();
    }
    r
}

pub proof fn lemma_pow2_64()
    ensures
        spec_pow2(64) == 0x1_0000_0000_0000_0000int,
{
    reveal_with_fuel(spec_pow2, 65);
}

/// `2^(a + b) == 2^a * 2^b`.
pub proof fn lemma_pow2_add(a: nat, b: nat)
    ensures
        spec_pow2(a + b) == spec_pow2(a) * spec_pow2(b),
    decreases a,
{
    if a == 0 {
        assert(spec_pow2(0) == 1);
    } else {
        lemma_pow2_add((a - 1) as nat, b);
        assert(spec_pow2(a + b) == 2 * spec_pow2((a - 1 + b) as nat));
        assert(spec_pow2(a) == 2 * spec_pow2((a - 1) as nat));
        assert(2 * (spec_pow2((a - 1) as nat) * spec_pow2(b)) == (2 * spec_pow2((a - 1) as nat))
            * spec_pow2(b)) by (nonlinear_arith);
    }
}

pub proof fn lemma_pow2_mono(a: nat, b: nat)
    requires
        a <= b,
    ensures
        spec_pow2(a) <= spec_pow2(b),
        spec_pow2(a) >= 1,
    decreases b,
{
    if a < b {
        lemma_pow2_mono(a, (b - 1) as nat);
    } else if a > 0 {
        lemma_pow2_mono((a - 1) as nat, (a - 1) as nat);
    }
}

/// `m * 2^s`, known to stay below `2^prec`.
fn shl_u128(m: u128, s: u32, prec: u32) -> (r: u128)
    requires
        s < 128,
        prec <= 64,
    ensures
        m * spec_pow2(s as nat) < 0x8000_0000_0000_0000_0000_0000_0000_0000 ==> r == m
            * spec_pow2(s as nat),
{
    let mut v = m;
    let mut i: u32 = 0;
    assert(spec_pow2(0) == 1);
    while i < s
        invariant
            i <= s,
            v == m * spec_pow2(i as nat),
        decreases s - i,
    {
        if v >= 0x8000_0000_0000_0000_0000_0000_0000_0000u128 {
            proof {
                lemma_pow2_mono(i as nat, s as nat);
                assert(m * spec_pow2(i as nat) <= m * spec_pow2(s as nat)) by (nonlinear_arith)
                    requires
                        spec_pow2(i as nat) <= spec_pow2(s as nat),
                ;
            }
            return v;
        }
        proof {
            assert(m * spec_pow2((i + 1) as nat) == 2 * (m * spec_pow2(i as nat))) by (nonlinear_arith)
                requires
                    spec_pow2((i + 1) as nat) == 2 * spec_pow2(i as nat),
            ;
        }
        v = v * 2;
        i = i + 1;
    }
    v
}

/// Splits `m` shifted right by `s` bits into the truncated quotient, whether the
/// highest removed bit is set, and whether any lower removed bit is set.
fn shr_round_parts(m: u128, s: u32) -> (r: (u128, bool, bool))
    ensures
        s <= 128 ==> r.0 == m as nat / spec_pow2(s as nat) && r.1 == (s > 0 && (m as nat / spec_pow2(
            (s - 1) as nat,
        )) % 2 == 1) && r.2 == (s > 0 && m as nat % spec_pow2((s - 1) as nat) != 0),
        s > 128 ==> r == (0u128, false, m != 0),
{
    if s > 128 {
        return (0, false, m != 0);
    }
    let mut q = m;
    let mut half = false;
    let mut more = false;
    let mut i: u32 = 0;
    proof {
        assert(spec_pow2(0) == 1);
        assert(m as nat / 1 == m as nat);
        assert(m as nat % 1 == 0);
    }
    while i < s
        invariant
            i <= s <= 128,
            q == m as nat / spec_pow2(i as nat),
            i < s ==> more == (m as nat % spec_pow2(i as nat) != 0) && !half,
            i == s && s > 0 ==> more == (m as nat % spec_pow2((s - 1) as nat) != 0) && half == ((
            m as nat / spec_pow2((s - 1) as nat)) % 2 == 1),
            s == 0 ==> !more && !half,
        decreases s - i,
    {
        proof {
            lemma_shr_step(m as nat, i as nat);
        }
        let bit = q % 2 == 1;
        if i + 1 == s {
            half = bit;
        } else if bit {
            more = true;
        }
        q = q / 2;
        i = i + 1;
    }
    (q, half, more)
}

/// Taking one more low bit away: the quotient halves, and the remainder gains the bit.
proof fn lemma_shr_step(m: nat, i: nat)
    ensures
        m / spec_pow2(i + 1) == (m / spec_pow2(i)) / 2,
        (m % spec_pow2(i + 1) != 0) == ((m / spec_pow2(i)) % 2 == 1 || m % spec_pow2(i) != 0),
{
    let p = spec_pow2(i) as int;
    lemma_pow2_mono(i, i);
    assert(spec_pow2(i + 1) == p * 2);
    vstd::arithmetic::div_mod::lemma_div_denominator(m as int, p, 2);
    vstd::arithmetic::div_mod::lemma_breakdown(m as int, p, 2);
    assert(0 <= (m as int) % p < p) by {
        vstd::arithmetic::div_mod::lemma_mod_bound(m as int, p);
    }
    let b = ((m as int) / p) % 2;
    assert(b == 0 || b == 1) by {
        vstd::arithmetic::div_mod::lemma_mod_bound((m as int) / p, 2);
    }
    if b == 0 {
        assert(p * b == 0) by (nonlinear_arith)
            requires
                b == 0,
        ;
    } else {
        assert(p * b == p) by (nonlinear_arith)
            requires
                b == 1,
        ;
    }
}

/// `2^52` and `2^53`.
pub proof fn lemma_pow2_52_53()
    ensures
        spec_pow2(52) == 0x10_0000_0000_0000,
        spec_pow2(53) == 0x20_0000_0000_0000,
{
    reveal_with_fuel(spec_pow2, 54);
}

/// A nonzero number of at most 53 bits, shifted up to 53 bits, lies in `[2^52, 2^53)`.
proof fn lemma_sig_53(m: nat)
    requires
        m > 0,
        spec_bit_len(m) <= 53,
    ensures
        0x10_0000_0000_0000 <= m * spec_pow2((53 - spec_bit_len(m)) as nat) < 0x20_0000_0000_0000,
{
    lemma_bit_len_bounds(m);
    let l = spec_bit_len(m);
    let s = (53 - l) as nat;
    lemma_pow2_add((l - 1) as nat, s);
    lemma_pow2_add(l, s);
    lemma_pow2_52_53();
    assert((l - 1) + s == 52);
    assert(l + s == 53);
    lemma_pow2_mono(0, s);
    assert(spec_pow2((l - 1) as nat) * spec_pow2(s) <= m * spec_pow2(s)) by (nonlinear_arith)
        requires
            spec_pow2((l - 1) as nat) <= m,
    ;
    assert(m * spec_pow2(s) < spec_pow2(l) * spec_pow2(s)) by (nonlinear_arith)
        requires
            m < spec_pow2(l),
            spec_pow2(s) >= 1,
    ;
}

/// The encoding of a normal value from its biased exponent and fraction, with either sign.
proof fn lemma_normal_bits(ef: u64, frac: u64)
    requires
        1 <= ef <= 2046,
        frac < FRAC_ONE,
    ensures
        ef * FRAC_ONE + frac < SIGN_BIT,
        spec_exp_field((ef * FRAC_ONE + frac) as u64) == ef,
        spec_frac_field((ef * FRAC_ONE + frac) as u64) == frac,
        spec_exp_field((ef * FRAC_ONE + frac + SIGN_BIT) as u64) == ef,
        spec_frac_field((ef * FRAC_ONE + frac + SIGN_BIT) as u64) == frac,
{
    let bits = (ef * FRAC_ONE + frac) as u64;
    assert(bits / FRAC_ONE == ef);
    assert(bits % FRAC_ONE == frac);
    let nb = (ef * FRAC_ONE + frac + SIGN_BIT) as u64;
    assert(nb % SIGN_BIT == bits);
    lemma_frac_of_mag(nb);
}

/// `x` is a finite value equal to the integer `v` (either zero when `v` is 0).
pub open spec fn spec_is_int_value(x: Double, v: int) -> bool {
    !x.is_nan_spec() && !x.is_inf_spec() && spec_scaled(x) == v * spec_pow2(1074)
}

/// The bound of the safe integers: every integer of smaller magnitude is a double, `2^53`.
pub open spec fn safe_limit() -> int {
    0x20_0000_0000_0000
}

/// `x` is the safe integer `v`: a finite value equal to an integer of magnitude below `2^53`.
pub open spec fn spec_safe_int(x: Double, v: int) -> bool {
    spec_is_int_value(x, v) && -safe_limit() < v < safe_limit()
}

/// The double that is the integer `v` (`+0` for 0), where there is one.
pub open spec fn int_double(v: int) -> Double {
    choose|d: Double| spec_is_int_value(d, v) && d.bits != SIGN_BIT
}

/// A double that is the integer `v` and not `-0` is `int_double(v)`.
pub proof fn lemma_int_double_unique(d: Double, v: int)
    requires
        spec_is_int_value(d, v),
        d.bits != SIGN_BIT,
    ensures
        int_double(v) == d,
{
    let c = int_double(v);
    assert(spec_is_int_value(c, v) && c.bits != SIGN_BIT);
    law_order_key_is_value_order(d, c);
    assert(spec_order_key(d.bits) == spec_order_key(c.bits));
    assert(d.bits == c.bits);
}

/// A double that is a nonzero integer `v` is `int_double(v)`.
pub proof fn lemma_int_double_of(d: Double, v: int)
    requires
        spec_is_int_value(d, v),
        v != 0,
    ensures
        int_double(v) == d,
{
    if d.bits == SIGN_BIT {
        lemma_zero_int(d);
    }
    lemma_int_double_unique(d, v);
}

/// The safe integer a double is, where it is one.
pub open spec fn safe_value(d: Double) -> Option<int> {
    if exists|i: int| spec_safe_int(d, i) {
        Some(choose|i: int| spec_safe_int(d, i))
    } else {
        None
    }
}

/// A double is at most one safe integer.
pub proof fn lemma_safe_value(d: Double, i: int)
    requires
        spec_safe_int(d, i),
    ensures
        safe_value(d) == Some(i),
{
    let k = choose|k: int| spec_safe_int(d, k);
    let p = spec_pow2(1074);
    lemma_pow2_mono(0, 1074);
    assert(k * p == i * p);
    assert(k == i) by (nonlinear_arith)
        requires
            k * p == i * p,
            p >= 1,
    ;
}

/// Every safe integer is a double: `int_double(v)` is one (`+0` for 0).
pub proof fn lemma_int_double(v: int)
    requires
        -safe_limit() < v < safe_limit(),
    ensures
        spec_is_int_value(int_double(v), v),
        int_double(v).bits != SIGN_BIT,
{
    if v == 0 {
        let z = Double { bits: 0 };
        lemma_zero_is_int(z);
        assert(spec_is_int_value(z, v) && z.bits != SIGN_BIT);
    } else {
        let neg = v < 0;
        let m: nat = (if neg {
            -v
        } else {
            v
        }) as nat;
        lemma_pow2_52_53();
        lemma_bit_len_at_most(m, 53);
        lemma_bit_len_bounds(m);
        let l = spec_bit_len(m);
        assert(l >= 1) by {
            if l == 0 {
                assert(spec_pow2(0) == 1);
            }
        }
        lemma_sig_53(m);
        let sig = m * spec_pow2((53 - l) as nat);
        let ef = (l + 1022) as u64;
        let frac = (sig - FRAC_ONE) as u64;
        lemma_normal_bits(ef, frac);
        let bits: u64 = if neg {
            (ef * FRAC_ONE + frac + SIGN_BIT) as u64
        } else {
            (ef * FRAC_ONE + frac) as u64
        };
        let d = Double { bits };
        assert(d.sig_spec() == sig);
        assert(d.exp_spec() == 0 + l - 53);
        lemma_pack_integer(neg, m, d);
        assert(spec_is_int_value(d, v));
        assert(d.bits != SIGN_BIT);
    }
}

/// Either zero is the integer 0, and no other integer.
pub proof fn lemma_zero_int(x: Double)
    requires
        x.is_zero_spec(),
    ensures
        spec_scaled(x) == 0,
        spec_is_int_value(x, 0),
        forall|v: int| #[trigger] spec_is_int_value(x, v) ==> v == 0,
{
    let p = spec_pow2(1074);
    lemma_pow2_mono(0, 1074);
    let q = spec_pow2((x.exp_spec() + 1074) as nat);
    assert(x.sig_spec() == 0);
    assert(x.sig_spec() * q == 0) by (nonlinear_arith)
        requires
            x.sig_spec() == 0,
    ;
    assert(0 * p == 0);
    assert forall|v: int| #[trigger] spec_is_int_value(x, v) implies v == 0 by {
        assert(v * p == 0);
        assert(v == 0) by (nonlinear_arith)
            requires
                v * p == 0,
                p >= 1,
        ;
    }
}

/// A finite value that is an integer of magnitude at most `2^100` truncates to it.
pub proof fn lemma_int_value_trunc(x: Double, n: int)
    requires
        spec_is_int_value(x, n),
        -trunc_limit() <= n <= trunc_limit(),
    ensures
        spec_trunc(x) == n,
{
    let p = spec_pow2(1074);
    lemma_pow2_mono(0, 1074);
    let s = x.sig_spec();
    let e = x.exp_spec();
    assert(e >= -1074);
    let q = spec_pow2((e + 1074) as nat);
    let mag = s * q;
    let an: int = if n < 0 {
        -n
    } else {
        n
    };
    if x.is_zero_spec() {
        lemma_zero_int(x);
    } else {
        assert(s >= 0);
        lemma_pow2_mono(0, (e + 1074) as nat);
        assert(mag >= 0) by (nonlinear_arith)
            requires
                s >= 0,
                q >= 1,
                mag == s * q,
        ;
        assert(an * p == mag) by (nonlinear_arith)
            requires
                n * p == (if x.is_neg_spec() {
                    -mag
                } else {
                    mag
                }),
                an == (if n < 0 {
                    -n
                } else {
                    n
                }),
                mag >= 0,
                p >= 1,
        ;
        if e >= 0 {
            lemma_pow2_add(e as nat, 1074);
            let pe = spec_pow2(e as nat);
            assert(q == pe * p);
            assert(an == s * pe) by (nonlinear_arith)
                requires
                    an * p == s * q,
                    q == pe * p,
                    p >= 1,
            ;
            assert(spec_trunc_mag(x) == an);
        } else {
            let k = (-e) as nat;
            let qq = (e + 1074) as nat;
            lemma_pow2_add(qq, k);
            assert(qq + k == 1074);
            let pk = spec_pow2(k);
            lemma_pow2_mono(0, k);
            assert(p == q * pk);
            assert(s == an * pk) by (nonlinear_arith)
                requires
                    an * p == s * q,
                    p == q * pk,
                    q >= 1,
            ;
            assert(s / (pk as int) == an) by (nonlinear_arith)
                requires
                    s == an * pk,
                    pk >= 1,
            ;
            assert(spec_trunc_mag(x) == an);
        }
        if x.is_neg_spec() {
            assert(n <= 0) by (nonlinear_arith)
                requires
                    n * p == -mag,
                    mag >= 0,
                    p >= 1,
            ;
        } else {
            assert(n >= 0) by (nonlinear_arith)
                requires
                    n * p == mag,
                    mag >= 0,
                    p >= 1,
            ;
        }
    }
}

/// A safe integer's truncation, integer part and truncated magnitude are itself and its
/// magnitude.
pub proof fn lemma_safe_int_parts(x: Double, n: int)
    requires
        spec_safe_int(x, n),
    ensures
        spec_trunc(x) == n,
        spec_int_part(x) == n,
        spec_trunc_mag(x) == (if n < 0 {
            -n
        } else {
            n
        }),
{
    lemma_int_value_trunc(x, n);
    lemma_trunc_mag_nonneg(x);
    if x.is_zero_spec() {
        lemma_zero_int(x);
        assert(x.sig_spec() == 0);
        if x.exp_spec() >= 0 {
            assert(0 * spec_pow2(x.exp_spec() as nat) == 0);
        } else {
            lemma_pow2_mono(0, (-x.exp_spec()) as nat);
            assert(0int / (spec_pow2((-x.exp_spec()) as nat) as int) == 0);
        }
    }
}

/// A double that is the integer 0 is one of the two zeros.
pub proof fn lemma_int_zero_is_zero(x: Double)
    requires
        spec_is_int_value(x, 0),
    ensures
        x.is_zero_spec(),
{
    let q = spec_pow2((x.exp_spec() + 1074) as nat);
    lemma_pow2_mono(0, (x.exp_spec() + 1074) as nat);
    assert(0 * spec_pow2(1074) == 0);
    assert(x.sig_spec() * q == 0) by {
        if x.is_neg_spec() {
            assert(-(x.sig_spec() * q) == 0);
        }
    }
    assert(x.sig_spec() == 0) by (nonlinear_arith)
        requires
            x.sig_spec() * q == 0,
            q >= 1,
    ;
}

/// Negation keeps the magnitude and flips the value.
proof fn lemma_neg_scaled(x: Double, r: Double)
    requires
        !x.is_nan_spec(),
        r.is_neg_spec() != x.is_neg_spec(),
        r.bits % SIGN_BIT == x.bits % SIGN_BIT,
    ensures
        !r.is_nan_spec(),
        r.is_inf_spec() == x.is_inf_spec(),
        r.is_zero_spec() == x.is_zero_spec(),
        spec_scaled(r) == -spec_scaled(x),
        forall|v: int| #[trigger] spec_safe_int(x, v) ==> spec_safe_int(r, -v),
        r.sig_spec() == x.sig_spec(),
        r.exp_spec() == x.exp_spec(),
{
    lemma_frac_of_mag(x.bits);
    lemma_frac_of_mag(r.bits);
    assert(r.sig_spec() == x.sig_spec());
    assert(r.exp_spec() == x.exp_spec());
    let p = spec_pow2(1074);
    assert forall|v: int| #[trigger] spec_safe_int(x, v) implies spec_safe_int(r, -v) by {
        assert((-v) * p == -(v * p)) by (nonlinear_arith);
    }
}

/// The encoding 0 is the integer 0.
proof fn lemma_zero_is_int(r: Double)
    requires
        r.bits == 0,
    ensures
        spec_is_int_value(r, 0),
{
    assert(spec_exp_field(0) == 0);
    assert(spec_frac_field(0) == 0);
    assert(r.sig_spec() == 0);
    let p = spec_pow2((r.exp_spec() + 1074) as nat);
    assert(0 * p == 0);
    assert(0 * spec_pow2(1074) == 0);
}

/// What `pack` makes of a nonzero integer below `2^53` is exactly that integer.
proof fn lemma_pack_integer(neg: bool, m: nat, r: Double)
    requires
        0 < m < 0x20_0000_0000_0000,
        !r.is_nan_spec() && !r.is_inf_spec() && !r.is_zero_spec() && r.is_neg_spec() == neg
            && r.sig_spec() == m * spec_pow2((53 - spec_bit_len(m)) as nat) && r.exp_spec()
            == 0 + spec_bit_len(m) - 53,
    ensures
        spec_is_int_value(r, if neg { -m } else { m as int }),
{
    lemma_pow2_52_53();
    lemma_bit_len_at_most(m, 53);
    let l = spec_bit_len(m);
    let s = (53 - l) as nat;
    let t = (l + 1021) as nat;
    lemma_pow2_add(s, t);
    assert(s + t == 1074);
    assert(r.exp_spec() + 1074 == t);
    let p = spec_pow2(1074);
    assert(spec_pow2(s) * spec_pow2(t) == p);
    assert(m * spec_pow2(s) * spec_pow2(t) == m * p) by (nonlinear_arith)
        requires
            spec_pow2(s) * spec_pow2(t) == p,
    ;
    assert(r.sig_spec() * spec_pow2((r.exp_spec() + 1074) as nat) == m * p);
    assert((-m) * p == -(m * p)) by (nonlinear_arith);
}

/// Packs `(-1)^neg * (m + s) * 2^e` (with `s` as in `round_to_precision`) into the
/// nearest binary64 value, overflowing to an infinity.
pub fn pack(neg: bool, m: u128, e: i32, sticky: bool) -> (r: Double)
    requires
        -4000 <= e <= 4000,
    ensures
        m == 0 && !sticky ==> r.bits == (if neg {
            SIGN_BIT
        } else {
            0
        }),
        m > 0 && !sticky && spec_bit_len(m as nat) <= 53 && e + spec_bit_len(m as nat) - 1 <= 1023
            && e + spec_bit_len(m as nat) - 53 >= -1074 ==> (!r.is_nan_spec() && !r.is_inf_spec()
            && !r.is_zero_spec() && r.is_neg_spec() == neg && r.sig_spec() == m * spec_pow2(
            (53 - spec_bit_len(m as nat)) as nat,
        ) && r.exp_spec() == e + spec_bit_len(m as nat) - 53),
{
    if m == 0 && !sticky {
        return Double::zero(neg);
    }
    let len = bit_len(m) as i32;
    if e + len - 1 > 1023 {
        return Double::infinity(neg);
    }
    let (sig0, q0) = round_to_precision(m, e, sticky, 53, -1074);
    proof {
        if m > 0 && !sticky && spec_bit_len(m as nat) <= 53 && e + spec_bit_len(m as nat) - 53
            >= -1074 {
            lemma_sig_53(m as nat);
        }
    }
    let mut sig = sig0;
    let mut q = q0;
    if sig == 0 {
        return Double::zero(neg);
    }
    let top: u128 = 0x20_0000_0000_0000u128;
    let hidden: u128 = 0x10_0000_0000_0000u128;
    proof {
        lemma_pow2_52_53();
    }
    if sig == top {
        sig = hidden;
        q = q + 1;
    }
    // renormalize a significand that is short of 53 bits above the subnormal range
    while sig < hidden && q > -1074
        invariant
            top == 0x20_0000_0000_0000u128,
            hidden == 0x10_0000_0000_0000u128,
            0 < sig < top,
            -1074 <= q <= 4201,
            sig0 >= hidden && sig0 < top ==> sig == sig0 && q == q0,
        decreases q + 1074,
    {
        sig = sig * 2;
        q = q - 1;
    }
    if sig >= hidden {
        let biased: i32 = q + 1075;
        if biased >= 2047 {
            return Double::infinity(neg);
        }
        let ef = biased as u64;
        let frac = (sig - hidden) as u64;
        let bits = ef * FRAC_ONE + frac;
        proof {
            lemma_normal_bits(ef, frac);
        }
        if neg {
            Double { bits: bits + SIGN_BIT }
        } else {
            Double { bits }
        }
    } else {
        let bits = sig as u64;
        if neg {
            Double { bits: bits + SIGN_BIT }
        } else {
            Double { bits }
        }
    }
}

/// The order key of a non-NaN value: equal keys for equal values, keys ordered as the values.
pub open spec fn spec_order_key(bits: u64) -> int {
    if bits >= SIGN_BIT {
        -(bits - SIGN_BIT)
    } else {
        bits as int
    }
}

/// The exact value of a finite double times `2^1074` (an integer): the significand
/// times `2^(exponent + 1074)`, with the sign.
pub open spec fn spec_scaled(x: Double) -> int {
    let mag = x.sig_spec() * spec_pow2((x.exp_spec() + 1074) as nat);
    if x.is_neg_spec() {
        -mag
    } else {
        mag
    }
}

/// The magnitude part of an encoding, without the sign bit.
pub open spec fn spec_mag_bits(bits: u64) -> int {
    (bits % SIGN_BIT) as int
}

/// The fraction field does not depend on the sign bit.
pub proof fn lemma_frac_of_mag(bits: u64)
    ensures
        bits % 0x10_0000_0000_0000 == (bits % 0x8000_0000_0000_0000) % 0x10_0000_0000_0000,
{
    assert(bits % 0x10_0000_0000_0000 == (bits % 0x8000_0000_0000_0000) % 0x10_0000_0000_0000)
        by (bit_vector);
}

/// Bounds of the scaled magnitude of a finite value by its biased exponent `E`: below
/// `2^52 * 2^E`, and from `2^52 * 2^(E-1)` on when `E > 0`.
proof fn lemma_scaled_mag_bounds(x: Double)
    requires
        !x.is_nan_spec(),
        !x.is_inf_spec(),
    ensures
        x.sig_spec() * spec_pow2((x.exp_spec() + 1074) as nat) < FRAC_ONE * spec_pow2(
            spec_exp_field(x.bits) as nat,
        ),
        spec_exp_field(x.bits) > 0 ==> x.sig_spec() * spec_pow2((x.exp_spec() + 1074) as nat)
            >= FRAC_ONE * spec_pow2((spec_exp_field(x.bits) - 1) as nat),
{
    let ef = spec_exp_field(x.bits);
    let f = spec_frac_field(x.bits);
    assert(0 <= f < FRAC_ONE);
    assert(0 <= ef <= 2047);
    if ef == 0 {
        assert(spec_pow2(0) == 1);
        assert(x.exp_spec() + 1074 == 0);
        assert(x.sig_spec() == f);
        assert(f * 1 == f);
        assert(FRAC_ONE * 1 == FRAC_ONE);
    } else {
        lemma_pow2_mono((ef - 1) as nat, (ef - 1) as nat);
        let p = spec_pow2((ef - 1) as nat);
        assert(spec_pow2(ef as nat) == 2 * p);
        assert(x.exp_spec() + 1074 == ef - 1);
        assert((f + FRAC_ONE) * p < FRAC_ONE * (2 * p)) by (nonlinear_arith)
            requires
                0 <= f < FRAC_ONE,
                p >= 1,
        ;
        assert((f + FRAC_ONE) * p >= FRAC_ONE * p) by (nonlinear_arith)
            requires
                0 <= f,
                p >= 1,
        ;
    }
}

/// Larger magnitude bits stand for a larger magnitude.
proof fn lemma_mag_order(a: Double, b: Double)
    requires
        !a.is_nan_spec(),
        !a.is_inf_spec(),
        !b.is_nan_spec(),
        !b.is_inf_spec(),
        spec_mag_bits(a.bits) < spec_mag_bits(b.bits),
    ensures
        a.sig_spec() * spec_pow2((a.exp_spec() + 1074) as nat) < b.sig_spec() * spec_pow2(
            (b.exp_spec() + 1074) as nat,
        ),
{
    let ea = spec_exp_field(a.bits);
    let eb = spec_exp_field(b.bits);
    let fa = spec_frac_field(a.bits);
    let fb = spec_frac_field(b.bits);
    lemma_frac_of_mag(a.bits);
    lemma_frac_of_mag(b.bits);
    assert(spec_mag_bits(a.bits) == ea * FRAC_ONE + fa);
    assert(spec_mag_bits(b.bits) == eb * FRAC_ONE + fb);
    lemma_scaled_mag_bounds(a);
    lemma_scaled_mag_bounds(b);
    if ea == eb {
        assert(fa < fb);
        let p = spec_pow2((a.exp_spec() + 1074) as nat);
        lemma_pow2_mono(0, (a.exp_spec() + 1074) as nat);
        assert(a.sig_spec() * p < b.sig_spec() * p) by (nonlinear_arith)
            requires
                a.sig_spec() < b.sig_spec(),
                p >= 1,
        ;
    } else {
        assert(ea < eb);
        lemma_pow2_mono(ea as nat, (eb - 1) as nat);
        let pa = spec_pow2(ea as nat);
        let pb = spec_pow2((eb - 1) as nat);
        assert(FRAC_ONE * pa <= FRAC_ONE * pb) by (nonlinear_arith)
            requires
                pa <= pb,
        ;
    }
}

/// For finite values the order key orders as the exact values do, and equal keys are
/// equal values (the two zeros included).
pub proof fn law_order_key_is_value_order(a: Double, b: Double)
    requires
        !a.is_nan_spec(),
        !a.is_inf_spec(),
        !b.is_nan_spec(),
        !b.is_inf_spec(),
    ensures
        (spec_order_key(a.bits) < spec_order_key(b.bits)) == (spec_scaled(a) < spec_scaled(b)),
        (spec_order_key(a.bits) == spec_order_key(b.bits)) == (spec_scaled(a) == spec_scaled(b)),
{
    let ma = spec_mag_bits(a.bits);
    let mb = spec_mag_bits(b.bits);
    let sa = a.sig_spec() * spec_pow2((a.exp_spec() + 1074) as nat);
    let sb = b.sig_spec() * spec_pow2((b.exp_spec() + 1074) as nat);
    lemma_pow2_mono(0, (a.exp_spec() + 1074) as nat);
    lemma_pow2_mono(0, (b.exp_spec() + 1074) as nat);
    assert(sa >= 0 && sb >= 0) by (nonlinear_arith)
        requires
            a.sig_spec() >= 0,
            b.sig_spec() >= 0,
            spec_pow2((a.exp_spec() + 1074) as nat) >= 1,
            spec_pow2((b.exp_spec() + 1074) as nat) >= 1,
            sa == a.sig_spec() * spec_pow2((a.exp_spec() + 1074) as nat),
            sb == b.sig_spec() * spec_pow2((b.exp_spec() + 1074) as nat),
    ;
    if ma < mb {
        lemma_mag_order(a, b);
    } else if mb < ma {
        lemma_mag_order(b, a);
    } else {
        assert(a.bits % SIGN_BIT == b.bits % SIGN_BIT);
        lemma_frac_of_mag(a.bits);
        lemma_frac_of_mag(b.bits);
        assert(a.sig_spec() == b.sig_spec());
        assert(a.exp_spec() == b.exp_spec());
    }
    // zero magnitudes: both zeros have the value and the key 0
    if ma == 0 {
        assert(spec_exp_field(a.bits) == 0 && spec_frac_field(a.bits) == 0) by {
            lemma_frac_of_mag(a.bits);
        }
        assert(a.sig_spec() == 0);
        assert(sa == 0) by (nonlinear_arith)
            requires
                a.sig_spec() == 0,
                sa == a.sig_spec() * spec_pow2((a.exp_spec() + 1074) as nat),
        ;
    }
    if mb == 0 {
        assert(spec_exp_field(b.bits) == 0 && spec_frac_field(b.bits) == 0) by {
            lemma_frac_of_mag(b.bits);
        }
        assert(b.sig_spec() == 0);
        assert(sb == 0) by (nonlinear_arith)
            requires
                b.sig_spec() == 0,
                sb == b.sig_spec() * spec_pow2((b.exp_spec() + 1074) as nat),
        ;
    }
    if ma > 0 {
        assert(sa > 0) by {
            let z = Double { bits: 0 };
            assert(spec_mag_bits(z.bits) == 0);
            lemma_mag_order(z, a);
            assert(z.sig_spec() == 0);
        }
    }
    if mb > 0 {
        assert(sb > 0) by {
            let z = Double { bits: 0 };
            assert(spec_mag_bits(z.bits) == 0);
            lemma_mag_order(z, b);
            assert(z.sig_spec() == 0);
        }
    }
}

/// Infinities order beyond every other non-NaN value.
pub proof fn law_order_key_infinities(a: Double, b: Double)
    requires
        !a.is_nan_spec(),
        !b.is_nan_spec(),
        a.is_inf_spec(),
        !b.is_inf_spec(),
    ensures
        !a.is_neg_spec() ==> spec_order_key(b.bits) < spec_order_key(a.bits),
        a.is_neg_spec() ==> spec_order_key(a.bits) < spec_order_key(b.bits),
{
}

fn order_key(bits: u64) -> (r: i128)
    ensures
        r == spec_order_key(bits),
{
    if bits >= SIGN_BIT {
        -((bits - SIGN_BIT) as i128)
    } else {
        bits as i128
    }
}

/// Shifts the significand of a finite value up to 53 bits.
fn normalize(m: u64, e: i32) -> (r: (u64, i32))
    requires
        0 < m < 0x20_0000_0000_0000u64,
        -1074 <= e <= 971,
    ensures
        0 < r.0 < 0x20_0000_0000_0000u64,
        -1128 <= r.1 <= 971,
{
    let mut mm = m;
    let mut ee = e;
    let mut count: u32 = 0;
    while mm < 0x10_0000_0000_0000u64 && count < 53
        invariant
            0 < mm < 0x20_0000_0000_0000u64,
            count <= 53,
            -1074 <= e <= 971,
            e - (count as int) == ee,
        decreases 53 - count,
    {
        mm = mm * 2;
        ee = ee - 1;
        count = count + 1;
    }
    (mm, ee)
}

/// The sum of two safe integers, where it is a safe integer itself (then it is exact).
fn add_safe_ints(a: &Double, b: &Double) -> (r: Option<Double>)
    ensures
        forall|x: int, y: int|
            #![trigger spec_safe_int(*a, x), spec_safe_int(*b, y)]
            spec_safe_int(*a, x) && spec_safe_int(*b, y) && -safe_limit() < x + y < safe_limit()
                ==> (r matches Some(d) && spec_is_int_value(d, x + y)),
{
    match (a.safe_int(), b.safe_int()) {
        (Some(x), Some(y)) => {
            let s = x + y;
            if -0x20_0000_0000_0000i64 < s && s < 0x20_0000_0000_0000i64 {
                Some(Double::from_i64(s))
            } else {
                None
            }
        },
        _ => None,
    }
}

/// The product of two safe integers, where it is a safe integer itself (then it is exact).
fn mul_safe_ints(a: &Double, b: &Double) -> (r: Option<Double>)
    ensures
        forall|x: int, y: int|
            #![trigger spec_safe_int(*a, x), spec_safe_int(*b, y)]
            spec_safe_int(*a, x) && spec_safe_int(*b, y) && -safe_limit() < x * y < safe_limit()
                ==> (r matches Some(d) && spec_is_int_value(d, x * y)),
{
    match (a.safe_int(), b.safe_int()) {
        (Some(x), Some(y)) => {
            let xx = x as i128;
            let yy = y as i128;
            assert(-0x4_0000_0000_0000_0000_0000_0000_0000i128 <= xx * yy
                <= 0x4_0000_0000_0000_0000_0000_0000_0000i128) by (nonlinear_arith)
                requires
                    -0x20_0000_0000_0000i128 < xx < 0x20_0000_0000_0000i128,
                    -0x20_0000_0000_0000i128 < yy < 0x20_0000_0000_0000i128,
            ;
            let p = xx * yy;
            if -0x20_0000_0000_0000i128 < p && p < 0x20_0000_0000_0000i128 {
                Some(Double::from_i64(p as i64))
            } else {
                None
            }
        },
        _ => None,
    }
}

/// `b` is plus or minus a power of two from 1 up to `2^52`.
pub open spec fn pow2_divisor(b: Double) -> bool {
    !b.is_nan_spec() && !b.is_inf_spec() && !b.is_zero_spec() && b.sig_spec() == 0x10_0000_0000_0000
        && -52 <= b.exp_spec() <= 0
}

/// The power of two that such a `b` is, in magnitude: `2^(exponent + 52)`.
pub open spec fn pow2_divisor_log(b: Double) -> nat {
    (b.exp_spec() + 52) as nat
}

/// A double that is the integer `2^m` (`m <= 52`) is a power of two divisor of log `m`.
pub proof fn lemma_pow2_double(d: Double, m: nat)
    requires
        spec_is_int_value(d, spec_pow2(m) as int),
        m <= 52,
    ensures
        pow2_divisor(d),
        pow2_divisor_log(d) == m,
        !d.is_neg_spec(),
        d.exp_spec() == m - 52,
{
    let ef = (m + 1023) as u64;
    lemma_normal_bits(ef, 0);
    let c = Double { bits: (ef * FRAC_ONE + 0) as u64 };
    lemma_pow2_52_53();
    assert(c.sig_spec() == 0x10_0000_0000_0000);
    assert(c.exp_spec() == m - 52);
    assert((c.exp_spec() + 1074) as nat == m + 1022);
    lemma_pow2_add(52, m + 1022);
    lemma_pow2_add(m, 1074);
    assert(52 + (m + 1022) == m + 1074);
    assert(spec_scaled(c) == spec_pow2(m) * spec_pow2(1074));
    law_order_key_is_value_order(d, c);
    assert(spec_order_key(d.bits) == spec_order_key(c.bits));
    assert(c.bits > 0);
    assert(d.bits == c.bits);
}

/// A double that is the integer `-2^m` (`m <= 52`) is a negative power of two divisor
/// of log `m`.
pub proof fn lemma_neg_pow2_double(d: Double, m: nat)
    requires
        spec_is_int_value(d, -spec_pow2(m)),
        m <= 52,
    ensures
        pow2_divisor(d),
        pow2_divisor_log(d) == m,
        d.is_neg_spec(),
{
    lemma_pow2_mono(0, m);
    lemma_pow2_mono(0, 1074);
    let p = spec_pow2(1074);
    assert((-spec_pow2(m)) * p < 0) by (nonlinear_arith)
        requires
            spec_pow2(m) >= 1,
            p >= 1,
    ;
    assert(d.sig_spec() >= 0);
    assert(d.sig_spec() * spec_pow2((d.exp_spec() + 1074) as nat) >= 0) by (nonlinear_arith)
        requires
            d.sig_spec() >= 0,
            spec_pow2((d.exp_spec() + 1074) as nat) >= 0,
    ;
    assert(d.is_neg_spec());
    let r = Double { bits: (d.bits - SIGN_BIT) as u64 };
    assert(r.bits % SIGN_BIT == d.bits % SIGN_BIT);
    lemma_neg_scaled(d, r);
    assert(spec_scaled(r) == spec_pow2(m) * p) by (nonlinear_arith)
        requires
            spec_scaled(r) == -spec_scaled(d),
            spec_scaled(d) == (-spec_pow2(m)) * p,
    ;
    lemma_pow2_double(r, m);
    assert(!d.is_zero_spec());
}

/// A quotient by a power of two that is exact is the integer quotient when both are
/// integers and the division leaves no remainder.
proof fn lemma_pow2_quotient_int(a: Double, b: Double, d: Double)
    requires
        pow2_divisor(b),
        !d.is_nan_spec() && !d.is_inf_spec(),
        spec_scaled(d) * spec_pow2(pow2_divisor_log(b)) == (if b.is_neg_spec() {
            -spec_scaled(a)
        } else {
            spec_scaled(a)
        }),
    ensures
        forall|x: int, y: int|
            #![trigger spec_safe_int(a, x), spec_safe_int(b, y)]
            spec_safe_int(a, x) && spec_safe_int(b, y) && y != 0 && x % y == 0 ==> spec_is_int_value(
                d,
                x / y,
            ),
{
    let k = pow2_divisor_log(b);
    let pk = spec_pow2(k);
    let p = spec_pow2(1074);
    lemma_pow2_mono(0, k);
    lemma_pow2_mono(0, 1074);
    lemma_pow2_add(k, 1074);
    assert((b.exp_spec() + 1074) as nat == k + 1022);
    lemma_pow2_add(52, k + 1022);
    lemma_pow2_52_53();
    assert(spec_pow2(52 + k + 1022) == spec_pow2(k + 1074));
    let mb = b.sig_spec() * spec_pow2((b.exp_spec() + 1074) as nat);
    assert(mb == pk * p);
    assert forall|x: int, y: int|
        #![trigger spec_safe_int(a, x), spec_safe_int(b, y)]
        spec_safe_int(a, x) && spec_safe_int(b, y) && y != 0 && x % y == 0 implies spec_is_int_value(
            d,
            x / y,
        ) by {
        let q = x / y;
        vstd::arithmetic::div_mod::lemma_fundamental_div_mod(x, y);
        assert(x == y * q);
        let sg: int = if b.is_neg_spec() {
            -1
        } else {
            1
        };
        assert(spec_scaled(b) == y * p);
        if b.is_neg_spec() {
            assert(spec_scaled(b) == -mb);
            assert(sg * (pk * p) == -(pk * p));
        } else {
            assert(spec_scaled(b) == mb);
            assert(sg * (pk * p) == pk * p);
        }
        assert(y * p == sg * (pk * p));
        assert(y == sg * pk) by (nonlinear_arith)
            requires
                y * p == sg * (pk * p),
                p >= 1,
        ;
        assert(spec_scaled(d) * pk == sg * (x * p));
        assert(spec_scaled(d) == q * p) by (nonlinear_arith)
            requires
                spec_scaled(d) * pk == sg * (x * p),
                x == y * q,
                y == sg * pk,
                sg == 1 || sg == -1,
                pk >= 1,
        ;
    }
}

/// `a / b` for a power of two `b` from 1 up to `2^52`, where the quotient stays normal:
/// the exponent of `a` moves down by that power, so the quotient is exact.
fn div_by_pow2(a: &Double, b: &Double) -> (r: Option<Double>)
    ensures
        r matches Some(d) ==> pow2_divisor(*b) && !d.is_nan_spec() && !d.is_inf_spec() && spec_scaled(
            d,
        ) * spec_pow2(pow2_divisor_log(*b)) == (if b.is_neg_spec() {
            -spec_scaled(*a)
        } else {
            spec_scaled(*a)
        }),
        pow2_divisor(*b) && !a.is_nan_spec() && !a.is_inf_spec() && !a.is_zero_spec() && a.exp_spec()
            - pow2_divisor_log(*b) >= -1022 ==> r is Some,
{
    match (a.classify(), b.classify()) {
        (Class::Finite(sa, ma, ea), Class::Finite(sb, mb, eb)) => {
            if mb == 0x10_0000_0000_0000u64 && -52 <= eb && eb <= 0 && ea - 52 - eb >= -1022 {
                let e = ea - 52 - eb;
                let d = pack(sa != sb, ma as u128, e, false);
                proof {
                    lemma_pow2_52_53();
                    lemma_bit_len_at_most(ma as nat, 53);
                    lemma_bit_len_bounds(ma as nat);
                    let len = spec_bit_len(ma as nat);
                    assert(len >= 1) by {
                        if len == 0 {
                            assert(spec_pow2(0) == 1);
                        }
                    }
                    let k = (eb + 52) as nat;
                    let s1 = (53 - len) as nat;
                    let s2 = (e + len - 53 + 1074) as nat;
                    lemma_pow2_add(s1, s2);
                    assert(s1 + s2 == e + 1074);
                    let pe = spec_pow2((e + 1074) as nat);
                    assert(d.sig_spec() * spec_pow2((d.exp_spec() + 1074) as nat) == ma * pe) by (nonlinear_arith)
                        requires
                            d.sig_spec() == ma * spec_pow2(s1),
                            spec_pow2((d.exp_spec() + 1074) as nat) == spec_pow2(s2),
                            spec_pow2(s1 + s2) == spec_pow2(s1) * spec_pow2(s2),
                            pe == spec_pow2(s1 + s2),
                    ;
                    lemma_pow2_add((e + 1074) as nat, k);
                    assert((e + 1074) as nat + k == ea + 1074);
                    let pa = spec_pow2((ea + 1074) as nat);
                    assert(ma * pe * spec_pow2(k) == ma * pa) by (nonlinear_arith)
                        requires
                            pa == pe * spec_pow2(k),
                    ;
                    let mag = ma * pe;
                    assert((-mag) * spec_pow2(k) == -(mag * spec_pow2(k))) by (nonlinear_arith);
                    assert(pow2_divisor_log(*b) == k);
                }
                Some(d)
            } else {
                None
            }
        },
        _ => None,
    }
}

/// `x` is `k` times `y` with `|x| = q * |y|`: then `|k| = q`, and `k` has the sign of `x / y`.
proof fn lemma_exact_quotient(x: int, y: int, ax: int, ay: int, q: int)
    requires
        y != 0,
        x % y == 0,
        ax == (if x < 0 {
            -x
        } else {
            x
        }),
        ay == (if y < 0 {
            -y
        } else {
            y
        }),
        ax == ay * q,
    ensures
        x / y == (if (x < 0) != (y < 0) {
            -q
        } else {
            q
        }),
{
    let k = x / y;
    assert(x == y * k) by {
        vstd::arithmetic::div_mod::lemma_fundamental_div_mod(x, y);
    }
    assert(ay > 0);
    if x == 0 {
        assert(q == 0) by (nonlinear_arith)
            requires
                0 == ay * q,
                ay > 0,
        ;
        assert(k == 0) by (nonlinear_arith)
            requires
                0 == y * k,
                y != 0,
        ;
    } else if y > 0 {
        assert(ay * q == (if x < 0 { -(y * k) } else { y * k }));
        if x < 0 {
            assert(q == -k) by (nonlinear_arith)
                requires
                    ay * q == -(y * k),
                    ay == y,
                    y > 0,
            ;
        } else {
            assert(q == k) by (nonlinear_arith)
                requires
                    ay * q == y * k,
                    ay == y,
                    y > 0,
            ;
        }
    } else {
        if x < 0 {
            assert(q == k) by (nonlinear_arith)
                requires
                    ay * q == -x,
                    x == y * k,
                    ay == -y,
                    y < 0,
            ;
        } else {
            assert(q == -k) by (nonlinear_arith)
                requires
                    ay * q == x,
                    x == y * k,
                    ay == -y,
                    y < 0,
            ;
        }
    }
}

/// The quotient of two safe integers where the divisor divides the dividend (then it is
/// exact).
fn div_safe_ints(a: &Double, b: &Double) -> (r: Option<Double>)
    ensures
        forall|x: int, y: int|
            #![trigger spec_safe_int(*a, x), spec_safe_int(*b, y)]
            spec_safe_int(*a, x) && spec_safe_int(*b, y) && y != 0 && x % y == 0 ==> (r matches Some(
                d,
            ) && spec_is_int_value(d, x / y)),
{
    match (a.safe_int(), b.safe_int()) {
        (Some(x), Some(y)) => {
            if y == 0 {
                return None;
            }
            let ax: u64 = if x < 0 {
                (-x) as u64
            } else {
                x as u64
            };
            let ay: u64 = if y < 0 {
                (-y) as u64
            } else {
                y as u64
            };
            proof {
                if (x as int) % (y as int) == 0 {
                    let k = (x as int) / (y as int);
                    vstd::arithmetic::div_mod::lemma_fundamental_div_mod(x as int, y as int);
                    let m: int = if k < 0 {
                        -k
                    } else {
                        k
                    };
                    assert(ax == ay * m) by (nonlinear_arith)
                        requires
                            x == y * k,
                            ax == (if x < 0 { -x } else { x as int }),
                            ay == (if y < 0 { -y } else { y as int }),
                            m == (if k < 0 { -k } else { k }),
                    ;
                    assert(ax % ay == 0) by {
                        assert(ay * m == m * ay) by (nonlinear_arith);
                        vstd::arithmetic::div_mod::lemma_mod_multiples_basic(m, ay as int);
                    }
                }
            }
            if ax % ay != 0 {
                return None;
            }
            let q = ax / ay;
            proof {
                vstd::arithmetic::div_mod::lemma_fundamental_div_mod(ax as int, ay as int);
                assert(q <= ax) by (nonlinear_arith)
                    requires
                        ax == ay * q + 0,
                        ay >= 1,
                        q >= 0,
                ;
                if (x as int) % (y as int) == 0 {
                    lemma_exact_quotient(x as int, y as int, ax as int, ay as int, q as int);
                }
            }
            let neg = (x < 0) != (y < 0);
            let v: i64 = if neg {
                -(q as i64)
            } else {
                q as i64
            };
            Some(Double::from_i64(v))
        },
        _ => None,
    }
}

impl Double {
    /// Rust's `a + b` on binary64.
    pub fn add(&self, other: &Double) -> (r: Double)
        ensures
            self.is_nan_spec() || other.is_nan_spec() ==> r.is_nan_spec(),
            self.is_inf_spec() && other.is_inf_spec() && self.is_neg_spec() != other.is_neg_spec()
                ==> r.is_nan_spec(),
            self.is_inf_spec() && !other.is_nan_spec() && !(other.is_inf_spec()
                && other.is_neg_spec() != self.is_neg_spec()) ==> r.is_inf_spec() && r.is_neg_spec()
                == self.is_neg_spec(),
            other.is_inf_spec() && !self.is_nan_spec() && !self.is_inf_spec() ==> r.is_inf_spec()
                && r.is_neg_spec() == other.is_neg_spec(),
            self.is_zero_spec() && other.is_zero_spec() ==> r.is_zero_spec() && r.is_neg_spec()
                == (self.is_neg_spec() && other.is_neg_spec()),
            self.is_zero_spec() && !other.is_nan_spec() && !other.is_inf_spec()
                && !other.is_zero_spec() ==> r == *other,
            other.is_zero_spec() && !self.is_nan_spec() && !self.is_inf_spec()
                && !self.is_zero_spec() ==> r == *self,
            forall|x: int, y: int|
                #![trigger spec_safe_int(*self, x), spec_safe_int(*other, y)]
                spec_safe_int(*self, x) && spec_safe_int(*other, y) && -safe_limit() < x + y
                    < safe_limit() ==> spec_is_int_value(r, x + y),
    {
        proof {
            if self.is_zero_spec() {
                lemma_zero_int(*self);
            }
            if other.is_zero_spec() {
                lemma_zero_int(*other);
            }
        }
        let ca = self.classify();
        let cb = other.classify();
        let r = match (ca, cb) {
            (Class::Nan, _) => Double::nan(),
            (_, Class::Nan) => Double::nan(),
            (Class::Inf(s1), Class::Inf(s2)) => if s1 != s2 {
                Double::nan()
            } else {
                Double::infinity(s1)
            },
            (Class::Inf(s1), _) => Double::infinity(s1),
            (_, Class::Inf(s2)) => Double::infinity(s2),
            (Class::Zero(s1), Class::Zero(s2)) => Double::zero(s1 && s2),
            (Class::Zero(_), _) => *other,
            (_, Class::Zero(_)) => *self,
            (Class::Finite(sa, ma, ea), Class::Finite(sb, mb, eb)) => {
                match add_safe_ints(self, other) {
                    Some(d) => d,
                    None => add_finite(sa, ma, ea, sb, mb, eb),
                }
            },
        };
        proof {
            if r.is_zero_spec() {
                lemma_zero_int(r);
            }
        }
        r
    }

    /// Rust's `a - b` on binary64.
    pub fn sub(&self, other: &Double) -> (r: Double)
        ensures
            self.is_nan_spec() || other.is_nan_spec() ==> r.is_nan_spec(),
            self.is_inf_spec() && other.is_inf_spec() && self.is_neg_spec() == other.is_neg_spec()
                ==> r.is_nan_spec(),
            forall|x: int, y: int|
                #![trigger spec_safe_int(*self, x), spec_safe_int(*other, y)]
                #![trigger spec_is_int_value(*self, x), spec_is_int_value(*other, y)]
                spec_safe_int(*self, x) && spec_safe_int(*other, y) && -safe_limit() < x - y
                    < safe_limit() ==> spec_is_int_value(r, x - y),
    {
        if other.is_nan() {
            return Double::nan();
        }
        let n = other.neg();
        proof {
            lemma_neg_scaled(*other, n);
        }
        let r = self.add(&n);
        proof {
            assert forall|x: int, y: int|
                #![trigger spec_safe_int(*self, x), spec_safe_int(*other, y)]
                spec_safe_int(*self, x) && spec_safe_int(*other, y) && -safe_limit() < x - y
                    < safe_limit() implies spec_is_int_value(r, x - y) by {
                assert(spec_safe_int(n, -y));
                assert(x + (-y) == x - y);
            }
        }
        r
    }

    /// Rust's `a * b` on binary64.
    pub fn mul(&self, other: &Double) -> (r: Double)
        ensures
            self.is_nan_spec() || other.is_nan_spec() ==> r.is_nan_spec(),
            (self.is_inf_spec() && other.is_zero_spec()) || (self.is_zero_spec()
                && other.is_inf_spec()) ==> r.is_nan_spec(),
            !self.is_nan_spec() && !other.is_nan_spec() && (self.is_inf_spec()
                || other.is_inf_spec()) && !self.is_zero_spec() && !other.is_zero_spec()
                ==> r.is_inf_spec() && r.is_neg_spec() == (self.is_neg_spec()
                != other.is_neg_spec()),
            !self.is_nan_spec() && !other.is_nan_spec() && !self.is_inf_spec()
                && !other.is_inf_spec() && (self.is_zero_spec() || other.is_zero_spec())
                ==> r.is_zero_spec() && r.is_neg_spec() == (self.is_neg_spec()
                != other.is_neg_spec()),
            forall|x: int, y: int|
                #![trigger spec_safe_int(*self, x), spec_safe_int(*other, y)]
                #![trigger spec_is_int_value(*self, x), spec_is_int_value(*other, y)]
                spec_safe_int(*self, x) && spec_safe_int(*other, y) && -safe_limit() < x * y
                    < safe_limit() ==> spec_is_int_value(r, x * y),
    {
        proof {
            if self.is_zero_spec() {
                lemma_zero_int(*self);
            }
            if other.is_zero_spec() {
                lemma_zero_int(*other);
            }
        }
        let ca = self.classify();
        let cb = other.classify();
        let neg = self.is_negative() != other.is_negative();
        let r = match (ca, cb) {
            (Class::Nan, _) => Double::nan(),
            (_, Class::Nan) => Double::nan(),
            (Class::Inf(_), Class::Zero(_)) => Double::nan(),
            (Class::Zero(_), Class::Inf(_)) => Double::nan(),
            (Class::Inf(_), _) => Double::infinity(neg),
            (_, Class::Inf(_)) => Double::infinity(neg),
            (Class::Zero(_), _) => Double::zero(neg),
            (_, Class::Zero(_)) => Double::zero(neg),
            (Class::Finite(_, ma, ea), Class::Finite(_, mb, eb)) => {
                let a = ma as u128;
                let b = mb as u128;
                assert(a * b < 0x1_0000_0000_0000_0000_0000_0000_0000u128) by (nonlinear_arith)
                    requires
                        a < 0x20_0000_0000_0000u128,
                        b < 0x20_0000_0000_0000u128,
                ;
                match mul_safe_ints(self, other) {
                    Some(d) => d,
                    None => pack(neg, a * b, ea + eb, false),
                }
            },
        };
        proof {
            if r.is_zero_spec() {
                lemma_zero_int(r);
            }
        }
        r
    }

    /// Rust's `a / b` on binary64.
    pub fn div(&self, other: &Double) -> (r: Double)
        ensures
            self.is_nan_spec() || other.is_nan_spec() ==> r.is_nan_spec(),
            (self.is_inf_spec() && other.is_inf_spec()) || (self.is_zero_spec()
                && other.is_zero_spec()) ==> r.is_nan_spec(),
            !self.is_nan_spec() && !other.is_nan_spec() && ((self.is_inf_spec()
                && !other.is_inf_spec()) || (other.is_zero_spec() && !self.is_zero_spec()))
                ==> r.is_inf_spec() && r.is_neg_spec() == (self.is_neg_spec()
                != other.is_neg_spec()),
            !self.is_nan_spec() && !other.is_nan_spec() && ((other.is_inf_spec()
                && !self.is_inf_spec()) || (self.is_zero_spec() && !other.is_zero_spec()))
                ==> r.is_zero_spec() && r.is_neg_spec() == (self.is_neg_spec()
                != other.is_neg_spec()),
            forall|x: int, y: int|
                #![trigger spec_safe_int(*self, x), spec_safe_int(*other, y)]
                #![trigger spec_is_int_value(*self, x), spec_is_int_value(*other, y)]
                spec_safe_int(*self, x) && spec_safe_int(*other, y) && y != 0 && x % y == 0
                    ==> spec_is_int_value(r, x / y),
            pow2_divisor(*other) && !self.is_nan_spec() && !self.is_inf_spec() && self.exp_spec()
                - pow2_divisor_log(*other) >= -1022 ==> !r.is_nan_spec() && !r.is_inf_spec()
                && spec_scaled(r) * spec_pow2(pow2_divisor_log(*other)) == (if other.is_neg_spec() {
                -spec_scaled(*self)
            } else {
                spec_scaled(*self)
            }),
    {
        proof {
            if self.is_zero_spec() {
                lemma_zero_int(*self);
            }
            if other.is_zero_spec() {
                lemma_zero_int(*other);
            }
        }
        let ca = self.classify();
        let cb = other.classify();
        let neg = self.is_negative() != other.is_negative();
        let r = match (ca, cb) {
            (Class::Nan, _) => Double::nan(),
            (_, Class::Nan) => Double::nan(),
            (Class::Inf(_), Class::Inf(_)) => Double::nan(),
            (Class::Zero(_), Class::Zero(_)) => Double::nan(),
            (Class::Inf(_), _) => Double::infinity(neg),
            (_, Class::Inf(_)) => Double::zero(neg),
            (Class::Zero(_), _) => Double::zero(neg),
            (_, Class::Zero(_)) => Double::infinity(neg),
            (Class::Finite(_, ma, ea), Class::Finite(_, mb, eb)) => {
                let (na, xa) = normalize(ma, ea);
                let (nb, xb) = normalize(mb, eb);
                let p = pow2_u128(64) * 1024;
                let nau = na as u128;
                assert(nau * p <= 0x8000_0000_0000_0000_0000_0000_0000_0000u128) by (nonlinear_arith)
                    requires
                        nau < 0x20_0000_0000_0000u128,
                        p <= 0x400_0000_0000_0000_0000u128,
                ;
                match div_by_pow2(self, other) {
                    Some(d) => {
                        proof {
                            lemma_pow2_quotient_int(*self, *other, d);
                        }
                        d
                    },
                    None => match div_safe_ints(self, other) {
                        Some(d) => d,
                        None => {
                            let num = nau * p;
                            let q = num / (nb as u128);
                            let rem = num % (nb as u128);
                            pack(neg, q, xa - xb - 74, rem != 0)
                        },
                    },
                }
            },
        };
        proof {
            if r.is_zero_spec() {
                lemma_zero_int(r);
            }
            if self.is_zero_spec() && pow2_divisor(*other) {
                assert(spec_scaled(r) == 0);
                assert(0 * spec_pow2(pow2_divisor_log(*other)) == 0);
            }
            assert forall|x: int, y: int|
                #![trigger spec_safe_int(*self, x), spec_safe_int(*other, y)]
                spec_safe_int(*self, x) && spec_safe_int(*other, y) && y != 0 && x % y == 0
                    implies spec_is_int_value(r, x / y) by {
                if self.is_zero_spec() {
                    assert(x == 0);
                    assert(x / y == 0) by (nonlinear_arith)
                        requires
                            x == 0,
                            y != 0,
                    ;
                }
            }
        }
        r
    }

    /// Rust's `a % b` on binary64 (remainder with the sign of `a`, computed exactly).
    pub fn rem(&self, other: &Double) -> (r: Double)
        ensures
            self.is_nan_spec() || other.is_nan_spec() ==> r.is_nan_spec(),
            self.is_inf_spec() || other.is_zero_spec() ==> r.is_nan_spec(),
            !self.is_nan_spec() && !self.is_inf_spec() && !other.is_nan_spec() && !other.is_zero_spec()
                && (self.is_zero_spec() || other.is_inf_spec()) ==> r == *self,
    {
        let ca = self.classify();
        let cb = other.classify();
        match (ca, cb) {
            (Class::Nan, _) => Double::nan(),
            (_, Class::Nan) => Double::nan(),
            (Class::Inf(_), _) => Double::nan(),
            (_, Class::Zero(_)) => Double::nan(),
            (Class::Zero(_), _) => *self,
            (_, Class::Inf(_)) => *self,
            (Class::Finite(sa, ma, ea), Class::Finite(_, mb, eb)) => {
                if ea < eb || (ea == eb && ma < mb) {
                    // |a| < |b| unless the significands differ in scale
                    let d = (eb - ea) as u32;
                    if d >= 64 {
                        return *self;
                    }
                    let pd = pow2_u128(d);
                    let mbu = mb as u128;
                    assert(mbu * pd < 0x1000_0000_0000_0000_0000_0000_0000_0000u128 && mbu * pd >= 1) by (nonlinear_arith)
                        requires
                            0 < mbu < 0x20_0000_0000_0000u128,
                            1 <= pd <= 0x1_0000_0000_0000_0000u128,
                    ;
                    let big = mbu * pd;
                    if (ma as u128) < big {
                        return *self;
                    }
                    let r = (ma as u128) % big;
                    return pack(sa, r, ea, false);
                }
                let mut r: u64 = ma % mb;
                let mut k: i32 = ea;
                while k > eb
                    invariant
                        r < mb,
                        eb <= k <= 971,
                        mb < 0x20_0000_0000_0000u64,
                    decreases k - eb,
                {
                    r = (r * 2) % mb;
                    k = k - 1;
                }
                pack(sa, r as u128, eb, false)
            },
        }
    }

    /// Rust's `a < b`.
    pub fn lt(&self, other: &Double) -> (r: bool)
        ensures
            r == (!self.is_nan_spec() && !other.is_nan_spec() && spec_order_key(self.bits)
                < spec_order_key(other.bits)),
    {
        if self.is_nan() || other.is_nan() {
            false
        } else {
            order_key(self.bits) < order_key(other.bits)
        }
    }

    /// Rust's `a <= b`.
    pub fn le(&self, other: &Double) -> (r: bool)
        ensures
            r == (!self.is_nan_spec() && !other.is_nan_spec() && spec_order_key(self.bits)
                <= spec_order_key(other.bits)),
    {
        if self.is_nan() || other.is_nan() {
            false
        } else {
            order_key(self.bits) <= order_key(other.bits)
        }
    }

    /// Rust's `a > b`.
    pub fn gt(&self, other: &Double) -> (r: bool)
        ensures
            r == (!self.is_nan_spec() && !other.is_nan_spec() && spec_order_key(self.bits)
                > spec_order_key(other.bits)),
    {
        other.lt(self)
    }

    /// Rust's `a >= b`.
    pub fn ge(&self, other: &Double) -> (r: bool)
        ensures
            r == (!self.is_nan_spec() && !other.is_nan_spec() && spec_order_key(self.bits)
                >= spec_order_key(other.bits)),
    {
        other.le(self)
    }

    /// Rust's `a == b` (NaN equals nothing, the two zeros are equal).
    pub fn eq(&self, other: &Double) -> (r: bool)
        ensures
            r == (!self.is_nan_spec() && !other.is_nan_spec() && spec_order_key(self.bits)
                == spec_order_key(other.bits)),
    {
        if self.is_nan() || other.is_nan() {
            false
        } else {
            order_key(self.bits) == order_key(other.bits)
        }
    }

    /// `n as f64`.
    pub fn from_i64(n: i64) -> (r: Double)
        ensures
            n == 0 ==> r.bits == 0,
            -0x20_0000_0000_0000 < n < 0x20_0000_0000_0000 ==> spec_is_int_value(r, n as int),
    {
        if n == 0 {
            return Double::zero(false);
        }
        let neg = n < 0;
        let m: u128 = if neg {
            (-(n as i128)) as u128
        } else {
            n as u128
        };
        let r = pack(neg, m, 0, false);
        proof {
            if -0x20_0000_0000_0000 < n < 0x20_0000_0000_0000 {
                lemma_pow2_52_53();
                lemma_bit_len_at_most(m as nat, 53);
                lemma_pack_integer(neg, m as nat, r);
            }
        }
        r
    }

    /// `n as f64`.
    pub fn from_u64(n: u64) -> (r: Double)
        ensures
            n < 0x20_0000_0000_0000 ==> spec_is_int_value(r, n as int),
    {
        let r = pack(false, n as u128, 0, false);
        proof {
            if n < 0x20_0000_0000_0000 {
                if n == 0 {
                    assert(r.bits == 0);
                    lemma_zero_is_int(r);
                } else {
                    lemma_pow2_52_53();
                    lemma_bit_len_at_most(n as nat, 53);
                    lemma_pack_integer(false, n as nat, r);
                }
            }
        }
        r
    }

    /// `n as f64`.
    pub fn from_usize(n: usize) -> (r: Double)
        ensures
            n < 0x20_0000_0000_0000 ==> spec_is_int_value(r, n as int),
    {
        let r = pack(false, n as u128, 0, false);
        proof {
            if n < 0x20_0000_0000_0000 {
                if n == 0 {
                    assert(r.bits == 0);
                    lemma_zero_is_int(r);
                } else {
                    lemma_pow2_52_53();
                    lemma_bit_len_at_most(n as nat, 53);
                    lemma_pack_integer(false, n as nat, r);
                }
            }
        }
        r
    }

    /// The value truncated toward zero as an integer, saturating at `+-2^100`;
    /// NaN gives 0.
    #[verifier::rlimit(80)]
    #[verifier::spinoff_prover]
    pub fn trunc_i128(&self) -> (r: i128)
        ensures
            r == spec_trunc(*self),
            -trunc_limit() <= r <= trunc_limit(),
    {
        let lim: i128 = 0x10_0000_0000_0000_0000_0000_0000i128;
        proof {
            lemma_pow2_add(52, 48);
            assert(spec_pow2(52) == 0x10_0000_0000_0000) by {
                reveal_with_fuel(spec_pow2, 53);
            }
            assert(spec_pow2(48) == 0x1_0000_0000_0000) by {
                reveal_with_fuel(spec_pow2, 49);
            }
            lemma_pow2_64();
        }
        match self.classify() {
            Class::Nan => 0,
            Class::Zero(_) => 0,
            Class::Inf(neg) => if neg {
                -lim
            } else {
                lim
            },
            Class::Finite(neg, m, e) => {
                let mag: i128 = if e >= 0 {
                    if e > 47 {
                        proof {
                            lemma_pow2_mono(48, e as nat);
                            let p = spec_pow2(e as nat);
                            assert(m >= 0x10_0000_0000_0000);
                            assert(m * p >= 0x10_0000_0000_0000 * 0x1_0000_0000_0000) by (nonlinear_arith)
                                requires
                                    m >= 0x10_0000_0000_0000,
                                    p >= 0x1_0000_0000_0000,
                            ;
                        }
                        lim
                    } else {
                        let pe = pow2_u128(e as u32);
                        let mm = m as u128;
                        assert(mm * pe < 0x1000_0000_0000_0000_0000_0000_0000_0000u128) by (nonlinear_arith)
                            requires
                                mm < 0x20_0000_0000_0000u128,
                                pe <= 0x1_0000_0000_0000_0000u128,
                        ;
                        let v = mm * pe;
                        if v > (lim as u128) {
                            lim
                        } else {
                            v as i128
                        }
                    }
                } else {
                    if e < -63 {
                        proof {
                            lemma_pow2_mono(64, (-e) as nat);
                            assert(m as int / (spec_pow2((-e) as nat) as int) == 0) by (nonlinear_arith)
                                requires
                                    0 <= m < spec_pow2((-e) as nat),
                            ;
                        }
                        0
                    } else {
                        ((m as u128) / pow2_u128((-e) as u32)) as i128
                    }
                };
                if neg {
                    -mag
                } else {
                    mag
                }
            },
        }
    }

    /// The value as an `i64` where it is a safe integer (an integer of magnitude below
    /// `2^53`), `None` otherwise.
    pub fn safe_int(&self) -> (r: Option<i64>)
        ensures
            r matches Some(n) ==> spec_safe_int(*self, n as int),
            forall|n: int| #[trigger] spec_safe_int(*self, n) ==> r == Some(n as i64),
    {
        if self.is_nan() || self.is_infinite() {
            return None;
        }
        let t = self.trunc_i128();
        if t <= -0x20_0000_0000_0000i128 || t >= 0x20_0000_0000_0000i128 {
            proof {
                assert forall|k: int| #[trigger] spec_safe_int(*self, k) implies false by {
                    lemma_int_value_trunc(*self, k);
                }
            }
            return None;
        }
        let n = t as i64;
        let d = Double::from_i64(n);
        proof {
            law_order_key_is_value_order(d, *self);
            assert forall|k: int| #[trigger] spec_safe_int(*self, k) implies k == n by {
                lemma_int_value_trunc(*self, k);
            }
        }
        if d.eq(self) {
            Some(n)
        } else {
            None
        }
    }

    /// `x as i64` (saturating, NaN gives 0).
    pub fn to_i64(&self) -> (r: i64)
        ensures
            r == spec_clamp(spec_trunc(*self), i64::MIN as int, i64::MAX as int),
    {
        let v = self.trunc_i128();
        if v > i64::MAX as i128 {
            i64::MAX
        } else if v < i64::MIN as i128 {
            i64::MIN
        } else {
            v as i64
        }
    }

    /// `x as i32` (saturating, NaN gives 0).
    pub fn to_i32_sat(&self) -> (r: i32)
        ensures
            r == spec_clamp(spec_trunc(*self), i32::MIN as int, i32::MAX as int),
    {
        let v = self.trunc_i128();
        if v > i32::MAX as i128 {
            i32::MAX
        } else if v < i32::MIN as i128 {
            i32::MIN
        } else {
            v as i32
        }
    }

    /// `x as u32` (saturating, NaN and negatives give 0).
    pub fn to_u32_sat(&self) -> (r: u32)
        ensures
            r == spec_clamp(spec_trunc(*self), 0, u32::MAX as int),
    {
        let v = self.trunc_i128();
        if v > u32::MAX as i128 {
            u32::MAX
        } else if v < 0 {
            0
        } else {
            v as u32
        }
    }

    /// `x as u64` (saturating, NaN and negatives give 0).
    pub fn to_u64_sat(&self) -> (r: u64)
        ensures
            r == spec_clamp(spec_trunc(*self), 0, u64::MAX as int),
    {
        let v = self.trunc_i128();
        if v > u64::MAX as i128 {
            u64::MAX
        } else if v < 0 {
            0
        } else {
            v as u64
        }
    }

    /// `x as usize` (saturating, NaN and negatives give 0).
    pub fn to_usize_sat(&self) -> (r: usize)
        ensures
            r == spec_clamp(spec_trunc(*self), 0, usize::MAX as int),
    {
        let v = self.trunc_i128();
        if v > usize::MAX as i128 {
            usize::MAX
        } else if v < 0 {
            0
        } else {
            v as usize
        }
    }

    /// `(x as f32) as f64`.
    pub fn round_to_single(&self) -> (r: Double)
        ensures
            self.is_nan_spec() ==> r.is_nan_spec(),
    {
        match self.classify() {
            Class::Finite(neg, m, e) => {
                let (sig, q) = round_to_precision(m as u128, e, false, 24, -149);
                if sig == 0 {
                    return Double::zero(neg);
                }
                let len = bit_len(sig) as i32;
                if q + len - 1 >= 128 {
                    return Double::infinity(neg);
                }
                pack(neg, sig, q, false)
            },
            _ => *self,
        }
    }
}

/// The bound at which truncation saturates: `2^100`.
pub open spec fn trunc_limit() -> int {
    0x10_0000_0000_0000_0000_0000_0000
}

/// The magnitude of a finite value truncated toward zero.
pub open spec fn spec_trunc_mag(x: Double) -> int {
    if x.exp_spec() >= 0 {
        x.sig_spec() * spec_pow2(x.exp_spec() as nat)
    } else {
        x.sig_spec() / (spec_pow2((-x.exp_spec()) as nat) as int)
    }
}

/// A truncated magnitude is not negative.
pub proof fn lemma_trunc_mag_nonneg(x: Double)
    ensures
        spec_trunc_mag(x) >= 0,
{
    let s = x.sig_spec();
    assert(s >= 0);
    if x.exp_spec() >= 0 {
        let p = spec_pow2(x.exp_spec() as nat);
        assert(s * p >= 0) by (nonlinear_arith)
            requires
                s >= 0,
                p >= 0,
        ;
    } else {
        let p = spec_pow2((-x.exp_spec()) as nat);
        lemma_pow2_mono(0, (-x.exp_spec()) as nat);
        assert(s / (p as int) >= 0) by (nonlinear_arith)
            requires
                s >= 0,
                p >= 1,
        ;
    }
}

/// The value truncated toward zero, saturating at `+-2^100`; NaN gives 0.
pub open spec fn spec_trunc(x: Double) -> int {
    if x.is_nan_spec() || x.is_zero_spec() {
        0
    } else if x.is_inf_spec() {
        if x.is_neg_spec() {
            -trunc_limit()
        } else {
            trunc_limit()
        }
    } else {
        let mag = if spec_trunc_mag(x) > trunc_limit() {
            trunc_limit()
        } else {
            spec_trunc_mag(x)
        };
        if x.is_neg_spec() {
            -mag
        } else {
            mag
        }
    }
}

/// The value of a finite double truncated toward zero, with its sign.
pub open spec fn spec_int_part(x: Double) -> int {
    if x.is_neg_spec() {
        -spec_trunc_mag(x)
    } else {
        spec_trunc_mag(x)
    }
}

/// The truncated magnitude is at most the magnitude: `trunc * 2^1074 <= |x| * 2^1074`.
pub proof fn lemma_trunc_below(x: Double)
    requires
        !x.is_nan_spec(),
        !x.is_inf_spec(),
    ensures
        spec_trunc_mag(x) * spec_pow2(1074) <= x.sig_spec() * spec_pow2((x.exp_spec() + 1074) as nat),
{
    let s = x.sig_spec();
    let e = x.exp_spec();
    assert(s >= 0);
    assert(-1074 <= e <= 971);
    if e >= 0 {
        lemma_pow2_add(e as nat, 1074);
        assert(s * spec_pow2(e as nat) * spec_pow2(1074) == s * (spec_pow2(e as nat) * spec_pow2(1074)))
            by (nonlinear_arith);
    } else {
        let k = (-e) as nat;
        let pk = spec_pow2(k);
        let rest = spec_pow2((e + 1074) as nat);
        lemma_pow2_add(k, (e + 1074) as nat);
        lemma_pow2_mono(0, k);
        lemma_pow2_mono(0, (e + 1074) as nat);
        assert(spec_pow2(1074) == pk * rest);
        let q = s / (pk as int);
        assert(q * pk <= s) by (nonlinear_arith)
            requires
                pk >= 1,
                s >= 0,
                q == s / (pk as int),
        ;
        assert(q * (pk * rest) <= s * rest) by (nonlinear_arith)
            requires
                q * pk <= s,
                rest >= 1,
        ;
    }
}

/// `v` held within `[lo, hi]`.
pub open spec fn spec_clamp(v: int, lo: int, hi: int) -> int {
    if v < lo {
        lo
    } else if v > hi {
        hi
    } else {
        v
    }
}

/// Sum of two finite nonzero values.
fn add_finite(sa: bool, ma: u64, ea: i32, sb: bool, mb: u64, eb: i32) -> (r: Double)
    requires
        0 < ma < 0x20_0000_0000_0000u64,
        0 < mb < 0x20_0000_0000_0000u64,
        -1074 <= ea <= 971,
        -1074 <= eb <= 971,
    ensures
        sa != sb && ma == mb && ea == eb ==> r.bits == 0,
{
    let a_big = ea > eb || (ea == eb && ma >= mb);
    let (s1, m1, e1, s2, m2, e2) = if a_big {
        (sa, ma, ea, sb, mb, eb)
    } else {
        (sb, mb, eb, sa, ma, ea)
    };
    let d: u32 = (e1 - e2) as u32;
    let p64 = pow2_u128(64);
    let m1u = m1 as u128;
    let m2u = m2 as u128;
    assert(m1u * p64 < 0x20_0000_0000_0000_0000_0000_0000_0000u128) by (nonlinear_arith)
        requires
            m1u < 0x20_0000_0000_0000u128,
            p64 <= 0x1_0000_0000_0000_0000u128,
    ;
    let x: u128 = m1u * p64;
    let mut y: u128 = 0;
    let mut sticky = false;
    if d <= 64 {
        let pd = pow2_u128(64 - d);
        assert(m2u * pd < 0x20_0000_0000_0000_0000_0000_0000_0000u128) by (nonlinear_arith)
            requires
                m2u < 0x20_0000_0000_0000u128,
                pd <= 0x1_0000_0000_0000_0000u128,
        ;
        y = m2u * pd;
    } else if d < 128 {
        let p = pow2_u128(d - 64);
        y = (m2 as u128) / p;
        sticky = (m2 as u128) % p != 0;
    } else {
        sticky = true;
    }
    if s1 == s2 {
        pack(s1, x + y, e1 - 64, sticky)
    } else {
        if x == y && !sticky {
            return Double::zero(false);
        }
        if x < y {
            return Double::zero(false);
        }
        let mut dv = x - y;
        if sticky && dv > 0 {
            dv = dv - 1;
        }
        pack(s1, dv, e1 - 64, sticky)
    }
}

} // verus!
