//! The interpreter's math functions, computed in binary64 arithmetic by the same
//! series and iterations as the interpreter defines them.
use vstd::prelude::*;
use vstd::arithmetic::power::pow as ipow;
use crate::double::{Double, spec_scaled, spec_int_part, spec_trunc, spec_trunc_mag, spec_clamp, spec_pow2, spec_is_int_value, spec_order_key, spec_exp_field, spec_frac_field, lemma_trunc_mag_nonneg, lemma_trunc_below, law_order_key_is_value_order, lemma_pow2_mono, spec_safe_int, safe_limit};

verus! {

pub const PI_BITS: u64 = 0x400921fb54442d18u64;
pub const TWO_PI_BITS: u64 = 0x401921fb54442d18u64;
pub const FRAC_PI_2_BITS: u64 = 0x3ff921fb54442d18u64;
pub const LN_2_BITS: u64 = 0x3fe62e42fefa39efu64;
pub const LN_10_BITS: u64 = 0x40026bb1bbb55516u64;
pub const E_BITS: u64 = 0x4005bf0a8b145769u64;
pub const SQRT_2_BITS: u64 = 0x3ff6a09e667f3bcdu64;
pub const LOG2_E_BITS: u64 = 0x3ff71547652b82feu64;
pub const LOG10_E_BITS: u64 = 0x3fdbcb7b1526e50eu64;
pub const HALF_BITS: u64 = 0x3fe0000000000000u64;
pub const TWO_BITS: u64 = 0x4000000000000000u64;
pub const THREE_BITS: u64 = 0x4008000000000000u64;
pub const EPS15_BITS: u64 = 0x3cd203af9ee75616u64;
pub const N709_BITS: u64 = 0x4086280000000000u64;

pub fn cst(bits: u64) -> (r: Double)
    ensures
        r.bits == bits,
{
    Double::from_bits(bits)
}

/// `n as f64` for a small loop counter.
fn num(n: i64) -> (r: Double)
    ensures
        -0x20_0000_0000_0000 < n < 0x20_0000_0000_0000 ==> spec_is_int_value(r, n as int),
{
    Double::from_i64(n)
}

/// The largest integer not above the finite value `x` (whose integer part is `i`).
pub open spec fn spec_floor(x: Double) -> int {
    if spec_scaled(x) < spec_int_part(x) * spec_pow2(1074) {
        spec_int_part(x) - 1
    } else {
        spec_int_part(x)
    }
}

/// The smallest integer not below the finite value `x`.
pub open spec fn spec_ceil(x: Double) -> int {
    if spec_scaled(x) > spec_int_part(x) * spec_pow2(1074) {
        spec_int_part(x) + 1
    } else {
        spec_int_part(x)
    }
}

/// A finite value whose integer part is below `2^53 - 1` in magnitude.
pub open spec fn is_small_finite(x: Double) -> bool {
    !x.is_nan_spec() && !x.is_inf_spec() && spec_trunc_mag(x) < 0x1F_FFFF_FFFF_FFFF
}

/// `to_i64` of a small finite value is its integer part.
pub proof fn lemma_int_part_read(x: Double, i: i64)
    requires
        is_small_finite(x),
        i == spec_clamp(spec_trunc(x), i64::MIN as int, i64::MAX as int),
    ensures
        i == spec_int_part(x),
        -0x1F_FFFF_FFFF_FFFF < i < 0x1F_FFFF_FFFF_FFFF,
{
    lemma_trunc_mag_nonneg(x);
    if x.is_zero_spec() {
        assert(x.sig_spec() == 0);
        let p = spec_pow2((-x.exp_spec()) as nat);
        lemma_pow2_mono(0, (-x.exp_spec()) as nat);
        assert(0int / (p as int) == 0);
        assert(spec_trunc_mag(x) == 0);
    }
}

/// How a small finite value compares with its integer part `i` and with zero.
proof fn lemma_int_part_facts(x: Double, i: i64, fi: Double)
    requires
        is_small_finite(x),
        i == spec_int_part(x),
        spec_is_int_value(fi, i as int),
    ensures
        (spec_order_key(x.bits) == spec_order_key(fi.bits)) == (spec_scaled(x) == i * spec_pow2(
            1074,
        )),
        (spec_order_key(x.bits) < 0) == (spec_scaled(x) < 0),
        (spec_order_key(x.bits) > 0) == (spec_scaled(x) > 0),
        spec_scaled(x) < 0 ==> spec_scaled(x) <= i * spec_pow2(1074),
        spec_scaled(x) >= 0 ==> spec_scaled(x) >= i * spec_pow2(1074),
{
    lemma_trunc_mag_nonneg(x);
    lemma_trunc_below(x);
    lemma_pow2_mono(0, 1074);
    law_order_key_is_value_order(x, fi);
    let z = Double { bits: 0 };
    assert(spec_exp_field(0) == 0 && spec_frac_field(0) == 0);
    assert(z.sig_spec() == 0);
    assert(0 * spec_pow2((z.exp_spec() + 1074) as nat) == 0);
    assert(spec_scaled(z) == 0);
    law_order_key_is_value_order(x, z);
    let m = spec_trunc_mag(x);
    let p = spec_pow2(1074);
    let full = x.sig_spec() * spec_pow2((x.exp_spec() + 1074) as nat);
    assert((-m) * p == -(m * p)) by (nonlinear_arith);
    assert(m * p >= 0) by (nonlinear_arith)
        requires
            m >= 0,
            p >= 1,
    ;
    if x.is_neg_spec() && full == 0 {
        assert(m * p <= 0);
        assert(m == 0) by (nonlinear_arith)
            requires
                m >= 0,
                p >= 1,
                m * p <= 0,
        ;
    }
}

pub fn floor(x: &Double) -> (r: Double)
    ensures
        x.is_nan_spec() || x.is_inf_spec() ==> r == *x,
        is_small_finite(*x) ==> spec_is_int_value(r, spec_floor(*x)),
{
    if x.is_nan() || x.is_infinite() {
        return *x;
    }
    let i = x.to_i64();
    proof {
        if is_small_finite(*x) {
            lemma_int_part_read(*x, i);
        }
    }
    let fi = Double::from_i64(i);
    proof {
        if is_small_finite(*x) {
            lemma_int_part_facts(*x, i, fi);
        }
    }
    if x.lt(&Double::zero(false)) && !x.eq(&fi) {
        Double::from_i64(i.wrapping_sub(1))
    } else {
        fi
    }
}

pub fn ceil(x: &Double) -> (r: Double)
    ensures
        x.is_nan_spec() || x.is_inf_spec() ==> r == *x,
        is_small_finite(*x) ==> spec_is_int_value(r, spec_ceil(*x)),
{
    if x.is_nan() || x.is_infinite() {
        return *x;
    }
    let i = x.to_i64();
    proof {
        if is_small_finite(*x) {
            lemma_int_part_read(*x, i);
        }
    }
    let fi = Double::from_i64(i);
    proof {
        if is_small_finite(*x) {
            lemma_int_part_facts(*x, i, fi);
        }
    }
    if x.gt(&Double::zero(false)) && !x.eq(&fi) {
        Double::from_i64(i.wrapping_add(1))
    } else {
        fi
    }
}

pub fn round(x: &Double) -> (r: Double)
    ensures
        x.is_nan_spec() ==> r.is_nan_spec(),
        forall|n: int|
            #![trigger spec_safe_int(*x, n)]
            #![trigger spec_is_int_value(*x, n)]
            spec_safe_int(*x, n) && -0x10_0000_0000_0000 < n < 0x10_0000_0000_0000 && n != 0
                ==> spec_is_int_value(r, n),
        x.is_zero_spec() ==> spec_is_int_value(r, 0) && r.is_zero_spec(),
        spec_is_int_value(*x, 0) ==> r.is_zero_spec(),
{
    proof {
        if spec_is_int_value(*x, 0) {
            crate::double::lemma_int_zero_is_zero(*x);
        }
    }
    proof {
        let h = Double { bits: HALF_BITS };
        crate::double::lemma_pow2_52_53();
        assert(h.sig_spec() == 0x10_0000_0000_0000);
        assert(h.exp_spec() == -53);
        assert((-h.exp_spec()) as nat == 53);
        assert(0x10_0000_0000_0000int / (0x20_0000_0000_0000nat as int) == 0);
        assert(spec_trunc_mag(h) == 0);
        assert(spec_int_part(h) == 0);
        lemma_pow2_mono(0, (h.exp_spec() + 1074) as nat);
        assert(spec_scaled(h) >= 0) by (nonlinear_arith)
            requires
                spec_scaled(h) == 0x10_0000_0000_0000 * spec_pow2((h.exp_spec() + 1074) as nat),
        ;
        assert(spec_floor(h) == 0);
        assert(is_small_finite(h));
    }
    // a nonzero integer below 2^52 is its own rounding (x + 0.5 is exact there)
    if let Some(n) = x.safe_int() {
        if n != 0 && -0x10_0000_0000_0000i64 < n && n < 0x10_0000_0000_0000i64 {
            return *x;
        }
    }
    let y = floor(&x.add(&cst(HALF_BITS)));
    proof {
        if spec_is_int_value(y, 0) {
            crate::double::lemma_int_zero_is_zero(y);
        }
    }
    y
}

pub fn trunc(x: &Double) -> (r: Double)
    ensures
        x.is_nan_spec() || x.is_inf_spec() ==> r == *x,
        is_small_finite(*x) ==> spec_is_int_value(r, spec_int_part(*x)),
        is_small_finite(*x) ==> spec_trunc(r) == spec_int_part(*x),
{
    if x.is_nan() || x.is_infinite() {
        return *x;
    }
    let i = x.to_i64();
    proof {
        if is_small_finite(*x) {
            lemma_int_part_read(*x, i);
        }
    }
    let r = Double::from_i64(i);
    proof {
        if is_small_finite(*x) {
            crate::double::lemma_safe_int_parts(r, i as int);
        }
    }
    r
}

/// |x| of an `i64`, wrapping at `i64::MIN`.
fn wrapping_abs_i64(x: i64) -> (r: i64)
    ensures
        r == (if x == i64::MIN {
            x as int
        } else if x < 0 {
            -x
        } else {
            x as int
        }),
{
    if x == i64::MIN {
        x
    } else if x < 0 {
        -x
    } else {
        x
    }
}

/// The magnitude of an integer.
pub open spec fn int_abs(v: int) -> int {
    if v < 0 {
        -v
    } else {
        v
    }
}

/// `v` is a power of two from 1 up to `2^52`.
pub open spec fn small_pow2(v: int) -> bool {
    exists|m: nat| m <= 52 && #[trigger] spec_pow2(m) == v
}

/// A nonzero safe integer base to a positive integer exponent below 100 whose power is a
/// safe integer.
pub open spec fn pow_pos_case(base: Double, exp: Double, bv: int, ev: int) -> bool {
    spec_safe_int(base, bv) && spec_is_int_value(exp, ev) && bv != 0 && 1 <= ev < 100 && int_abs(
        ipow(bv, ev as nat),
    ) < safe_limit()
}

/// A nonzero safe integer base to a negative integer exponent above -100 whose opposite
/// power is, in magnitude, a power of two up to `2^52`.
pub open spec fn pow_neg_case(base: Double, exp: Double, bv: int, ev: int) -> bool {
    spec_safe_int(base, bv) && spec_is_int_value(exp, ev) && bv != 0 && -100 < ev <= -1 && small_pow2(
        int_abs(ipow(bv, (-ev) as nat)),
    )
}

/// The magnitude of a power is the power of the magnitude.
proof fn lemma_pow_abs(b: int, e: nat)
    ensures
        ipow(int_abs(b), e) == int_abs(ipow(b, e)),
    decreases e,
{
    reveal(ipow);
    if e > 0 {
        lemma_pow_abs(b, (e - 1) as nat);
        let x = ipow(b, (e - 1) as nat);
        assert(int_abs(b * x) == int_abs(b) * int_abs(x)) by (nonlinear_arith);
    }
}

/// What the cases of `pow_pos_case` and `pow_neg_case` give: safe integers, a power that
/// is a safe integer, and the sign of the exponent.
proof fn lemma_pow_setup(base: Double, exp: Double, bv: int, ev: int, pos: bool)
    requires
        pos ==> pow_pos_case(base, exp, bv, ev),
        !pos ==> pow_neg_case(base, exp, bv, ev),
    ensures
        spec_safe_int(base, bv),
        spec_safe_int(exp, ev),
        bv != 0,
        pos ==> 1 <= ev < 100,
        !pos ==> -100 < ev <= -1,
        ipow(bv, (if ev < 0 { -ev } else { ev }) as nat) != 0,
        int_abs(ipow(bv, (if ev < 0 { -ev } else { ev }) as nat)) < safe_limit(),
        !pos ==> small_pow2(int_abs(ipow(bv, (-ev) as nat))),
{
    let n = (if ev < 0 {
        -ev
    } else {
        ev
    }) as nat;
    lemma_pow_abs(bv, n);
    vstd::arithmetic::power::lemma_pow_positive(int_abs(bv), n);
    if !pos {
        let m = choose|m: nat| m <= 52 && #[trigger] spec_pow2(m) == int_abs(ipow(bv, (-ev) as nat));
        crate::double::lemma_pow2_mono(m, 52);
        crate::double::lemma_pow2_52_53();
    }
}

/// A finite double stands for at most one integer.
proof fn lemma_int_value_unique(x: Double, v: int, w: int)
    requires
        spec_is_int_value(x, v),
        spec_is_int_value(x, w),
    ensures
        v == w,
{
    let p = spec_pow2(1074);
    lemma_pow2_mono(0, 1074);
    assert(v == w) by (nonlinear_arith)
        requires
            v * p == w * p,
            p >= 1,
    ;
}

/// One step of exponentiation by squaring on safe integers: with `b^rem` in hand and `b^pj`
/// the next square, the products stay at most `b^n`.
proof fn lemma_pow_step(bv: int, n: nat, e: nat, pj: nat, rem: nat)
    requires
        bv != 0,
        e >= 1,
        e * pj + rem == n,
        pj >= 1,
    ensures
        rem + pj <= n,
        int_abs(ipow(bv, rem)) <= int_abs(ipow(bv, n)),
        int_abs(ipow(bv, pj)) <= int_abs(ipow(bv, n)),
        int_abs(ipow(bv, rem + pj)) <= int_abs(ipow(bv, n)),
        ipow(bv, rem) * ipow(bv, pj) == ipow(bv, rem + pj),
        ipow(bv, pj) * ipow(bv, pj) == ipow(bv, pj + pj),
        e / 2 >= 1 ==> pj + pj <= n && int_abs(ipow(bv, pj + pj)) <= int_abs(ipow(bv, n)),
        (e / 2) * (pj + pj) + (rem + (if e % 2 == 1 { pj } else { 0 })) == n,
{
    let a = int_abs(bv) as nat;
    lemma_pow_abs(bv, rem);
    lemma_pow_abs(bv, pj);
    lemma_pow_abs(bv, rem + pj);
    lemma_pow_abs(bv, pj + pj);
    lemma_pow_abs(bv, n);
    assert(rem + pj <= n) by (nonlinear_arith)
        requires
            e >= 1,
            e * pj + rem == n,
            pj >= 1,
    ;
    assert((e / 2) * (pj + pj) + (rem + (if e % 2 == 1 { pj } else { 0 })) == n) by (nonlinear_arith)
        requires
            e * pj + rem == n,
    ;
    if e / 2 >= 1 {
        assert(pj + pj <= n) by (nonlinear_arith)
            requires
                e / 2 >= 1,
                (e / 2) * (pj + pj) + (rem + (if e % 2 == 1 { pj } else { 0 })) == n,
        ;
        vstd::arithmetic::power::lemma_pow_increases(a, pj + pj, n);
    }
    vstd::arithmetic::power::lemma_pow_increases(a, rem, n);
    vstd::arithmetic::power::lemma_pow_increases(a, pj, n);
    vstd::arithmetic::power::lemma_pow_increases(a, rem + pj, n);
    vstd::arithmetic::power::lemma_pow_adds(bv, rem, pj);
    vstd::arithmetic::power::lemma_pow_adds(bv, pj, pj);
}

/// `base ** exp`. An integer exponent of magnitude below 100 is done by repeated
/// squaring, and a negative one then takes the reciprocal: for a nonzero safe integer
/// `b` and `0 < n < 100`, `b ** n` is the integer `b^n` where that is a safe integer, and
/// `b ** -n` is `1 / b^n` where `b^n` is a power of two in magnitude (so the quotient is
/// exact). Other exponents go through `exp(exp * ln(base))`.
pub fn pow(base: &Double, exp: &Double) -> (r: Double)
    ensures
        exp.is_zero_spec() ==> r.bits == 0x3FF0_0000_0000_0000,
        !exp.is_zero_spec() && !exp.is_nan_spec() && base.is_zero_spec() ==> (if spec_order_key(
            exp.bits,
        ) > 0 {
            r.bits == 0
        } else {
            r.is_inf_spec() && !r.is_neg_spec()
        }),
        exp.bits == 0x3FF0_0000_0000_0000 && !base.is_zero_spec() ==> r == *base,
        forall|bv: int, ev: int|
            #[trigger] pow_pos_case(*base, *exp, bv, ev) ==> spec_is_int_value(r, ipow(bv, ev as nat)),
        forall|bv: int, ev: int|
            #[trigger] pow_neg_case(*base, *exp, bv, ev) ==> !r.is_nan_spec() && !r.is_inf_spec()
                && spec_scaled(r) * int_abs(ipow(bv, (-ev) as nat)) == (if ipow(bv, (-ev) as nat) < 0 {
                -spec_pow2(1074)
            } else {
                spec_pow2(1074) as int
            }),
{
    let ghost pos_ok = exists|bv: int, ev: int| #[trigger] pow_pos_case(*base, *exp, bv, ev);
    let ghost neg_ok = exists|bv: int, ev: int| #[trigger] pow_neg_case(*base, *exp, bv, ev);
    let ghost ok = pos_ok || neg_ok;
    let ghost bb: int = if pos_ok {
        (choose|bv: int, ev: int| #[trigger] pow_pos_case(*base, *exp, bv, ev)).0
    } else {
        (choose|bv: int, ev: int| #[trigger] pow_neg_case(*base, *exp, bv, ev)).0
    };
    let ghost ee: int = if pos_ok {
        (choose|bv: int, ev: int| #[trigger] pow_pos_case(*base, *exp, bv, ev)).1
    } else {
        (choose|bv: int, ev: int| #[trigger] pow_neg_case(*base, *exp, bv, ev)).1
    };
    let ghost nn: nat = (if ee < 0 {
        -ee
    } else {
        ee
    }) as nat;
    proof {
        if ok {
            lemma_pow_setup(*base, *exp, bb, ee, pos_ok);
        }
        assert forall|bv: int, ev: int| #[trigger] pow_pos_case(*base, *exp, bv, ev) implies pos_ok
            && bv == bb && ev == ee by {
            lemma_int_value_unique(*base, bv, bb);
            lemma_int_value_unique(*exp, ev, ee);
        }
        assert forall|bv: int, ev: int| #[trigger] pow_neg_case(*base, *exp, bv, ev) implies !pos_ok
            && bv == bb && ev == ee by {
            if pos_ok {
                let (b2, e2) = choose|b2: int, e2: int| #[trigger] pow_pos_case(*base, *exp, b2, e2);
                lemma_int_value_unique(*exp, ev, e2);
            }
            lemma_int_value_unique(*base, bv, bb);
            lemma_int_value_unique(*exp, ev, ee);
        }
    }
    let zero = Double::zero(false);
    proof {
        if ok {
            crate::double::lemma_zero_int(zero);
            law_order_key_is_value_order(*exp, zero);
            law_order_key_is_value_order(*base, zero);
            crate::double::lemma_pow2_mono(0, 1074);
            assert(ee * spec_pow2(1074) != 0) by (nonlinear_arith)
                requires
                    ee != 0,
                    spec_pow2(1074) >= 1,
            ;
            assert(bb * spec_pow2(1074) != 0) by (nonlinear_arith)
                requires
                    bb != 0,
                    spec_pow2(1074) >= 1,
            ;
        }
    }
    if exp.eq(&zero) {
        return Double::one();
    }
    if base.eq(&zero) {
        return if exp.gt(&zero) {
            Double::zero(false)
        } else {
            Double::infinity(false)
        };
    }
    let one = Double::one();
    proof {
        if ok {
            law_order_key_is_value_order(*exp, one);
            if ee != 1 {
                assert(ee * spec_pow2(1074) != 1 * spec_pow2(1074)) by (nonlinear_arith)
                    requires
                        ee != 1,
                        spec_pow2(1074) >= 1,
                ;
            } else {
                vstd::arithmetic::power::lemma_pow1(bb);
            }
        }
    }
    if exp.eq(&one) {
        proof {
            if ok {
                assert(ee == 1);
                assert(pos_ok);
            }
        }
        return *base;
    }
    let exp_int = exp.to_i64();
    proof {
        if ok {
            crate::double::lemma_safe_int_parts(*exp, ee);
            assert(exp_int == ee);
        }
    }
    let fe = Double::from_i64(exp_int);
    proof {
        if ok {
            law_order_key_is_value_order(*exp, fe);
        }
    }
    if exp.eq(&fe) && wrapping_abs_i64(exp_int) < 100 {
        let mut result = Double::one();
        let mut b = *base;
        let mut e: u64 = if exp_int == i64::MIN {
            0x8000_0000_0000_0000u64
        } else if exp_int < 0 {
            (-exp_int) as u64
        } else {
            exp_int as u64
        };
        let ghost mut pj: nat = 1;
        let ghost mut rem: nat = 0;
        proof {
            if ok {
                assert(e == nn);
                vstd::arithmetic::power::lemma_pow0(bb);
                vstd::arithmetic::power::lemma_pow1(bb);
            }
        }
        while e > 0
            invariant
                ok ==> (e as int) * pj + rem == nn && pj >= 1 && spec_is_int_value(result, ipow(bb, rem))
                    && (e > 0 ==> spec_is_int_value(b, ipow(bb, pj))),
                ok ==> bb != 0 && int_abs(ipow(bb, nn)) < safe_limit(),
            decreases e,
        {
            proof {
                if ok {
                    lemma_pow_step(bb, nn, e as nat, pj, rem);
                    assert(spec_safe_int(result, ipow(bb, rem)));
                    assert(spec_safe_int(b, ipow(bb, pj)));
                }
            }
            if e % 2 == 1 {
                result = result.mul(&b);
            }
            b = b.mul(&b);
            proof {
                if ok {
                    if e % 2 == 1 {
                        rem = rem + pj;
                    }
                    pj = pj + pj;
                }
            }
            e = e / 2;
        }
        proof {
            if ok {
                assert(rem == nn);
                if !pos_ok {
                    let m = choose|m: nat| m <= 52 && #[trigger] spec_pow2(m) == int_abs(ipow(bb, nn));
                    if ipow(bb, nn) > 0 {
                        crate::double::lemma_pow2_double(result, m);
                    } else {
                        crate::double::lemma_neg_pow2_double(result, m);
                    }
                    assert(spec_scaled(one) == spec_pow2(1074));
                }
            }
        }
        if exp_int < 0 {
            Double::one().div(&result)
        } else {
            result
        }
    } else {
        proof {
            if ok {
                assert(false);
            }
        }
        exp_fn(&exp.mul(&ln(base)))
    }
}

pub fn sqrt(x: &Double) -> (r: Double)
    ensures
        x.is_nan_spec() ==> r.is_nan_spec(),
        !x.is_nan_spec() && spec_order_key(x.bits) < 0 ==> r.is_nan_spec(),
        x.is_zero_spec() ==> r.bits == 0,
{
    let zero = Double::zero(false);
    if x.lt(&zero) {
        return Double::nan();
    }
    if x.eq(&zero) {
        return Double::zero(false);
    }
    let two = cst(TWO_BITS);
    let eps = cst(EPS15_BITS);
    let mut guess = x.div(&two);
    if guess.eq(&zero) {
        guess = Double::one();
    }
    let mut i: u32 = 0;
    while i < 64
        invariant
            x.is_nan_spec() ==> guess.is_nan_spec(),
        decreases 64 - i,
    {
        let new_guess = guess.add(&x.div(&guess)).div(&two);
        if new_guess.sub(&guess).abs().lt(&eps.mul(&guess.abs())) {
            break;
        }
        guess = new_guess;
        i = i + 1;
    }
    guess
}

pub fn cbrt(x: &Double) -> (r: Double)
    ensures
        x.is_nan_spec() ==> r.is_nan_spec(),
        x.is_zero_spec() ==> r.bits == 0,
{
    let zero = Double::zero(false);
    if x.eq(&zero) {
        return Double::zero(false);
    }
    let neg = x.lt(&zero);
    let xx = if neg {
        x.neg()
    } else {
        *x
    };
    let two = cst(TWO_BITS);
    let three = cst(THREE_BITS);
    let eps = cst(EPS15_BITS);
    let mut guess = xx.div(&three);
    if guess.eq(&zero) {
        guess = Double::one();
    }
    let mut i: u32 = 0;
    while i < 64
        invariant
            xx.is_nan_spec() ==> guess.is_nan_spec(),
        decreases 64 - i,
    {
        let new_guess = two.mul(&guess).add(&xx.div(&guess.mul(&guess))).div(&three);
        if new_guess.sub(&guess).abs().lt(&eps.mul(&guess.abs())) {
            break;
        }
        guess = new_guess;
        i = i + 1;
    }
    if neg {
        guess.neg()
    } else {
        proof {
            assert(x.is_nan_spec() ==> xx.is_nan_spec());
        }
        guess
    }
}

/// Natural logarithm: scale into [1, 2) by halving or doubling (at most 2100 steps,
/// enough for every finite value), then the series of ln(1 + t).
pub fn ln(x: &Double) -> (r: Double)
    ensures
        x.is_nan_spec() || spec_order_key(x.bits) <= 0 ==> r.is_nan_spec(),
        x.bits == 0x3FF0_0000_0000_0000 ==> r.bits == 0,
{
    let zero = Double::zero(false);
    if x.le(&zero) {
        return Double::nan();
    }
    if x.eq(&Double::one()) {
        return Double::zero(false);
    }
    let two = cst(TWO_BITS);
    let one = Double::one();
    let eps = cst(EPS15_BITS);
    let mut k: i64 = 0;
    let mut f = *x;
    while f.ge(&two) && k < 2100
        invariant
            0 <= k <= 2100,
            x.is_nan_spec() ==> f.is_nan_spec(),
        decreases 2100 - k,
    {
        f = f.div(&two);
        k = k + 1;
    }
    let mut steps: i64 = 0;
    while f.lt(&one) && steps < 2100
        invariant
            -2100 <= k <= 2100,
            0 <= steps <= 2100,
            k >= -steps,
            x.is_nan_spec() ==> f.is_nan_spec(),
        decreases 2100 - steps,
    {
        f = f.mul(&two);
        k = k - 1;
        steps = steps + 1;
    }
    let t = f.sub(&one);
    let mut result = Double::zero(false);
    let mut term = t;
    let mut n: i64 = 1;
    while n < 100
        invariant_except_break
            1 <= n <= 100,
            x.is_nan_spec() ==> t.is_nan_spec() && term.is_nan_spec() && (n > 1
                ==> result.is_nan_spec()),
        ensures
            x.is_nan_spec() ==> result.is_nan_spec(),
        decreases 100 - n,
    {
        result = result.add(&term.div(&num(n)));
        term = term.mul(&t.neg());
        if term.abs().lt(&eps) {
            break;
        }
        n = n + 1;
    }
    result.add(&num(k).mul(&cst(LN_2_BITS)))
}

pub fn exp_fn(x: &Double) -> (r: Double)
    ensures
        x.is_nan_spec() ==> r.is_nan_spec(),
        x.is_zero_spec() ==> r.bits == 0x3FF0_0000_0000_0000,
        x.is_inf_spec() ==> (if x.is_neg_spec() {
            r.bits == 0
        } else {
            r.is_inf_spec() && !r.is_neg_spec()
        }),
{
    let zero = Double::zero(false);
    if x.eq(&zero) {
        return Double::one();
    }
    let lim = cst(N709_BITS);
    if x.gt(&lim) {
        return Double::infinity(false);
    }
    if x.lt(&lim.neg()) {
        return Double::zero(false);
    }
    let eps = cst(EPS15_BITS);
    let mut result = Double::one();
    let mut term = Double::one();
    let mut n: i64 = 1;
    while n < 100
        invariant_except_break
            1 <= n <= 100,
            x.is_nan_spec() ==> (n > 1 ==> result.is_nan_spec() && term.is_nan_spec()),
        ensures
            x.is_nan_spec() ==> result.is_nan_spec(),
        decreases 100 - n,
    {
        term = term.mul(&x.div(&num(n)));
        result = result.add(&term);
        if term.abs().lt(&eps) {
            break;
        }
        n = n + 1;
    }
    result
}

/// Reduces an angle into [-pi, pi] the way the interpreter does.
fn reduce_angle(x: &Double) -> (r: Double)
    ensures
        x.is_nan_spec() || x.is_inf_spec() ==> r.is_nan_spec(),
{
    let pi = cst(PI_BITS);
    let two_pi = cst(TWO_BITS).mul(&pi);
    let mut y = x.rem(&two_pi);
    if y.gt(&pi) {
        y = y.sub(&two_pi);
    }
    if y.lt(&pi.neg()) {
        y = y.add(&two_pi);
    }
    y
}

#[verifier::rlimit(40)]
pub fn sin(x: &Double) -> (r: Double)
    ensures
        x.is_nan_spec() || x.is_inf_spec() ==> r.is_nan_spec(),
{
    let y = reduce_angle(x);
    let eps = cst(EPS15_BITS);
    let mut result = Double::zero(false);
    let mut term = y;
    let mut n: i64 = 0;
    while n < 50
        invariant_except_break
            0 <= n <= 50,
            y.is_nan_spec() ==> term.is_nan_spec() && (n > 0 ==> result.is_nan_spec()),
        ensures
            y.is_nan_spec() ==> result.is_nan_spec(),
        decreases 50 - n,
    {
        result = result.add(&term);
        let denom = num(2 * n + 2).mul(&num(2 * n + 3));
        term = term.mul(&y.neg().mul(&y).div(&denom));
        if term.abs().lt(&eps) {
            break;
        }
        n = n + 1;
    }
    result
}

#[verifier::rlimit(40)]
pub fn cos(x: &Double) -> (r: Double)
    ensures
        x.is_nan_spec() || x.is_inf_spec() ==> r.is_nan_spec(),
{
    let y = reduce_angle(x);
    let eps = cst(EPS15_BITS);
    let mut result = Double::zero(false);
    let mut term = Double::one();
    let mut n: i64 = 0;
    while n < 50
        invariant_except_break
            0 <= n <= 50,
            y.is_nan_spec() ==> (n > 0 ==> term.is_nan_spec()) && (n > 1 ==> result.is_nan_spec()),
        ensures
            y.is_nan_spec() ==> result.is_nan_spec(),
        decreases 50 - n,
    {
        result = result.add(&term);
        let denom = num(2 * n + 1).mul(&num(2 * n + 2));
        term = term.mul(&y.neg().mul(&y).div(&denom));
        if term.abs().lt(&eps) {
            break;
        }
        n = n + 1;
    }
    result
}

pub fn atan2(y: &Double, x: &Double) -> (r: Double)
    ensures
        x.is_nan_spec() || y.is_nan_spec() && !x.is_zero_spec() ==> r.is_nan_spec(),
        x.is_zero_spec() && (y.is_zero_spec() || y.is_nan_spec()) ==> r.bits == 0,
{
    let zero = Double::zero(false);
    let pi = cst(PI_BITS);
    if x.eq(&zero) {
        if y.gt(&zero) {
            return pi.div(&cst(TWO_BITS));
        }
        if y.lt(&zero) {
            return pi.neg().div(&cst(TWO_BITS));
        }
        return Double::zero(false);
    }
    let at = atan_approx(&y.div(x));
    if x.gt(&zero) {
        at
    } else if y.ge(&zero) {
        at.add(&pi)
    } else {
        at.sub(&pi)
    }
}

/// Series for |x| <= 1.
fn atan_series(x: &Double) -> (r: Double)
    ensures
        x.is_nan_spec() ==> r.is_nan_spec(),
{
    let eps = cst(EPS15_BITS);
    let mut result = Double::zero(false);
    let mut term = *x;
    let x2 = x.mul(x);
    let mut n: i64 = 0;
    while n < 100
        invariant
            0 <= n <= 100,
            x.is_nan_spec() ==> term.is_nan_spec() && x2.is_nan_spec() && (n > 0 ==> result.is_nan_spec()),
        ensures
            x.is_nan_spec() ==> result.is_nan_spec(),
        decreases 100 - n,
    {
        result = result.add(&term.div(&num(2 * n + 1)));
        term = term.mul(&x2.neg());
        if term.abs().lt(&eps) {
            break;
        }
        n = n + 1;
    }
    result
}

/// Arc tangent: the series within [-1, 1], `pi/2 - atan(1/x)` outside. NaN gives NaN.
pub fn atan_approx(x: &Double) -> (r: Double)
    ensures
        x.is_nan_spec() ==> r.is_nan_spec(),
{
    if x.is_nan() {
        return Double::nan();
    }
    let one = Double::one();
    if x.abs().le(&one) {
        atan_series(x)
    } else {
        let pi_2 = cst(FRAC_PI_2_BITS);
        let inv = one.div(x);
        let inner = if inv.abs().le(&one) {
            atan_series(&inv)
        } else {
            Double::nan()
        };
        if x.gt(&Double::zero(false)) {
            pi_2.sub(&inner)
        } else {
            pi_2.neg().sub(&inner)
        }
    }
}

} // verus!
