//! Arbitrary-precision natural numbers, just enough for exact decimal formatting.
use vstd::prelude::*;
use crate::double::{spec_pow2, pow2_u128, lemma_pow2_mono, lemma_pow2_add};

verus! {

/// The base of a limb: `2^32`.
pub open spec fn limb_base() -> nat {
    0x1_0000_0000
}

/// `(2^32)^n`.
pub open spec fn base_pow(n: nat) -> nat
    decreases n,
{
    if n == 0 {
        1
    } else {
        limb_base() * base_pow((n - 1) as nat)
    }
}

/// `10^n`.
pub open spec fn pow10_nat(n: nat) -> nat
    decreases n,
{
    if n == 0 {
        1
    } else {
        10 * pow10_nat((n - 1) as nat)
    }
}

/// `w` zero limbs.
pub open spec fn zero_limbs(w: nat) -> Seq<u32> {
    Seq::new(w, |i: int| 0u32)
}

/// The number that limbs stand for, least significant limb first.
pub open spec fn limbs_value(s: Seq<u32>) -> nat
    decreases s.len(),
{
    if s.len() == 0 {
        0
    } else {
        s[0] as nat + limb_base() * limbs_value(s.drop_first())
    }
}

/// The limbs of `a` followed by those of `b` stand for `a + 2^(32 * |a|) * b`.
pub proof fn lemma_value_concat(a: Seq<u32>, b: Seq<u32>)
    ensures
        limbs_value(a + b) == limbs_value(a) + base_pow(a.len()) * limbs_value(b),
    decreases a.len(),
{
    if a.len() == 0 {
        assert(a + b =~= b);
        assert(limbs_value(a) == 0);
        assert(base_pow(0) == 1);
    } else {
        let c = a + b;
        assert(c.drop_first() =~= a.drop_first() + b);
        assert(c[0] == a[0]);
        lemma_value_concat(a.drop_first(), b);
        let x = limbs_value(a.drop_first());
        let y = limbs_value(b);
        let p = base_pow((a.len() - 1) as nat);
        assert(limbs_value(c) == c[0] as nat + limb_base() * limbs_value(c.drop_first()));
        assert(limbs_value(a) == a[0] as nat + limb_base() * x);
        assert(base_pow(a.len()) == limb_base() * p);
        assert(limbs_value(c.drop_first()) == x + p * y);
        assert(limb_base() * (x + p * y) == limb_base() * x + (limb_base() * p) * y)
            by (nonlinear_arith);
    }
}

/// One limb more at the top adds it times the weight of its place.
pub proof fn lemma_value_push(s: Seq<u32>, x: u32)
    ensures
        limbs_value(s.push(x)) == limbs_value(s) + base_pow(s.len()) * x,
{
    lemma_value_concat(s, seq![x]);
    assert(s + seq![x] =~= s.push(x));
    assert(seq![x].drop_first() =~= Seq::<u32>::empty());
    assert(limbs_value(Seq::<u32>::empty()) == 0);
    assert(limbs_value(seq![x]) == x as nat + limb_base() * limbs_value(seq![x].drop_first()));
}

/// The value of limbs is below the weight of the place after the last one.
pub proof fn lemma_value_bound(s: Seq<u32>)
    ensures
        limbs_value(s) < base_pow(s.len()),
    decreases s.len(),
{
    if s.len() > 0 {
        lemma_value_bound(s.drop_first());
        let x = limbs_value(s.drop_first());
        let p = base_pow((s.len() - 1) as nat);
        assert(s[0] as nat + limb_base() * x < limb_base() * p) by (nonlinear_arith)
            requires
                x < p,
                s[0] < limb_base(),
        ;
    }
}

/// Weights of places grow with the place.
pub proof fn lemma_base_pow_mono(a: nat, b: nat)
    requires
        a <= b,
    ensures
        1 <= base_pow(a) <= base_pow(b),
    decreases b,
{
    if b > 0 {
        if a < b {
            lemma_base_pow_mono(a, (b - 1) as nat);
        } else {
            lemma_base_pow_mono((a - 1) as nat, (b - 1) as nat);
        }
        assert(base_pow(b) == limb_base() * base_pow((b - 1) as nat));
    }
}

/// `(2^32)^w == 2^(32 w)`.
pub proof fn lemma_base_pow_pow2(w: nat)
    ensures
        base_pow(w) == spec_pow2(32 * w),
    decreases w,
{
    if w > 0 {
        lemma_base_pow_pow2((w - 1) as nat);
        lemma_pow2_add(32, (32 * (w - 1)) as nat);
        assert(spec_pow2(32) == 0x1_0000_0000) by {
            reveal_with_fuel(spec_pow2, 33);
        }
        assert(32 + 32 * (w - 1) == 32 * w);
    }
}

/// `w` zero limbs below `s` multiply its value by `(2^32)^w`.
proof fn lemma_value_zeros_below(w: nat, s: Seq<u32>)
    ensures
        limbs_value(zero_limbs(w) + s) == base_pow(w) * limbs_value(s),
{
    let z = zero_limbs(w);
    lemma_value_concat(z, s);
    lemma_value_zeros(w);
}

/// Zero limbs stand for zero.
proof fn lemma_value_zeros(w: nat)
    ensures
        limbs_value(zero_limbs(w)) == 0,
    decreases w,
{
    let z = zero_limbs(w);
    if w > 0 {
        assert(z.drop_first() =~= zero_limbs((w - 1) as nat));
        lemma_value_zeros((w - 1) as nat);
        assert(limbs_value(z) == z[0] as nat + limb_base() * limbs_value(z.drop_first()));
    } else {
        assert(limbs_value(z) == 0);
    }
}

/// Zero limbs at the top do not change the value.
proof fn lemma_value_trailing_zeros(s: Seq<u32>, n: int)
    requires
        0 <= n <= s.len(),
        forall|j: int| n <= j < s.len() ==> s[j] == 0,
    ensures
        limbs_value(s) == limbs_value(s.take(n)),
    decreases s.len() - n,
{
    if n < s.len() {
        lemma_value_trailing_zeros(s, n + 1);
        assert(s.take(n + 1) =~= s.take(n).push(s[n]));
        lemma_value_push(s.take(n), s[n]);
    } else {
        assert(s.take(n) =~= s);
    }
}

/// One step of multiplying by a small factor: the limb written and the carry taken on.
proof fn lemma_mul_step(low: int, old_low: int, p: int, carry: int, a: int, m: int, prod: int)
    requires
        low + p * carry == m * old_low,
        prod == a * m + carry,
        prod >= 0,
    ensures
        low + p * (prod % 0x1_0000_0000) + (p * 0x1_0000_0000) * (prod / 0x1_0000_0000) == m
            * (old_low + p * a),
{
    assert(prod % 0x1_0000_0000 + 0x1_0000_0000 * (prod / 0x1_0000_0000) == prod);
    assert(p * (prod % 0x1_0000_0000) + (p * 0x1_0000_0000) * (prod / 0x1_0000_0000) == p * prod)
        by (nonlinear_arith)
        requires
            prod % 0x1_0000_0000 + 0x1_0000_0000 * (prod / 0x1_0000_0000) == prod,
    ;
    assert(p * prod == p * carry + m * (p * a)) by (nonlinear_arith)
        requires
            prod == a * m + carry,
    ;
    assert(m * (old_low + p * a) == m * old_low + m * (p * a)) by (nonlinear_arith);
}

/// A natural number in base 2^32, least significant limb first.
pub struct Big {
    pub limbs: Vec<u32>,
}

impl Big {
    pub open spec fn value(&self) -> nat {
        limbs_value(self.limbs@)
    }

    pub fn from_u64(v: u64) -> (r: Big)
        ensures
            r.value() == v,
    {
        let mut limbs: Vec<u32> = Vec::new();
        let lo = (v % 0x1_0000_0000) as u32;
        let hi = (v / 0x1_0000_0000) as u32;
        limbs.push(lo);
        limbs.push(hi);
        proof {
            let s = limbs@;
            assert(s.drop_first() =~= seq![hi]);
            assert(seq![hi].drop_first() =~= Seq::<u32>::empty());
            assert(limbs_value(Seq::<u32>::empty()) == 0);
            assert(limbs_value(seq![hi]) == hi as nat + limb_base() * limbs_value(seq![hi].drop_first()));
            assert(limbs_value(s) == lo as nat + limb_base() * limbs_value(s.drop_first()));
            assert(v == lo + 0x1_0000_0000 * hi);
        }
        Big { limbs }
    }

    /// `self * m`.
    pub fn mul_small(&mut self, m: u32)
        ensures
            final(self).value() == old(self).value() * m,
    {
        let ghost orig = self.limbs@;
        let mut carry: u64 = 0;
        let mut i: usize = 0;
        proof {
            assert(self.limbs@.take(0) =~= Seq::<u32>::empty());
            assert(orig.take(0) =~= Seq::<u32>::empty());
            assert(limbs_value(Seq::<u32>::empty()) == 0);
        }
        while i < self.limbs.len()
            invariant
                0 <= i <= self.limbs@.len(),
                self.limbs@.len() == orig.len(),
                carry < 0x1_0000_0000,
                forall|j: int| i <= j < orig.len() ==> self.limbs@[j] == orig[j],
                limbs_value(self.limbs@.take(i as int)) + base_pow(i as nat) * carry == m
                    * limbs_value(orig.take(i as int)),
            decreases self.limbs@.len() - i,
        {
            let a = self.limbs[i] as u64;
            let b = m as u64;
            assert(a * b <= 0xFFFF_FFFE_0000_0001u64) by (nonlinear_arith)
                requires
                    a < 0x1_0000_0000,
                    b < 0x1_0000_0000,
            ;
            let prod = a * b + carry;
            let ghost before = self.limbs@;
            self.limbs.set(i, (prod % 0x1_0000_0000) as u32);
            proof {
                let ii = i as int;
                assert(self.limbs@.take(ii) =~= before.take(ii));
                assert(self.limbs@.take(ii + 1) =~= self.limbs@.take(ii).push(self.limbs@[ii]));
                assert(orig.take(ii + 1) =~= orig.take(ii).push(orig[ii]));
                lemma_value_push(self.limbs@.take(ii), self.limbs@[ii]);
                lemma_value_push(orig.take(ii), orig[ii]);
                lemma_mul_step(
                    limbs_value(before.take(ii)) as int,
                    limbs_value(orig.take(ii)) as int,
                    base_pow(i as nat) as int,
                    carry as int,
                    a as int,
                    m as int,
                    prod as int,
                );
                assert(base_pow((i + 1) as nat) == base_pow(i as nat) * 0x1_0000_0000);
            }
            carry = prod / 0x1_0000_0000;
            i = i + 1;
        }
        proof {
            assert(self.limbs@.take(i as int) =~= self.limbs@);
            assert(orig.take(i as int) =~= orig);
            assert(limbs_value(self.limbs@) + base_pow(i as nat) * carry == m * limbs_value(orig));
            assert(m * limbs_value(orig) == limbs_value(orig) * m) by (nonlinear_arith);
        }
        if carry > 0 {
            let ghost before = self.limbs@;
            let c = carry as u32;
            self.limbs.push(c);
            proof {
                lemma_value_push(before, c);
                assert(c as nat == carry as nat);
                assert(self.limbs@ == before.push(c));
            }
        } else {
            assert(base_pow(i as nat) * carry == 0);
        }
    }

    /// `self * 2^k`.
    pub fn shl(&mut self, k: u32)
        ensures
            final(self).value() == old(self).value() * spec_pow2(k as nat),
    {
        let whole = k / 32;
        let bits = k % 32;
        let ghost orig = self.limbs@;
        if whole > 0 {
            let mut shifted: Vec<u32> = Vec::new();
            let mut j: u32 = 0;
            while j < whole
                invariant
                    j <= whole,
                    shifted@ =~= zero_limbs(j as nat),
                decreases whole - j,
            {
                shifted.push(0);
                j = j + 1;
            }
            let mut i: usize = 0;
            while i < self.limbs.len()
                invariant
                    0 <= i <= self.limbs@.len(),
                    self.limbs@ == orig,
                    shifted@ =~= zero_limbs(whole as nat) + orig.take(i as int),
                decreases self.limbs@.len() - i,
            {
                proof {
                    assert(orig.take(i + 1) =~= orig.take(i as int).push(orig[i as int]));
                }
                shifted.push(self.limbs[i]);
                i = i + 1;
            }
            proof {
                assert(orig.take(i as int) =~= orig);
                assert(shifted@ =~= zero_limbs(whole as nat) + orig);
                lemma_value_zeros_below(whole as nat, orig);
            }
            self.limbs = shifted;
            assert(self.value() == base_pow(whole as nat) * limbs_value(orig));
        } else {
            assert(whole == 0);
            assert(base_pow(whole as nat) == 1);
            assert(self.limbs@ == orig);
            assert(self.value() == limbs_value(orig));
            assert(self.value() == base_pow(whole as nat) * limbs_value(orig));
        }
        let ghost mid = self.value();
        proof {
            lemma_base_pow_pow2(whole as nat);
            let bp = base_pow(whole as nat);
            let lv = limbs_value(orig);
            assert(mid == bp * lv);
            assert(bp * lv == lv * bp) by (nonlinear_arith);
            assert(mid == limbs_value(orig) * spec_pow2((32 * whole) as nat));
        }
        if bits > 0 {
            proof {
                lemma_pow2_mono(bits as nat, 31);
                assert(spec_pow2(31) == 0x8000_0000) by {
                    reveal_with_fuel(spec_pow2, 32);
                }
            }
            let m = pow2_u128(bits) as u32;
            self.mul_small(m);
            proof {
                lemma_shl_total(limbs_value(orig), mid, whole as nat, bits as nat, k as nat);
            }
        } else {
            proof {
                lemma_shl_total(limbs_value(orig), mid, whole as nat, 0, k as nat);
                assert(spec_pow2(0) == 1);
            }
        }
    }

    /// `self * 10^k`.
    pub fn mul_pow10(&mut self, k: u32)
        ensures
            final(self).value() == old(self).value() * pow10_nat(k as nat),
    {
        let ghost orig = self.value();
        let mut i: u32 = 0;
        assert(pow10_nat(0) == 1);
        while i < k
            invariant
                i <= k,
                self.value() == orig * pow10_nat(i as nat),
            decreases k - i,
        {
            self.mul_small(10);
            proof {
                assert(orig * pow10_nat(i as nat) * 10 == orig * (10 * pow10_nat(i as nat)))
                    by (nonlinear_arith);
                assert(pow10_nat((i + 1) as nat) == 10 * pow10_nat(i as nat));
            }
            i = i + 1;
        }
    }

    /// Index just past the most significant nonzero limb.
    fn top(&self) -> (r: usize)
        ensures
            r <= self.limbs@.len(),
            forall|j: int| r <= j < self.limbs@.len() ==> self.limbs@[j] == 0,
            r > 0 ==> self.limbs@[r - 1] != 0,
    {
        let mut n = self.limbs.len();
        while n > 0 && self.limbs[n - 1] == 0
            invariant
                n <= self.limbs@.len(),
                forall|j: int| n <= j < self.limbs@.len() ==> self.limbs@[j] == 0,
            decreases n,
        {
            n = n - 1;
        }
        n
    }

    /// Three-way comparison: -1, 0 or 1 as `self` is below, equal to or above `other`.
    pub fn compare(&self, other: &Big) -> (r: i8)
        ensures
            r == -1 <==> self.value() < other.value(),
            r == 0 <==> self.value() == other.value(),
            r == 1 <==> self.value() > other.value(),
    {
        let a = self.top();
        let b = other.top();
        let ghost x = self.limbs@;
        let ghost y = other.limbs@;
        proof {
            lemma_value_trailing_zeros(x, a as int);
            lemma_value_trailing_zeros(y, b as int);
        }
        if a != b {
            proof {
                if a < b {
                    lemma_lower_top(x.take(a as int), y.take(b as int));
                } else {
                    lemma_lower_top(y.take(b as int), x.take(a as int));
                }
            }
            return if a < b {
                -1
            } else {
                1
            };
        }
        let mut i = a;
        while i > 0
            invariant
                i <= a,
                a == b,
                a <= self.limbs@.len(),
                a <= other.limbs@.len(),
                x == self.limbs@,
                y == other.limbs@,
                limbs_value(x) == limbs_value(x.take(a as int)),
                limbs_value(y) == limbs_value(y.take(a as int)),
                forall|j: int| i <= j < a ==> x[j] == y[j],
            decreases i,
        {
            i = i - 1;
            if self.limbs[i] != other.limbs[i] {
                proof {
                    if x[i as int] < y[i as int] {
                        lemma_first_difference(x.take(a as int), y.take(a as int), i as int);
                    } else {
                        lemma_first_difference(y.take(a as int), x.take(a as int), i as int);
                    }
                }
                return if self.limbs[i] < other.limbs[i] {
                    -1
                } else {
                    1
                };
            }
        }
        proof {
            assert(x.take(a as int) =~= y.take(a as int));
        }
        0
    }
}

/// Shifting by whole limbs and then by bits shifts by their sum.
proof fn lemma_shl_total(v: nat, mid: nat, whole: nat, bits: nat, k: nat)
    requires
        mid == v * spec_pow2(32 * whole),
        k == 32 * whole + bits,
    ensures
        mid * spec_pow2(bits) == v * spec_pow2(k),
{
    lemma_pow2_add(32 * whole, bits);
    assert(mid * spec_pow2(bits) == v * (spec_pow2(32 * whole) * spec_pow2(bits)))
        by (nonlinear_arith)
        requires
            mid == v * spec_pow2(32 * whole),
    ;
}

/// Limbs whose top limb is nonzero exceed every number with fewer limbs.
proof fn lemma_lower_top(x: Seq<u32>, y: Seq<u32>)
    requires
        x.len() < y.len(),
        y[y.len() - 1] != 0,
    ensures
        limbs_value(x) < limbs_value(y),
{
    let n = y.len() - 1;
    lemma_value_bound(x);
    lemma_base_pow_mono(x.len(), n as nat);
    assert(y =~= y.take(n).push(y[n]));
    lemma_value_push(y.take(n), y[n]);
    let p = base_pow(n as nat);
    assert(p * y[n] >= p) by (nonlinear_arith)
        requires
            y[n] >= 1,
            p >= 1,
    ;
}

/// Two numbers of as many limbs that agree above limb `i` and differ there are ordered
/// as that limb.
proof fn lemma_first_difference(x: Seq<u32>, y: Seq<u32>, i: int)
    requires
        x.len() == y.len(),
        0 <= i < x.len(),
        x[i] < y[i],
        forall|j: int| i < j < x.len() ==> x[j] == y[j],
    ensures
        limbs_value(x) < limbs_value(y),
{
    let n = x.len() as int;
    let hx = x.subrange(i + 1, n);
    let hy = y.subrange(i + 1, n);
    assert(hx =~= hy);
    assert(x =~= x.take(i).push(x[i]) + hx);
    assert(y =~= y.take(i).push(y[i]) + hy);
    lemma_value_concat(x.take(i).push(x[i]), hx);
    lemma_value_concat(y.take(i).push(y[i]), hy);
    lemma_value_push(x.take(i), x[i]);
    lemma_value_push(y.take(i), y[i]);
    lemma_value_bound(x.take(i));
    let p = base_pow(i as nat);
    let lx = limbs_value(x.take(i));
    let ly = limbs_value(y.take(i));
    assert(lx + p * x[i] < ly + p * y[i]) by (nonlinear_arith)
        requires
            lx < p,
            ly >= 0,
            x[i] + 1 <= y[i],
    ;
}

} // verus!
