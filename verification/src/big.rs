//! Natural numbers of any size, as little-endian limbs of 32 bits.

use vstd::arithmetic::power2;
use vstd::prelude::*;

use crate::digits;

verus! {

/// The limb at a position, zero beyond the end.
pub open spec fn limb(s: Seq<u32>, i: int) -> nat {
    if 0 <= i < s.len() {
        s[i] as nat
    } else {
        0
    }
}

/// The value of the first `n` limbs.
pub open spec fn low(s: Seq<u32>, n: nat) -> nat
    decreases n,
{
    if n == 0 {
        0
    } else {
        low(s, (n - 1) as nat) + limb(s, n - 1) * weight((n - 1) as nat)
    }
}

/// The weight of the limb at position `i`.
pub open spec fn weight(i: nat) -> nat {
    power2::pow2(32 * i)
}

/// A natural number.
pub struct Big {
    limbs: Vec<u32>,
}

impl View for Big {
    type V = nat;

    closed spec fn view(&self) -> nat {
        low(self.limbs@, self.limbs@.len())
    }
}

proof fn lemma_weight(i: nat)
    ensures
        weight(i + 1) == 0x1_0000_0000 * weight(i),
        weight(i) > 0,
        weight(0) == 1,
{
    power2::lemma2_to64();
    power2::lemma_pow2_adds(32 * i, 32);
    power2::lemma_pow2_pos(32 * i);
    assert(32 * (i + 1) == 32 * i + 32);
    assert(weight(i) * 0x1_0000_0000 == 0x1_0000_0000 * weight(i)) by (nonlinear_arith);
}

proof fn lemma_low_bound(s: Seq<u32>, n: nat)
    ensures
        low(s, n) < weight(n),
    decreases n,
{
    lemma_weight(0);
    if n > 0 {
        let m = (n - 1) as nat;
        lemma_low_bound(s, m);
        lemma_weight(m);
        let l = limb(s, m as int);
        let w = weight(m);
        assert(l * w + w <= 0x1_0000_0000 * w) by (nonlinear_arith)
            requires
                l < 0x1_0000_0000,
        ;
    }
}

proof fn lemma_low_beyond(s: Seq<u32>, n: nat)
    requires
        n >= s.len(),
    ensures
        low(s, n) == low(s, s.len()),
    decreases n,
{
    if n > s.len() {
        lemma_low_beyond(s, (n - 1) as nat);
        assert(limb(s, n - 1) * weight((n - 1) as nat) == 0) by (nonlinear_arith)
            requires
                limb(s, n - 1) == 0,
        ;
    }
}

proof fn lemma_low_same(s: Seq<u32>, t: Seq<u32>, n: nat)
    requires
        forall|i: int| 0 <= i < n ==> limb(s, i) == limb(t, i),
    ensures
        low(s, n) == low(t, n),
    decreases n,
{
    if n > 0 {
        lemma_low_same(s, t, (n - 1) as nat);
    }
}

proof fn lemma_low_push(s: Seq<u32>, x: u32)
    ensures
        low(s.push(x), s.len() + 1) == low(s, s.len()) + x * weight(s.len()),
{
    lemma_low_same(s.push(x), s, s.len());
}

impl Big {
    /// The value of a 64-bit integer.
    pub fn from_u64(n: u64) -> (r: Big)
        ensures
            r@ == n,
    {
        let mut limbs: Vec<u32> = Vec::new();
        limbs.push((n % 0x1_0000_0000) as u32);
        limbs.push((n / 0x1_0000_0000) as u32);
        proof {
            lemma_weight(0);
            lemma_weight(1);
            let s = limbs@;
            assert(low(s, 0) == 0);
            assert(low(s, 1) == low(s, 0) + limb(s, 0) * weight(0));
            assert(low(s, 2) == low(s, 1) + limb(s, 1) * weight(1));
        }
        Big { limbs }
    }

    /// The same number once more.
    pub fn copy(&self) -> (r: Big)
        ensures
            r@ == self@,
    {
        let mut limbs: Vec<u32> = Vec::new();
        let mut i: usize = 0;
        while i < self.limbs.len()
            invariant
                i <= self.limbs@.len(),
                limbs@ == self.limbs@.take(i as int),
            decreases self.limbs@.len() - i,
        {
            limbs.push(self.limbs[i]);
            i += 1;
            assert(limbs@ == self.limbs@.take(i as int));
        }
        assert(limbs@ == self.limbs@);
        Big { limbs }
    }

    fn at(&self, i: usize) -> (r: u32)
        ensures
            r as nat == limb(self.limbs@, i as int),
    {
        if i < self.limbs.len() {
            self.limbs[i]
        } else {
            0
        }
    }

    /// The sum of two numbers.
    pub fn plus(&self, other: &Big) -> (r: Big)
        ensures
            r@ == self@ + other@,
    {
        let n: usize = if self.limbs.len() > other.limbs.len() {
            self.limbs.len()
        } else {
            other.limbs.len()
        };
        let mut limbs: Vec<u32> = Vec::new();
        let mut carry: u64 = 0;
        let mut i: usize = 0;
        proof {
            lemma_weight(0);
        }
        while i < n
            invariant
                i <= n,
                limbs@.len() == i,
                carry <= 1,
                low(limbs@, i as nat) + carry * weight(i as nat) == low(self.limbs@, i as nat) + low(
                    other.limbs@,
                    i as nat,
                ),
            decreases n - i,
        {
            let a: u64 = self.at(i) as u64;
            let b: u64 = other.at(i) as u64;
            let t: u64 = a + b + carry;
            let digit: u32 = (t % 0x1_0000_0000) as u32;
            proof {
                lemma_low_push(limbs@, digit);
                lemma_weight(i as nat);
                let w = weight(i as nat);
                let next = t / 0x1_0000_0000;
                assert(digit * w + next * (0x1_0000_0000 * w) == a * w + b * w + carry * w)
                    by (nonlinear_arith)
                    requires
                        a + b + carry == digit + 0x1_0000_0000 * next,
                ;
            }
            limbs.push(digit);
            carry = t / 0x1_0000_0000;
            i += 1;
        }
        proof {
            lemma_low_beyond(self.limbs@, n as nat);
            lemma_low_beyond(other.limbs@, n as nat);
            lemma_low_push(limbs@, carry as u32);
        }
        limbs.push(carry as u32);
        Big { limbs }
    }

    /// The difference of two numbers.
    pub fn minus(&self, other: &Big) -> (r: Big)
        requires
            other@ <= self@,
        ensures
            r@ == self@ - other@,
    {
        let n: usize = if self.limbs.len() > other.limbs.len() {
            self.limbs.len()
        } else {
            other.limbs.len()
        };
        let mut limbs: Vec<u32> = Vec::new();
        let mut borrow: u64 = 0;
        let mut i: usize = 0;
        proof {
            lemma_weight(0);
        }
        while i < n
            invariant
                i <= n,
                limbs@.len() == i,
                borrow <= 1,
                low(limbs@, i as nat) + low(other.limbs@, i as nat) == low(self.limbs@, i as nat)
                    + borrow * weight(i as nat),
            decreases n - i,
        {
            let a: u64 = self.at(i) as u64;
            let b: u64 = other.at(i) as u64;
            let t: u64 = 0x1_0000_0000 + a - b - borrow;
            let digit: u32 = (t % 0x1_0000_0000) as u32;
            let next: u64 = 1 - t / 0x1_0000_0000;
            proof {
                lemma_low_push(limbs@, digit);
                lemma_weight(i as nat);
                let w = weight(i as nat);
                assert(digit * w + b * w + borrow * w == a * w + next * (0x1_0000_0000 * w))
                    by (nonlinear_arith)
                    requires
                        digit + b + borrow == a + 0x1_0000_0000 * next,
                ;
            }
            limbs.push(digit);
            borrow = next;
            i += 1;
        }
        proof {
            lemma_low_beyond(self.limbs@, n as nat);
            lemma_low_beyond(other.limbs@, n as nat);
            lemma_low_bound(limbs@, n as nat);
            if borrow == 1 {
                assert(borrow * weight(n as nat) == weight(n as nat)) by (nonlinear_arith)
                    requires
                        borrow == 1,
                ;
            }
            assert(borrow == 0);
        }
        Big { limbs }
    }

    /// The product with a 32-bit integer.
    pub fn times_small(&self, m: u32) -> (r: Big)
        ensures
            r@ == self@ * m,
    {
        let n: usize = self.limbs.len();
        let mut limbs: Vec<u32> = Vec::new();
        let mut carry: u64 = 0;
        let mut i: usize = 0;
        proof {
            lemma_weight(0);
            assert(0 * m == 0) by (nonlinear_arith);
        }
        while i < n
            invariant
                i <= n,
                n == self.limbs@.len(),
                limbs@.len() == i,
                carry < 0x1_0000_0000,
                low(limbs@, i as nat) + carry * weight(i as nat) == low(self.limbs@, i as nat) * m,
            decreases n - i,
        {
            let a: u64 = self.limbs[i] as u64;
            proof {
                assert(a * m + carry <= 0xffff_ffff * 0xffff_ffff + 0xffff_ffff)
                    by (nonlinear_arith)
                    requires
                        a <= 0xffff_ffff,
                        m <= 0xffff_ffff,
                        carry <= 0xffff_ffff,
                ;
                assert(a * m <= 0xffff_ffff * 0xffff_ffff) by (nonlinear_arith)
                    requires
                        a <= 0xffff_ffff,
                        m <= 0xffff_ffff,
                ;
            }
            let t: u64 = a * (m as u64) + carry;
            let digit: u32 = (t % 0x1_0000_0000) as u32;
            proof {
                lemma_low_push(limbs@, digit);
                lemma_weight(i as nat);
                let w = weight(i as nat);
                let next = t / 0x1_0000_0000;
                let l = low(self.limbs@, i as nat);
                assert(digit * w + next * (0x1_0000_0000 * w) == a * m * w + carry * w)
                    by (nonlinear_arith)
                    requires
                        a * m + carry == digit + 0x1_0000_0000 * next,
                ;
                assert((l + a * w) * m == l * m + a * m * w) by (nonlinear_arith);
            }
            limbs.push(digit);
            carry = t / 0x1_0000_0000;
            i += 1;
        }
        proof {
            lemma_low_push(limbs@, carry as u32);
        }
        limbs.push(carry as u32);
        Big { limbs }
    }

    /// The number shifted up by whole limbs.
    fn raised(&self, k: usize) -> (r: Big)
        ensures
            r@ == self@ * weight(k as nat),
    {
        let mut limbs: Vec<u32> = Vec::new();
        let mut i: usize = 0;
        while i < k
            invariant
                i <= k,
                limbs@.len() == i,
                low(limbs@, i as nat) == 0,
            decreases k - i,
        {
            proof {
                lemma_low_push(limbs@, 0);
                assert(0 * weight(i as nat) == 0) by (nonlinear_arith);
            }
            limbs.push(0);
            i += 1;
        }
        let n: usize = self.limbs.len();
        let mut j: usize = 0;
        proof {
            assert(0 * weight(k as nat) == 0) by (nonlinear_arith);
        }
        while j < n
            invariant
                j <= n,
                n == self.limbs@.len(),
                limbs@.len() == k + j,
                low(limbs@, (k + j) as nat) == low(self.limbs@, j as nat) * weight(k as nat),
            decreases n - j,
        {
            let x: u32 = self.limbs[j];
            proof {
                lemma_low_push(limbs@, x);
                power2::lemma_pow2_adds(32 * (k as nat), 32 * (j as nat));
                assert(32 * (k as nat) + 32 * (j as nat) == 32 * ((k + j) as nat));
                let l = low(self.limbs@, j as nat);
                let wj = weight(j as nat);
                let wk = weight(k as nat);
                assert((l + x * wj) * wk == l * wk + x * (wk * wj)) by (nonlinear_arith);
            }
            limbs.push(x);
            j += 1;
        }
        Big { limbs }
    }

    /// The product of two numbers.
    pub fn times(&self, other: &Big) -> (r: Big)
        ensures
            r@ == self@ * other@,
    {
        let n: usize = other.limbs.len();
        let mut total: Big = Big::from_u64(0);
        let mut i: usize = 0;
        proof {
            assert(self@ * 0 == 0) by (nonlinear_arith);
        }
        while i < n
            invariant
                i <= n,
                n == other.limbs@.len(),
                total@ == self@ * low(other.limbs@, i as nat),
            decreases n - i,
        {
            let x: u32 = other.limbs[i];
            let row: Big = self.times_small(x).raised(i);
            proof {
                let a = self@;
                let l = low(other.limbs@, i as nat);
                let w = weight(i as nat);
                assert(a * (l + x * w) == a * l + a * x * w) by (nonlinear_arith);
            }
            total = total.plus(&row);
            i += 1;
        }
        total
    }

    /// The number times a power of two.
    pub fn shifted(&self, k: u32) -> (r: Big)
        ensures
            r@ == self@ * power2::pow2(k as nat),
    {
        let whole: u32 = k / 32;
        let rest: u32 = k % 32;
        let mut m: u32 = 1;
        let mut i: u32 = 0;
        proof {
            power2::lemma2_to64();
        }
        while i < rest
            invariant
                i <= rest < 32,
                m == power2::pow2(i as nat),
            decreases rest - i,
        {
            proof {
                power2::lemma_pow2_adds(i as nat, 1);
                power2::lemma2_to64();
                power2::lemma_pow2_strictly_increases((i + 1) as nat, 32);
            }
            m = m * 2;
            i += 1;
        }
        let r: Big = self.times_small(m).raised(whole as usize);
        proof {
            power2::lemma_pow2_adds(rest as nat, 32 * (whole as nat));
            let a = self@;
            let p = power2::pow2(rest as nat);
            let w = weight(whole as nat);
            assert(a * p * w == a * (p * w)) by (nonlinear_arith);
        }
        r
    }

    /// Whether the number is below another.
    pub fn less(&self, other: &Big) -> (r: bool)
        ensures
            r == (self@ < other@),
    {
        let n: usize = if self.limbs.len() > other.limbs.len() {
            self.limbs.len()
        } else {
            other.limbs.len()
        };
        proof {
            lemma_low_beyond(self.limbs@, n as nat);
            lemma_low_beyond(other.limbs@, n as nat);
        }
        let mut i: usize = n;
        while i > 0
            invariant
                i <= n,
                self@ == low(self.limbs@, n as nat),
                other@ == low(other.limbs@, n as nat),
                self@ - other@ == low(self.limbs@, i as nat) - low(other.limbs@, i as nat),
            decreases i,
        {
            let a: u32 = self.at(i - 1);
            let b: u32 = other.at(i - 1);
            if a != b {
                proof {
                    lemma_low_bound(self.limbs@, (i - 1) as nat);
                    lemma_low_bound(other.limbs@, (i - 1) as nat);
                    let w = weight((i - 1) as nat);
                    if a < b {
                        assert(a * w + w <= b * w) by (nonlinear_arith)
                            requires
                                a + 1 <= b,
                        ;
                    } else {
                        assert(b * w + w <= a * w) by (nonlinear_arith)
                            requires
                                b + 1 <= a,
                        ;
                    }
                }
                return a < b;
            }
            i -= 1;
        }
        false
    }

    /// Quotient and remainder by a small divisor.
    pub fn divided(&self, d: u32) -> (r: (Big, u32))
        requires
            d > 0,
        ensures
            r.0@ == self@ / d as nat,
            r.1 == self@ % d as nat,
    {
        let n: usize = self.limbs.len();
        let mut limbs: Vec<u32> = Vec::new();
        let mut k: usize = 0;
        while k < n
            invariant
                k <= n,
                limbs@.len() == k,
                low(limbs@, k as nat) == 0,
                forall|j: int| 0 <= j < k ==> limbs@[j] == 0,
            decreases n - k,
        {
            proof {
                lemma_low_push(limbs@, 0);
                assert(0 * weight(k as nat) == 0) by (nonlinear_arith);
            }
            limbs.push(0);
            k += 1;
        }
        let mut rem: u64 = 0;
        let mut i: usize = n;
        proof {
            assert(d * 0 == 0) by (nonlinear_arith);
            assert(0 * weight(n as nat) == 0) by (nonlinear_arith);
        }
        while i > 0
            invariant
                i <= n,
                n == self.limbs@.len(),
                limbs@.len() == n,
                d > 0,
                rem < d,
                forall|j: int| 0 <= j < i ==> limbs@[j] == 0,
                self@ == d * low(limbs@, n as nat) + rem * weight(i as nat) + low(
                    self.limbs@,
                    i as nat,
                ),
            decreases i,
        {
            let x: u64 = self.limbs[i - 1] as u64;
            let t: u64 = rem * 0x1_0000_0000 + x;
            let q: u64 = t / (d as u64);
            let next: u64 = t % (d as u64);
            proof {
                vstd::arithmetic::div_mod::lemma_fundamental_div_mod(t as int, d as int);
                assert(t == q * d + next) by (nonlinear_arith)
                    requires
                        t == d * q + next,
                ;
                assert(t < d * 0x1_0000_0000);
                assert(q < 0x1_0000_0000) by (nonlinear_arith)
                    requires
                        t == q * d + next,
                        t < d * 0x1_0000_0000,
                        d > 0,
                        next >= 0,
                ;
                lemma_weight((i - 1) as nat);
                lemma_low_update(limbs@, i - 1, q as u32, n as nat);
                let w = weight((i - 1) as nat);
                let l = low(limbs@, n as nat);
                assert(d * (l + q * w) + next * w == d * l + rem * (0x1_0000_0000 * w) + x * w)
                    by (nonlinear_arith)
                    requires
                        rem * 0x1_0000_0000 + x == q * d + next,
                ;
            }
            limbs.set(i - 1, q as u32);
            rem = next;
            i -= 1;
        }
        let quotient: Big = Big { limbs };
        proof {
            lemma_weight(0);
            let q = quotient@;
            assert(rem * weight(0) == rem) by (nonlinear_arith)
                requires
                    weight(0) == 1,
            ;
            assert(self@ == d * q + rem);
            assert(self@ / d as nat == q && self@ % d as nat == rem) by {
                vstd::arithmetic::div_mod::lemma_fundamental_div_mod_converse(
                    self@ as int,
                    d as int,
                    q as int,
                    rem as int,
                );
            }
        }
        (quotient, rem as u32)
    }

    /// The integer part of the quotient by a power of two.
    pub fn halved(&self, k: u32) -> (r: Big)
        ensures
            r@ == self@ / power2::pow2(k as nat),
    {
        let mut rest: Big = self.copy();
        let mut left: u32 = k;
        proof {
            power2::lemma2_to64();
            power2::lemma_pow2_pos(k as nat);
            assert(self@ / power2::pow2(0) == self@);
        }
        while left > 0
            invariant
                left <= k,
                rest@ == self@ / power2::pow2((k - left) as nat),
            decreases left,
        {
            let step: u32 = if left >= 16 {
                16
            } else {
                1
            };
            let d: u32 = if left >= 16 {
                65536
            } else {
                2
            };
            let ghost before = rest@;
            let (q, _) = rest.divided(d);
            rest = q;
            proof {
                power2::lemma2_to64();
                power2::lemma_pow2_pos((k - left) as nat);
                power2::lemma_pow2_adds((k - left) as nat, step as nat);
                vstd::arithmetic::div_mod::lemma_div_denominator(
                    self@ as int,
                    power2::pow2((k - left) as nat) as int,
                    d as int,
                );
            }
            left -= step;
        }
        rest
    }

    /// The number, or the largest 64-bit integer where that is smaller.
    pub fn saturated(&self) -> (r: u64)
        ensures
            r == if self@ <= u64::MAX {
                self@
            } else {
                u64::MAX as nat
            },
    {
        let (q0, r0) = self.divided(65536);
        let (q1, r1) = q0.divided(65536);
        let (q2, r2) = q1.divided(65536);
        let (q3, r3) = q2.divided(65536);
        if q3.is_zero() {
            r0 as u64 + 65536 * (r1 as u64 + 65536 * (r2 as u64 + 65536 * (r3 as u64)))
        } else {
            u64::MAX
        }
    }

    /// Whether the number is odd.
    pub fn is_odd(&self) -> (r: bool)
        ensures
            r == (self@ % 2 == 1),
    {
        let (_, d) = self.divided(2);
        d == 1
    }

    /// Whether the number is zero.
    pub fn is_zero(&self) -> (r: bool)
        ensures
            r == (self@ == 0),
    {
        !Big::from_u64(0).less(self)
    }

    /// The decimal digits of the number.
    pub fn decimal_text(&self) -> (r: String)
        ensures
            r@ == digits::decimal(self@),
        decreases self@,
    {
        let (q, d) = self.divided(10);
        if q.is_zero() {
            let r = digits::decimal_text(d as u64);
            r
        } else {
            let mut r: String = q.decimal_text();
            let last = digits::decimal_text(d as u64);
            r.append(last.as_str());
            assert(r@ == digits::decimal(self@));
            r
        }
    }
}

proof fn lemma_low_update(s: Seq<u32>, i: int, x: u32, n: nat)
    requires
        0 <= i < s.len(),
        s[i] == 0,
    ensures
        low(s.update(i, x), n) == low(s, n) + if i < n {
            x * weight(i as nat)
        } else {
            0
        },
    decreases n,
{
    if n > 0 {
        lemma_low_update(s, i, x, (n - 1) as nat);
        if n - 1 == i {
            assert(0 * weight(i as nat) == 0) by (nonlinear_arith);
        }
    }
}

} // verus!
