//! Binary floating-point values as bit patterns, with correctly rounded
//! arithmetic, decimal input and fixed-point output.
//!
//! A value is carried by its interchange encoding. Every finite value is a
//! whole number of the format's smallest steps, so each operation is exact in
//! the natural numbers up to one final rounding.

use vstd::arithmetic::power2;
use vstd::prelude::*;

use crate::big::Big;
use crate::digits;
use crate::text;

verus! {

// ---------------------------------------------------------------------------
// Formats and their values
// ---------------------------------------------------------------------------

/// A binary interchange format.
pub struct Format {
    /// The number of fractions that share an exponent.
    pub half: u64,
    /// The magnitude that encodes infinity.
    pub inf: u64,
    /// The smallest step is two to the power of minus `unit`.
    pub unit: u32,
}

/// The format of 64 bits.
pub open spec fn double() -> Format {
    Format { half: 0x10_0000_0000_0000, inf: 0x7ff0_0000_0000_0000, unit: 1074 }
}

/// The format of 32 bits.
pub open spec fn single() -> Format {
    Format { half: 0x80_0000, inf: 0x7f80_0000, unit: 149 }
}

impl Format {
    /// One of the two formats.
    pub open spec fn known(self) -> bool {
        self == double() || self == single()
    }
}

/// The value of an encoded magnitude, in smallest steps.
pub open spec fn steps(f: Format, mag: nat) -> nat {
    let e = mag / f.half as nat;
    let fraction = mag % f.half as nat;
    if e == 0 {
        fraction
    } else {
        (f.half + fraction) as nat * power2::pow2((e - 1) as nat)
    }
}

/// Whether `num / den` steps lie past the middle between a magnitude and the
/// next. The middle itself counts as past an odd magnitude.
pub open spec fn past(f: Format, num: nat, den: nat, mag: nat) -> bool {
    let middle = (steps(f, mag) + steps(f, mag + 1)) * den;
    2 * num > middle || (2 * num == middle && mag % 2 == 1)
}

/// Whether a magnitude is the one nearest to `num / den` steps, an even one
/// where two are equally near.
pub open spec fn rounds_to(f: Format, num: nat, den: nat, mag: nat) -> bool {
    &&& mag <= f.inf
    &&& mag < f.inf ==> !past(f, num, den, mag)
    &&& mag > 0 ==> past(f, num, den, (mag - 1) as nat)
}

/// The magnitude nearest to `num / den` steps.
pub open spec fn nearest(f: Format, num: nat, den: nat) -> nat {
    choose|mag: nat| rounds_to(f, num, den, mag)
}

proof fn lemma_steps_next(f: Format, mag: nat)
    requires
        f.known(),
    ensures
        steps(f, mag) < steps(f, mag + 1),
{
    let h = f.half as nat;
    let e = mag / h;
    let fraction = mag % h;
    if fraction + 1 < h {
        assert((mag + 1) / h == e && (mag + 1) % h == fraction + 1) by {
            vstd::arithmetic::div_mod::lemma_fundamental_div_mod(mag as int, h as int);
            assert(h * e == e * h) by (nonlinear_arith);
            vstd::arithmetic::div_mod::lemma_fundamental_div_mod_converse(
                (mag + 1) as int,
                h as int,
                e as int,
                (fraction + 1) as int,
            );
        }
        if e > 0 {
            let p = power2::pow2((e - 1) as nat);
            power2::lemma_pow2_pos((e - 1) as nat);
            assert((h + fraction) * p < (h + fraction + 1) * p) by (nonlinear_arith)
                requires
                    p > 0,
            ;
        }
    } else {
        assert((mag + 1) / h == e + 1 && (mag + 1) % h == 0) by {
            vstd::arithmetic::div_mod::lemma_fundamental_div_mod(mag as int, h as int);
            assert(h * e + h == (e + 1) * h) by (nonlinear_arith);
            assert(mag + 1 == (e + 1) * h + 0);
            vstd::arithmetic::div_mod::lemma_fundamental_div_mod_converse(
                (mag + 1) as int,
                h as int,
                (e + 1) as int,
                0,
            );
        }
        power2::lemma2_to64();
        power2::lemma_pow2_pos(e);
        if e > 0 {
            let p = power2::pow2((e - 1) as nat);
            power2::lemma_pow2_pos((e - 1) as nat);
            power2::lemma_pow2_adds((e - 1) as nat, 1);
            assert((h + fraction) * p < (h + 0) * (p * 2)) by (nonlinear_arith)
                requires
                    p > 0,
                    fraction == h - 1,
            ;
        } else {
            assert((h + 0) * power2::pow2(0) == h) by (nonlinear_arith)
                requires
                    power2::pow2(0) == 1,
            ;
        }
    }
}

/// A larger magnitude encodes a larger value.
pub proof fn lemma_steps_grow(f: Format, a: nat, b: nat)
    requires
        f.known(),
        a < b,
    ensures
        steps(f, a) < steps(f, b),
    decreases b,
{
    lemma_steps_next(f, (b - 1) as nat);
    if a < b - 1 {
        lemma_steps_grow(f, a, (b - 1) as nat);
    }
}

proof fn lemma_past_down(f: Format, num: nat, den: nat, a: nat, b: nat)
    requires
        f.known(),
        den > 0,
        a <= b,
        past(f, num, den, b),
    ensures
        past(f, num, den, a),
{
    if a < b {
        lemma_steps_grow(f, a, b);
        lemma_steps_grow(f, a + 1, b + 1);
        let low = steps(f, a) + steps(f, a + 1);
        let high = steps(f, b) + steps(f, b + 1);
        assert(low * den < high * den) by (nonlinear_arith)
            requires
                low < high,
                den > 0,
        ;
    }
}

/// A quotient rounds to one magnitude only.
pub proof fn lemma_nearest(f: Format, num: nat, den: nat, mag: nat)
    requires
        f.known(),
        den > 0,
        rounds_to(f, num, den, mag),
    ensures
        nearest(f, num, den) == mag,
{
    let other = nearest(f, num, den);
    assert(rounds_to(f, num, den, other));
    if other < mag {
        lemma_past_down(f, num, den, other, (mag - 1) as nat);
    } else if mag < other {
        lemma_past_down(f, num, den, mag, (other - 1) as nat);
    }
}

proof fn lemma_rounds(f: Format, num: nat, den: nat, mag: nat)
    requires
        mag <= f.inf,
        mag > 0 ==> past(f, num, den, (mag - 1) as nat),
    ensures
        exists|other: nat| rounds_to(f, num, den, other),
    decreases f.inf - mag,
{
    if mag == f.inf || !past(f, num, den, mag) {
        assert(rounds_to(f, num, den, mag));
    } else {
        lemma_rounds(f, num, den, mag + 1);
    }
}

/// Every quotient has a nearest magnitude.
pub proof fn lemma_nearest_exists(f: Format, num: nat, den: nat)
    ensures
        rounds_to(f, num, den, nearest(f, num, den)),
{
    lemma_rounds(f, num, den, 0);
}

proof fn lemma_steps_step(f: Format, mag: nat)
    requires
        f.known(),
        mag >= f.half,
    ensures
        1000 * (steps(f, mag) - steps(f, (mag - 1) as nat)) <= steps(f, mag),
        f.half * (steps(f, mag) - steps(f, (mag - 1) as nat)) <= steps(f, mag),
{
    let h = f.half as nat;
    let e = mag / h;
    let fraction = mag % h;
    assert(e >= 1) by {
        vstd::arithmetic::div_mod::lemma_fundamental_div_mod(mag as int, h as int);
        assert(e == 0 ==> h * e == 0) by (nonlinear_arith);
    }
    let p = power2::pow2((e - 1) as nat);
    power2::lemma_pow2_pos((e - 1) as nat);
    vstd::arithmetic::div_mod::lemma_fundamental_div_mod(mag as int, h as int);
    assert(h * e == e * h) by (nonlinear_arith);
    let before = steps(f, (mag - 1) as nat);
    assert(steps(f, mag) == (h + fraction) * p);
    if fraction > 0 {
        vstd::arithmetic::div_mod::lemma_fundamental_div_mod_converse(
            mag - 1,
            h as int,
            e as int,
            fraction - 1,
        );
        assert(before == (h + (fraction - 1)) * p);
        assert((h + fraction) * p - (h + (fraction - 1)) * p == p) by (nonlinear_arith);
    } else {
        assert(mag - 1 == (e - 1) * h + (h - 1)) by (nonlinear_arith)
            requires
                mag == e * h,
        ;
        vstd::arithmetic::div_mod::lemma_fundamental_div_mod_converse(
            mag - 1,
            h as int,
            e - 1,
            h - 1,
        );
        if e == 1 {
            power2::lemma2_to64();
            assert(before == h - 1);
            assert((h + 0) * p == h) by (nonlinear_arith)
                requires
                    p == 1,
            ;
        } else {
            let q = power2::pow2((e - 2) as nat);
            power2::lemma2_to64();
            power2::lemma_pow2_adds((e - 2) as nat, 1);
            assert(before == (h + (h - 1)) * q);
            assert((h + 0) * p - (h + (h - 1)) * q <= p) by (nonlinear_arith)
                requires
                    p == q * 2,
                    q >= 0,
            ;
        }
    }
    assert(1000 * p <= (h + fraction) * p) by (nonlinear_arith)
        requires
            h >= 1000,
            fraction >= 0,
            p >= 0,
    ;
    let step = steps(f, mag) - before;
    assert(step <= p);
    assert(h * step <= (h + fraction) * p) by (nonlinear_arith)
        requires
            step <= p,
            h >= 0,
            fraction >= 0,
            p >= 0,
    ;
}

/// A quotient whose nearest magnitude is not among the least rounds up by less
/// than a thousandth of itself.
pub proof fn lemma_nearest_close(f: Format, num: nat, den: nat)
    requires
        f.known(),
        den > 0,
        nearest(f, num, den) >= f.half,
    ensures
        1999 * (steps(f, nearest(f, num, den)) * den) <= 2000 * num,
{
    lemma_nearest_exists(f, num, den);
    let mag = nearest(f, num, den);
    let high = steps(f, mag);
    let low = steps(f, (mag - 1) as nat);
    lemma_steps_step(f, mag);
    assert(2 * num >= (low + high) * den);
    assert(1999 * (high * den) <= 2000 * num) by (nonlinear_arith)
        requires
            2 * num >= (low + high) * den,
            1000 * (high - low) <= high,
            den > 0,
    ;
}

pub(crate) fn steps_of(f: &Format, mag: u64) -> (r: Big)
    requires
        f.known(),
        mag <= f.inf + 1,
    ensures
        r@ == steps(*f, mag as nat),
{
    let e: u64 = mag / f.half;
    let fraction: u64 = mag % f.half;
    if e == 0 {
        Big::from_u64(fraction)
    } else {
        Big::from_u64(f.half + fraction).shifted((e - 1) as u32)
    }
}

fn lies_past(f: &Format, num: &Big, den: &Big, mag: u64) -> (r: bool)
    requires
        f.known(),
        mag < f.inf,
    ensures
        r == past(*f, num@, den@, mag as nat),
{
    let middle: Big = steps_of(f, mag).plus(&steps_of(f, mag + 1)).times(den);
    let twice: Big = num.times_small(2);
    if middle.less(&twice) {
        true
    } else if twice.less(&middle) {
        false
    } else {
        mag % 2 == 1
    }
}

/// The magnitude nearest to `num / den` smallest steps.
pub fn round(f: &Format, num: &Big, den: &Big) -> (r: u64)
    requires
        f.known(),
        den@ > 0,
    ensures
        r == nearest(*f, num@, den@),
        rounds_to(*f, num@, den@, r as nat),
{
    let mut from: u64 = 0;
    let mut to: u64 = f.inf;
    while from < to
        invariant
            f.known(),
            from <= to <= f.inf,
            to < f.inf ==> !past(*f, num@, den@, to as nat),
            from > 0 ==> past(*f, num@, den@, (from - 1) as nat),
        decreases to - from,
    {
        let middle: u64 = from + (to - from) / 2;
        if lies_past(f, num, den, middle) {
            from = middle + 1;
        } else {
            to = middle;
        }
    }
    proof {
        lemma_nearest(*f, num@, den@, from as nat);
    }
    from
}

// ---------------------------------------------------------------------------
// Values of 64 bits
// ---------------------------------------------------------------------------

/// A number of 64 bits in the binary interchange encoding.
#[derive(Clone, Copy, Debug)]
pub struct Binary64 {
    pub bits: u64,
}

/// The value with a sign and a magnitude.
pub open spec fn signed(negative: bool, mag: nat) -> Binary64 {
    Binary64 {
        bits: (mag + if negative {
            0x8000_0000_0000_0000int
        } else {
            0
        }) as u64,
    }
}

/// The result of an operation that has no value.
pub open spec fn nan() -> Binary64 {
    Binary64 { bits: 0x7ff8_0000_0000_0000 }
}

/// Positive zero.
pub open spec fn zero() -> Binary64 {
    Binary64 { bits: 0 }
}

/// The value nearest to `num / den` smallest steps.
pub open spec fn rounded(negative: bool, num: nat, den: nat) -> Binary64 {
    signed(negative, nearest(double(), num, den))
}

/// The value of a natural number.
pub open spec fn natural(n: nat) -> Binary64 {
    rounded(false, n * power2::pow2(1074), 1)
}

proof fn lemma_one_steps()
    ensures
        steps(double(), 0x3ff0_0000_0000_0000) == power2::pow2(1074),
{
    let f = double();
    let m: nat = 0x3ff0_0000_0000_0000;
    let p = power2::pow2(1074);
    power2::lemma_pow2_adds(1022, 52);
    power2::lemma2_to64_rest();
    assert(m / f.half as nat == 1023);
    assert(m % f.half as nat == 0);
    let q = power2::pow2(1022);
    assert(steps(f, m) == p) by {
        assert((f.half + 0) as nat * q == q * 0x10_0000_0000_0000) by (nonlinear_arith)
            requires
                f.half == 0x10_0000_0000_0000,
        ;
    }
}

/// One is a value of the format of 64 bits.
pub proof fn lemma_natural_one()
    ensures
        natural(1) == (Binary64 { bits: 0x3ff0_0000_0000_0000 }),
{
    let f = double();
    let m: nat = 0x3ff0_0000_0000_0000;
    let p = power2::pow2(1074);
    lemma_one_steps();
    lemma_steps_next(f, m);
    lemma_steps_next(f, (m - 1) as nat);
    assert(1 * p == p);
    assert(rounds_to(f, p, 1, m));
    lemma_nearest(f, p, 1, m);
}

impl Binary64 {
    pub open spec fn is_negative(self) -> bool {
        self.bits >= 0x8000_0000_0000_0000
    }

    pub open spec fn magnitude(self) -> nat {
        (self.bits % 0x8000_0000_0000_0000) as nat
    }

    pub open spec fn finite(self) -> bool {
        self.magnitude() < double().inf
    }

    pub open spec fn is_nan(self) -> bool {
        self.magnitude() > double().inf
    }

    pub open spec fn infinite(self) -> bool {
        self.magnitude() == double().inf
    }

    /// The absolute value in smallest steps. Infinity stands just above the
    /// largest finite value.
    pub open spec fn size(self) -> nat {
        steps(double(), self.magnitude())
    }

    /// The value in smallest steps.
    pub open spec fn units(self) -> int {
        if self.is_negative() {
            -(self.size() as int)
        } else {
            self.size() as int
        }
    }

    /// Whether the value is below another. Nothing is below or above a value
    /// that is not a number.
    pub open spec fn lt(self, other: Binary64) -> bool {
        !self.is_nan() && !other.is_nan() && self.units() < other.units()
    }

    pub open spec fn le(self, other: Binary64) -> bool {
        !self.is_nan() && !other.is_nan() && self.units() <= other.units()
    }

    /// The place of the value in the total order of all encodings.
    pub open spec fn rank(self) -> int {
        if self.is_negative() {
            -1 - self.magnitude()
        } else {
            self.magnitude() as int
        }
    }

    /// The larger value; the one that is a number where only one is. Of equal
    /// values it is the second.
    pub open spec fn upper(self, other: Binary64) -> Binary64 {
        if other.is_nan() || other.lt(self) {
            self
        } else {
            other
        }
    }

    /// The smaller value; the one that is a number where only one is. Of equal
    /// values it is the second.
    pub open spec fn lower(self, other: Binary64) -> Binary64 {
        if other.is_nan() || self.lt(other) {
            self
        } else {
            other
        }
    }

    /// The value held between two bounds.
    pub open spec fn held(self, low: Binary64, high: Binary64) -> Binary64 {
        if self.lt(low) {
            low
        } else if high.lt(self) {
            high
        } else {
            self
        }
    }

    pub open spec fn negated(self) -> Binary64 {
        signed(!self.is_negative(), self.magnitude())
    }

    pub open spec fn absolute(self) -> Binary64 {
        signed(false, self.magnitude())
    }

    /// The correctly rounded sum.
    pub open spec fn sum(self, other: Binary64) -> Binary64 {
        let total = self.units() + other.units();
        if self.is_nan() || other.is_nan() {
            nan()
        } else if self.infinite() && other.infinite() && self.is_negative() != other.is_negative() {
            nan()
        } else if self.infinite() {
            self
        } else if other.infinite() {
            other
        } else if total == 0 {
            signed(self.is_negative() && other.is_negative(), 0)
        } else if total < 0 {
            rounded(true, (-total) as nat, 1)
        } else {
            rounded(false, total as nat, 1)
        }
    }

    /// The correctly rounded difference.
    pub open spec fn difference(self, other: Binary64) -> Binary64 {
        self.sum(other.negated())
    }

    /// The correctly rounded product.
    pub open spec fn product(self, other: Binary64) -> Binary64 {
        let negative = self.is_negative() != other.is_negative();
        if self.is_nan() || other.is_nan() {
            nan()
        } else if (self.infinite() && other.size() == 0) || (other.infinite() && self.size() == 0) {
            nan()
        } else if self.infinite() || other.infinite() {
            signed(negative, double().inf as nat)
        } else {
            rounded(negative, self.size() * other.size(), power2::pow2(1074))
        }
    }

    /// The correctly rounded quotient.
    pub open spec fn quotient(self, other: Binary64) -> Binary64 {
        let negative = self.is_negative() != other.is_negative();
        if self.is_nan() || other.is_nan() {
            nan()
        } else if (self.infinite() && other.infinite()) || (self.size() == 0 && other.size() == 0) {
            nan()
        } else if self.infinite() || other.size() == 0 {
            signed(negative, double().inf as nat)
        } else if other.infinite() {
            signed(negative, 0)
        } else {
            rounded(negative, self.size() * power2::pow2(1074), other.size())
        }
    }

    /// The nearest integer, a half rounded away from zero, held between zero
    /// and the largest integer of 64 bits. What is not a number gives zero.
    pub open spec fn whole(self) -> nat {
        let n = (2 * self.size() + power2::pow2(1074)) / power2::pow2(1075);
        if self.is_nan() || self.is_negative() {
            0
        } else if n > u64::MAX {
            u64::MAX as nat
        } else {
            n
        }
    }

    /// The nearest multiple of a thousandth, in thousandths; an even one where
    /// two are equally near.
    pub open spec fn thousandths(self) -> nat {
        even_quotient(self.size() * 1000, power2::pow2(1074))
    }

    /// The decimal text with three digits behind the point.
    pub open spec fn fixed(self) -> Seq<char> {
        if self.is_nan() {
            "NaN"@
        } else if self.infinite() {
            if self.is_negative() {
                "-inf"@
            } else {
                "inf"@
            }
        } else {
            (if self.is_negative() {
                "-"@
            } else {
                ""@
            }) + thousandths_text(self.thousandths())
        }
    }
}

/// The quotient rounded to the nearest integer, an even one where two are
/// equally near.
pub open spec fn even_quotient(num: nat, den: nat) -> nat {
    let q = num / den;
    let r = num % den;
    if 2 * r > den || (2 * r == den && q % 2 == 1) {
        q + 1
    } else {
        q
    }
}

/// A number of thousandths, in units with three digits behind the point.
pub open spec fn thousandths_text(n: nat) -> Seq<char> {
    digits::decimal(n / 1000) + "."@ + digits::padded(digits::decimal(n % 1000), 3)
}

fn double_format() -> (r: Format)
    ensures
        r == double(),
{
    Format { half: 0x10_0000_0000_0000, inf: 0x7ff0_0000_0000_0000, unit: 1074 }
}

pub(crate) proof fn lemma_size_zero(mag: nat)
    ensures
        steps(double(), 0) == 0,
        mag > 0 ==> steps(double(), mag) > 0,
{
    assert(0nat / double().half as nat == 0);
    if mag > 0 {
        lemma_steps_grow(double(), 0, mag);
    }
}

fn encoded(negative: bool, mag: u64) -> (r: Binary64)
    requires
        mag < 0x8000_0000_0000_0000,
    ensures
        r == signed(negative, mag as nat),
        r.is_negative() == negative,
        r.magnitude() == mag,
{
    if negative {
        Binary64 { bits: mag + 0x8000_0000_0000_0000 }
    } else {
        Binary64 { bits: mag }
    }
}

impl Binary64 {
    fn negative(self) -> (r: bool)
        ensures
            r == self.is_negative(),
    {
        self.bits >= 0x8000_0000_0000_0000
    }

    fn mag(self) -> (r: u64)
        ensures
            r == self.magnitude(),
            r < 0x8000_0000_0000_0000,
    {
        self.bits % 0x8000_0000_0000_0000
    }

    /// Whether the value is neither infinite nor other than a number.
    pub fn is_finite(self) -> (r: bool)
        ensures
            r == self.finite(),
    {
        self.mag() < 0x7ff0_0000_0000_0000
    }

    fn not_a_number(self) -> (r: bool)
        ensures
            r == self.is_nan(),
    {
        self.mag() > 0x7ff0_0000_0000_0000
    }

    fn is_infinite(self) -> (r: bool)
        ensures
            r == self.infinite(),
    {
        self.mag() == 0x7ff0_0000_0000_0000
    }

    /// Whether the value is below another.
    pub fn less(self, other: Binary64) -> (r: bool)
        ensures
            r == self.lt(other),
    {
        proof {
            lemma_size_zero(self.magnitude());
            lemma_size_zero(other.magnitude());
            if self.magnitude() < other.magnitude() {
                lemma_steps_grow(double(), self.magnitude(), other.magnitude());
            }
            if other.magnitude() < self.magnitude() {
                lemma_steps_grow(double(), other.magnitude(), self.magnitude());
            }
        }
        if self.not_a_number() || other.not_a_number() {
            false
        } else if self.negative() {
            if other.negative() {
                other.mag() < self.mag()
            } else {
                self.mag() > 0 || other.mag() > 0
            }
        } else if other.negative() {
            false
        } else {
            self.mag() < other.mag()
        }
    }

    /// Whether the value is at most another.
    pub fn at_most(self, other: Binary64) -> (r: bool)
        ensures
            r == self.le(other),
    {
        !self.not_a_number() && !other.not_a_number() && !other.less(self)
    }

    /// Whether the value stands before another in the total order.
    pub fn ranks_before(self, other: Binary64) -> (r: bool)
        ensures
            r == (self.rank() < other.rank()),
    {
        if self.negative() {
            if other.negative() {
                other.mag() < self.mag()
            } else {
                true
            }
        } else if other.negative() {
            false
        } else {
            self.mag() < other.mag()
        }
    }

    /// The larger of two values.
    pub fn max(self, other: Binary64) -> (r: Binary64)
        ensures
            r == self.upper(other),
    {
        if other.not_a_number() || other.less(self) {
            self
        } else {
            other
        }
    }

    /// The smaller of two values.
    pub fn min(self, other: Binary64) -> (r: Binary64)
        ensures
            r == self.lower(other),
    {
        if other.not_a_number() || self.less(other) {
            self
        } else {
            other
        }
    }

    /// Holds a value between two bounds.
    pub fn clamp(self, low: Binary64, high: Binary64) -> (r: Binary64)
        requires
            low.le(high),
        ensures
            r == self.held(low, high),
    {
        if self.less(low) {
            low
        } else if high.less(self) {
            high
        } else {
            self
        }
    }

    fn size_of(self) -> (r: Big)
        requires
            !self.is_nan(),
        ensures
            r@ == self.size(),
    {
        steps_of(&double_format(), self.mag())
    }

    /// The value nearest to a quotient of smallest steps.
    fn from_steps(negative: bool, num: &Big, den: &Big) -> (r: Binary64)
        requires
            den@ > 0,
        ensures
            r == rounded(negative, num@, den@),
    {
        encoded(negative, round(&double_format(), num, den))
    }

    /// The value of an integer.
    pub fn from_u64(n: u64) -> (r: Binary64)
        ensures
            r == natural(n as nat),
    {
        Binary64::from_steps(false, &Big::from_u64(n).shifted(1074), &Big::from_u64(1))
    }

    /// The sum of two values.
    pub fn add(self, other: Binary64) -> (r: Binary64)
        ensures
            r == self.sum(other),
    {
        if self.not_a_number() || other.not_a_number() {
            return Binary64 { bits: 0x7ff8_0000_0000_0000 };
        }
        if self.is_infinite() {
            if other.is_infinite() && self.negative() != other.negative() {
                return Binary64 { bits: 0x7ff8_0000_0000_0000 };
            }
            return self;
        }
        if other.is_infinite() {
            return other;
        }
        let a: Big = self.size_of();
        let b: Big = other.size_of();
        let one: Big = Big::from_u64(1);
        if self.negative() == other.negative() {
            let total: Big = a.plus(&b);
            if total.is_zero() {
                encoded(self.negative(), 0)
            } else {
                Binary64::from_steps(self.negative(), &total, &one)
            }
        } else if a.less(&b) {
            Binary64::from_steps(other.negative(), &b.minus(&a), &one)
        } else if b.less(&a) {
            Binary64::from_steps(self.negative(), &a.minus(&b), &one)
        } else {
            encoded(false, 0)
        }
    }

    /// The difference of two values.
    pub fn sub(self, other: Binary64) -> (r: Binary64)
        ensures
            r == self.difference(other),
    {
        self.add(encoded(!other.negative(), other.mag()))
    }

    /// The absolute value.
    pub fn abs(self) -> (r: Binary64)
        ensures
            r == self.absolute(),
    {
        encoded(false, self.mag())
    }

    /// The product of two values.
    pub fn mul(self, other: Binary64) -> (r: Binary64)
        ensures
            r == self.product(other),
    {
        if self.not_a_number() || other.not_a_number() {
            return Binary64 { bits: 0x7ff8_0000_0000_0000 };
        }
        proof {
            lemma_size_zero(self.magnitude());
            lemma_size_zero(other.magnitude());
            power2::lemma_pow2_pos(1074);
        }
        let negative: bool = self.negative() != other.negative();
        if self.is_infinite() || other.is_infinite() {
            if self.mag() == 0 || other.mag() == 0 {
                return Binary64 { bits: 0x7ff8_0000_0000_0000 };
            }
            return encoded(negative, 0x7ff0_0000_0000_0000);
        }
        let num: Big = self.size_of().times(&other.size_of());
        Binary64::from_steps(negative, &num, &Big::from_u64(1).shifted(1074))
    }

    /// The quotient of two values.
    pub fn div(self, other: Binary64) -> (r: Binary64)
        ensures
            r == self.quotient(other),
    {
        if self.not_a_number() || other.not_a_number() {
            return Binary64 { bits: 0x7ff8_0000_0000_0000 };
        }
        proof {
            lemma_size_zero(self.magnitude());
            lemma_size_zero(other.magnitude());
        }
        let negative: bool = self.negative() != other.negative();
        if self.is_infinite() {
            if other.is_infinite() {
                return Binary64 { bits: 0x7ff8_0000_0000_0000 };
            }
            return encoded(negative, 0x7ff0_0000_0000_0000);
        }
        if other.mag() == 0 {
            if self.mag() == 0 {
                return Binary64 { bits: 0x7ff8_0000_0000_0000 };
            }
            return encoded(negative, 0x7ff0_0000_0000_0000);
        }
        if other.is_infinite() {
            return encoded(negative, 0);
        }
        Binary64::from_steps(negative, &self.size_of().shifted(1074), &other.size_of())
    }

    /// Rounds to an integer, a half away from zero.
    pub fn round_u64(self) -> (r: u64)
        ensures
            r == self.whole(),
    {
        if self.not_a_number() || self.negative() {
            return 0;
        }
        let num: Big = self.size_of().times_small(2).plus(&Big::from_u64(1).shifted(1074));
        num.halved(1075).saturated()
    }

    /// The decimal text with three digits behind the point.
    pub fn fixed_text(self) -> (r: String)
        ensures
            r@ == self.fixed(),
    {
        if self.not_a_number() {
            return "NaN".to_owned();
        }
        if self.is_infinite() {
            if self.negative() {
                return "-inf".to_owned();
            }
            return "inf".to_owned();
        }
        let num: Big = self.size_of().times_small(1000);
        let n: Big = rounded_even(&num, 1074);
        let mut out: String = if self.negative() {
            "-".to_owned()
        } else {
            "".to_owned()
        };
        let body = thousandths_of(&n);
        out.append(body.as_str());
        out
    }
}

pub(crate) fn thousandths_of(n: &Big) -> (r: String)
    ensures
        r@ == thousandths_text(n@),
{
    let (q, rest) = n.divided(1000);
    let mut body: String = q.decimal_text();
    body.append(".");
    body.append(digits::padded_decimal(rest as u64, 3).as_str());
    body
}

pub(crate) fn rounded_even(num: &Big, unit: u32) -> (r: Big)
    ensures
        r@ == even_quotient(num@, power2::pow2(unit as nat)),
{
    let q: Big = num.halved(unit);
    let one: Big = Big::from_u64(1);
    let middle: Big = q.times_small(2).plus(&one).shifted(unit);
    let twice: Big = num.times_small(2);
    proof {
        let den = power2::pow2(unit as nat);
        power2::lemma_pow2_pos(unit as nat);
        vstd::arithmetic::div_mod::lemma_fundamental_div_mod(num@ as int, den as int);
        let k = q@;
        assert((k * 2 + 1) * den == 2 * (den * k) + den) by (nonlinear_arith);
    }
    if middle.less(&twice) {
        q.plus(&one)
    } else if twice.less(&middle) {
        q
    } else if q.is_odd() {
        q.plus(&one)
    } else {
        q
    }
}

// ---------------------------------------------------------------------------
// Decimal input
// ---------------------------------------------------------------------------

/// Ten to the power of `k`.
pub open spec fn ten(k: nat) -> nat
    decreases k,
{
    if k == 0 {
        1
    } else {
        10 * ten((k - 1) as nat)
    }
}

/// The magnitude nearest to `n` times ten to the power of `t`.
pub open spec fn scaled(f: Format, n: nat, t: int) -> nat {
    if t >= 0 {
        nearest(f, n * ten(t as nat) * power2::pow2(f.unit as nat), 1)
    } else {
        nearest(f, n * power2::pow2(f.unit as nat), ten((-t) as nat))
    }
}

/// The exponent that a text writes: decimal digits, which a sign may precede.
pub open spec fn exponent(s: Seq<char>) -> Option<int> {
    let body = if s.len() > 0 && (s[0] == '+' || s[0] == '-') {
        s.skip(1)
    } else {
        s
    };
    if body.len() > 0 && digits::all_digits(body) {
        Some(
            if s[0] == '-' {
                -(digits::value(body) as int)
            } else {
                digits::value(body) as int
            },
        )
    } else {
        None
    }
}

/// The magnitude that an unsigned decimal number writes, given its digits
/// before and behind the point and its exponent.
pub open spec fn decimal_magnitude(f: Format, before: Seq<char>, behind: Seq<char>, e: int) -> Option<
    nat,
> {
    if before.len() + behind.len() > 0 && digits::all_digits(before) && digits::all_digits(behind) {
        Some(scaled(f, digits::value(before + behind), e - behind.len()))
    } else {
        None
    }
}

/// The magnitude that an unsigned number writes: digits with at most one
/// point, which `e` and an exponent may follow, or the name of infinity or of
/// what is not a number. Letters are in lower case.
pub open spec fn plain_magnitude(f: Format, s: Seq<char>) -> Option<nat> {
    if s == "inf"@ || s == "infinity"@ {
        Some(f.inf as nat)
    } else if s == "nan"@ {
        Some((f.inf + f.half / 2) as nat)
    } else {
        let (body, e) = match text::cut(s, "e"@) {
            Some((body, tail)) => (body, exponent(tail)),
            None => (s, Some(0int)),
        };
        let (before, behind) = match text::cut(body, "."@) {
            Some((before, behind)) => (before, behind),
            None => (body, Seq::<char>::empty()),
        };
        match e {
            Some(e) => decimal_magnitude(f, before, behind, e),
            None => None,
        }
    }
}

/// The sign and the magnitude that a number writes, in any case of letters.
pub open spec fn reading(f: Format, s: Seq<char>) -> Option<(bool, nat)> {
    let negative = s.len() > 0 && s[0] == '-';
    let body = if s.len() > 0 && (s[0] == '+' || s[0] == '-') {
        s.skip(1)
    } else {
        s
    };
    match plain_magnitude(f, text::lower(body)) {
        Some(mag) => Some((negative, mag)),
        None => None,
    }
}

proof fn lemma_ten(k: nat)
    ensures
        ten(k) >= power2::pow2(3 * k),
        ten(k) > 0,
    decreases k,
{
    power2::lemma2_to64();
    if k > 0 {
        lemma_ten((k - 1) as nat);
        power2::lemma_pow2_adds(3 * ((k - 1) as nat), 3);
        assert(3 * ((k - 1) as nat) + 3 == 3 * k);
    }
}

proof fn lemma_ten_adds(a: nat, b: nat)
    ensures
        ten(a + b) == ten(a) * ten(b),
    decreases a,
{
    if a > 0 {
        lemma_ten_adds((a - 1) as nat, b);
        let x = ten((a - 1) as nat);
        let y = ten(b);
        assert(10 * (x * y) == (10 * x) * y) by (nonlinear_arith);
    } else {
        assert(1 * ten(b) == ten(b)) by (nonlinear_arith);
    }
}

proof fn lemma_value_bound(s: Seq<char>)
    requires
        digits::all_digits(s),
    ensures
        digits::value(s) < ten(s.len()),
    decreases s.len(),
{
    if s.len() > 0 {
        assert(text::is_digit(s.last()));
        assert forall|i: int| 0 <= i < s.drop_last().len() implies text::is_digit(
            #[trigger] s.drop_last()[i],
        ) by {
            assert(s.drop_last()[i] == s[i]);
        }
        lemma_value_bound(s.drop_last());
    }
}

/// The top of a format in smallest steps.
proof fn lemma_top(f: Format)
    requires
        f.known(),
    ensures
        steps(f, f.inf as nat) < power2::pow2(1100 + f.unit as nat),
{
    power2::lemma2_to64();
    power2::lemma2_to64_rest();
    if f == double() {
        assert(f.inf as nat / f.half as nat == 2047);
        assert(f.inf as nat % f.half as nat == 0);
        power2::lemma_pow2_adds(52, 2046);
        power2::lemma_pow2_strictly_increases(2098, 2174);
    } else {
        assert(f.inf as nat / f.half as nat == 255);
        assert(f.inf as nat % f.half as nat == 0);
        power2::lemma_pow2_adds(23, 254);
        power2::lemma_pow2_strictly_increases(277, 1249);
    }
}

proof fn lemma_too_large(f: Format, n: nat, t: nat)
    requires
        f.known(),
        n > 0,
        t >= 400,
    ensures
        nearest(f, n * ten(t) * power2::pow2(f.unit as nat), 1) == f.inf,
{
    let u = power2::pow2(f.unit as nat);
    let num = n * ten(t) * u;
    lemma_ten(t);
    if t > 400 {
        power2::lemma_pow2_strictly_increases(1200, 3 * t);
    }
    power2::lemma_pow2_adds(1100, f.unit as nat);
    power2::lemma_pow2_strictly_increases(1100, 1200);
    power2::lemma_pow2_pos(f.unit as nat);
    let big = power2::pow2(1100);
    assert(num >= big * u) by (nonlinear_arith)
        requires
            num == n * ten(t) * u,
            n >= 1,
            ten(t) >= big,
            u >= 0,
    ;
    lemma_top(f);
    lemma_steps_next(f, (f.inf - 1) as nat);
    let middle = steps(f, (f.inf - 1) as nat) + steps(f, f.inf as nat);
    assert(middle * 1 == middle);
    assert(rounds_to(f, num, 1, f.inf as nat));
    lemma_nearest(f, num, 1, f.inf as nat);
}

/// The least magnitudes encode themselves.
pub(crate) proof fn lemma_first_steps(f: Format)
    requires
        f.known(),
    ensures
        steps(f, 0) == 0,
        steps(f, 1) == 1,
{
    let h = f.half as int;
    vstd::arithmetic::div_mod::lemma_fundamental_div_mod_converse(0, h, 0, 0);
    vstd::arithmetic::div_mod::lemma_fundamental_div_mod_converse(1, h, 0, 1);
}

proof fn lemma_too_small(f: Format, n: nat, m: nat, k: nat)
    requires
        f.known(),
        n < ten(m),
        k >= m + 400,
    ensures
        nearest(f, n * power2::pow2(f.unit as nat), ten(k)) == 0,
{
    let u = power2::pow2(f.unit as nat);
    let num = n * u;
    let rest = (k - m) as nat;
    lemma_ten_adds(m, rest);
    lemma_ten(rest);
    lemma_ten(k);
    lemma_ten(m);
    if f.unit < 1075 {
        power2::lemma_pow2_strictly_increases(f.unit as nat, 1075);
    }
    power2::lemma_pow2_adds(1, 1075);
    power2::lemma2_to64();
    power2::lemma_pow2_strictly_increases(1076, 1200);
    if rest > 400 {
        power2::lemma_pow2_strictly_increases(1200, 3 * rest);
    }
    let a = ten(m);
    let b = ten(rest);
    assert(2 * num <= a * b) by (nonlinear_arith)
        requires
            num == n * u,
            n <= a,
            2 * u <= b,
            u >= 0,
            a >= 0,
    ;
    lemma_first_steps(f);
    assert(1 * ten(k) == ten(k));
    assert(rounds_to(f, num, ten(k), 0));
    lemma_nearest(f, num, ten(k), 0);
}

proof fn lemma_nothing(f: Format, den: nat)
    requires
        f.known(),
        den > 0,
    ensures
        nearest(f, 0, den) == 0,
{
    lemma_steps_next(f, 0);
    let middle = steps(f, 0) + steps(f, 1);
    assert(middle * den >= 0) by (nonlinear_arith);
    assert(rounds_to(f, 0, den, 0));
    lemma_nearest(f, 0, den, 0);
}

fn ten_to(k: usize) -> (r: Big)
    ensures
        r@ == ten(k as nat),
{
    let mut r: Big = Big::from_u64(1);
    let mut i: usize = 0;
    while i < k
        invariant
            i <= k,
            r@ == ten(i as nat),
        decreases k - i,
    {
        r = r.times_small(10);
        i += 1;
    }
    r
}

/// Whether a string is made of decimal digits.
fn only_digits(s: &str) -> (r: bool)
    ensures
        r == digits::all_digits(s@),
{
    let chars = text::chars_of(s);
    let mut i: usize = 0;
    while i < chars.len()
        invariant
            i <= chars@.len(),
            chars@ == s@,
            forall|j: int| 0 <= j < i ==> text::is_digit(#[trigger] s@[j]),
        decreases chars@.len() - i,
    {
        if !text::digit(chars[i]) {
            assert(!text::is_digit(s@[i as int]));
            return false;
        }
        i += 1;
    }
    true
}

/// The number that decimal digits write.
fn value_of(s: &str) -> (r: Big)
    requires
        digits::all_digits(s@),
    ensures
        r@ == digits::value(s@),
{
    let chars = text::chars_of(s);
    let mut r: Big = Big::from_u64(0);
    let mut i: usize = 0;
    assert(chars@.take(0) == Seq::<char>::empty());
    while i < chars.len()
        invariant
            i <= chars@.len(),
            chars@ == s@,
            digits::all_digits(s@),
            r@ == digits::value(s@.take(i as int)),
        decreases chars@.len() - i,
    {
        assert(text::is_digit(s@[i as int]));
        let d: u64 = (chars[i] as u32 - 48) as u64;
        r = r.times_small(10).plus(&Big::from_u64(d));
        assert(s@.take(i + 1).drop_last() == s@.take(i as int));
        i += 1;
    }
    assert(s@.take(i as int) == s@);
    r
}

const EXPONENT_LIMIT: i128 = 1_000_000_000_000_000_000_000_000_000_000;

/// The exponent that a text writes, brought within the limits of what can
/// matter.
fn exponent_of(s: &str) -> (r: Option<i128>)
    ensures
        match r {
            Some(e) => {
                &&& exponent(s@) is Some
                &&& -EXPONENT_LIMIT <= e <= EXPONENT_LIMIT
                &&& e == exponent(s@)->0 || (e == EXPONENT_LIMIT && exponent(s@)->0 > e) || (e
                    == -EXPONENT_LIMIT && exponent(s@)->0 < e)
            },
            None => exponent(s@) is None,
        },
{
    let chars = text::chars_of(s);
    let sign: bool = chars.len() > 0 && (chars[0] == '+' || chars[0] == '-');
    let body = text::slice(
        &chars,
        if sign {
            1
        } else {
            0
        },
        chars.len(),
    );
    proof {
        assert(s@.skip(0) == s@);
        assert(body@ == if sign {
            s@.skip(1)
        } else {
            s@
        });
    }
    if text::length(body.as_str()) == 0 || !only_digits(body.as_str()) {
        return None;
    }
    let negative: bool = chars[0] == '-';
    let tail = text::chars_of(body.as_str());
    let mut total: i128 = 0;
    let mut i: usize = 0;
    assert(tail@.take(0) == Seq::<char>::empty());
    while i < tail.len()
        invariant
            i <= tail@.len(),
            tail@ == body@,
            digits::all_digits(body@),
            0 <= total <= EXPONENT_LIMIT,
            total == digits::value(body@.take(i as int)) || (total == EXPONENT_LIMIT
                && digits::value(body@.take(i as int)) > total),
        decreases tail@.len() - i,
    {
        assert(text::is_digit(body@[i as int]));
        let d: i128 = (tail[i] as u32 - 48) as i128;
        assert(body@.take(i + 1).drop_last() == body@.take(i as int));
        let next: i128 = total * 10 + d;
        total = if next > EXPONENT_LIMIT {
            EXPONENT_LIMIT
        } else {
            next
        };
        i += 1;
    }
    assert(body@.take(i as int) == body@);
    Some(
        if negative {
            -total
        } else {
            total
        },
    )
}

/// The magnitude nearest to a number times a power of ten.
fn scaled_of(f: &Format, n: &Big, count: usize, e: i128, Ghost(exact): Ghost<int>) -> (r: u64)
    requires
        f.known(),
        n@ < ten(count as nat),
        -EXPONENT_LIMIT - usize::MAX <= e <= EXPONENT_LIMIT,
        e == exact || (e >= EXPONENT_LIMIT - usize::MAX && exact > e) || (e <= -EXPONENT_LIMIT
            && exact < e),
    ensures
        r == scaled(*f, n@, exact),
        r <= f.inf,
{
    proof {
        lemma_ten(if exact < 0 {
            (-exact) as nat
        } else {
            0
        });
    }
    if n.is_zero() {
        proof {
            let u = power2::pow2(f.unit as nat);
            let p = ten(exact as nat);
            assert(0 * p * u == 0) by (nonlinear_arith);
            assert(0 * u == 0) by (nonlinear_arith);
            lemma_nothing(*f, 1);
            if exact < 0 {
                lemma_nothing(*f, ten((-exact) as nat));
            }
        }
        return 0;
    }
    if e >= 400 {
        proof {
            lemma_too_large(*f, n@, exact as nat);
        }
        return f.inf;
    }
    if e < 0 && -e >= count as i128 + 400 {
        proof {
            lemma_too_small(*f, n@, count as nat, (-exact) as nat);
        }
        return 0;
    }
    assert(e == exact);
    if e >= 0 {
        let num: Big = n.times(&ten_to(e as usize)).shifted(f.unit);
        round(f, &num, &Big::from_u64(1))
    } else {
        assert(-e <= usize::MAX + 400);
        let k: i128 = -e;
        let mut den: Big = Big::from_u64(1);
        let mut i: i128 = 0;
        while i < k
            invariant
                0 <= i <= k,
                k <= usize::MAX + 400,
                den@ == ten(i as nat),
            decreases k - i,
        {
            den = den.times_small(10);
            i += 1;
        }
        round(f, &n.shifted(f.unit), &den)
    }
}

/// The magnitude that an unsigned number writes.
fn magnitude_of(f: &Format, s: &str) -> (r: Option<u64>)
    requires
        f.known(),
    ensures
        match r {
            Some(m) => plain_magnitude(*f, s@) == Some(m as nat) && m <= f.inf + f.half / 2,
            None => plain_magnitude(*f, s@) is None,
        },
{
    if text::same(s, "inf") || text::same(s, "infinity") {
        return Some(f.inf);
    }
    if text::same(s, "nan") {
        return Some(f.inf + f.half / 2);
    }
    let (body, e) = match text::split_once(s, "e") {
        Some((body, tail)) => match exponent_of(tail.as_str()) {
            Some(e) => (body, e),
            None => {
                return None;
            },
        },
        None => (s.to_owned(), 0i128),
    };
    let ghost exact = match text::cut(s@, "e"@) {
        Some((_, tail)) => exponent(tail)->0,
        None => 0int,
    };
    let (before, behind) = match text::split_once(body.as_str(), ".") {
        Some((before, behind)) => (before, behind),
        None => (body.clone(), String::new()),
    };
    let mut all: String = before.clone();
    all.append(behind.as_str());
    let count: usize = text::length(all.as_str());
    if count == 0 || !only_digits(before.as_str()) || !only_digits(behind.as_str()) {
        return None;
    }
    proof {
        assert forall|i: int| 0 <= i < all@.len() implies text::is_digit(#[trigger] all@[i]) by {
            if i < before@.len() {
                assert(all@[i] == before@[i]);
            } else {
                assert(all@[i] == behind@[i - before@.len()]);
            }
        }
        lemma_value_bound(all@);
    }
    let n: Big = value_of(all.as_str());
    let places: usize = text::length(behind.as_str());
    let t: i128 = e - places as i128;
    Some(scaled_of(f, &n, count, t, Ghost(exact - places)))
}

/// The sign and the magnitude that a number writes.
pub(crate) fn read(f: &Format, s: &str) -> (r: Option<(bool, u64)>)
    requires
        f.known(),
    ensures
        match r {
            Some((negative, m)) => reading(*f, s@) == Some((negative, m as nat)) && m <= f.inf
                + f.half / 2,
            None => reading(*f, s@) is None,
        },
{
    let chars = text::chars_of(s);
    let sign: bool = chars.len() > 0 && (chars[0] == '+' || chars[0] == '-');
    let negative: bool = chars.len() > 0 && chars[0] == '-';
    let body = text::slice(
        &chars,
        if sign {
            1
        } else {
            0
        },
        chars.len(),
    );
    proof {
        assert(s@.skip(0) == s@);
        assert(body@ == if sign {
            s@.skip(1)
        } else {
            s@
        });
    }
    match magnitude_of(f, text::ascii_lower(body.as_str()).as_str()) {
        Some(m) => Some((negative, m)),
        None => None,
    }
}

/// The value that a number writes.
pub open spec fn parsed(s: Seq<char>) -> Option<Binary64> {
    match reading(double(), s) {
        Some((negative, mag)) => Some(signed(negative, mag)),
        None => None,
    }
}

/// Reads a number.
pub fn parse(s: &str) -> (r: Option<Binary64>)
    ensures
        r == parsed(s@),
{
    match read(&double_format(), s) {
        Some((negative, m)) => Some(encoded(negative, m)),
        None => None,
    }
}

// ---------------------------------------------------------------------------
// Reading what was written
// ---------------------------------------------------------------------------

proof fn lemma_infinity_is_far()
    ensures
        steps(double(), double().inf as nat) - steps(double(), (double().inf - 1) as nat)
            == power2::pow2(2045),
        power2::pow2(1074) < power2::pow2(2045),
{
    let f = double();
    let h: nat = 0x10_0000_0000_0000;
    let p = power2::pow2(2045);
    power2::lemma2_to64();
    power2::lemma_pow2_adds(2045, 1);
    assert(f.inf as nat / h == 2047 && f.inf as nat % h == 0);
    assert((f.inf - 1) as nat / h == 2046 && (f.inf - 1) as nat % h == h - 1);
    assert((h + 0) * power2::pow2(2046) - (h + (h - 1)) * p == p) by (nonlinear_arith)
        requires
            power2::pow2(2046) == p * 2,
    ;
    power2::lemma_pow2_adds(1074, 971);
    power2::lemma_pow2_pos(1074);
    power2::lemma_pow2_adds(1, 970);
    power2::lemma_pow2_pos(970);
    let q = power2::pow2(971);
    assert(q >= 2);
    let t = power2::pow2(1074);
    assert(t < t * q) by (nonlinear_arith)
        requires
            q >= 2,
            t > 0,
    ;
}

pub(crate) proof fn lemma_even_quotient(num: nat, den: nat)
    requires
        den > 0,
    ensures
        2 * (even_quotient(num, den) * den) <= 2 * num + den,
        2 * num <= 2 * (even_quotient(num, den) * den) + den,
{
    let q = num / den;
    let r = num % den;
    vstd::arithmetic::div_mod::lemma_fundamental_div_mod(num as int, den as int);
    assert(den * q == q * den) by (nonlinear_arith);
    assert((q + 1) * den == q * den + den) by (nonlinear_arith);
}

/// The time in thousandths that a written value has.
pub open spec fn to_thousandths(value: Binary64) -> Binary64 {
    rounded(false, value.thousandths() * power2::pow2(1074), 1000)
}

/// A value that is rounded to thousandths stays finite.
pub proof fn lemma_to_thousandths(value: Binary64)
    requires
        value.finite(),
    ensures
        to_thousandths(value).finite(),
        !to_thousandths(value).is_negative(),
        to_thousandths(value).magnitude() == nearest(
            double(),
            value.thousandths() * power2::pow2(1074),
            1000,
        ),
{
    let f = double();
    let p = power2::pow2(1074);
    let n = value.thousandths();
    let num = n * p;
    power2::lemma_pow2_pos(1074);
    lemma_nearest_exists(f, num, 1000);
    let mag = nearest(f, num, 1000);
    lemma_even_quotient(value.size() * 1000, p);
    if mag == f.inf {
        lemma_infinity_is_far();
        let high = steps(f, f.inf as nat);
        let low = steps(f, (f.inf - 1) as nat);
        if value.magnitude() < f.inf - 1 {
            lemma_steps_grow(f, value.magnitude(), (f.inf - 1) as nat);
        }
        assert(value.size() <= low);
        assert(past(f, num, 1000, (f.inf - 1) as nat));
        assert(2 * num >= (low + high) * 1000);
        assert(false);
    }
}

/// No finite value lies nearer to a quotient than the one that it is rounded
/// to.
pub(crate) proof fn lemma_nearest_best(f: Format, num: nat, den: nat, other: nat)
    requires
        f.known(),
        den > 0,
        other < f.inf,
    ensures
        ({
            let best = steps(f, nearest(f, num, den)) * den;
            let rival = steps(f, other) * den;
            &&& best - num <= rival - num || best - num <= num - rival
            &&& num - best <= rival - num || num - best <= num - rival
        }),
{
    let mag = nearest(f, num, den);
    lemma_nearest_exists(f, num, den);
    let best = steps(f, mag);
    let rival = steps(f, other);
    if other < mag {
        let low = steps(f, (mag - 1) as nat);
        if other < mag - 1 {
            lemma_steps_grow(f, other, (mag - 1) as nat);
        }
        lemma_steps_grow(f, (mag - 1) as nat, mag);
        assert((low + best) * den == low * den + best * den) by (nonlinear_arith);
        assert(rival * den <= low * den && low * den <= best * den) by (nonlinear_arith)
            requires
                rival <= low <= best,
        ;
    } else if mag < other {
        let high = steps(f, mag + 1);
        if mag + 1 < other {
            lemma_steps_grow(f, mag + 1, other);
        }
        lemma_steps_grow(f, mag, mag + 1);
        assert((best + high) * den == best * den + high * den) by (nonlinear_arith);
        assert(best * den <= high * den && high * den <= rival * den) by (nonlinear_arith)
            requires
                best <= high <= rival,
        ;
    }
}

/// A difference of at most one is rounded to at most one.
proof fn lemma_small_stays_small(units: nat)
    requires
        units <= power2::pow2(1074),
    ensures
        nearest(double(), units, 1) <= 0x3ff0_0000_0000_0000,
{
    let f = double();
    let m: nat = 0x3ff0_0000_0000_0000;
    let p = power2::pow2(1074);
    lemma_one_steps();
    lemma_nearest_exists(f, units, 1);
    let mag = nearest(f, units, 1);
    if mag > m {
        if m < mag - 1 {
            lemma_steps_grow(f, m, (mag - 1) as nat);
        }
        lemma_steps_grow(f, (mag - 1) as nat, mag);
        assert(past(f, units, 1, (mag - 1) as nat));
    }
}

/// Of two quotients the lesser one is not rounded to more.
pub(crate) proof fn lemma_nearest_grows(f: Format, a: nat, b: nat, n: nat, d: nat)
    requires
        f.known(),
        b > 0,
        d > 0,
        a * d <= n * b,
    ensures
        nearest(f, a, b) <= nearest(f, n, d),
{
    lemma_nearest_exists(f, a, b);
    lemma_nearest_exists(f, n, d);
    let low = nearest(f, a, b);
    let high = nearest(f, n, d);
    if high < low {
        lemma_past_down(f, a, b, high, (low - 1) as nat);
        let sum = steps(f, high) + steps(f, high + 1);
        assert(2 * a >= sum * b);
        assert(2 * n <= sum * d);
        assert((2 * a) * d >= (sum * b) * d) by (nonlinear_arith)
            requires
                2 * a >= sum * b,
        ;
        assert((2 * n) * b <= (sum * d) * b) by (nonlinear_arith)
            requires
                2 * n <= sum * d,
        ;
        assert((sum * b) * d == (sum * d) * b) by (nonlinear_arith);
        assert((2 * a) * d == 2 * (a * d)) by (nonlinear_arith);
        assert((2 * n) * b == 2 * (n * b)) by (nonlinear_arith);
        assert(2 * a == sum * b) by (nonlinear_arith)
            requires
                d > 0,
                2 * a >= sum * b,
                (2 * a) * d <= (sum * b) * d,
        ;
        assert(2 * n == sum * d) by (nonlinear_arith)
            requires
                b > 0,
                2 * n <= sum * d,
                (2 * n) * b >= (sum * d) * b,
        ;
        assert(false);
    }
}

/// The value nearest to a thousandth.
pub open spec fn thousandth() -> Binary64 {
    rounded(false, power2::pow2(1074), 1000)
}

/// A time is within a thousandth of a second of itself in thousandths, also by
/// the arithmetic of the machine.
pub proof fn lemma_thousandths_close(value: Binary64)
    requires
        value.finite(),
        !value.is_negative(),
    ensures
        1000 * (to_thousandths(value).units() - value.units()) <= power2::pow2(1074),
        1000 * (value.units() - to_thousandths(value).units()) <= power2::pow2(1074),
        to_thousandths(value).difference(value).absolute().le(thousandth()),
{
    let f = double();
    let p = power2::pow2(1074);
    let n = value.thousandths();
    let x = value.size();
    let near = to_thousandths(value);
    power2::lemma_pow2_pos(1074);
    lemma_to_thousandths(value);
    lemma_even_quotient(x * 1000, p);
    lemma_nearest_best(f, n * p, 1000, value.magnitude());
    let y = near.size();
    assert(near.units() == y && value.units() == x);
    assert(value.negated().units() == -x || x == 0);
    let total = y - x;
    assert(-p <= 1000 * total <= p);
    lemma_size_zero(0);
    lemma_natural_one();
    lemma_one_steps();
    let bound = thousandth();
    let top = nearest(f, p, 1000);
    lemma_nearest_grows(f, p, 1000, p, 1);
    lemma_small_stays_small(p);
    assert(bound.magnitude() == top);
    let gap = near.difference(value);
    if total == 0 {
        assert(gap.absolute().magnitude() == 0);
    } else {
        let size = if total < 0 {
            (-total) as nat
        } else {
            total as nat
        };
        lemma_small_stays_small(size);
        lemma_nearest_grows(f, size, 1, p, 1000);
        let mag = nearest(f, size, 1);
        assert(gap.absolute().magnitude() == mag);
        if mag < top {
            lemma_steps_grow(f, mag, top);
        }
    }
}

/// The distance from a magnitude below two to the power of thirty to the next.
proof fn lemma_gap_is_small(mag: nat)
    requires
        mag < 1053 * 0x10_0000_0000_0000,
    ensures
        1000 * (steps(double(), mag + 1) - steps(double(), mag)) < power2::pow2(1074),
{
    let f = double();
    let h: nat = 0x10_0000_0000_0000;
    let e = mag / h;
    let fraction = mag % h;
    vstd::arithmetic::div_mod::lemma_fundamental_div_mod(mag as int, h as int);
    power2::lemma2_to64();
    power2::lemma_pow2_adds(1051, 23);
    power2::lemma_pow2_pos(1051);
    let step = if e == 0 {
        1
    } else {
        power2::pow2((e - 1) as nat)
    };
    assert(step <= power2::pow2(1051)) by {
        if e > 0 && e - 1 < 1051 {
            power2::lemma_pow2_strictly_increases((e - 1) as nat, 1051);
        }
    }
    assert(steps(f, mag + 1) - steps(f, mag) == step) by {
        if fraction + 1 < h {
            vstd::arithmetic::div_mod::lemma_fundamental_div_mod_converse(
                (mag + 1) as int,
                h as int,
                e as int,
                (fraction + 1) as int,
            );
            if e > 0 {
                assert((h + fraction + 1) * step == (h + fraction) * step + step)
                    by (nonlinear_arith);
            }
        } else {
            assert(h * e + h == (e + 1) * h) by (nonlinear_arith);
            vstd::arithmetic::div_mod::lemma_fundamental_div_mod_converse(
                (mag + 1) as int,
                h as int,
                (e + 1) as int,
                0,
            );
            if e > 0 {
                power2::lemma_pow2_adds((e - 1) as nat, 1);
                assert((h + 0) * (step * 2) == (h + fraction) * step + step) by (nonlinear_arith)
                    requires
                        fraction == h - 1,
                ;
            } else {
                assert((h + 0) * power2::pow2(0) == h) by (nonlinear_arith)
                    requires
                        power2::pow2(0) == 1,
                ;
            }
        }
    }
    assert(power2::pow2(23) > 1000) by {
        power2::lemma2_to64();
    }
    let q = power2::pow2(1051);
    let k = power2::pow2(23);
    assert(q * k > 1000 * q) by (nonlinear_arith)
        requires
            q > 0,
            k > 1000,
    ;
}

/// Two to the power of thirty, in steps.
proof fn lemma_top_steps()
    ensures
        steps(double(), 1053 * 0x10_0000_0000_0000) == 0x4000_0000 * power2::pow2(1074),
{
    let f = double();
    let p = power2::pow2(1074);
    let h: nat = 0x10_0000_0000_0000;
    let top: nat = (1053 * h) as nat;
    power2::lemma2_to64();
    power2::lemma_pow2_adds(1052, 52);
    power2::lemma_pow2_adds(1074, 30);
    assert(top / h == 1053 && top % h == 0) by {
        vstd::arithmetic::div_mod::lemma_fundamental_div_mod_converse(
            top as int,
            h as int,
            1053,
            0,
        );
    }
    power2::lemma2_to64_rest();
    let q = power2::pow2(1052);
    assert((h + 0) * q == q * h) by (nonlinear_arith);
    assert(p * 0x4000_0000 == 0x4000_0000 * p) by (nonlinear_arith);
}

/// A time of whole thousandths, up to a thousand million seconds, is the same
/// in thousandths.
pub proof fn lemma_thousandths_stay(n: nat)
    requires
        n <= 1_000_000_000_000,
    ensures
        ({
            let value = rounded(false, n * power2::pow2(1074), 1000);
            &&& value.finite()
            &&& !value.is_negative()
            &&& value.thousandths() == n
            &&& to_thousandths(value) == value
            &&& 2 * (n * power2::pow2(1074)) < 2 * (1000 * value.units()) + power2::pow2(1074)
        }),
{
    let f = double();
    let p = power2::pow2(1074);
    let h: nat = 0x10_0000_0000_0000;
    let num = n * p;
    let mag = nearest(f, num, 1000);
    power2::lemma_pow2_pos(1074);
    lemma_nearest_exists(f, num, 1000);
    let top: nat = (1053 * h) as nat;
    lemma_top_steps();
    assert(num <= 1_000_000_000_000 * p) by (nonlinear_arith)
        requires
            num == n * p,
            n <= 1_000_000_000_000,
    ;
    if mag >= top {
        lemma_past_down(f, num, 1000, (top - 1) as nat, (mag - 1) as nat);
        lemma_gap_is_small((top - 1) as nat);
        assert(false);
    }
    let value = rounded(false, num, 1000);
    assert(value.magnitude() == mag && !value.is_negative());
    lemma_gap_is_small(mag);
    if mag > 0 {
        lemma_gap_is_small((mag - 1) as nat);
    }
    let x = steps(f, mag);
    assert(2 * (1000 * x) < 2 * num + p && 2 * num < 2 * (1000 * x) + p);
    lemma_even_quotient(x * 1000, p);
    let q = value.thousandths();
    assert(q == n) by {
        assert(2 * (q * p) < 2 * (n * p) + 2 * p);
        assert(2 * (n * p) < 2 * (q * p) + 2 * p);
        assert(q < n + 1 && n < q + 1) by (nonlinear_arith)
            requires
                p > 0,
                2 * (q * p) < 2 * (n * p) + 2 * p,
                2 * (n * p) < 2 * (q * p) + 2 * p,
        ;
    }
}

/// Times up to a thousand million seconds that are more than a thousandth of a
/// second apart are apart in thousandths.
pub proof fn lemma_thousandths_apart(a: Binary64, b: Binary64)
    requires
        a.finite(),
        b.finite(),
        a.units() >= 0,
        1000 * (b.units() - a.units()) > power2::pow2(1074),
        b.units() <= 1_000_000_000 * power2::pow2(1074),
    ensures
        to_thousandths(a).lt(to_thousandths(b)),
{
    let f = double();
    let p = power2::pow2(1074);
    let m = a.thousandths();
    let n = b.thousandths();
    power2::lemma_pow2_pos(1074);
    lemma_even_quotient(a.size() * 1000, p);
    lemma_even_quotient(b.size() * 1000, p);
    assert(2 * (m * p) < 2 * (n * p));
    assert(2 * (n * p) <= 2_000_000_000_000 * p + p);
    assert(m < n) by (nonlinear_arith)
        requires
            2 * (m * p) < 2 * (n * p),
    ;
    assert(n <= 1_000_000_000_000) by (nonlinear_arith)
        requires
            p > 0,
            2 * (n * p) <= 2_000_000_000_000 * p + p,
    ;
    lemma_thousandths_stay(m);
    lemma_thousandths_stay(n);
    let low = to_thousandths(a);
    let high = to_thousandths(b);
    assert((m * p) * 1000 <= (n * p) * 1000);
    lemma_nearest_grows(f, m * p, 1000, n * p, 1000);
    lemma_to_thousandths(a);
    lemma_to_thousandths(b);
    assert(low != high);
    assert(low.magnitude() != high.magnitude());
    lemma_steps_grow(f, low.magnitude(), high.magnitude());
}

/// Two thousandths of a second.
pub open spec fn two_thousandths() -> Binary64 {
    rounded(false, 2 * power2::pow2(1074), 1000)
}

/// A time that is not before another with two thousandths of a second added,
/// by the arithmetic of the machine, is more than one behind it.
pub proof fn lemma_added_thousandths(a: Binary64, b: Binary64)
    requires
        a.finite(),
        b.finite(),
        a.units() >= 0,
        a.sum(two_thousandths()).le(b),
        b.units() <= 1_000_000_000 * power2::pow2(1074),
    ensures
        1000 * (b.units() - a.units()) > power2::pow2(1074),
{
    let f = double();
    let p = power2::pow2(1074);
    let two = two_thousandths();
    power2::lemma_pow2_pos(1074);
    lemma_thousandths_stay(2);
    let total = (a.units() + two.units()) as nat;
    let mag = nearest(f, total, 1);
    lemma_nearest_exists(f, total, 1);
    let sum = a.sum(two);
    if 1000 * (b.units() - a.units()) <= p {
        assert(total > b.units());
        assert(total > 0);
        assert(sum == rounded(false, total, 1));
        assert(sum.magnitude() == mag && !sum.is_negative());
        assert(sum.units() == steps(f, mag));
        lemma_top_steps();
        if mag >= 1053 * 0x10_0000_0000_0000 {
            if mag > 1053 * 0x10_0000_0000_0000 {
                lemma_steps_grow(f, 1053 * 0x10_0000_0000_0000, mag);
            }
            assert(false);
        }
        lemma_gap_is_small(mag);
        assert(2 * total <= (steps(f, mag) + steps(f, mag + 1)) * 1);
        assert(false);
    }
}

/// A time is within a second of itself in thousandths.
pub proof fn lemma_thousandths_near(value: Binary64)
    requires
        value.finite(),
        !value.is_negative(),
    ensures
        to_thousandths(value).difference(value).absolute().le(natural(1)),
{
    let f = double();
    let p = power2::pow2(1074);
    let n = value.thousandths();
    let x = value.size();
    let near = to_thousandths(value);
    power2::lemma_pow2_pos(1074);
    lemma_to_thousandths(value);
    lemma_even_quotient(x * 1000, p);
    lemma_nearest_best(f, n * p, 1000, value.magnitude());
    let y = near.size();
    assert(near.units() == y && value.units() == x);
    assert(value.negated().units() == -x || x == 0);
    let total = y - x;
    assert(-p <= total <= p);
    lemma_natural_one();
    lemma_one_steps();
    lemma_size_zero(0);
    let one = natural(1);
    assert(one.units() == p);
    let gap = near.difference(value);
    if total == 0 {
        assert(gap.absolute().magnitude() == 0);
    } else {
        let size = if total < 0 {
            (-total) as nat
        } else {
            total as nat
        };
        lemma_small_stays_small(size);
        let mag = nearest(f, size, 1);
        assert(gap.absolute().magnitude() == mag);
        if mag < one.magnitude() {
            lemma_steps_grow(f, mag, one.magnitude());
        }
    }
}

/// Whether no number lies nearer to so many smallest steps than a value.
pub open spec fn is_nearest(value: Binary64, units: int) -> bool {
    &&& !value.is_nan()
    &&& forall|other: Binary64|
        other.finite() ==> distance(value.units(), units) <= distance(
            #[trigger] other.units(),
            units,
        )
}

/// How far two amounts lie apart.
pub open spec fn distance(a: int, b: int) -> int {
    if a < b {
        b - a
    } else {
        a - b
    }
}

/// The value that stands for an amount of smallest steps.
proof fn lemma_rounded_is_nearest(total: int)
    ensures
        total > 0 ==> is_nearest(rounded(false, total as nat, 1), total),
        total < 0 ==> is_nearest(rounded(true, (-total) as nat, 1), total),
{
    let f = double();
    let negative = total < 0;
    let size = if negative {
        (-total) as nat
    } else {
        total as nat
    };
    let value = rounded(negative, size, 1);
    let mag = nearest(f, size, 1);
    lemma_nearest_exists(f, size, 1);
    assert(value.magnitude() == mag);
    assert(value.is_negative() == negative);
    lemma_size_zero(mag);
    assert forall|other: Binary64| other.finite() implies distance(value.units(), total)
        <= distance(#[trigger] other.units(), total) by {
        lemma_nearest_best(f, size, 1, other.magnitude());
        lemma_nearest_best(f, size, 1, 0);
        assert(steps(f, mag) * 1 == steps(f, mag));
        assert(steps(f, other.magnitude()) * 1 == steps(f, other.magnitude()));
    }
}

/// A sum is the number nearest to the exact sum.
pub proof fn law_sum_is_nearest(a: Binary64, b: Binary64)
    requires
        a.finite(),
        b.finite(),
    ensures
        is_nearest(a.sum(b), a.units() + b.units()),
{
    let total = a.units() + b.units();
    lemma_rounded_is_nearest(total);
    lemma_size_zero(0);
    if total == 0 {
        assert(a.sum(b).magnitude() == 0);
    }
}

/// A difference is the number nearest to the exact difference.
pub proof fn law_difference_is_nearest(a: Binary64, b: Binary64)
    requires
        a.finite(),
        b.finite(),
    ensures
        is_nearest(a.difference(b), a.units() - b.units()),
{
    let other = b.negated();
    lemma_size_zero(b.magnitude());
    assert(other.magnitude() == b.magnitude());
    assert(other.units() == -b.units());
    law_sum_is_nearest(a, other);
}

/// A later time is moved to no earlier one by the same amount.
pub proof fn law_sum_keeps_order(a: Binary64, low: Binary64, high: Binary64)
    requires
        a.finite(),
        low.finite(),
        high.finite(),
        low.le(high),
    ensures
        a.sum(low).le(a.sum(high)),
{
    let f = double();
    let x = a.units() + low.units();
    let y = a.units() + high.units();
    let p = a.sum(low);
    let q = a.sum(high);
    law_sum_is_nearest(a, low);
    law_sum_is_nearest(a, high);
    lemma_size_zero(0);
    if x != 0 {
        lemma_total(x);
    }
    if y != 0 {
        lemma_total(y);
    }
    if 0 < x {
        lemma_nearest_grows(f, x as nat, 1, y as nat, 1);
        lemma_magnitudes(p.magnitude(), q.magnitude());
    } else if y < 0 {
        lemma_nearest_grows(f, (-y) as nat, 1, (-x) as nat, 1);
        lemma_magnitudes(q.magnitude(), p.magnitude());
    }
}

/// A later time lies no less far behind another than an earlier one.
pub proof fn law_difference_keeps_order(low: Binary64, high: Binary64, a: Binary64)
    requires
        a.finite(),
        low.finite(),
        high.finite(),
        low.le(high),
    ensures
        low.difference(a).le(high.difference(a)),
{
    let b = a.negated();
    assert(b.magnitude() == a.magnitude());
    law_sum_keeps_order(b, low, high);
    law_sum_is_nearest(low, b);
    law_sum_is_nearest(high, b);
    assert(low.sum(b).units() == b.sum(low).units());
    assert(high.sum(b).units() == b.sum(high).units());
}

/// Nothing added leaves a value where it is.
pub proof fn lemma_sum_of_nothing(a: Binary64)
    requires
        a.finite(),
    ensures
        a.sum(zero()).units() == a.units(),
        !a.sum(zero()).is_nan(),
{
    law_sum_is_nearest(a, zero());
    lemma_size_zero(0);
    assert(distance(a.sum(zero()).units(), a.units()) <= distance(a.units(), a.units()));
}

/// What a magnitude encodes exactly is rounded to it.
pub(crate) proof fn lemma_exact(f: Format, mag: nat, den: nat)
    requires
        f.known(),
        den > 0,
        mag < f.inf,
    ensures
        nearest(f, steps(f, mag) * den, den) == mag,
{
    let x = steps(f, mag);
    lemma_steps_grow(f, mag, mag + 1);
    let high = steps(f, mag + 1);
    assert((x + high) * den > 2 * (x * den)) by (nonlinear_arith)
        requires
            high > x,
            den > 0,
    ;
    if mag > 0 {
        lemma_steps_grow(f, (mag - 1) as nat, mag);
        let low = steps(f, (mag - 1) as nat);
        assert((low + x) * den < 2 * (x * den)) by (nonlinear_arith)
            requires
                low < x,
                den > 0,
        ;
    }
    assert(rounds_to(f, x * den, den, mag));
    lemma_nearest(f, x * den, den, mag);
}

/// A quotient of many steps is not rounded to one of the least magnitudes.
pub(crate) proof fn lemma_nearest_is_normal(f: Format, num: nat, den: nat)
    requires
        f.known(),
        den > 0,
        num >= 2 * (f.half * den),
    ensures
        nearest(f, num, den) >= f.half,
{
    lemma_nearest_exists(f, num, den);
    let mag = nearest(f, num, den);
    if mag < f.half {
        let h = f.half as nat;
        if mag + 1 < h {
            lemma_steps_grow(f, mag + 1, h);
        }
        lemma_steps_grow(f, mag, h);
        assert(steps(f, h) == h) by {
            vstd::arithmetic::div_mod::lemma_fundamental_div_mod_converse(
                h as int,
                h as int,
                1,
                0,
            );
            power2::lemma2_to64();
            assert((h + 0) * 1 == h) by (nonlinear_arith);
        }
        let sum = steps(f, mag) + steps(f, mag + 1);
        assert(2 * num <= sum * den);
        assert(sum * den < 2 * (h * den)) by (nonlinear_arith)
            requires
                sum < 2 * h,
                den > 0,
        ;
        assert(h * den >= 0) by (nonlinear_arith);
    }
}

/// A quotient of many steps is rounded by less than a thousandth of itself.
pub(crate) proof fn lemma_nearest_within(f: Format, num: nat, den: nat)
    requires
        f.known(),
        den > 0,
        num >= 2 * (f.half * den),
        nearest(f, num, den) < f.inf,
    ensures
        1999 * (steps(f, nearest(f, num, den)) * den) <= 2000 * num,
        1998 * num <= 1999 * (steps(f, nearest(f, num, den)) * den),
{
    lemma_nearest_is_normal(f, num, den);
    lemma_nearest_close(f, num, den);
    lemma_nearest_exists(f, num, den);
    let mag = nearest(f, num, den);
    let x = steps(f, mag);
    let high = steps(f, mag + 1);
    lemma_steps_step(f, mag + 1);
    assert(2 * num <= (x + high) * den);
    assert(1998 * num <= 1999 * (x * den)) by (nonlinear_arith)
        requires
            2 * num <= (x + high) * den,
            1000 * (high - x) <= high,
            den > 0,
    {
        assert(999 * high <= 1000 * x);
        assert(999 * (x + high) <= 1999 * x);
        assert(999 * ((x + high) * den) <= 1999 * (x * den)) by {
            assert((999 * (x + high)) * den <= (1999 * x) * den);
        }
    }
}

/// A quotient of many steps is rounded by no more than half a step of its own.
pub(crate) proof fn lemma_nearest_fine(f: Format, num: nat, den: nat)
    requires
        f.known(),
        den > 0,
        num >= 2 * (f.half * den),
        nearest(f, num, den) < f.inf,
    ensures
        ({
            let found = steps(f, nearest(f, num, den)) * den;
            &&& (2 * f.half - 1) * (found - num) <= num
            &&& (2 * f.half - 2) * (num - found) <= found
        }),
{
    lemma_nearest_is_normal(f, num, den);
    lemma_nearest_exists(f, num, den);
    let mag = nearest(f, num, den);
    let h = f.half as int;
    let x = steps(f, mag) as int;
    let low = steps(f, (mag - 1) as nat) as int;
    let high = steps(f, mag + 1) as int;
    lemma_steps_step(f, mag);
    lemma_steps_step(f, mag + 1);
    let found = x * den;
    assert((2 * h - 1) * (found - num) <= num) by (nonlinear_arith)
        requires
            found == x * den,
            2 * num >= (low + x) * den,
            h * (x - low) <= x,
            den > 0,
            h > 0,
    {
        assert(h * ((x - low) * den) <= x * den) by {
            assert((h * (x - low)) * den <= x * den);
        }
        assert(2 * (found - num) <= (x - low) * den);
        assert(h * (2 * (found - num)) <= h * ((x - low) * den));
    }
    assert((2 * h - 2) * (num - found) <= found) by (nonlinear_arith)
        requires
            found == x * den,
            2 * num <= (x + high) * den,
            h * (high - x) <= high,
            den > 0,
            h > 1,
    {
        assert((h - 1) * (high - x) <= x);
        assert((h - 1) * ((high - x) * den) <= x * den) by {
            assert(((h - 1) * (high - x)) * den <= x * den);
        }
        assert(2 * (num - found) <= (high - x) * den);
        assert((h - 1) * (2 * (num - found)) <= (h - 1) * ((high - x) * den));
    }
}

/// A product of times from the start on is the number nearest to the exact
/// product.
pub proof fn law_product_is_nearest(a: Binary64, b: Binary64, other: Binary64)
    requires
        a.finite() && !a.is_negative(),
        b.finite() && !b.is_negative(),
        other.finite(),
    ensures
        !a.product(b).is_negative() && !a.product(b).is_nan(),
        distance(
            (a.product(b).size() * power2::pow2(1074)) as int,
            (a.size() * b.size()) as int,
        ) <= distance((other.size() * power2::pow2(1074)) as int, (a.size() * b.size()) as int),
{
    let f = double();
    let p = power2::pow2(1074);
    power2::lemma_pow2_pos(1074);
    lemma_product(a, b);
    lemma_nearest_best(f, a.size() * b.size(), p, other.magnitude());
}

proof fn lemma_product(a: Binary64, b: Binary64)
    requires
        a.finite() && !a.is_negative(),
        b.finite() && !b.is_negative(),
    ensures
        ({
            let mag = nearest(double(), a.size() * b.size(), power2::pow2(1074));
            &&& a.product(b).magnitude() == mag
            &&& !a.product(b).is_negative()
            &&& !a.product(b).is_nan()
        }),
{
    lemma_nearest_exists(double(), a.size() * b.size(), power2::pow2(1074));
}

/// A product with a larger value is no less.
pub proof fn law_product_keeps_order(a: Binary64, low: Binary64, high: Binary64)
    requires
        a.finite() && !a.is_negative(),
        low.finite() && !low.is_negative(),
        high.finite() && !high.is_negative(),
        low.le(high),
    ensures
        a.product(low).le(a.product(high)),
{
    let f = double();
    let p = power2::pow2(1074);
    power2::lemma_pow2_pos(1074);
    lemma_product(a, low);
    lemma_product(a, high);
    let x = a.size() * low.size();
    let y = a.size() * high.size();
    assert(x <= y) by (nonlinear_arith)
        requires
            x == a.size() * low.size(),
            y == a.size() * high.size(),
            low.size() <= high.size(),
    ;
    assert(x * p <= y * p) by (nonlinear_arith)
        requires
            x <= y,
    ;
    lemma_nearest_grows(f, x, p, y, p);
    lemma_magnitudes(a.product(low).magnitude(), a.product(high).magnitude());
}

proof fn lemma_bits(n: nat, limit: nat) -> (k: nat)
    requires
        0 < n < power2::pow2(limit),
    ensures
        k < limit,
        power2::pow2(k) <= n < power2::pow2(k + 1),
    decreases n,
{
    power2::lemma2_to64();
    if n == 1 {
        assert(limit > 0);
        0
    } else {
        if limit == 0 {
            assert(false);
        }
        power2::lemma_pow2_adds((limit - 1) as nat, 1);
        let k = lemma_bits(n / 2, (limit - 1) as nat);
        power2::lemma_pow2_adds(k, 1);
        power2::lemma_pow2_adds(k + 1, 1);
        k + 1
    }
}

/// A whole number below two to the power of fifty-three stands for itself.
pub proof fn lemma_natural_exact(n: nat)
    requires
        n < 0x20_0000_0000_0000,
    ensures
        natural(n).finite(),
        !natural(n).is_negative(),
        natural(n).size() == n * power2::pow2(1074),
{
    let f = double();
    let p = power2::pow2(1074);
    let h: nat = 0x10_0000_0000_0000;
    power2::lemma_pow2_pos(1074);
    let mag: nat = if n == 0 {
        lemma_first_steps(f);
        assert(0 * p == 0) by (nonlinear_arith);
        0
    } else {
        power2::lemma2_to64_rest();
        let k = lemma_bits(n, 53);
        let a = power2::pow2(k);
        let b = power2::pow2((52 - k) as nat);
        power2::lemma_pow2_adds(k, (52 - k) as nat);
        power2::lemma_pow2_adds(k, 1);
        power2::lemma2_to64();
        power2::lemma_pow2_pos((52 - k) as nat);
        assert(a * b == h);
        let fraction = ((n - a) * b) as nat;
        assert(fraction < h) by (nonlinear_arith)
            requires
                fraction == (n - a) * b,
                n < a * 2,
                a * b == h,
                b > 0,
        ;
        let e = 1023 + k;
        let q = power2::pow2(1022 + k);
        power2::lemma_pow2_adds((52 - k) as nat, 1022 + k);
        assert(b * q == p);
        let mag = (e * h + fraction) as nat;
        vstd::arithmetic::div_mod::lemma_fundamental_div_mod_converse(
            mag as int,
            h as int,
            e as int,
            fraction as int,
        );
        assert(steps(f, mag) == (h + fraction) * q);
        assert((h + fraction) * q == n * p) by (nonlinear_arith)
            requires
                fraction == (n - a) * b,
                a * b == h,
                b * q == p,
        {
            assert(h + fraction == n * b);
            assert((n * b) * q == n * (b * q));
        }
        assert(e * h <= 1075 * h) by (nonlinear_arith)
            requires
                e <= 1075,
                h > 0,
        ;
        mag
    };
    assert(n * p == steps(f, mag) * 1);
    lemma_exact(f, mag, 1);
    assert(natural(n).magnitude() == mag);
}

proof fn lemma_magnitudes(a: nat, b: nat)
    requires
        a <= b,
    ensures
        steps(double(), a) <= steps(double(), b),
{
    if a < b {
        lemma_steps_grow(double(), a, b);
    }
}

proof fn lemma_total(total: int)
    requires
        total != 0,
    ensures
        total > 0 ==> ({
            let value = rounded(false, total as nat, 1);
            !value.is_negative() && value.magnitude() == nearest(double(), total as nat, 1)
        }),
        total < 0 ==> ({
            let value = rounded(true, (-total) as nat, 1);
            value.is_negative() && value.magnitude() == nearest(double(), (-total) as nat, 1)
        }),
{
    lemma_nearest_exists(double(), total as nat, 1);
    lemma_nearest_exists(double(), (-total) as nat, 1);
}

proof fn lemma_no_letter(s: Seq<char>, c: char)
    requires
        forall|i: int| 0 <= i < s.len() ==> #[trigger] s[i] != c,
    ensures
        text::find(s, seq![c]) is None,
{
    text::lemma_find(s, seq![c]);
    if let Some(i) = text::find(s, seq![c]) {
        assert(s.subrange(i, i + 1)[0] == s[i]);
    }
}

proof fn lemma_find_point(a: Seq<char>, b: Seq<char>)
    requires
        digits::all_digits(a),
    ensures
        text::cut(a + "."@ + b, "."@) == Some((a, b)),
{
    reveal_strlit(".");
    let s = a + "."@ + b;
    let k = a.len() as int;
    text::lemma_find(s, "."@);
    assert(s.subrange(k, k + 1) =~= "."@);
    assert(text::occurs_at(s, "."@, k));
    let i = text::find(s, "."@)->0;
    if i < k {
        assert(s.subrange(i, i + 1)[0] == a[i]);
        assert(text::is_digit(a[i]));
    }
    assert(s.take(k) =~= a);
    assert(s.skip(k + 1) =~= b);
}

/// The characters of a number of thousandths are digits and one point.
pub proof fn lemma_thousandths_chars(n: nat)
    ensures
        thousandths_text(n).len() > 0,
        text::is_digit(thousandths_text(n)[0]),
        text::is_digit(thousandths_text(n).last()),
        forall|i: int|
            0 <= i < thousandths_text(n).len() ==> text::is_digit(#[trigger] thousandths_text(n)[i])
                || thousandths_text(n)[i] == '.',
{
    reveal_strlit(".");
    digits::lemma_decimal(n / 1000);
    digits::lemma_decimal(n % 1000);
    digits::lemma_padded(digits::decimal(n % 1000), 3);
    let a = digits::decimal(n / 1000);
    let b = digits::padded(digits::decimal(n % 1000), 3);
    let s = thousandths_text(n);
    assert forall|i: int| 0 <= i < s.len() implies text::is_digit(#[trigger] s[i]) || s[i]
        == '.' by {
        if i < a.len() {
            assert(s[i] == a[i]);
        } else if i > a.len() {
            assert(s[i] == b[i - a.len() - 1]);
        }
    }
    assert(s[0] == a[0]);
    assert(s.last() == b.last());
}

/// What is written of a finite value that is not negative reads as the value
/// nearest to its thousandths.
pub proof fn lemma_fixed_reads(value: Binary64)
    requires
        value.finite(),
        !value.is_negative(),
    ensures
        parsed(value.fixed()) == Some(to_thousandths(value)),
{
    reveal_strlit("");
    reveal_strlit(".");
    reveal_strlit("e");
    reveal_strlit("inf");
    reveal_strlit("infinity");
    reveal_strlit("nan");
    let n = value.thousandths();
    let s = value.fixed();
    assert(s =~= thousandths_text(n));
    lemma_thousandths_chars(n);
    let a = digits::decimal(n / 1000);
    let b = digits::padded(digits::decimal(n % 1000), 3);
    digits::lemma_decimal(n / 1000);
    digits::lemma_decimal(n % 1000);
    digits::lemma_padded(digits::decimal(n % 1000), 3);
    assert(ten(3) == 1000) by {
        reveal_with_fuel(ten, 4);
    }
    digits::lemma_decimal_len(n % 1000, 3);
    assert(text::lower(s) =~= s);
    assert(s[0] != 'i' && s[0] != 'n');
    assert(forall|i: int| 0 <= i < s.len() ==> #[trigger] s[i] != 'e');
    lemma_no_letter(s, 'e');
    assert("e"@ =~= seq!['e']);
    lemma_find_point(a, b);
    digits::lemma_value_concat(a, b);
    let k = ten(b.len());
    assert((n / 1000) * k == (n / 1000) * 1000) by (nonlinear_arith)
        requires
            k == 1000,
    ;
    assert(digits::value(a + b) == n);
    assert(decimal_magnitude(double(), a, b, 0) == Some(
        nearest(double(), n * power2::pow2(1074), 1000),
    ));
}

/// Decimal digits, with or without a point among them, are read as the value
/// nearest to the number that they write, in either format.
pub proof fn law_decimal_numbers_are_read(f: Format, a: Seq<char>, b: Seq<char>)
    requires
        f.known(),
        a.len() > 0,
        digits::all_digits(a),
        digits::all_digits(b),
    ensures
        reading(f, a) == Some(
            (false, nearest(f, digits::value(a) * power2::pow2(f.unit as nat), 1)),
        ),
        b.len() > 0 ==> reading(f, a + "."@ + b) == Some(
            (
                false,
                nearest(
                    f,
                    digits::value(a + b) * power2::pow2(f.unit as nat),
                    ten(b.len()),
                ),
            ),
        ),
{
    reveal_strlit(".");
    reveal_strlit("e");
    reveal_strlit("inf");
    reveal_strlit("infinity");
    reveal_strlit("nan");
    assert("e"@ =~= seq!['e']);
    assert("."@ =~= seq!['.']);
    assert(text::is_digit(a[0]));
    assert forall|i: int| 0 <= i < a.len() implies text::is_digit(#[trigger] a[i]) by {}
    assert(text::lower(a) =~= a);
    lemma_no_letter(a, 'e');
    lemma_no_letter(a, '.');
    assert(a + Seq::<char>::empty() =~= a);
    let n = digits::value(a);
    assert(ten(0) == 1);
    assert(n * 1 == n);
    assert(scaled(f, n, 0) == nearest(f, n * power2::pow2(f.unit as nat), 1));
    assert(plain_magnitude(f, a) == decimal_magnitude(f, a, Seq::empty(), 0));
    if b.len() > 0 {
        let s = a + "."@ + b;
        assert forall|i: int| 0 <= i < s.len() implies text::is_digit(#[trigger] s[i]) || s[i]
            == '.' by {
            if i < a.len() {
                assert(s[i] == a[i]);
            } else if i > a.len() {
                assert(s[i] == b[i - a.len() - 1]);
                assert(text::is_digit(b[i - a.len() - 1]));
            }
        }
        assert(text::lower(s) =~= s);
        assert(s[0] == a[0]);
        lemma_no_letter(s, 'e');
        lemma_find_point(a, b);
        assert(plain_magnitude(f, s) == decimal_magnitude(f, a, b, 0));
    }
}

} // verus!
