//! Values of 32 bits: levels of a mix and peaks of a waveform.

use vstd::arithmetic::power2;
use vstd::prelude::*;

use crate::big::Big;
use crate::number;
use crate::number::Format;

verus! {

/// A number of 32 bits in the binary interchange encoding.
#[derive(Clone, Copy, Debug)]
pub struct Binary32 {
    pub bits: u32,
}

/// The value with a sign and a magnitude.
pub open spec fn signed(negative: bool, mag: nat) -> Binary32 {
    Binary32 {
        bits: (mag + if negative {
            0x8000_0000int
        } else {
            0
        }) as u32,
    }
}

/// The result of an operation that has no value.
pub open spec fn nan() -> Binary32 {
    Binary32 { bits: 0x7fc0_0000 }
}

impl Binary32 {
    pub open spec fn is_negative(self) -> bool {
        self.bits >= 0x8000_0000
    }

    pub open spec fn magnitude(self) -> nat {
        (self.bits % 0x8000_0000) as nat
    }

    pub open spec fn finite(self) -> bool {
        self.magnitude() < number::single().inf
    }

    pub open spec fn is_nan(self) -> bool {
        self.magnitude() > number::single().inf
    }

    pub open spec fn infinite(self) -> bool {
        self.magnitude() == number::single().inf
    }

    /// The absolute value in smallest steps.
    pub open spec fn size(self) -> nat {
        number::steps(number::single(), self.magnitude())
    }

    /// The value in smallest steps.
    pub open spec fn units(self) -> int {
        if self.is_negative() {
            -(self.size() as int)
        } else {
            self.size() as int
        }
    }

    pub open spec fn lt(self, other: Binary32) -> bool {
        !self.is_nan() && !other.is_nan() && self.units() < other.units()
    }

    /// The place of the value in the total order of all encodings.
    pub open spec fn rank(self) -> int {
        if self.is_negative() {
            -1 - self.magnitude()
        } else {
            self.magnitude() as int
        }
    }

    /// The larger value; the one that is a number where only one is. Of equal
    /// values it is the second.
    pub open spec fn upper(self, other: Binary32) -> Binary32 {
        if other.is_nan() || other.lt(self) {
            self
        } else {
            other
        }
    }

    /// The smaller value; the one that is a number where only one is. Of equal
    /// values it is the second.
    pub open spec fn lower(self, other: Binary32) -> Binary32 {
        if other.is_nan() || self.lt(other) {
            self
        } else {
            other
        }
    }

    /// The value held between two bounds.
    pub open spec fn held(self, low: Binary32, high: Binary32) -> Binary32 {
        if self.lt(low) {
            low
        } else if high.lt(self) {
            high
        } else {
            self
        }
    }

    pub open spec fn absolute(self) -> Binary32 {
        signed(false, self.magnitude())
    }

    /// The correctly rounded quotient.
    pub open spec fn quotient(self, other: Binary32) -> Binary32 {
        let negative = self.is_negative() != other.is_negative();
        if self.is_nan() || other.is_nan() {
            nan()
        } else if (self.infinite() && other.infinite()) || (self.size() == 0 && other.size() == 0) {
            nan()
        } else if self.infinite() || other.size() == 0 {
            signed(negative, number::single().inf as nat)
        } else if other.infinite() {
            signed(negative, 0)
        } else {
            signed(
                negative,
                number::nearest(
                    number::single(),
                    self.size() * power2::pow2(149),
                    other.size(),
                ),
            )
        }
    }

    /// The decimal text with three digits behind the point.
    pub open spec fn fixed(self) -> Seq<char> {
        if self.is_nan() {
            "NaN"@
        } else if self.infinite() {
            if self.is_negative() {
                "-inf"@
            } else {
                "inf"@
            }
        } else {
            (if self.is_negative() {
                "-"@
            } else {
                ""@
            }) + number::thousandths_text(
                number::even_quotient(self.size() * 1000, power2::pow2(149)),
            )
        }
    }
}

fn single_format() -> (r: Format)
    ensures
        r == number::single(),
{
    Format { half: 0x80_0000, inf: 0x7f80_0000, unit: 149 }
}

proof fn lemma_size_zero(mag: nat)
    ensures
        number::steps(number::single(), 0) == 0,
        mag > 0 ==> number::steps(number::single(), mag) > 0,
{
    assert(0nat / number::single().half as nat == 0);
    if mag > 0 {
        number::lemma_steps_grow(number::single(), 0, mag);
    }
}

fn encoded(negative: bool, mag: u32) -> (r: Binary32)
    requires
        mag < 0x8000_0000,
    ensures
        r == signed(negative, mag as nat),
        r.is_negative() == negative,
        r.magnitude() == mag,
{
    if negative {
        Binary32 { bits: mag + 0x8000_0000 }
    } else {
        Binary32 { bits: mag }
    }
}

impl Binary32 {
    fn negative(self) -> (r: bool)
        ensures
            r == self.is_negative(),
    {
        self.bits >= 0x8000_0000
    }

    fn mag(self) -> (r: u32)
        ensures
            r == self.magnitude(),
            r < 0x8000_0000,
    {
        self.bits % 0x8000_0000
    }

    /// Whether the value is neither infinite nor other than a number.
    pub fn is_finite(self) -> (r: bool)
        ensures
            r == self.finite(),
    {
        self.mag() < 0x7f80_0000
    }

    fn not_a_number(self) -> (r: bool)
        ensures
            r == self.is_nan(),
    {
        self.mag() > 0x7f80_0000
    }

    /// Whether the value is below another.
    pub fn less(self, other: Binary32) -> (r: bool)
        ensures
            r == self.lt(other),
    {
        proof {
            lemma_size_zero(self.magnitude());
            lemma_size_zero(other.magnitude());
            if self.magnitude() < other.magnitude() {
                number::lemma_steps_grow(
                    number::single(),
                    self.magnitude(),
                    other.magnitude(),
                );
            }
            if other.magnitude() < self.magnitude() {
                number::lemma_steps_grow(
                    number::single(),
                    other.magnitude(),
                    self.magnitude(),
                );
            }
        }
        if self.not_a_number() || other.not_a_number() {
            false
        } else if self.negative() {
            if other.negative() {
                other.mag() < self.mag()
            } else {
                self.mag() > 0 || other.mag() > 0
            }
        } else if other.negative() {
            false
        } else {
            self.mag() < other.mag()
        }
    }

    /// Whether the value stands before another in the total order.
    pub fn ranks_before(self, other: Binary32) -> (r: bool)
        ensures
            r == (self.rank() < other.rank()),
    {
        if self.negative() {
            if other.negative() {
                other.mag() < self.mag()
            } else {
                true
            }
        } else if other.negative() {
            false
        } else {
            self.mag() < other.mag()
        }
    }

    /// The larger of two values.
    pub fn max(self, other: Binary32) -> (r: Binary32)
        ensures
            r == self.upper(other),
    {
        if other.not_a_number() || other.less(self) {
            self
        } else {
            other
        }
    }

    /// The smaller of two values.
    pub fn min(self, other: Binary32) -> (r: Binary32)
        ensures
            r == self.lower(other),
    {
        if other.not_a_number() || self.less(other) {
            self
        } else {
            other
        }
    }

    /// Holds a value between two bounds.
    pub fn clamp(self, low: Binary32, high: Binary32) -> (r: Binary32)
        requires
            !high.lt(low),
            !low.is_nan(),
            !high.is_nan(),
        ensures
            r == self.held(low, high),
    {
        if self.less(low) {
            low
        } else if high.less(self) {
            high
        } else {
            self
        }
    }

    /// The absolute value.
    pub fn abs(self) -> (r: Binary32)
        ensures
            r == self.absolute(),
    {
        encoded(false, self.mag())
    }

    fn size_of(self) -> (r: Big)
        requires
            !self.is_nan(),
        ensures
            r@ == self.size(),
    {
        number::steps_of(&single_format(), self.mag() as u64)
    }

    /// The quotient of two values.
    pub fn div(self, other: Binary32) -> (r: Binary32)
        ensures
            r == self.quotient(other),
    {
        if self.not_a_number() || other.not_a_number() {
            return Binary32 { bits: 0x7fc0_0000 };
        }
        proof {
            lemma_size_zero(self.magnitude());
            lemma_size_zero(other.magnitude());
        }
        let negative: bool = self.negative() != other.negative();
        if self.mag() == 0x7f80_0000 {
            if other.mag() == 0x7f80_0000 {
                return Binary32 { bits: 0x7fc0_0000 };
            }
            return encoded(negative, 0x7f80_0000);
        }
        if other.mag() == 0 {
            if self.mag() == 0 {
                return Binary32 { bits: 0x7fc0_0000 };
            }
            return encoded(negative, 0x7f80_0000);
        }
        if other.mag() == 0x7f80_0000 {
            return encoded(negative, 0);
        }
        let mag: u64 = number::round(
            &single_format(),
            &self.size_of().shifted(149),
            &other.size_of(),
        );
        encoded(negative, mag as u32)
    }

    /// The decimal text with three digits behind the point.
    pub fn fixed_text(self) -> (r: String)
        ensures
            r@ == self.fixed(),
    {
        if self.not_a_number() {
            return "NaN".to_owned();
        }
        if self.mag() == 0x7f80_0000 {
            if self.negative() {
                return "-inf".to_owned();
            }
            return "inf".to_owned();
        }
        let n: Big = number::rounded_even(&self.size_of().times_small(1000), 149);
        let mut out: String = if self.negative() {
            "-".to_owned()
        } else {
            "".to_owned()
        };
        let body = number::thousandths_of(&n);
        out.append(body.as_str());
        out
    }
}

/// The value that a number writes.
pub open spec fn parsed(s: Seq<char>) -> Option<Binary32> {
    match number::reading(number::single(), s) {
        Some((negative, mag)) => Some(signed(negative, mag)),
        None => None,
    }
}

/// Reads a number.
pub fn parse(s: &str) -> (r: Option<Binary32>)
    ensures
        r == parsed(s@),
{
    match number::read(&single_format(), s) {
        Some((negative, m)) => Some(encoded(negative, m as u32)),
        None => None,
    }
}

} // verus!
