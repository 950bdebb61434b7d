//! Decimal and hexadecimal text of unsigned integers.

use vstd::prelude::*;

use crate::text;

verus! {

/// The character of a digit below sixteen.
pub open spec fn digit_char(d: int) -> char {
    if d < 10 {
        (48 + d) as u8 as char
    } else {
        (87 + d) as u8 as char
    }
}

fn char_of(d: u8) -> (r: char)
    requires
        d < 16,
    ensures
        r == digit_char(d as int),
{
    if d < 10 {
        (48 + d) as char
    } else {
        (87 + d) as char
    }
}

/// The decimal digits of `n`, without leading zeros.
pub open spec fn decimal(n: nat) -> Seq<char>
    decreases n,
{
    if n < 10 {
        seq![digit_char(n as int)]
    } else {
        decimal(n / 10).push(digit_char((n % 10) as int))
    }
}

/// The lower-case hexadecimal digits of `n`, without leading zeros.
pub open spec fn hexadecimal(n: nat) -> Seq<char>
    decreases n,
{
    if n < 16 {
        seq![digit_char(n as int)]
    } else {
        hexadecimal(n / 16).push(digit_char((n % 16) as int))
    }
}

/// `s` with zeros in front up to the width.
pub open spec fn padded(s: Seq<char>, width: nat) -> Seq<char> {
    if s.len() >= width {
        s
    } else {
        Seq::new((width - s.len()) as nat, |i: int| '0') + s
    }
}

/// The decimal text of an integer.
pub fn decimal_text(n: u64) -> (r: String)
    ensures
        r@ == decimal(n as nat),
    decreases n,
{
    if n < 10 {
        let mut out: String = String::new();
        out.push(char_of(n as u8));
        assert(out@ == decimal(n as nat));
        out
    } else {
        let mut out: String = decimal_text(n / 10);
        out.push(char_of((n % 10) as u8));
        out
    }
}

/// The lower-case hexadecimal text of an integer.
pub fn hexadecimal_text(n: u64) -> (r: String)
    ensures
        r@ == hexadecimal(n as nat),
    decreases n,
{
    if n < 16 {
        let mut out: String = String::new();
        out.push(char_of(n as u8));
        assert(out@ == hexadecimal(n as nat));
        out
    } else {
        let mut out: String = hexadecimal_text(n / 16);
        out.push(char_of((n % 16) as u8));
        out
    }
}

/// Puts zeros in front of a string up to the width.
pub fn pad(s: &str, width: usize) -> (r: String)
    ensures
        r@ == padded(s@, width as nat),
{
    let n: usize = text::length(s);
    let mut out: String = String::new();
    if n < width {
        let mut i: usize = 0;
        while i < width - n
            invariant
                n < width,
                i <= width - n,
                out@ == Seq::new(i as nat, |i: int| '0'),
            decreases width - n - i,
        {
            out.push('0');
            i += 1;
            assert(out@ == Seq::new(i as nat, |i: int| '0'));
        }
    }
    out.append(s);
    assert(out@ == padded(s@, width as nat));
    out
}

/// The decimal text of an integer, with zeros in front up to the width.
pub fn padded_decimal(n: u64, width: usize) -> (r: String)
    ensures
        r@ == padded(decimal(n as nat), width as nat),
{
    pad(decimal_text(n).as_str(), width)
}

/// Whether `s` is made of decimal digits.
pub open spec fn all_digits(s: Seq<char>) -> bool {
    forall|i: int| 0 <= i < s.len() ==> text::is_digit(#[trigger] s[i])
}

/// The value of a decimal digit.
pub open spec fn digit_value(c: char) -> nat {
    (c as u32 - 48) as nat
}

/// The integer that decimal digits write.
pub open spec fn value(s: Seq<char>) -> nat
    decreases s.len(),
{
    if s.len() == 0 {
        0
    } else {
        value(s.drop_last()) * 10 + digit_value(s.last())
    }
}

/// The unsigned integer that a text writes: decimal digits, which a plus sign
/// may precede, for a value of at most `max`.
pub open spec fn unsigned(s: Seq<char>, max: nat) -> Option<nat> {
    let body = if s.len() > 0 && s[0] == '+' {
        s.skip(1)
    } else {
        s
    };
    if body.len() > 0 && all_digits(body) && value(body) <= max {
        Some(value(body))
    } else {
        None
    }
}

proof fn lemma_value_grows(s: Seq<char>, n: int)
    requires
        0 <= n <= s.len(),
    ensures
        value(s.take(n)) <= value(s),
    decreases s.len() - n,
{
    if n < s.len() {
        lemma_value_grows(s, n + 1);
        assert(s.take(n + 1).drop_last() == s.take(n));
    } else {
        assert(s.take(n) == s);
    }
}

fn parse_unsigned(s: &str, max: u64) -> (r: Option<u64>)
    ensures
        match r {
            Some(n) => unsigned(s@, max as nat) == Some(n as nat),
            None => unsigned(s@, max as nat) is None,
        },
{
    let chars = text::chars_of(s);
    let from: usize = if chars.len() > 0 && chars[0] == '+' {
        1
    } else {
        0
    };
    let ghost body = s@.skip(from as int);
    assert(s@.skip(0) == s@);
    if from == chars.len() {
        return None;
    }
    let mut total: u64 = 0;
    let mut i: usize = from;
    assert(body.take(0) == Seq::<char>::empty());
    while i < chars.len()
        invariant
            from <= i <= chars@.len(),
            body == chars@.skip(from as int),
            chars@ == s@,
            from == 0 ==> body == s@,
            from == 1 ==> body == s@.skip(1),
            (s@.len() > 0 && s@[0] == '+') == (from == 1),
            from <= 1,
            total == value(body.take(i - from)),
            total <= max,
            forall|j: int| 0 <= j < i - from ==> text::is_digit(#[trigger] body[j]),
        decreases chars@.len() - i,
    {
        let c: char = chars[i];
        assert(body[i - from] == c);
        if !text::digit(c) {
            assert(!all_digits(body));
            return None;
        }
        let d: u64 = (c as u32 - 48) as u64;
        let wide: u128 = total as u128 * 10 + d as u128;
        proof {
            assert(body.take(i - from + 1).drop_last() == body.take(i - from));
            assert(body.take(i - from + 1).last() == c);
            assert(wide == value(body.take(i - from + 1)));
            lemma_value_grows(body, i - from + 1);
        }
        if wide > max as u128 {
            return None;
        }
        total = wide as u64;
        i += 1;
    }
    assert(body.take(i - from) == body);
    Some(total)
}

/// Reads an unsigned 64-bit integer.
pub fn parse_u64(s: &str) -> (r: Option<u64>)
    ensures
        match r {
            Some(n) => unsigned(s@, u64::MAX as nat) == Some(n as nat),
            None => unsigned(s@, u64::MAX as nat) is None,
        },
{
    parse_unsigned(s, u64::MAX)
}

/// Reads an unsigned 32-bit integer.
pub fn parse_u32(s: &str) -> (r: Option<u32>)
    ensures
        match r {
            Some(n) => unsigned(s@, u32::MAX as nat) == Some(n as nat),
            None => unsigned(s@, u32::MAX as nat) is None,
        },
{
    match parse_unsigned(s, u32::MAX as u64) {
        Some(n) => Some(n as u32),
        None => None,
    }
}

/// The decimal text of a number is made of digits, and writes the number.
pub proof fn lemma_decimal(n: nat)
    ensures
        decimal(n).len() > 0,
        all_digits(decimal(n)),
        value(decimal(n)) == n,
    decreases n,
{
    reveal_with_fuel(value, 2);
    if n >= 10 {
        lemma_decimal(n / 10);
        let front = decimal(n / 10);
        let all = decimal(n);
        assert(all.drop_last() =~= front);
        assert forall|i: int| 0 <= i < all.len() implies text::is_digit(#[trigger] all[i]) by {
            if i < front.len() {
                assert(all[i] == front[i]);
            }
        }
    } else {
        let all = decimal(n);
        assert(all.drop_last() =~= Seq::<char>::empty());
    }
}

/// Numbers with the same decimal text are the same.
pub proof fn lemma_decimal_injective(a: nat, b: nat)
    requires
        decimal(a) == decimal(b),
    ensures
        a == b,
{
    lemma_decimal(a);
    lemma_decimal(b);
}

/// The decimal text of a number below ten to a power has no more digits.
pub proof fn lemma_decimal_len(n: nat, k: nat)
    requires
        k > 0,
        n < crate::number::ten(k),
    ensures
        decimal(n).len() <= k,
    decreases n,
{
    if n >= 10 {
        assert(k > 1) by {
            reveal_with_fuel(crate::number::ten, 2);
        }
        lemma_decimal_len(n / 10, (k - 1) as nat);
    }
}

/// The digits of two texts in a row.
pub proof fn lemma_value_concat(a: Seq<char>, b: Seq<char>)
    ensures
        value(a + b) == value(a) * crate::number::ten(b.len()) + value(b),
    decreases b.len(),
{
    if b.len() == 0 {
        assert(a + b =~= a);
        assert(value(a) * 1 == value(a));
    } else {
        lemma_value_concat(a, b.drop_last());
        assert((a + b).drop_last() =~= a + b.drop_last());
        assert((a + b).last() == b.last());
        let t = crate::number::ten((b.len() - 1) as nat);
        assert((value(a) * t + value(b.drop_last())) * 10 == value(a) * (10 * t) + value(
            b.drop_last(),
        ) * 10) by (nonlinear_arith);
    }
}

proof fn lemma_zeros(n: nat)
    ensures
        value(Seq::new(n, |i: int| '0')) == 0,
    decreases n,
{
    if n > 0 {
        let zeros = Seq::new(n, |i: int| '0');
        lemma_zeros((n - 1) as nat);
        assert(zeros.drop_last() =~= Seq::new((n - 1) as nat, |i: int| '0'));
    }
}

/// Zeros in front change neither the kind nor the value of digits.
pub proof fn lemma_padded(s: Seq<char>, width: nat)
    requires
        all_digits(s),
    ensures
        all_digits(padded(s, width)),
        value(padded(s, width)) == value(s),
        padded(s, width).len() == if s.len() < width {
            width
        } else {
            s.len()
        },
{
    if s.len() < width {
        let zeros = Seq::new((width - s.len()) as nat, |i: int| '0');
        lemma_zeros((width - s.len()) as nat);
        lemma_value_concat(zeros, s);
        assert(0 * crate::number::ten(s.len()) == 0);
        let all = padded(s, width);
        assert forall|i: int| 0 <= i < all.len() implies text::is_digit(#[trigger] all[i]) by {
            if i >= zeros.len() {
                assert(all[i] == s[i - zeros.len()]);
            }
        }
    }
}

} // verus!
