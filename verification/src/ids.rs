//! Random identifiers and session codes.

use vstd::prelude::*;

use crate::digits;
use crate::text;

verus! {

pub open spec fn is_hex(c: char) -> bool {
    '0' <= c <= '9' || 'a' <= c <= 'f'
}

/// Whether a text is a random identifier in the hyphenated lower-case form.
pub open spec fn is_uuid(s: Seq<char>) -> bool {
    &&& s.len() == 36
    &&& forall|i: int|
        0 <= i < 36 ==> if i == 8 || i == 13 || i == 18 || i == 23 {
            #[trigger] s[i] == '-'
        } else {
            is_hex(s[i])
        }
    &&& s[14] == '4'
    &&& s[19] == '8' || s[19] == '9' || s[19] == 'a' || s[19] == 'b'
}

/// Draws an identifier with `uuid::Uuid::new_v4` and writes it in its display
/// form: 36 characters, hyphens at four places, lower-case hexadecimal digits
/// elsewhere, with the digits that tell version and variant. The other digits
/// are random.
#[verifier::external_body]
pub(crate) fn new_uuid() -> (r: String)
    ensures
        is_uuid(r@),
{
    uuid::Uuid::new_v4().to_string()
}

/// The value of a hexadecimal digit.
pub open spec fn hex_value(c: char) -> nat {
    if '0' <= c <= '9' {
        (c as u32 - 48) as nat
    } else {
        (c as u32 - 87) as nat
    }
}

/// The number that hexadecimal digits write.
pub open spec fn hex_number(s: Seq<char>) -> nat
    decreases s.len(),
{
    if s.len() == 0 {
        0
    } else {
        hex_number(s.drop_last()) * 16 + hex_value(s.last())
    }
}

/// The session code that the first four bytes of an identifier give: their
/// number, most significant byte first, in six decimal digits.
pub open spec fn code_of(id: Seq<char>) -> Seq<char> {
    digits::padded(digits::decimal(hex_number(id.take(8)) % 1_000_000), 6)
}

/// Whether a text is a session code.
pub open spec fn is_code(s: Seq<char>) -> bool {
    s.len() == 6 && digits::all_digits(s)
}

/// A code drawn for a session is always six digits.
pub proof fn law_code_is_six_digits(id: Seq<char>)
    ensures
        is_code(code_of(id)),
{
    let n = hex_number(id.take(8)) % 1_000_000;
    assert(crate::number::ten(6) == 1_000_000) by {
        reveal_with_fuel(crate::number::ten, 7);
    }
    digits::lemma_decimal(n);
    digits::lemma_decimal_len(n, 6);
    digits::lemma_padded(digits::decimal(n), 6);
}

/// The session code that an identifier gives.
pub fn code_from(id: &str) -> (r: String)
    requires
        is_uuid(id@),
    ensures
        r@ == code_of(id@),
        is_code(r@),
{
    let chars = text::chars_of(id);
    let mut total: u32 = 0;
    let mut i: usize = 0;
    let ghost first = id@.take(8);
    assert(first.take(0) == Seq::<char>::empty());
    while i < 8
        invariant
            i <= 8,
            chars@ == id@,
            is_uuid(id@),
            first == id@.take(8),
            total == hex_number(first.take(i as int)),
            i < 8 ==> total < 0x1000_0000,
            i == 0 ==> total == 0,
            i == 1 ==> total < 0x10,
            i == 2 ==> total < 0x100,
            i == 3 ==> total < 0x1000,
            i == 4 ==> total < 0x1_0000,
            i == 5 ==> total < 0x10_0000,
            i == 6 ==> total < 0x100_0000,
        decreases 8 - i,
    {
        let c: char = chars[i];
        assert(id@[i as int] == c);
        assert(is_hex(c));
        let d: u32 = if c <= '9' {
            c as u32 - 48
        } else {
            c as u32 - 87
        };
        assert(first.take(i + 1).drop_last() == first.take(i as int));
        assert(first.take(i + 1).last() == c);
        total = total * 16 + d;
        i += 1;
    }
    assert(first.take(8) == first);
    proof {
        law_code_is_six_digits(id@);
    }
    digits::padded_decimal((total % 1_000_000) as u64, 6)
}

/// Draws an identifier, for a participant or for a video that is played.
pub fn draw_id() -> (r: String)
    ensures
        is_uuid(r@),
{
    new_uuid()
}

/// Draws a session code.
pub fn six_digit_session_code() -> (r: String)
    ensures
        is_code(r@),
        exists|id: Seq<char>| is_uuid(id) && r@ == code_of(id),
{
    let id = new_uuid();
    code_from(id.as_str())
}

/// Whether a text that a participant entered is a session code: six decimal
/// digits.
pub fn is_session_code(s: &str) -> (r: bool)
    ensures
        r == is_code(s@),
{
    let chars = text::chars_of(s);
    if chars.len() != 6 {
        return false;
    }
    let mut i: usize = 0;
    while i < 6
        invariant
            i <= 6,
            chars@ == s@,
            chars@.len() == 6,
            forall|j: int| 0 <= j < i ==> text::is_digit(#[trigger] s@[j]),
        decreases 6 - i,
    {
        if !text::digit(chars[i]) {
            assert(!text::is_digit(s@[i as int]));
            return false;
        }
        i += 1;
    }
    true
}

} // verus!
