//! Stable fingerprints of source files.

use vstd::prelude::*;

use crate::chapters::EMBEDDED_CHAPTER_IMPORT_VERSION;
use crate::digits;

verus! {

/// The FNV-1a hash of bytes, in 64 bits.
pub open spec fn fnv1a(bytes: Seq<u8>) -> u64
    decreases bytes.len(),
{
    if bytes.len() == 0 {
        0xcbf2_9ce4_8422_2325
    } else {
        (((fnv1a(bytes.drop_last()) ^ (bytes.last() as u64)) * 0x100_0000_01b3)
            % 0x1_0000_0000_0000_0000) as u64
    }
}

/// The FNV-1a hash of the bytes of a text.
pub fn stable_fnv1a(value: &str) -> (r: u64)
    ensures
        r == fnv1a(utf8(value@)),
{
    let bytes = value.as_bytes();
    let mut hash: u64 = 0xcbf2_9ce4_8422_2325;
    let mut i: usize = 0;
    assert(bytes@.take(0) == Seq::<u8>::empty());
    while i < bytes.len()
        invariant
            i <= bytes@.len(),
            hash == fnv1a(bytes@.take(i as int)),
        decreases bytes@.len() - i,
    {
        let mixed: u64 = hash ^ (bytes[i] as u64);
        let wide: u128 = mixed as u128 * 0x100_0000_01b3;
        proof {
            assert(bytes@.take(i + 1).drop_last() == bytes@.take(i as int));
        }
        hash = (wide % 0x1_0000_0000_0000_0000) as u64;
        i += 1;
    }
    assert(bytes@.take(i as int) == bytes@);
    hash
}

/// A step of the hash loses nothing: the factor is odd.
proof fn lemma_step_tells(a: u64, b: u64)
    requires
        (a * 0x100_0000_01b3) % 0x1_0000_0000_0000_0000 == (b * 0x100_0000_01b3)
            % 0x1_0000_0000_0000_0000,
    ensures
        a == b,
{
    let r = (a * 0x100_0000_01b3) % 0x1_0000_0000_0000_0000;
    lemma_step_back(a as int, r);
    lemma_step_back(b as int, r);
}

/// The inverse of the factor takes a step back.
proof fn lemma_step_back(a: int, r: int)
    requires
        0 <= a < 0x1_0000_0000_0000_0000,
        r == (a * 0x100_0000_01b3) % 0x1_0000_0000_0000_0000,
    ensures
        (r * 0xce96_5057_aff6_957b) % 0x1_0000_0000_0000_0000 == a,
{
    let m: int = 0x1_0000_0000_0000_0000;
    let inverse: int = 0xce96_5057_aff6_957b;
    let q = (a * 0x100_0000_01b3) / m;
    let k = a * 887285111055 - q * inverse;
    assert(a * 0x100_0000_01b3 == q * m + r);
    assert(r * inverse == k * m + a) by (nonlinear_arith)
        requires
            a * 0x100_0000_01b3 == q * m + r,
            m == 0x1_0000_0000_0000_0000,
            inverse == 0xce96_5057_aff6_957b,
            k == a * 887285111055 - q * inverse,
    ;
    vstd::arithmetic::div_mod::lemma_fundamental_div_mod_converse(r * inverse, m, k, a);
}

proof fn lemma_mix_tells(h: u64, g: u64, x: u64, y: u64)
    requires
        h ^ x == g ^ y,
    ensures
        h == g ==> x == y,
        x == y ==> h == g,
{
    assert(h == g ==> x == y) by (bit_vector)
        requires
            h ^ x == g ^ y,
    ;
    assert(x == y ==> h == g) by (bit_vector)
        requires
            h ^ x == g ^ y,
    ;
}

/// Bytes that differ in one place, and in no other, have different hashes.
pub proof fn law_hash_tells_one_byte(a: Seq<u8>, b: Seq<u8>, at: int)
    requires
        a.len() == b.len(),
        0 <= at < a.len(),
        a[at] != b[at],
        forall|i: int| 0 <= i < a.len() && i != at ==> #[trigger] a[i] == b[i],
    ensures
        fnv1a(a) != fnv1a(b),
    decreases a.len(),
{
    let h = fnv1a(a.drop_last());
    let g = fnv1a(b.drop_last());
    let x = a.last() as u64;
    let y = b.last() as u64;
    if at == a.len() - 1 {
        assert(a.drop_last() =~= b.drop_last());
    } else {
        law_hash_tells_one_byte(a.drop_last(), b.drop_last(), at);
    }
    if fnv1a(a) == fnv1a(b) {
        lemma_step_tells(h ^ x, g ^ y);
        lemma_mix_tells(h, g, x, y);
    }
}

/// Hashes that differ still do when the same bytes follow.
pub proof fn law_hash_keeps_differences(a: Seq<u8>, b: Seq<u8>, more: Seq<u8>)
    requires
        fnv1a(a) != fnv1a(b),
    ensures
        fnv1a(a + more) != fnv1a(b + more),
    decreases more.len(),
{
    if more.len() == 0 {
        assert(a + more =~= a);
        assert(b + more =~= b);
    } else {
        law_hash_keeps_differences(a, b, more.drop_last());
        assert((a + more).drop_last() =~= a + more.drop_last());
        assert((b + more).drop_last() =~= b + more.drop_last());
        let h = fnv1a(a + more.drop_last());
        let g = fnv1a(b + more.drop_last());
        let x = more.last() as u64;
        if fnv1a(a + more) == fnv1a(b + more) {
            lemma_step_tells(h ^ x, g ^ x);
            lemma_mix_tells(h, g, x, x);
        }
    }
}

/// The size and the time of the last change of a file.
pub struct FileStamp {
    pub size: u64,
    /// Whole seconds from the epoch.
    pub seconds: u64,
    /// Nanoseconds within the second.
    pub nanos: u32,
}

/// The text that tells the content of a file from others.
pub open spec fn stamp_text(stamp: FileStamp) -> Seq<char> {
    digits::decimal(stamp.size as nat) + "\0"@ + digits::decimal(stamp.seconds as nat) + "\0"@
        + digits::decimal(stamp.nanos as nat)
}

/// The UTF-8 bytes of a text.
pub open spec fn utf8(s: Seq<char>) -> Seq<u8> {
    vstd::utf8::encode_utf8(s)
}

/// The sixteen hexadecimal digits of the hash of a text.
pub open spec fn digest(s: Seq<char>) -> Seq<char> {
    digits::padded(digits::hexadecimal(fnv1a(utf8(s)) as nat), 16)
}

pub(crate) fn write_stamp(stamp: &FileStamp) -> (r: String)
    ensures
        r@ == stamp_text(*stamp),
{
    let mut out: String = digits::decimal_text(stamp.size);
    out.append("\0");
    out.append(digits::decimal_text(stamp.seconds).as_str());
    out.append("\0");
    out.append(digits::decimal_text(stamp.nanos as u64).as_str());
    out
}

pub(crate) fn digest_text(s: &str) -> (r: String)
    ensures
        r@ == digest(s@),
{
    digits::pad(digits::hexadecimal_text(stable_fnv1a(s)).as_str(), 16)
}

/// The fingerprint under which the chapters of a video are imported.
pub fn embedded_chapter_fingerprint(stamp: &FileStamp) -> (r: String)
    ensures
        r@ == digest(EMBEDDED_CHAPTER_IMPORT_VERSION@ + "\0"@ + stamp_text(*stamp)),
{
    let mut identity: String = EMBEDDED_CHAPTER_IMPORT_VERSION.to_owned();
    identity.append("\0");
    identity.append(write_stamp(stamp).as_str());
    digest_text(identity.as_str())
}

} // verus!
