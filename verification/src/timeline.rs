//! Times and entries as they stand on the timeline.

use vstd::arithmetic::power2;
use vstd::prelude::*;

use crate::chapters;
use crate::chapters::Chapter;
use crate::clock;
use crate::digits;
use crate::entries;
use crate::gemini;
use crate::imports;
use crate::laws;
use crate::markdown;
use crate::marks;
use crate::number;
use crate::number::Binary64;
use crate::roundtrip;
use crate::speech;
use crate::summaries;
use crate::text;
use crate::transcript;
use crate::wording;

verus! {

// ---------------------------------------------------------------------------
// Times
// ---------------------------------------------------------------------------

/// The hours, minutes and seconds of a stamp are those of its time: there are
/// less than sixty minutes and seconds, with two digits each at least.
pub proof fn law_stamps_tell_the_time(total: nat) -> (r: (Seq<char>, Seq<char>, Seq<char>))
    ensures
        clock::stamp(total) == r.0 + ":"@ + r.1 + ":"@ + r.2,
        digits::all_digits(r.0) && digits::all_digits(r.1) && digits::all_digits(r.2),
        r.0.len() >= 2 && r.1.len() == 2 && r.2.len() == 2,
        3600 * digits::value(r.0) + 60 * digits::value(r.1) + digits::value(r.2) == total,
        digits::value(r.1) < 60,
        digits::value(r.2) < 60,
{
    let h = digits::decimal(total / 3600);
    let m = digits::decimal((total % 3600) / 60);
    let s = digits::decimal(total % 60);
    digits::lemma_decimal(total / 3600);
    digits::lemma_decimal((total % 3600) / 60);
    digits::lemma_decimal(total % 60);
    digits::lemma_padded(h, 2);
    digits::lemma_padded(m, 2);
    digits::lemma_padded(s, 2);
    assert(number::ten(2) == 100) by {
        reveal_with_fuel(number::ten, 3);
    }
    digits::lemma_decimal_len((total % 3600) / 60, 2);
    digits::lemma_decimal_len(total % 60, 2);
    (digits::padded(h, 2), digits::padded(m, 2), digits::padded(s, 2))
}

/// Behind the seconds of a precise stamp stand three digits of milliseconds.
pub proof fn law_precise_stamps_tell_the_time(total: nat, point: Seq<char>) -> (millis: Seq<char>)
    ensures
        clock::precise_stamp(total, point) == clock::stamp(total / 1000) + point + millis,
        digits::all_digits(millis),
        millis.len() == 3,
        1000 * (total / 1000) + digits::value(millis) == total,
{
    digits::lemma_decimal(total % 1000);
    digits::lemma_padded(digits::decimal(total % 1000), 3);
    assert(number::ten(3) == 1000) by {
        reveal_with_fuel(number::ten, 4);
    }
    digits::lemma_decimal_len(total % 1000, 3);
    digits::padded(digits::decimal(total % 1000), 3)
}

/// A time is told in the whole number nearest to it, as far as there are
/// numbers of 64 bits.
pub proof fn law_whole_numbers_are_nearest(value: Binary64)
    requires
        value.finite(),
        !value.is_negative(),
        value.whole() < u64::MAX,
    ensures
        2 * value.units() <= 2 * (value.whole() * power2::pow2(1074)) + power2::pow2(1074),
        2 * (value.whole() * power2::pow2(1074)) <= 2 * value.units() + power2::pow2(1074),
{
    let p = power2::pow2(1074);
    power2::lemma_pow2_pos(1074);
    power2::lemma_pow2_adds(1074, 1);
    power2::lemma2_to64();
    let d = power2::pow2(1075);
    assert(d == 2 * p);
    let x = value.size();
    let top = 2 * x + p;
    let n = top / d;
    assert(n == value.whole());
    vstd::arithmetic::div_mod::lemma_fundamental_div_mod(top as int, d as int);
    assert(d * n == 2 * (n * p)) by (nonlinear_arith)
        requires
            d == 2 * p,
    ;
}

/// The milliseconds of a time are the whole number nearest to a thousand times
/// the time, which is rounded once itself.
pub proof fn law_milliseconds_are_nearest(seconds: Binary64, other: Binary64) -> (product: Binary64)
    requires
        seconds.finite(),
        other.finite(),
    ensures
        clock::whole_milliseconds(seconds) == product.whole(),
        number::distance(
            (product.size() * power2::pow2(1074)) as int,
            speech::later(0, seconds.units()) * (1000 * power2::pow2(1074)),
        ) <= number::distance(
            (other.size() * power2::pow2(1074)) as int,
            speech::later(0, seconds.units()) * (1000 * power2::pow2(1074)),
        ),
{
    let from = clock::from_start(seconds);
    speech::law_times_are_held(seconds);
    laws::lemma_from_start(seconds);
    number::lemma_natural_exact(1000);
    number::law_product_is_nearest(from, number::natural(1000), other);
    from.product(number::natural(1000))
}

proof fn lemma_product_of_naturals(a: nat, b: nat)
    requires
        a < 0x20_0000_0000_0000,
        b < 0x20_0000_0000_0000,
        a * b < 0x20_0000_0000_0000,
    ensures
        number::natural(a).product(number::natural(b)) == number::natural(a * b),
{
    let f = number::double();
    let p = power2::pow2(1074);
    power2::lemma_pow2_pos(1074);
    number::lemma_natural_exact(a);
    number::lemma_natural_exact(b);
    number::lemma_natural_exact(a * b);
    let c = number::natural(a * b);
    number::lemma_exact(f, c.magnitude(), p);
    assert((a * p) * (b * p) == ((a * b) * p) * p) by (nonlinear_arith);
    let v = number::natural(a).product(number::natural(b));
    assert(v.magnitude() == c.magnitude());
    assert(v.bits == c.bits);
}

proof fn lemma_sum_of_naturals(a: nat, b: nat)
    requires
        a + b < 0x20_0000_0000_0000,
    ensures
        number::natural(a).sum(number::natural(b)) == number::natural(a + b),
{
    let f = number::double();
    let p = power2::pow2(1074);
    power2::lemma_pow2_pos(1074);
    number::lemma_natural_exact(a);
    number::lemma_natural_exact(b);
    number::lemma_natural_exact(a + b);
    let c = number::natural(a + b);
    number::lemma_exact(f, c.magnitude(), 1);
    assert(a * p + b * p == (a + b) * p) by (nonlinear_arith);
    let v = number::natural(a).sum(number::natural(b));
    number::lemma_size_zero(c.magnitude());
    assert(c.size() * 1 == c.size());
    if a + b == 0 {
        assert(c.size() == 0) by (nonlinear_arith)
            requires
                c.size() == (a + b) * p,
                a + b == 0,
        ;
        assert(c.magnitude() == 0);
        assert(v.bits == c.bits);
    } else {
        assert(c.size() > 0) by (nonlinear_arith)
            requires
                c.size() == (a + b) * p,
                a + b > 0,
                p > 0,
        ;
        assert(v == number::signed(false, c.magnitude()));
        assert(v.bits == c.bits);
    }
}

proof fn lemma_parsed_whole(s: Seq<char>)
    requires
        s.len() > 0,
        digits::all_digits(s),
    ensures
        number::parsed(s) == Some(number::natural(digits::value(s))),
{
    number::law_decimal_numbers_are_read(number::double(), s, Seq::empty());
}

/// Numbers with colons between them come back from a stamp.
proof fn lemma_stamp_parts(h: Seq<char>, m: Seq<char>, s: Seq<char>)
    requires
        h.len() > 0,
        digits::all_digits(h),
        digits::all_digits(m),
        s.len() > 0,
        forall|i: int| 0 <= i < s.len() ==> text::is_digit(#[trigger] s[i]) || s[i] == '.',
    ensures
        ({
            let stamp = h + ":"@ + m + ":"@ + s;
            text::pieces(text::replaced(text::trimmed(stamp), ","@, "."@), ":"@) == seq![h, m, s]
        }),
{
    reveal_strlit(":");
    reveal_strlit(",");
    let stamp = h + ":"@ + m + ":"@ + s;
    assert forall|i: int| 0 <= i < stamp.len() implies text::is_digit(#[trigger] stamp[i])
        || stamp[i] == ':' || stamp[i] == '.' by {
        if i < h.len() {
            assert(stamp[i] == h[i]);
            assert(text::is_digit(h[i]));
        } else if h.len() < i < h.len() + 1 + m.len() {
            assert(stamp[i] == m[i - h.len() - 1]);
            assert(text::is_digit(m[i - h.len() - 1]));
        } else if i > h.len() + 1 + m.len() {
            assert(stamp[i] == s[i - h.len() - m.len() - 2]);
        }
    }
    laws::lemma_trimmed_keeps(stamp);
    roundtrip::lemma_lacks(stamp, ","@, 0);
    roundtrip::lemma_replaced_keeps(stamp, ","@, "."@);
    let parts = seq![h, m, s];
    assert(":"@ =~= seq![':']);
    let two = seq![h, m];
    assert(parts.drop_last() =~= two);
    assert(two.drop_last() =~= seq![h]);
    assert(text::joined(seq![h], ":"@) == h);
    assert(text::joined(two, ":"@) == h + ":"@ + m);
    assert(text::joined(parts, ":"@) =~= stamp);
    assert forall|i: int| 0 <= i < parts.len() implies !(#[trigger] parts[i]).contains(':') by {
        let part = parts[i];
        if part.contains(':') {
            let k = choose|k: int| 0 <= k < part.len() && part[k] == ':';
            if i < 2 {
                assert(text::is_digit(part[k]));
            } else {
                assert(text::is_digit(s[k]) || s[k] == '.');
            }
        }
    }
    wording::law_joined_parts_come_back(parts, ':');
}

/// Hours, minutes and seconds make up a whole number of seconds.
proof fn lemma_whole_clock(a: nat, b: nat, c: nat)
    requires
        3600 * a + 60 * b + c < 0x20_0000_0000_0000,
    ensures
        number::natural(a).product(number::natural(3600)).sum(
            number::natural(b).product(number::natural(60)),
        ) == number::natural(3600 * a + 60 * b),
        clock::clock_sum(number::natural(a), number::natural(b), number::natural(c))
            == number::natural(3600 * a + 60 * b + c),
{
    assert(a * 3600 == 3600 * a && b * 60 == 60 * b);
    lemma_product_of_naturals(a, 3600);
    lemma_product_of_naturals(b, 60);
    lemma_sum_of_naturals(3600 * a, 60 * b);
    lemma_sum_of_naturals(3600 * a + 60 * b, c);
}

/// A stamp in whole seconds reads back as the time that it tells.
#[verifier::rlimit(40)]
pub proof fn law_stamps_read_back(total: nat)
    requires
        total < 0x20_0000_0000_0000,
    ensures
        clock::stamp_value(clock::stamp(total)) == Some(number::natural(total)),
{
    let (h, m, s) = law_stamps_tell_the_time(total);
    assert forall|i: int| 0 <= i < s.len() implies text::is_digit(#[trigger] s[i]) || s[i]
        == '.' by {}
    lemma_stamp_parts(h, m, s);
    lemma_parsed_whole(h);
    lemma_parsed_whole(m);
    lemma_parsed_whole(s);
    let parts = seq![h, m, s];
    assert(parts[0] == h && parts[1] == m && parts[2] == s);
    lemma_whole_clock(digits::value(h), digits::value(m), digits::value(s));
}

/// A stamp with milliseconds behind a point or a comma, as in a file of
/// subtitles, reads as the number nearest to the whole minutes and the seconds
/// that it tells, which are rounded once themselves.
#[verifier::rlimit(40)]
pub proof fn law_precise_stamps_read_back(total: nat) -> (r: (nat, Binary64))
    requires
        total < 0x20_0000_0000_0000,
    ensures
        r.0 % 60 == 0,
        1000 * r.0 <= total < 1000 * r.0 + 60_000,
        r.1 == number::rounded(
            false,
            ((total - 1000 * r.0) * power2::pow2(1074)) as nat,
            1000,
        ),
        clock::stamp_value(clock::precise_stamp(total, "."@)) == Some(
            number::natural(r.0).sum(r.1),
        ),
{
    reveal_strlit(".");
    let whole = total / 1000;
    let (h, m, s) = law_stamps_tell_the_time(whole);
    let millis = law_precise_stamps_tell_the_time(total, "."@);
    let tail = s + "."@ + millis;
    assert(clock::precise_stamp(total, "."@) =~= h + ":"@ + m + ":"@ + tail);
    assert forall|i: int| 0 <= i < tail.len() implies text::is_digit(#[trigger] tail[i]) || tail[i]
        == '.' by {
        if i < s.len() {
            assert(tail[i] == s[i]);
            assert(text::is_digit(s[i]));
        } else if i > s.len() {
            assert(tail[i] == millis[i - s.len() - 1]);
            assert(text::is_digit(millis[i - s.len() - 1]));
        }
    }
    lemma_stamp_parts(h, m, tail);
    lemma_parsed_whole(h);
    lemma_parsed_whole(m);
    number::law_decimal_numbers_are_read(number::double(), s, millis);
    digits::lemma_value_concat(s, millis);
    assert(number::ten(3) == 1000) by {
        reveal_with_fuel(number::ten, 4);
    }
    let a = digits::value(h);
    let b = digits::value(m);
    let c = digits::value(s);
    assert(digits::value(s + millis) == c * 1000 + digits::value(millis));
    let parts = seq![h, m, tail];
    assert(parts[0] == h && parts[1] == m && parts[2] == tail);
    let minutes = 3600 * a + 60 * b;
    lemma_whole_clock(a, b, 0);
    assert(digits::value(s + millis) == total - 1000 * minutes);
    (minutes, number::rounded(false, ((total - 1000 * minutes) * power2::pow2(1074)) as nat, 1000))
}

/// Bounds are taken where both are numbers and the end lies behind the start,
/// which is held at the start of the video or later; they are kept as they are.
pub proof fn law_bounds_are_checked(start: Binary64, end: Binary64)
    ensures
        clock::cue_bounds(start, end) is Ok <==> start.finite() && end.finite() && speech::later(
            0,
            start.units(),
        ) < end.units(),
        clock::cue_bounds(start, end) is Ok ==> clock::cue_bounds(start, end)->Ok_0.0.units()
            == speech::later(0, start.units()) && clock::cue_bounds(start, end)->Ok_0.1 == end,
        entries::mark_bounds(start, end) is Ok <==> clock::cue_bounds(start, end) is Ok,
        entries::mark_bounds(start, end) is Ok ==> entries::mark_bounds(start, end)->Ok_0
            == clock::cue_bounds(start, end)->Ok_0,
{
    if start.finite() {
        speech::law_times_are_held(start);
    }
}

/// The range of an analysis starts where it is asked to, at the start of the
/// video at the earliest, and ends where it is asked to, but no earlier than it
/// starts.
pub proof fn law_ranges_are_held(start: Binary64, end: Binary64)
    requires
        start.finite(),
        end.finite(),
    ensures
        transcript::range_bounds(start, end).0.units() == speech::later(0, start.units()),
        transcript::range_bounds(start, end).1.units() == speech::later(
            transcript::range_bounds(start, end).0.units(),
            end.units(),
        ),
        entries::usable_time(start).units() == speech::later(0, start.units()),
{
    speech::law_times_are_held(start);
}

// ---------------------------------------------------------------------------
// Words
// ---------------------------------------------------------------------------

/// Words that are clean are kept as they are, up to seven hundred characters.
pub proof fn law_clean_words_are_kept(words: Seq<char>)
    requires
        0 < words.len() <= 700,
        roundtrip::tidy(words),
        words.last() != ' ',
        !text::contains(words, "<!--"@),
        !text::contains(words, "-->"@),
    ensures
        markdown::entry_text(words) == words,
{
    reveal_strlit("\r\n");
    let plain = |c: char| c == ' ' || !text::is_white(c);
    let set = "\r\n"@;
    assert(set[0] == '\r' && set[1] == '\n');
    assert forall|i: int| 0 <= i < words.len() implies !text::among(set)(#[trigger] words[i]) by {
        assert(plain(words[i]));
    }
    roundtrip::lemma_mapped_keeps(words, text::among(set), " "@);
    roundtrip::lemma_replaced_keeps(words, "<!--"@, ""@);
    roundtrip::lemma_replaced_keeps(words, "-->"@, ""@);
    roundtrip::lemma_collapsed_tidy(words);
    assert(text::head(words, 700) =~= words);
}

/// A name that is clean is kept as it is, up to forty-eight characters.
pub proof fn law_clean_names_are_kept(name: Seq<char>, fallback: Seq<char>)
    requires
        0 < name.len() <= 48,
        roundtrip::tidy(name),
        name.last() != ' ',
        !name.contains('"'),
        !text::contains(name, "<!--"@),
        !text::contains(name, "-->"@),
    ensures
        markdown::metadata(name, fallback) == name,
{
    reveal_strlit("\r\n\"");
    let plain = |c: char| c == ' ' || !text::is_white(c);
    let set = "\r\n\""@;
    assert(set[0] == '\r' && set[1] == '\n' && set[2] == '"');
    assert forall|i: int| 0 <= i < name.len() implies !text::among(set)(#[trigger] name[i]) by {
        assert(plain(name[i]));
        assert(name.contains(name[i]));
    }
    roundtrip::lemma_mapped_keeps(name, text::among(set), ""@);
    roundtrip::lemma_replaced_keeps(name, "<!--"@, ""@);
    roundtrip::lemma_replaced_keeps(name, "-->"@, ""@);
    roundtrip::lemma_collapsed_tidy(name);
    assert(text::head(name, 48) =~= name);
}

/// Where no words are given, an entry is called untitled, and a name is the
/// one that stands for it.
pub proof fn law_missing_words_are_filled(fallback: Seq<char>)
    ensures
        markdown::entry_text(Seq::empty()) == "Untitled note"@,
        markdown::metadata(Seq::empty(), fallback) == fallback,
{
    let none = Seq::<char>::empty();
    text::lemma_find(none, "<!--"@);
    text::lemma_find(none, "-->"@);
    reveal_strlit("<!--");
    reveal_strlit("-->");
    roundtrip::lemma_replaced_keeps(none, "<!--"@, ""@);
    roundtrip::lemma_replaced_keeps(none, "-->"@, ""@);
    assert(text::mapped(none, text::among("\r\n"@), " "@) == none);
    assert(text::mapped(none, text::among("\r\n\""@), ""@) == none);
    assert(text::words(none) =~= Seq::<Seq<char>>::empty());
    assert(text::collapsed(none) =~= none);
}

// ---------------------------------------------------------------------------
// Entries
// ---------------------------------------------------------------------------

/// Whether a line of the timeline shows a time and words.
pub open spec fn shows(line: Seq<char>, time: Seq<char>, words: Seq<char>) -> bool {
    &&& chapters::bracketed(line) == Some(time)
    &&& text::trimmed(entries::entry_body(line)) == words
}

/// Whether the comment of a line gives a bound.
pub open spec fn bounded(line: Seq<char>, name: Seq<char>, value: Binary64) -> bool {
    markdown::number_attribute(entries::comment(line), name) == Some(
        number::to_thousandths(value),
    )
}

/// The words and the comment of a line: `inside` stands in its bracket, and
/// `marker` begins its comment.
#[verifier::rlimit(40)]
proof fn lemma_entry_line(
    inside: Seq<char>,
    words: Seq<char>,
    marker: Seq<char>,
    attributes: Seq<char>,
)
    requires
        forall|i: int| 0 <= i < inside.len() ==> #[trigger] inside[i] != ']' && inside[i] != '<',
        words.len() > 0,
        text::trimmed(words) == words,
        !text::contains(words, "<!--"@),
    ensures
        ({
            let line = ("- ["@ + inside) + ("]"@ + ((" "@ + words) + ((" <!-- "@ + marker)
                + attributes)));
            &&& shows(line, inside, words)
            &&& entries::comment(line) == ("<!-- "@ + marker) + attributes
            &&& text::find(line, "<!--"@) == Some(inside.len() + 6int + words.len())
        }),
{
    reveal_strlit("- [");
    reveal_strlit("]");
    reveal_strlit(" ");
    reveal_strlit(" <!-- ");
    reveal_strlit("<!-- ");
    reveal_strlit("<!--");
    let rest = (" <!-- "@ + marker) + attributes;
    let tail = (" "@ + words) + rest;
    let line = ("- ["@ + inside) + ("]"@ + tail);
    marks::lemma_bracketed(inside, tail);
    let head = "- ["@ + inside + "]"@;
    assert(line =~= head + tail);
    assert forall|i: int| 0 <= i < head.len() - 1 implies #[trigger] head[i] != ']' by {
        if i >= 3 {
            assert(head[i] == inside[i - 3]);
        }
    }
    roundtrip::lemma_first_close(head, tail);
    let front = head + " "@;
    assert(line =~= front + (words + rest));
    assert(text::all_in(front, |c: char| c != '<')) by {
        assert forall|i: int| 0 <= i < front.len() implies #[trigger] front[i] != '<' by {
            if 3 <= i < 3 + inside.len() {
                assert(front[i] == inside[i - 3]);
            }
        }
    }
    assert(rest.take(6) =~= " <!-- "@);
    entries::lemma_opening(words, 0);
    if let Some(k) = entries::opening(words, 0) {
        assert(text::occurs_at(words, "<!--"@, k));
    }
    summaries::lemma_first_opening(front, words, rest);
    assert(rest.skip(1) =~= ("<!-- "@ + marker) + attributes);
    let at = front.len() + words.len() + 1int;
    assert(line.subrange(at, at + 4) =~= "<!--"@);
    assert(text::occurs_at(line, "<!--"@, at));
    text::lemma_find(line, "<!--"@);
    let k = text::find(line, "<!--"@)->0;
    if k < at {
        assert(line.subrange(k, k + 4)[0] == line[k]);
        if k < front.len() {
            assert(line[k] == front[k]);
        } else if k < front.len() + words.len() {
            summaries::lemma_occurs_within(front, words, rest, "<!--"@, k - front.len());
            assert(text::occurs_at(words, "<!--"@, k - front.len()));
        } else {
            assert(line[k] == rest[0]);
        }
        assert(false);
    }
    roundtrip::lemma_trimmed_spaced(words);
    assert(entries::entry_body(line) =~= " "@ + words + " "@);
}

proof fn lemma_bound_reads(
    marker: Seq<char>,
    start: Binary64,
    more: Seq<char>,
)
    requires
        forall|i: int| 0 <= i < marker.len() ==> #[trigger] marker[i] != '=',
        start.finite() && !start.is_negative(),
        more.len() > 0,
        more[0] == ' ',
    ensures
        markdown::number_attribute(
            ("<!-- "@ + marker) + ((" start="@ + start.fixed()) + more),
            "start"@,
        ) == Some(number::to_thousandths(start)),
{
    reveal_strlit("<!-- ");
    reveal_strlit(" start=");
    let m = "<!-- "@ + marker;
    let tail = (" start="@ + start.fixed()) + more;
    roundtrip::lemma_names();
    assert(tail[0] == ' ');
    assert forall|i: int| 0 <= i < m.len() implies #[trigger] m[i] != '=' by {
        if i >= 5 {
            assert(m[i] == marker[i - 5]);
        }
    }
    roundtrip::lemma_lacks(m, "start="@, 5);
    roundtrip::lemma_next_segment(m, tail, "start="@);
    roundtrip::lemma_amount_here("start"@, " start="@, start, more);
}

proof fn lemma_bounds_read(
    marker: Seq<char>,
    start: Binary64,
    end: Binary64,
    more: Seq<char>,
)
    requires
        forall|i: int| 0 <= i < marker.len() ==> #[trigger] marker[i] != '=',
        start.finite() && !start.is_negative(),
        end.finite() && !end.is_negative(),
        more.len() > 0,
        more[0] == ' ',
    ensures
        ({
            let attributes = (" start="@ + start.fixed()) + ((" end="@ + end.fixed()) + more);
            let comment = ("<!-- "@ + marker) + attributes;
            &&& markdown::number_attribute(comment, "start"@) == Some(
                number::to_thousandths(start),
            )
            &&& markdown::number_attribute(comment, "end"@) == Some(number::to_thousandths(end))
        }),
{
    reveal_strlit("<!-- ");
    reveal_strlit(" start=");
    reveal_strlit(" end=");
    let m = "<!-- "@ + marker;
    let second = (" end="@ + end.fixed()) + more;
    let tail = (" start="@ + start.fixed()) + second;
    roundtrip::lemma_names();
    assert(second[0] == ' ');
    assert(tail[0] == ' ');
    lemma_bound_reads(marker, start, second);
    assert forall|i: int| 0 <= i < m.len() implies #[trigger] m[i] != '=' by {
        if i >= 5 {
            assert(m[i] == marker[i - 5]);
        }
    }
    roundtrip::lemma_lacks(m, "end="@, 3);
    roundtrip::lemma_next_segment(m, tail, "end="@);
    roundtrip::lemma_amount_lacks(" start="@, start, second, "end="@, 1, 'n');
    roundtrip::lemma_amount_here("end"@, " end="@, end, more);
}

proof fn lemma_stamp_inside(stamp: Seq<char>)
    requires
        roundtrip::is_stamp(stamp),
    ensures
        forall|i: int| 0 <= i < stamp.len() ==> #[trigger] stamp[i] != ']' && stamp[i] != '<',
{
    marks::lemma_stamp_plain(stamp);
}

proof fn lemma_stamps_inside(from: Seq<char>, to: Seq<char>)
    requires
        roundtrip::is_stamp(from),
        roundtrip::is_stamp(to),
    ensures
        ({
            let inside = from + "–"@ + to;
            forall|i: int|
                0 <= i < inside.len() ==> #[trigger] inside[i] != ']' && inside[i] != '<'
        }),
{
    reveal_strlit("–");
    lemma_stamp_inside(from);
    lemma_stamp_inside(to);
    let inside = from + "–"@ + to;
    assert forall|i: int| 0 <= i < inside.len() implies #[trigger] inside[i] != ']' && inside[i]
        != '<' by {
        if i < from.len() {
            assert(inside[i] == from[i]);
        } else if i > from.len() {
            assert(inside[i] == to[i - from.len() - 1]);
        }
    }
}

proof fn lemma_marker_lacks(kind: Seq<char>, id: Seq<char>)
    requires
        forall|i: int| 0 <= i < kind.len() ==> #[trigger] kind[i] != '=',
        entries::is_identifier(id),
    ensures
        forall|i: int| 0 <= i < (kind + id).len() ==> #[trigger] (kind + id)[i] != '=',
{
    let class = entries::id_class();
    let all = kind + id;
    assert forall|i: int| 0 <= i < all.len() implies #[trigger] all[i] != '=' by {
        if i >= kind.len() {
            assert(all[i] == id[i - kind.len()]);
            assert(class(id[i - kind.len()]));
            assert(!text::is_alphanumeric('='));
        } else {
            assert(all[i] == kind[i]);
        }
    }
}

/// A mark over a range shows both its times and its words, and its comment
/// carries its bounds in thousandths of a second.
#[verifier::rlimit(40)]
pub proof fn law_range_mark_reads_back(
    words: Seq<char>,
    id: Seq<char>,
    start: Binary64,
    end: Binary64,
)
    requires
        entries::is_identifier(id),
        words.len() > 0,
        text::trimmed(words) == words,
        !text::contains(words, "<!--"@),
        start.finite() && !start.is_negative(),
        end.finite() && !end.is_negative(),
    ensures
        ({
            let line = entries::range_line(words, id, start, end);
            &&& shows(line, clock::precise(start) + "–"@ + clock::precise(end), words)
            &&& bounded(line, "start"@, start)
            &&& bounded(line, "end"@, end)
            &&& text::contains(line, "framenote:bookmark:"@ + id)
        }),
{
    reveal_strlit("framenote:bookmark:");
    reveal_strlit(" <!-- framenote:bookmark:");
    reveal_strlit(" <!-- ");
    reveal_strlit("] ");
    reveal_strlit("]");
    reveal_strlit(" ");
    reveal_strlit(" -->");
    let inside = clock::precise(start) + "–"@ + clock::precise(end);
    let marker = "framenote:bookmark:"@ + id;
    let attributes = (" start="@ + start.fixed()) + ((" end="@ + end.fixed()) + " -->"@);
    let line = entries::range_line(words, id, start, end);
    roundtrip::lemma_time_is_stamp(start);
    roundtrip::lemma_time_is_stamp(end);
    lemma_stamps_inside(clock::precise(start), clock::precise(end));
    lemma_marker_lacks("framenote:bookmark:"@, id);
    lemma_entry_line(inside, words, marker, attributes);
    lemma_bounds_read(marker, start, end, " -->"@);
    assert(line =~= ("- ["@ + inside) + ("]"@ + ((" "@ + words) + ((" <!-- "@ + marker)
        + attributes)))) by {
        assert(" <!-- framenote:bookmark:"@ =~= " <!-- "@ + "framenote:bookmark:"@);
        assert("] "@ =~= "]"@ + " "@);
    }
    marks::lemma_range_holds(words, id, start, end);
}

/// A new mark shows its time, and its comment carries it in thousandths of a
/// second.
#[verifier::rlimit(40)]
pub proof fn law_new_mark_reads_back(id: Seq<char>, start: Binary64)
    requires
        entries::is_identifier(id),
        start.finite() && !start.is_negative(),
    ensures
        ({
            let line = entries::mark_line(id, start);
            &&& shows(line, clock::precise(start), "New mark"@)
            &&& bounded(line, "start"@, start)
        }),
{
    reveal_strlit("framenote:bookmark:");
    reveal_strlit("] New mark <!-- framenote:bookmark:");
    reveal_strlit(" <!-- ");
    reveal_strlit("]");
    reveal_strlit(" ");
    reveal_strlit(" -->");
    reveal_strlit("New mark");
    reveal_strlit("<!--");
    let words = "New mark"@;
    let inside = clock::precise(start);
    let marker = "framenote:bookmark:"@ + id;
    let attributes = (" start="@ + start.fixed()) + " -->"@;
    let line = entries::mark_line(id, start);
    roundtrip::lemma_time_is_stamp(start);
    lemma_stamp_inside(inside);
    lemma_marker_lacks("framenote:bookmark:"@, id);
    laws::lemma_trimmed_keeps(words);
    roundtrip::lemma_lacks(words, "<!--"@, 0);
    lemma_entry_line(inside, words, marker, attributes);
    lemma_bound_reads(marker, start, " -->"@);
    assert("] New mark <!-- framenote:bookmark:"@ =~= "]"@ + (" "@ + "New mark"@) + (" <!-- "@
        + "framenote:bookmark:"@));
    assert(line =~= ("- ["@ + inside) + ("]"@ + ((" "@ + words) + ((" <!-- "@ + marker)
        + attributes))));
}

/// A mark that is ended keeps its words and its start, and ends at the time of
/// the playback.
pub proof fn law_ended_mark_keeps_its_start(markdown: Seq<char>, seconds: Binary64)
    requires
        entries::bookmark_ended(markdown, seconds) is Ok,
        ({
            let lines = text::lines_of(markdown);
            let line = lines[entries::latest_open(
                lines,
                clock::from_start(seconds),
                lines.len(),
            )->0];
            let start = entries::open_start(line)->0;
            let words = markdown::entry_text(text::trimmed(entries::entry_body(line)));
            &&& start.finite() && !start.is_negative()
            &&& text::trimmed(words) == words
            &&& !text::contains(words, "<!--"@)
        }),
    ensures
        ({
            let lines = text::lines_of(markdown);
            let i = entries::latest_open(lines, clock::from_start(seconds), lines.len())->0;
            let start = entries::open_start(lines[i])->0;
            let end = clock::from_start(seconds);
            let words = markdown::entry_text(text::trimmed(entries::entry_body(lines[i])));
            let again = text::lines_of(entries::bookmark_ended(markdown, seconds)->Ok_0.0)[i];
            &&& shows(again, clock::precise(start) + "–"@ + clock::precise(end), words)
            &&& bounded(again, "start"@, start)
            &&& bounded(again, "end"@, end)
            &&& start.lt(end)
        }),
{
    let lines = text::lines_of(markdown);
    let end = clock::from_start(seconds);
    let i = entries::latest_open(lines, end, lines.len())->0;
    let start = entries::open_start(lines[i])->0;
    let words = markdown::entry_text(text::trimmed(entries::entry_body(lines[i])));
    let id = entries::bookmark_id(lines[i]);
    marks::law_ended_mark_is_closed(markdown, seconds);
    marks::lemma_ended_line(markdown, seconds);
    laws::lemma_from_start(seconds);
    roundtrip::lemma_entry_text_tidy(text::trimmed(entries::entry_body(lines[i])));
    assert(entries::is_identifier(id)) by {
        marks::lemma_id_is_one(lines[i]);
    }
    law_range_mark_reads_back(words, id, start, end);
}

/// A chapter that is imported stands at its time, with its title, as a point:
/// its comment carries its start and its origin.
#[verifier::rlimit(40)]
pub proof fn law_chapter_mark_reads_back(chapter: Chapter)
    requires
        chapter.start.finite() && !chapter.start.is_negative(),
        chapter.title.len() > 0,
        text::trimmed(chapter.title) == chapter.title,
        !text::contains(chapter.title, "<!--"@),
    ensures
        ({
            let line = chapters::chapter_line(chapter);
            &&& shows(line, clock::precise(chapter.start), chapter.title)
            &&& bounded(line, "start"@, chapter.start)
            &&& chapters::entry_start(line) == Some(number::to_thousandths(chapter.start))
            &&& text::contains(line, "source=embedded-chapter"@)
            &&& text::contains(
                line,
                "framenote:bookmark:embedded-"@ + digits::decimal(
                    (chapter.source_index + 1) as nat,
                ),
            )
            &&& entries::open_start(line) is None
        }),
{
    reveal(entries::open_start);
    reveal_strlit("framenote:bookmark:embedded-");
    reveal_strlit("framenote:bookmark:");
    reveal_strlit(" <!-- framenote:bookmark:embedded-");
    reveal_strlit(" source=embedded-chapter -->");
    reveal_strlit("source=embedded-chapter");
    reveal_strlit(" <!-- ");
    reveal_strlit("] ");
    reveal_strlit("]");
    reveal_strlit(" ");
    reveal_strlit("-");
    let start = chapter.start;
    let words = chapter.title;
    let inside = clock::precise(start);
    let place = digits::decimal((chapter.source_index + 1) as nat);
    let millis = digits::decimal(start.product(number::natural(1000)).whole());
    let marker = "framenote:bookmark:embedded-"@ + place + "-"@ + millis;
    let origin = " source=embedded-chapter -->"@;
    let attributes = (" start="@ + start.fixed()) + origin;
    let line = chapters::chapter_line(chapter);
    roundtrip::lemma_time_is_stamp(start);
    lemma_stamp_inside(inside);
    digits::lemma_decimal((chapter.source_index + 1) as nat);
    digits::lemma_decimal(start.product(number::natural(1000)).whole());
    assert forall|i: int| 0 <= i < marker.len() implies #[trigger] marker[i] != '=' by {
        let n = "framenote:bookmark:embedded-"@.len() as int;
        if n <= i < n + place.len() {
            assert(marker[i] == place[i - n]);
            assert(text::is_digit(place[i - n]));
        } else if i > n + place.len() {
            assert(marker[i] == millis[i - n - place.len() - 1]);
            assert(text::is_digit(millis[i - n - place.len() - 1]));
        }
    }
    lemma_entry_line(inside, words, marker, attributes);
    lemma_bound_reads(marker, start, origin);
    assert(" <!-- framenote:bookmark:embedded-"@ =~= " <!-- "@ + "framenote:bookmark:embedded-"@);
    assert("] "@ =~= "]"@ + " "@);
    let front = ("- ["@ + inside) + ("]"@ + (" "@ + words)) + " <!-- "@;
    assert(line =~= ("- ["@ + inside) + ("]"@ + ((" "@ + words) + ((" <!-- "@ + marker)
        + attributes))));
    assert(line =~= front + (marker + attributes));
    let found = "framenote:bookmark:embedded-"@ + place;
    let at = front.len() as int;
    assert(line.subrange(at, at + found.len()) =~= found);
    assert(text::occurs_at(line, found, at));
    let back = front + marker + (" start="@ + start.fixed());
    assert(line =~= back + origin);
    let k = back.len() + 1int;
    assert(line.subrange(k, k + 23) =~= "source=embedded-chapter"@);
    assert(text::occurs_at(line, "source=embedded-chapter"@, k));
    let comment = entries::comment(line);
    let b = ("<!-- "@ + marker) + (" start="@ + start.fixed());
    assert(comment =~= b + origin);
    let j = b.len() + 1int;
    assert(comment.subrange(j, j + 23) =~= "source=embedded-chapter"@);
    assert(text::occurs_at(comment, "source=embedded-chapter"@, j));
}

/// A summary shows its range and its words, and its comment carries its bounds.
#[verifier::rlimit(40)]
pub proof fn law_summary_reads_back(
    id: Seq<char>,
    start: Binary64,
    end: Binary64,
    summary: Seq<char>,
)
    requires
        entries::is_identifier(id),
        start.finite(),
        end.finite(),
        ({
            let words = markdown::entry_text(summary);
            text::trimmed(words) == words && !text::contains(words, "<!--"@)
        }),
    ensures
        ({
            let bounds = transcript::range_bounds(start, end);
            let line = transcript::summary_line(
                id,
                clock::timestamp(start),
                clock::timestamp(end),
                summary,
                bounds,
                ""@,
            );
            &&& shows(
                line,
                clock::timestamp(start) + "–"@ + clock::timestamp(end),
                markdown::entry_text(summary),
            )
            &&& bounded(line, "start"@, bounds.0)
            &&& bounded(line, "end"@, bounds.1)
            &&& text::contains(line, "framenote:ai:"@ + id)
        }),
{
    reveal_strlit("framenote:ai:");
    reveal_strlit(" <!-- framenote:ai:");
    reveal_strlit(" <!-- ");
    reveal_strlit("] ");
    reveal_strlit("]");
    reveal_strlit(" ");
    reveal_strlit("");
    reveal_strlit(" -->");
    let words = markdown::entry_text(summary);
    let bounds = transcript::range_bounds(start, end);
    let inside = clock::timestamp(start) + "–"@ + clock::timestamp(end);
    let marker = "framenote:ai:"@ + id;
    let attributes = (" start="@ + bounds.0.fixed()) + ((" end="@ + bounds.1.fixed()) + " -->"@);
    let line = transcript::summary_line(
        id,
        clock::timestamp(start),
        clock::timestamp(end),
        summary,
        bounds,
        ""@,
    );
    roundtrip::lemma_entry_text_tidy(summary);
    roundtrip::lemma_time_is_stamp(start);
    roundtrip::lemma_time_is_stamp(end);
    lemma_stamps_inside(clock::timestamp(start), clock::timestamp(end));
    lemma_marker_lacks("framenote:ai:"@, id);
    summaries::lemma_bounds_usable(start, end);
    lemma_entry_line(inside, words, marker, attributes);
    lemma_bounds_read(marker, bounds.0, bounds.1, " -->"@);
    assert(" <!-- framenote:ai:"@ =~= " <!-- "@ + "framenote:ai:"@);
    assert("] "@ =~= "]"@ + " "@);
    assert(line =~= ("- ["@ + inside) + ("]"@ + ((" "@ + words) + ((" <!-- "@ + marker)
        + attributes))));
    let front = ("- ["@ + inside) + ("]"@ + (" "@ + words)) + " <!-- "@;
    assert(line =~= front + (marker + attributes));
    let at = front.len() as int;
    assert(line.subrange(at, at + marker.len()) =~= marker);
    assert(text::occurs_at(line, marker, at));
}

// ---------------------------------------------------------------------------
// Sections
// ---------------------------------------------------------------------------

/// An entry brings nothing with it but blank lines around it, and the heading
/// of its section where there is none yet; it stands behind all that its
/// section holds.
pub proof fn law_entries_go_to_their_section(
    lines: Seq<Seq<char>>,
    heading: Seq<char>,
    line: Seq<char>,
)
    ensures
        ({
            let (at, added) = markdown::addition(lines, heading, line);
            let found = markdown::first(lines, markdown::LineTest::IsHeading(heading));
            &&& added.last() == line
            &&& forall|k: int|
                0 <= k < added.len() - 1 ==> #[trigger] added[k] == Seq::<char>::empty() || (found
                    is None && added[k] == heading)
            &&& found is None ==> added.contains(heading) && at == lines.len()
            &&& found matches Some(h) ==> {
                let next = markdown::first_from(lines, markdown::LineTest::Opens("## "@), h + 1);
                forall|k: int|
                    at <= k < (if next is Some {
                        next->0
                    } else {
                        lines.len() as int
                    }) ==> text::trimmed(#[trigger] lines[k]).len() == 0
            }
        }),
{
    reveal_strlit("");
    assert(""@ =~= Seq::<char>::empty());
    let (at, added) = markdown::addition(lines, heading, line);
    let found = markdown::first(lines, markdown::LineTest::IsHeading(heading));
    match found {
        Some(h) => {
            let next = markdown::first_from(lines, markdown::LineTest::Opens("## "@), h + 1);
            let to = if next is Some {
                next->0
            } else {
                lines.len() as int
            };
            lemma_blank_behind(lines, h + 1, to);
        },
        None => {
            if lines.len() > 0 && !markdown::blank(lines.last()) {
                assert(added[1] == heading);
            } else {
                assert(added[0] == heading);
            }
        },
    }
}

proof fn lemma_blank_behind(lines: Seq<Seq<char>>, from: int, to: int)
    ensures
        forall|k: int|
            markdown::content_end(lines, from, to) <= k < to ==> text::trimmed(
                #[trigger] lines[k],
            ).len() == 0,
    decreases to - from,
{
    if to > from && markdown::blank(lines[to - 1]) {
        lemma_blank_behind(lines, from, to - 1);
    }
}

/// A new sidecar has a heading with the name of its video and a section for
/// every kind of entry, and nothing in them.
pub proof fn law_new_sidecar_has_its_sections(name: Seq<char>)
    requires
        text::on_one_line(name),
        name.len() == 0 || name.last() != '\r',
    ensures
        ({
            let lines = text::lines_of(markdown::fresh(name));
            &&& lines.len() == 10
            &&& lines[0] == "# "@ + name
            &&& lines[2] == "<!-- framenote:v1 -->"@
            &&& lines[5] == "## Bookmarks"@
            &&& lines[7] == "## AI timeline"@
            &&& lines[9] == "## Subtitles"@
        }),
{
    reveal_strlit("# ");
    reveal_strlit("");
    reveal_strlit("<!-- framenote:v1 -->");
    reveal_strlit("<!-- framenote:position seconds=0.000 -->");
    reveal_strlit("## Bookmarks");
    reveal_strlit("## AI timeline");
    reveal_strlit("## Subtitles");
    let lines = imports::fresh_lines(name);
    imports::lemma_fresh(name);
    assert forall|i: int| 0 <= i < lines.len() implies text::on_one_line(#[trigger] lines[i]) by {
        if i == 0 {
            let first = "# "@ + name;
            assert forall|k: int| 0 <= k < first.len() implies #[trigger] first[k] != '\n' by {
                if k >= 2 {
                    assert(first[k] == name[k - 2]);
                }
            }
        }
    }
    laws::lemma_reread(lines);
    let first = "# "@ + name;
    if name.len() > 0 {
        assert(first.last() == name.last());
    } else {
        assert(first.last() == ' ');
    }
    assert(text::chopped(first) == first);
}

// ---------------------------------------------------------------------------
// Marks that are ended
// ---------------------------------------------------------------------------

/// The mark that is ended at a time is the latest of those that are open and
/// start no later; there is none exactly where no mark is such.
pub proof fn law_latest_mark_is_ended(markdown: Seq<char>, seconds: Binary64)
    requires
        seconds.finite(),
    ensures
        ({
            let lines = text::lines_of(markdown);
            let end = clock::from_start(seconds);
            let found = entries::latest_open(lines, end, lines.len());
            &&& found matches Some(i) ==> {
                &&& 0 <= i < lines.len()
                &&& entries::open_start(lines[i]) is Some
                &&& (entries::open_start(lines[i])->0).le(end)
                &&& forall|j: int|
                    0 <= j < lines.len() && entries::open_start(#[trigger] lines[j]) is Some && (
                    entries::open_start(lines[j])->0).le(end) ==> (entries::open_start(
                        lines[j],
                    )->0).rank() <= (entries::open_start(lines[i])->0).rank()
            }
            &&& found is None ==> entries::bookmark_ended(markdown, seconds) is Err && forall|
                j: int,
            |
                0 <= j < lines.len() && entries::open_start(#[trigger] lines[j]) is Some ==> !(
                entries::open_start(lines[j])->0).le(end)
        }),
{
    let lines = text::lines_of(markdown);
    let end = clock::from_start(seconds);
    entries::law_nearest_open_mark_is_ended(lines, end);
    assert forall|j: int|
        0 <= j < lines.len() && entries::open_start(#[trigger] lines[j]) is Some && (
        entries::open_start(lines[j])->0).le(end) implies entries::endable(lines[j], end) by {}
}

/// A pattern is found behind a text without its first character.
proof fn lemma_found_behind(front: Seq<char>, pat: Seq<char>, rest: Seq<char>)
    requires
        pat.len() > 0,
        forall|i: int| 0 <= i < front.len() ==> #[trigger] front[i] != pat[0],
    ensures
        text::cut(front + (pat + rest), pat) == Some((front, rest)),
{
    let s = front + (pat + rest);
    let n = front.len() as int;
    assert(s.subrange(n, n + pat.len()) =~= pat);
    assert(text::occurs_at(s, pat, n));
    text::lemma_find(s, pat);
    let i = text::find(s, pat)->0;
    if i < n {
        assert(s.subrange(i, i + pat.len())[0] == s[i]);
        assert(s[i] == front[i]);
    }
    assert(s.take(n) =~= front);
    assert(s.skip(n + pat.len()) =~= rest);
}

proof fn lemma_mark_front(stamp: Seq<char>)
    requires
        roundtrip::is_stamp(stamp),
    ensures
        forall|i: int|
            0 <= i < ("- ["@ + stamp + "] New mark <!-- "@).len() ==> #[trigger] ("- ["@ + stamp
                + "] New mark <!-- "@)[i] != 'f',
{
    reveal_strlit("- [");
    reveal_strlit("] New mark <!-- ");
    let a = "- ["@;
    let c = "] New mark <!-- "@;
    let front = a + stamp + c;
    marks::lemma_stamp_plain(stamp);
    assert forall|i: int| 0 <= i < front.len() implies #[trigger] front[i] != 'f' by {
        if i < a.len() {
            assert(front[i] == a[i]);
        } else if i < a.len() + stamp.len() {
            assert(front[i] == stamp[i - a.len()]);
        } else {
            assert(front[i] == c[i - a.len() - stamp.len()]);
        }
    }
}

/// The identifier of a mark is read from its line.
pub proof fn law_identifiers_are_read(id: Seq<char>, start: Binary64)
    requires
        entries::is_identifier(id),
    ensures
        entries::bookmark_id(entries::mark_line(id, start)) == id,
{
    reveal_strlit("] New mark <!-- framenote:bookmark:");
    reveal_strlit("] New mark <!-- ");
    reveal_strlit("framenote:bookmark:");
    reveal_strlit(" start=");
    let pat = "framenote:bookmark:"@;
    let stamp = clock::precise(start);
    let front = "- ["@ + stamp + "] New mark <!-- "@;
    let rest = " start="@ + start.fixed() + " -->"@;
    assert("] New mark <!-- framenote:bookmark:"@ =~= "] New mark <!-- "@ + pat);
    assert(entries::mark_line(id, start) =~= front + (pat + (id + rest)));
    roundtrip::lemma_time_is_stamp(start);
    lemma_mark_front(stamp);
    lemma_found_behind(front, pat, id + rest);
    assert(!text::is_alphanumeric(' '));
    roundtrip::lemma_run(id, rest, entries::id_class());
}

/// The note that a transcript is complete is put into the comment of a summary
/// once, and changes nothing else of its line.
pub proof fn law_complete_transcripts_are_noted(a: Seq<char>, b: Seq<char>)
    requires
        !text::contains(a + "-->"@ + b, "transcript=complete"@),
        text::find(a + "-->"@ + b, "-->"@) == Some(a.len() as int),
    ensures
        transcript::completed(a + "-->"@ + b) == a + "transcript=complete -->"@ + b,
        text::contains(transcript::completed(a + "-->"@ + b), "transcript=complete"@),
        transcript::completed(transcript::completed(a + "-->"@ + b)) == transcript::completed(
            a + "-->"@ + b,
        ),
{
    reveal_strlit("-->");
    reveal_strlit("transcript=complete -->");
    reveal_strlit("transcript=complete");
    let line = a + "-->"@ + b;
    let n = a.len() as int;
    assert(line.take(n) =~= a);
    assert(line.skip(n + 3) =~= b);
    let done = a + "transcript=complete -->"@ + b;
    assert(done.subrange(n, n + 19) =~= "transcript=complete"@);
    assert(text::occurs_at(done, "transcript=complete"@, n));
}

// ---------------------------------------------------------------------------
// Marks that stand already
// ---------------------------------------------------------------------------

/// Whether a line stands in the section of the bookmarks: the last heading in
/// front of it is theirs.
pub open spec fn is_bookmarked(lines: Seq<Seq<char>>, i: int) -> bool {
    exists|h: int|
        {
            &&& 0 <= h < i < lines.len()
            &&& text::has_prefix(text::trimmed(lines[h]), "## "@)
            &&& text::lower(text::trimmed(#[trigger] lines[h])) == text::lower("## Bookmarks"@)
            &&& forall|k: int|
                h < k <= i ==> !text::has_prefix(text::trimmed(#[trigger] lines[k]), "## "@)
        }
}

/// Whether a line starts at a time, to five thousandths of a second.
pub open spec fn starts_at(line: Seq<char>, start: Binary64) -> bool {
    chapters::entry_start(line) matches Some(value) && value.difference(start).absolute().le(
        Binary64 { bits: 0x3f74_7ae1_47ae_147b },
    )
}

proof fn lemma_listed(lines: Seq<Seq<char>>, start: Binary64, inside: bool, from: int)
    requires
        0 <= from <= lines.len(),
        inside ==> exists|h: int|
            {
                &&& 0 <= h < from
                &&& text::has_prefix(text::trimmed(lines[h]), "## "@)
                &&& text::lower(text::trimmed(#[trigger] lines[h])) == text::lower(
                    "## Bookmarks"@,
                )
                &&& forall|k: int|
                    h < k < from ==> !text::has_prefix(text::trimmed(#[trigger] lines[k]), "## "@)
            },
        !inside ==> forall|h: int|
            0 <= h < from && text::has_prefix(text::trimmed(#[trigger] lines[h]), "## "@)
                && text::lower(text::trimmed(lines[h])) == text::lower("## Bookmarks"@)
                ==> exists|k: int|
                h < k < from && text::has_prefix(text::trimmed(#[trigger] lines[k]), "## "@),
    ensures
        chapters::listed(lines, start, inside, from) <==> exists|i: int|
            from <= i < lines.len() && #[trigger] is_bookmarked(lines, i) && starts_at(
                lines[i],
                start,
            ),
    decreases lines.len() - from,
{
    if from < lines.len() {
        let line = lines[from];
        let plain = text::trimmed(line);
        if text::has_prefix(plain, "## "@) {
            let next = text::lower(plain) == text::lower("## Bookmarks"@);
            if next {
                assert(text::has_prefix(text::trimmed(lines[from]), "## "@));
            } else {
                assert forall|h: int|
                    0 <= h < from + 1 && text::has_prefix(
                        text::trimmed(#[trigger] lines[h]),
                        "## "@,
                    ) && text::lower(text::trimmed(lines[h])) == text::lower(
                        "## Bookmarks"@,
                    ) implies exists|k: int|
                    h < k < from + 1 && text::has_prefix(
                        text::trimmed(#[trigger] lines[k]),
                        "## "@,
                    ) by {
                    assert(h < from);
                    assert(text::has_prefix(text::trimmed(lines[from]), "## "@));
                }
            }
            lemma_listed(lines, start, next, from + 1);
            assert(!is_bookmarked(lines, from));
        } else if !inside {
            assert forall|h: int|
                0 <= h < from + 1 && text::has_prefix(text::trimmed(#[trigger] lines[h]), "## "@)
                    && text::lower(text::trimmed(lines[h])) == text::lower(
                    "## Bookmarks"@,
                ) implies exists|k: int|
                h < k < from + 1 && text::has_prefix(text::trimmed(#[trigger] lines[k]), "## "@) by {
                assert(h < from);
                let k = choose|k: int|
                    h < k < from && text::has_prefix(text::trimmed(#[trigger] lines[k]), "## "@);
                assert(text::has_prefix(text::trimmed(lines[k]), "## "@));
            }
            lemma_listed(lines, start, false, from + 1);
            assert(!is_bookmarked(lines, from));
        } else {
            let h = choose|h: int|
                {
                    &&& 0 <= h < from
                    &&& text::has_prefix(text::trimmed(lines[h]), "## "@)
                    &&& text::lower(text::trimmed(#[trigger] lines[h])) == text::lower(
                        "## Bookmarks"@,
                    )
                    &&& forall|k: int|
                        h < k < from ==> !text::has_prefix(
                            text::trimmed(#[trigger] lines[k]),
                            "## "@,
                        )
                };
            assert(text::lower(text::trimmed(lines[h])) == text::lower("## Bookmarks"@));
            lemma_listed(lines, start, true, from + 1);
            assert(is_bookmarked(lines, from));
        }
    }
}

/// A mark stands at a time already exactly where a line of the section of the
/// bookmarks starts there, to five thousandths of a second.
pub proof fn law_marks_stand_already(lines: Seq<Seq<char>>, start: Binary64)
    ensures
        chapters::listed(lines, start, false, 0) <==> exists|i: int|
            0 <= i < lines.len() && #[trigger] is_bookmarked(lines, i) && starts_at(
                lines[i],
                start,
            ),
{
    lemma_listed(lines, start, false, 0);
}

// ---------------------------------------------------------------------------
// Entries that are changed
// ---------------------------------------------------------------------------

/// An entry that is reworded keeps its time and its comment.
pub proof fn law_reworded_entries_keep_their_comment(line: Seq<char>, words: Seq<char>)
    ensures
        ({
            let close = text::find(line, "]"@);
            let comment = text::find(line, "<!--"@);
            if close is Some && comment is Some {
                entries::reworded(line, words) == line.take(close->0 + 1) + " "@ + words + " "@
                    + text::trimmed(line.skip(comment->0))
            } else {
                entries::reworded(line, words) == line
            }
        }),
{
}

/// An entry is reworded where there is one with the identifier: with the words,
/// cleaned; the other lines stay.
pub proof fn law_entries_are_reworded(markdown: Seq<char>, id: Seq<char>, words: Seq<char>)
    ensures
        entries::entry_updated(markdown, id, words) is Ok <==> entries::has_entry(
            text::lines_of(markdown),
            id,
        ),
        entries::entry_updated(markdown, id, words) is Ok ==> ({
            let lines = text::lines_of(markdown);
            let clean = markdown::entry_text(words);
            entries::entry_updated(markdown, id, words)->Ok_0 == text::joined(
                Seq::new(
                    lines.len(),
                    |i: int|
                        if entries::holds_entry(lines[i], id) {
                            entries::reworded(lines[i], clean)
                        } else {
                            lines[i]
                        },
                ),
                "\n"@,
            ) + "\n"@
        }),
{
    let lines = text::lines_of(markdown);
    let clean = markdown::entry_text(words);
    assert(entries::rewritten(lines, id, clean) =~= Seq::new(
        lines.len(),
        |i: int|
            if entries::holds_entry(lines[i], id) {
                entries::reworded(lines[i], clean)
            } else {
                lines[i]
            },
    ));
}

/// A line holds an entry where its marker, of any of the three kinds, stands in
/// it.
pub proof fn law_entries_are_known_by_their_markers(line: Seq<char>, id: Seq<char>)
    ensures
        entries::holds_entry(line, id) <==> text::contains(line, "framenote:bookmark:"@ + id)
            || text::contains(line, "framenote:ai:"@ + id) || text::contains(
            line,
            "framenote:subtitle:"@ + id,
        ),
{
}

/// A saved sidecar ends with a line feed, and is not changed otherwise.
pub proof fn law_saved_sidecars_are_ended(markdown: Seq<char>)
    ensures
        markdown::ended(markdown).len() > 0,
        markdown::ended(markdown).last() == '\n',
        markdown::ended(markdown) == markdown || markdown::ended(markdown) == markdown + "\n"@,
        markdown::ended(markdown + "\n"@) == markdown + "\n"@,
{
    reveal_strlit("\n");
    let full = markdown + "\n"@;
    assert(full.subrange(full.len() - 1, full.len() as int) =~= "\n"@);
    if text::has_suffix(markdown, "\n"@) {
        assert(markdown.subrange(markdown.len() - 1, markdown.len() as int)[0] == markdown.last());
    }
}

/// The marks of a list or a heading in front of a summary are dropped, and its
/// words are kept.
pub proof fn law_summaries_lose_their_marks(marks: Seq<char>, words: Seq<char>)
    requires
        text::all_in(marks, text::among("-*# "@)),
        0 < words.len() <= 700,
        roundtrip::tidy(words),
        !text::is_white(words.last()),
        !text::among("-*# "@)(words[0]),
        !text::contains(words, "<!--"@),
        !text::contains(words, "-->"@),
    ensures
        gemini::plain_summary(marks + words) == words,
{
    let class = text::among("-*# "@);
    let plain = |c: char| c == ' ' || !text::is_white(c);
    assert(words[0] != ' ');
    assert(plain(words[0]));
    let rest = lemma_leading_marks(marks, words);
    let full = marks + words;
    assert(full.last() == words.last());
    assert((rest + words).last() == words.last());
    assert(text::drop_trailing(rest + words, text::whites()) == rest + words);
    assert(text::trimmed(full) == rest + words);
    lemma_marks_dropped(rest, words, class);
    law_clean_words_are_kept(words);
}

/// White space in front of marks and words is dropped.
proof fn lemma_leading_marks(marks: Seq<char>, words: Seq<char>) -> (rest: Seq<char>)
    requires
        text::all_in(marks, text::among("-*# "@)),
        words.len() > 0,
        !text::is_white(words[0]),
    ensures
        text::drop_leading(marks + words, text::whites()) == rest + words,
        text::all_in(rest, text::among("-*# "@)),
    decreases marks.len(),
{
    let class = text::among("-*# "@);
    let full = marks + words;
    if marks.len() > 0 && text::is_white(marks[0]) {
        let less = marks.skip(1);
        assert forall|i: int| 0 <= i < less.len() implies class(#[trigger] less[i]) by {
            assert(less[i] == marks[i + 1]);
        }
        assert(full[0] == marks[0]);
        assert(full.skip(1) =~= less + words);
        lemma_leading_marks(less, words)
    } else {
        if marks.len() > 0 {
            assert(full[0] == marks[0]);
        } else {
            assert(full[0] == words[0]);
        }
        marks
    }
}

proof fn lemma_marks_dropped(marks: Seq<char>, words: Seq<char>, class: spec_fn(char) -> bool)
    requires
        text::all_in(marks, class),
        words.len() > 0,
        !class(words[0]),
    ensures
        text::drop_leading(marks + words, class) == words,
    decreases marks.len(),
{
    let full = marks + words;
    if marks.len() > 0 {
        let less = marks.skip(1);
        assert(class(marks[0]));
        assert forall|i: int| 0 <= i < less.len() implies class(#[trigger] less[i]) by {
            assert(less[i] == marks[i + 1]);
        }
        assert(full[0] == marks[0]);
        assert(full.skip(1) =~= less + words);
        lemma_marks_dropped(less, words, class);
    } else {
        assert(full =~= words);
    }
}

/// The start of a clip is told as no time at all.
pub proof fn law_the_start_is_told_as_nothing(seconds: Binary64)
    requires
        !seconds.is_nan(),
        seconds.units() <= 0,
    ensures
        clock::subrip(seconds) == "00:00:00,000"@,
        clock::precise(seconds) == "00:00:00.000"@,
        clock::timestamp(seconds) == "00:00:00"@,
{
    reveal_strlit("00:00:00,000");
    reveal_strlit("00:00:00.000");
    reveal_strlit("00:00:00");
    reveal_strlit(":");
    reveal_strlit(",");
    reveal_strlit(".");
    let f = number::double();
    let p = power2::pow2(1074);
    let zero = number::zero();
    number::lemma_size_zero(0);
    power2::lemma_pow2_pos(1074);
    power2::lemma_pow2_adds(1074, 1);
    power2::lemma2_to64();
    assert(clock::from_start(seconds) == zero);
    number::lemma_natural_exact(1000);
    let thousand = number::natural(1000);
    assert(zero.size() * thousand.size() == 0) by (nonlinear_arith)
        requires
            zero.size() == 0,
    ;
    number::lemma_exact(f, 0, p);
    assert(0 * p == 0) by (nonlinear_arith);
    let product = zero.product(thousand);
    assert(product.magnitude() == 0 && !product.is_negative());
    assert(p / (2 * p) == 0) by {
        vstd::arithmetic::div_mod::lemma_fundamental_div_mod_converse(
            p as int,
            2 * p as int,
            0,
            p as int,
        );
    }
    assert(zero.whole() == 0);
    assert(product.whole() == 0);
    assert(digits::decimal(0) =~= seq!['0']);
    assert(digits::padded(seq!['0'], 2) =~= seq!['0', '0']);
    assert(digits::padded(seq!['0'], 3) =~= seq!['0', '0', '0']);
    assert(clock::stamp(0) =~= "00:00:00"@);
    assert(clock::precise_stamp(0, ","@) =~= "00:00:00,000"@);
    assert(clock::precise_stamp(0, "."@) =~= "00:00:00.000"@);
}

} // verus!
