//! What holds of a sidecar whatever is done to it.

use vstd::arithmetic::power2;
use vstd::prelude::*;

use crate::chapters;
use crate::chapters::Chapter;
use crate::clock;
use crate::digits;
use crate::entries;
use crate::export;
use crate::fingerprint;
use crate::fingerprint::FileStamp;
use crate::ids;
use crate::markdown;
use crate::markdown::LineTest;
use crate::number;
use crate::number::Binary64;
use crate::paths::FilePath;
use crate::text;

verus! {

// ---------------------------------------------------------------------------
// Lines that are written and read again
// ---------------------------------------------------------------------------

/// The lines as they are read again after they were written: one carriage
/// return at the end of a line is lost.
pub open spec fn reread(lines: Seq<Seq<char>>) -> Seq<Seq<char>> {
    Seq::new(lines.len(), |i: int| text::chopped(lines[i]))
}

/// Lines that are written come back as they were, but for a carriage return
/// at the end of a line.
pub proof fn lemma_reread(lines: Seq<Seq<char>>)
    requires
        lines.len() > 0,
        text::all_on_one_line(lines),
    ensures
        text::lines_of(text::text_of(lines)) == reread(lines),
{
    text::lemma_lines_of_text(lines);
    assert(text::lines_of(text::text_of(lines)) =~= reread(lines));
}

proof fn lemma_leading_keeps(s: Seq<char>)
    requires
        s.len() > 0,
        !text::is_white(s[0]),
    ensures
        text::drop_leading(s, text::whites()) == s,
{
}

proof fn lemma_trailing_keeps(s: Seq<char>)
    requires
        s.len() > 0,
        !text::is_white(s.last()),
    ensures
        text::drop_trailing(s, text::whites()) == s,
{
}

/// A text without white space at its ends is not changed by trimming.
pub proof fn lemma_trimmed_keeps(s: Seq<char>)
    requires
        s.len() > 0,
        !text::is_white(s[0]),
        !text::is_white(s.last()),
    ensures
        text::trimmed(s) == s,
{
    lemma_leading_keeps(s);
    lemma_trailing_keeps(s);
}

proof fn lemma_leading_drop_last(s: Seq<char>)
    requires
        s.len() > 0,
        text::is_white(s.last()),
    ensures
        text::drop_trailing(text::drop_leading(s.drop_last(), text::whites()), text::whites())
            == text::drop_trailing(text::drop_leading(s, text::whites()), text::whites()),
    decreases s.len(),
{
    let p = text::whites();
    if p(s[0]) {
        if s.len() == 1 {
            assert(s.skip(1) =~= Seq::<char>::empty());
            assert(s.drop_last() =~= Seq::<char>::empty());
        } else {
            lemma_leading_drop_last(s.skip(1));
            assert(s.skip(1).drop_last() =~= s.drop_last().skip(1));
        }
    } else {
        assert(s.len() > 1);
        assert(text::drop_leading(s, p) == s);
        assert(text::drop_leading(s.drop_last(), p) == s.drop_last());
    }
}

/// A carriage return at the end of a line makes no difference where the line
/// is trimmed.
pub proof fn lemma_trimmed_chopped(s: Seq<char>)
    ensures
        text::trimmed(text::chopped(s)) == text::trimmed(s),
{
    if s.len() > 0 && s.last() == '\r' {
        lemma_leading_drop_last(s);
    }
}

// ---------------------------------------------------------------------------
// The playback position
// ---------------------------------------------------------------------------

/// The line that marks a position with figures.
proof fn lemma_figures_line(value: Seq<char>)
    requires
        value.len() > 0,
        forall|i: int| 0 <= i < value.len() ==> text::is_digit(#[trigger] value[i]) || value[i] == '.',
    ensures
        ({
            let line = markdown::POSITION_MARKER@ + value + " -->"@;
            &&& text::on_one_line(line)
            &&& text::chopped(line) == line
            &&& text::trimmed(line) == line
            &&& LineTest::Marks(markdown::POSITION_MARKER@).passes(line)
            &&& markdown::marked_position(line) == number::parsed(value)
        }),
{
    reveal_strlit("<!-- framenote:position seconds=");
    reveal_strlit(" -->");
    let front = "<!-- framenote:position seconds="@;
    let back = " -->"@;
    let line = front + value + back;
    assert(line[0] == '<' && line.last() == '>');
    lemma_trimmed_keeps(line);
    assert(line.subrange(0, front.len() as int) =~= front);
    let rest = line.skip(front.len() as int);
    assert(rest =~= value + back);
    assert(rest.subrange(value.len() as int, rest.len() as int) =~= back);
    assert(rest.take(rest.len() - back.len()) =~= value);
    assert forall|i: int| 0 <= i < line.len() implies #[trigger] line[i] != '\n' by {
        if i < front.len() {
            assert(line[i] == front[i]);
        } else if i < front.len() + value.len() {
            assert(line[i] == value[i - front.len()]);
        } else {
            assert(line[i] == back[i - front.len() - value.len()]);
        }
    }
}

pub(crate) proof fn lemma_position_line(seconds: Binary64)
    requires
        seconds.finite(),
    ensures
        text::on_one_line(markdown::position_line(seconds)),
        text::chopped(markdown::position_line(seconds)) == markdown::position_line(seconds),
        text::trimmed(markdown::position_line(seconds)) == markdown::position_line(seconds),
        LineTest::Marks(markdown::POSITION_MARKER@).passes(markdown::position_line(seconds)),
        markdown::marked_position(markdown::position_line(seconds)) == Some(
            number::to_thousandths(clock::from_start(seconds)),
        ),
{
    let time = clock::from_start(seconds);
    let value = time.fixed();
    lemma_from_start(seconds);
    number::lemma_fixed_reads(time);
    number::lemma_thousandths_chars(time.thousandths());
    assert(value =~= number::thousandths_text(time.thousandths())) by {
        reveal_strlit("");
    }
    lemma_figures_line(value);
}

/// A time that is held at or after the start is finite and not negative.
pub proof fn lemma_from_start(seconds: Binary64)
    requires
        seconds.finite(),
    ensures
        clock::from_start(seconds).finite(),
        !clock::from_start(seconds).is_negative(),
{
    let zero = number::zero();
    assert(zero.finite() && !zero.is_nan());
    if zero.lt(seconds) {
        assert(zero.units() >= 0);
    }
}

proof fn lemma_unmarked(line: Seq<char>)
    requires
        !LineTest::Marks(markdown::POSITION_MARKER@).passes(line),
    ensures
        markdown::marked_position(text::chopped(line)) is None,
{
    lemma_trimmed_chopped(line);
}

proof fn lemma_first_position(lines: Seq<Seq<char>>, at: int, from: int, value: Binary64)
    requires
        0 <= from <= at < lines.len(),
        markdown::marked_position(lines[at]) == Some(value),
        forall|i: int|
            from <= i < at ==> {
                let found = #[trigger] markdown::marked_position(lines[i]);
                found is None || found == Some(value)
            },
    ensures
        markdown::first_position(lines, from) == Some(value),
    decreases at - from,
{
    assert(from < at ==> {
        let found = markdown::marked_position(lines[from]);
        found is None || found == Some(value)
    });
    if from < at && markdown::marked_position(lines[from]) is None {
        lemma_first_position(lines, at, from + 1, value);
    }
}

/// Where a position is marked, one line marks it, and every line that marks
/// any position marks this one.
proof fn lemma_positioned(lines: Seq<Seq<char>>, marker: Seq<char>)
    requires
        LineTest::Marks(markdown::POSITION_MARKER@).passes(marker),
    ensures
        ({
            let test = LineTest::Marks(markdown::POSITION_MARKER@);
            let out = markdown::positioned(lines, marker);
            &&& forall|i: int|
                0 <= i < out.len() ==> (#[trigger] out[i] == marker || !test.passes(out[i]))
            &&& exists|i: int| 0 <= i < out.len() && #[trigger] out[i] == marker
        }),
{
    let test = LineTest::Marks(markdown::POSITION_MARKER@);
    let out = markdown::positioned(lines, marker);
    if markdown::any(lines, test) {
        let i = choose|i: int| 0 <= i < lines.len() && test.passes(#[trigger] lines[i]);
        assert(out[i] == marker);
    } else {
        lemma_position_place(lines);
        let at = markdown::position_place(lines);
        assert(out[at] == marker);
        assert forall|i: int| 0 <= i < out.len() implies (#[trigger] out[i] == marker
            || !test.passes(out[i])) by {
            if i < at {
                assert(out[i] == lines[i]);
            } else if i > at {
                assert(out[i] == lines[i - 1]);
            }
        }
    }
}

/// A position is marked within the text.
proof fn lemma_position_place(lines: Seq<Seq<char>>)
    ensures
        0 <= markdown::position_place(lines) <= lines.len(),
{
    markdown::lemma_first(lines, LineTest::Is(markdown::VERSION_MARKER@), 0);
    markdown::lemma_first(lines, LineTest::Begins("#"@), 0);
}

proof fn lemma_positioned_clean(lines: Seq<Seq<char>>, marker: Seq<char>)
    requires
        text::all_on_one_line(lines),
        text::on_one_line(marker),
    ensures
        text::all_on_one_line(markdown::positioned(lines, marker)),
        markdown::positioned(lines, marker).len() > 0,
{
    let test = LineTest::Marks(markdown::POSITION_MARKER@);
    let out = markdown::positioned(lines, marker);
    lemma_position_place(lines);
    let at = markdown::position_place(lines);
    assert forall|i: int| 0 <= i < out.len() implies text::on_one_line(#[trigger] out[i]) by {
        if markdown::any(lines, test) {
            assert(out[i] == marker || out[i] == lines[i]);
        } else if i < at {
            assert(out[i] == lines[i]);
        } else if i > at {
            assert(out[i] == lines[i - 1]);
        }
    }
}

/// A position that is saved is the one that is read again, in thousandths of a
/// second.
#[verifier::rlimit(40)]
pub proof fn law_position_comes_back(markdown: Seq<char>, seconds: Binary64)
    requires
        seconds.finite(),
    ensures
        markdown::position_of(
            text::text_of(
                markdown::positioned(
                    text::lines_of(markdown),
                    markdown::position_line(seconds),
                ),
            ),
        ) == number::to_thousandths(clock::from_start(seconds)),
{
    let lines = text::lines_of(markdown);
    let marker = markdown::position_line(seconds);
    let out = markdown::positioned(lines, marker);
    let value = number::to_thousandths(clock::from_start(seconds));
    lemma_position_line(seconds);
    text::lemma_lines_clean(markdown);
    lemma_positioned_clean(lines, marker);
    lemma_positioned(lines, marker);
    lemma_reread(out);
    let again = reread(out);
    let at = choose|i: int| 0 <= i < out.len() && #[trigger] out[i] == marker;
    assert(again[at] == marker);
    assert forall|i: int| 0 <= i < at implies {
        let found = #[trigger] markdown::marked_position(again[i]);
        found is None || found == Some(value)
    } by {
        assert(again[i] == text::chopped(out[i]));
        if out[i] != marker {
            lemma_unmarked(out[i]);
        }
    }
    lemma_first_position(again, at, 0, value);
    lemma_from_start(seconds);
    number::lemma_to_thousandths(clock::from_start(seconds));
    assert(number::zero().le(value)) by {
        assert(number::zero().finite());
        assert(0nat / number::double().half as nat == 0);
    }
}

/// A position that is saved is read again within a thousandth of a second, also
/// by the arithmetic of the machine.
pub proof fn law_position_comes_back_closely(markdown: Seq<char>, seconds: Binary64)
    requires
        seconds.finite(),
    ensures
        ({
            let saved = text::text_of(
                markdown::positioned(
                    text::lines_of(markdown),
                    markdown::position_line(seconds),
                ),
            );
            let read = markdown::position_of(saved);
            let kept = clock::from_start(seconds);
            &&& 1000 * (read.units() - kept.units()) <= power2::pow2(1074)
            &&& 1000 * (kept.units() - read.units()) <= power2::pow2(1074)
            &&& read.difference(kept).absolute().le(number::thousandth())
        }),
{
    law_position_comes_back(markdown, seconds);
    lemma_from_start(seconds);
    number::lemma_thousandths_close(clock::from_start(seconds));
}

/// A position of at most three decimals, up to a thousand million seconds, is
/// read again as it was saved.
pub proof fn law_short_position_comes_back(markdown: Seq<char>, thousandths: nat)
    requires
        thousandths <= 1_000_000_000_000,
    ensures
        ({
            let seconds = number::rounded(false, thousandths * power2::pow2(1074), 1000);
            let saved = text::text_of(
                markdown::positioned(
                    text::lines_of(markdown),
                    markdown::position_line(seconds),
                ),
            );
            &&& seconds.finite()
            &&& markdown::position_of(saved) == seconds
        }),
{
    let seconds = number::rounded(false, thousandths * power2::pow2(1074), 1000);
    number::lemma_thousandths_stay(thousandths);
    law_position_comes_back(markdown, seconds);
    lemma_from_start_keeps(seconds);
}

proof fn lemma_from_start_keeps(seconds: Binary64)
    requires
        seconds.finite(),
        !seconds.is_negative(),
    ensures
        clock::from_start(seconds) == seconds,
{
    let zero = number::zero();
    if seconds.magnitude() > 0 {
        number::lemma_steps_grow(number::double(), 0, seconds.magnitude());
    }
}

/// Whatever a sidecar holds, its position is a time from the start on.
pub proof fn law_position_is_a_time(markdown: Seq<char>)
    ensures
        markdown::position_of(markdown).finite(),
        number::zero().le(markdown::position_of(markdown)),
{
    assert(number::zero().finite());
}

/// A saved position changes no line but those that mark a position; where
/// there is none, one line is added.
pub proof fn law_position_keeps_other_lines(lines: Seq<Seq<char>>, marker: Seq<char>)
    ensures
        ({
            let test = LineTest::Marks(markdown::POSITION_MARKER@);
            let out = markdown::positioned(lines, marker);
            if markdown::any(lines, test) {
                &&& out.len() == lines.len()
                &&& forall|i: int|
                    0 <= i < lines.len() && !test.passes(lines[i]) ==> #[trigger] out[i] == lines[i]
            } else {
                &&& out.len() == lines.len() + 1
                &&& out.remove(markdown::position_place(lines)) == lines
            }
        }),
{
    lemma_position_place(lines);
    let test = LineTest::Marks(markdown::POSITION_MARKER@);
    let out = markdown::positioned(lines, marker);
    if !markdown::any(lines, test) {
        assert(out.remove(markdown::position_place(lines)) =~= lines);
    }
}

/// A position that is saved later takes the place of the one saved before: no
/// further line is added.
pub proof fn law_position_is_kept_once(markdown: Seq<char>, seconds: Binary64)
    requires
        seconds.finite(),
    ensures
        markdown::any(
            text::lines_of(
                text::text_of(
                    markdown::positioned(
                        text::lines_of(markdown),
                        markdown::position_line(seconds),
                    ),
                ),
            ),
            LineTest::Marks(markdown::POSITION_MARKER@),
        ),
{
    let lines = text::lines_of(markdown);
    let marker = markdown::position_line(seconds);
    let out = markdown::positioned(lines, marker);
    lemma_position_line(seconds);
    text::lemma_lines_clean(markdown);
    lemma_positioned_clean(lines, marker);
    lemma_positioned(lines, marker);
    lemma_reread(out);
    let at = choose|i: int| 0 <= i < out.len() && #[trigger] out[i] == marker;
    assert(reread(out)[at] == marker);
}

// ---------------------------------------------------------------------------
// Added entries
// ---------------------------------------------------------------------------

/// An entry is only added: every line stays, in its order. It stands in its
/// section, behind the heading and before the next one.
pub proof fn law_entry_is_only_added(lines: Seq<Seq<char>>, heading: Seq<char>, line: Seq<char>)
    ensures
        ({
            let (at, added) = markdown::addition(lines, heading, line);
            let out = markdown::extended(lines, heading, line);
            &&& 0 <= at <= lines.len()
            &&& added.last() == line
            &&& out.len() == lines.len() + added.len()
            &&& out.take(at) == lines.take(at)
            &&& out.subrange(at, at + added.len()) == added
            &&& out.skip(at + added.len()) == lines.skip(at)
            &&& match markdown::first(lines, LineTest::IsHeading(heading)) {
                Some(h) => h < at && forall|i: int|
                    h < i < at ==> !LineTest::Opens("## "@).passes(#[trigger] lines[i]),
                None => at == lines.len(),
            }
        }),
{
    markdown::lemma_addition_place(lines, heading, line);
    let (at, added) = markdown::addition(lines, heading, line);
    let out = markdown::extended(lines, heading, line);
    assert(out.take(at) =~= lines.take(at));
    assert(out.subrange(at, at + added.len()) =~= added);
    assert(out.skip(at + added.len()) =~= lines.skip(at));
    markdown::lemma_first(lines, LineTest::IsHeading(heading), 0);
    match markdown::first(lines, LineTest::IsHeading(heading)) {
        Some(h) => {
            markdown::lemma_first(lines, LineTest::Opens("## "@), h + 1);
            let next = match markdown::first_from(lines, LineTest::Opens("## "@), h + 1) {
                Some(i) => i,
                None => lines.len() as int,
            };
            markdown::lemma_content_end(lines, h + 1, next);
        },
        None => {},
    }
}

/// The lines of a sidecar with an entry added stand on their own.
pub proof fn lemma_extended_clean(markdown: Seq<char>, heading: Seq<char>, line: Seq<char>)
    requires
        text::on_one_line(heading),
        text::on_one_line(line),
    ensures
        text::all_on_one_line(markdown::extended(text::lines_of(markdown), heading, line)),
        markdown::extended(text::lines_of(markdown), heading, line).len() > 0,
{
    reveal_strlit("");
    let lines = text::lines_of(markdown);
    let (at, added) = markdown::addition(lines, heading, line);
    let out = markdown::extended(lines, heading, line);
    law_entry_is_only_added(lines, heading, line);
    text::lemma_lines_clean(markdown);
    assert forall|i: int| 0 <= i < out.len() implies text::on_one_line(#[trigger] out[i]) by {
        if i < at {
            assert(out[i] == out.take(at)[i]);
            assert(out[i] == lines[i]);
        } else if i < at + added.len() {
            assert(out[i] == out.subrange(at, at + added.len())[i - at]);
            assert(out[i] == ""@ || out[i] == heading || out[i] == line);
        } else {
            assert(out[i] == out.skip(at + added.len())[i - at - added.len()]);
            assert(out[i] == lines[i - added.len()]);
        }
    }
}

/// The line of an entry that is added is one of the lines that are read again.
pub proof fn lemma_appended_holds(markdown: Seq<char>, heading: Seq<char>, line: Seq<char>)
    requires
        text::on_one_line(heading),
        text::on_one_line(line),
        text::chopped(line) == line,
    ensures
        text::lines_of(markdown::appended(markdown, heading, line)).contains(line),
{
    let lines = text::lines_of(markdown);
    let (at, added) = markdown::addition(lines, heading, line);
    let out = markdown::extended(lines, heading, line);
    law_entry_is_only_added(lines, heading, line);
    lemma_extended_clean(markdown, heading, line);
    lemma_reread(out);
    let k = at + added.len() - 1;
    assert(out[k] == out.subrange(at, at + added.len())[added.len() - 1]);
    assert(reread(out)[k] == line);
}

/// A line that is read again unchanged is still there after an entry is added.
pub(crate) proof fn lemma_appended_keeps(
    markdown: Seq<char>,
    heading: Seq<char>,
    line: Seq<char>,
    kept: Seq<char>,
)
    requires
        text::on_one_line(heading),
        text::on_one_line(line),
        text::chopped(kept) == kept,
        text::lines_of(markdown).contains(kept),
    ensures
        text::lines_of(markdown::appended(markdown, heading, line)).contains(kept),
{
    let lines = text::lines_of(markdown);
    let (at, added) = markdown::addition(lines, heading, line);
    let out = markdown::extended(lines, heading, line);
    law_entry_is_only_added(lines, heading, line);
    lemma_extended_clean(markdown, heading, line);
    lemma_reread(out);
    let k = choose|k: int| 0 <= k < lines.len() && lines[k] == kept;
    if k < at {
        assert(out[k] == out.take(at)[k]);
        assert(lines[k] == lines.take(at)[k]);
        assert(reread(out)[k] == kept);
    } else {
        let j = k + added.len() as int;
        assert(out[j] == out.skip(at + added.len())[k - at]);
        assert(lines[k] == lines.skip(at)[k - at]);
        assert(reread(out)[j] == kept);
    }
}

proof fn lemma_joined_concat(a: Seq<Seq<char>>, b: Seq<Seq<char>>, sep: Seq<char>)
    requires
        a.len() > 0,
        b.len() > 0,
    ensures
        text::joined(a + b, sep) == text::joined(a, sep) + sep + text::joined(b, sep),
    decreases b.len(),
{
    assert((a + b).drop_last() =~= a + b.drop_last());
    assert((a + b).last() == b.last());
    if b.len() == 1 {
        assert(a + b.drop_last() =~= a);
    } else {
        lemma_joined_concat(a, b.drop_last(), sep);
        assert(text::joined(a + b, sep) =~= text::joined(a, sep) + sep + (text::joined(
            b.drop_last(),
            sep,
        ) + sep + b.last()));
    }
}

/// A text without the section of an entry stays as it is, in front of the
/// section that is added.
pub proof fn law_unknown_text_stays(lines: Seq<Seq<char>>, heading: Seq<char>, line: Seq<char>)
    requires
        lines.len() > 0,
        markdown::first(lines, LineTest::IsHeading(heading)) is None,
    ensures
        text::has_prefix(
            text::text_of(markdown::extended(lines, heading, line)),
            text::text_of(lines),
        ),
{
    let (at, added) = markdown::addition(lines, heading, line);
    assert(lines.take(at) =~= lines);
    assert(lines.skip(at) =~= Seq::<Seq<char>>::empty());
    assert(markdown::extended(lines, heading, line) =~= lines + added);
    lemma_joined_concat(lines, added, "\n"@);
    let whole = text::text_of(markdown::extended(lines, heading, line));
    assert(whole.subrange(0, text::text_of(lines).len() as int) =~= text::text_of(lines));
}

// ---------------------------------------------------------------------------
// Deleted entries
// ---------------------------------------------------------------------------

proof fn lemma_joined_end(lines: Seq<Seq<char>>)
    requires
        lines.len() > 0,
        lines.last().len() > 0,
    ensures
        text::joined(lines, "\n"@).len() > 0,
        text::joined(lines, "\n"@).last() == lines.last().last(),
{
}

/// Lines that are written with a line feed at the end come back as they were,
/// but for carriage returns at their ends, and for an empty line at the end.
proof fn lemma_reread_ended(lines: Seq<Seq<char>>)
    requires
        lines.len() > 0,
        text::all_on_one_line(lines),
    ensures
        ({
            let again = text::lines_of(markdown::ended(text::joined(lines, "\n"@)));
            &&& again.len() <= lines.len()
            &&& forall|i: int|
                0 <= i < again.len() ==> #[trigger] again[i] == text::chopped(lines[i])
            &&& forall|i: int|
                0 <= i < lines.len() && (#[trigger] lines[i]).len() > 0 ==> i < again.len()
        }),
{
    reveal_strlit("\n");
    let whole = text::joined(lines, "\n"@);
    assert(text::on_one_line(lines.last()));
    if text::has_suffix(whole, "\n"@) {
        text::lemma_pieces_joined(lines);
        if lines.last().len() > 0 {
            lemma_joined_end(lines);
            let n = whole.len() - 1;
            assert(whole.subrange(n, n + 1)[0] == whole[n]);
        }
    } else {
        assert(markdown::ended(whole) == text::text_of(lines));
        lemma_reread(lines);
    }
}

proof fn lemma_without_entry(lines: Seq<Seq<char>>, id: Seq<char>, n: nat)
    requires
        n <= lines.len(),
    ensures
        ({
            let kept = entries::without_entry(lines, id, n);
            &&& kept.len() <= n
            &&& forall|i: int|
                0 <= i < kept.len() ==> !entries::holds_entry(#[trigger] kept[i], id)
                    && lines.contains(kept[i])
            &&& forall|i: int|
                0 <= i < n && !entries::holds_entry(#[trigger] lines[i], id) ==> kept.contains(
                    lines[i],
                )
        }),
    decreases n,
{
    if n > 0 {
        lemma_without_entry(lines, id, (n - 1) as nat);
        let before = entries::without_entry(lines, id, (n - 1) as nat);
        let kept = entries::without_entry(lines, id, n);
        assert forall|i: int| 0 <= i < kept.len() implies !entries::holds_entry(
            #[trigger] kept[i],
            id,
        ) && lines.contains(kept[i]) by {
            if i < before.len() {
                assert(kept[i] == before[i]);
            } else {
                assert(kept[i] == lines[n - 1]);
            }
        }
        assert forall|i: int| 0 <= i < n && !entries::holds_entry(#[trigger] lines[i], id) implies
            kept.contains(lines[i]) by {
            if i < n - 1 {
                assert(before.contains(lines[i]));
                let k = choose|k: int| 0 <= k < before.len() && before[k] == lines[i];
                assert(kept[k] == lines[i]);
            } else {
                assert(kept[before.len() as int] == lines[i]);
            }
        }
    }
}

proof fn lemma_contains_chopped(line: Seq<char>, pat: Seq<char>)
    requires
        text::contains(text::chopped(line), pat),
    ensures
        text::contains(line, pat),
{
    let i = choose|i: int| text::occurs_at(text::chopped(line), pat, i);
    assert(line.subrange(i, i + pat.len()) =~= text::chopped(line).subrange(i, i + pat.len()));
    assert(text::occurs_at(line, pat, i));
}

/// A deleted entry is gone: no line of the sidecar holds it.
pub proof fn law_deleted_entry_is_gone(markdown: Seq<char>, id: Seq<char>)
    ensures
        !entries::has_entry(text::lines_of(entries::entry_deleted(markdown, id)), id),
{
    let lines = text::lines_of(markdown);
    let kept = entries::without_entry(lines, id, lines.len());
    lemma_without_entry(lines, id, lines.len());
    text::lemma_lines_clean(markdown);
    assert forall|i: int| 0 <= i < kept.len() implies text::on_one_line(#[trigger] kept[i]) by {
        assert(lines.contains(kept[i]));
    }
    let again = text::lines_of(entries::entry_deleted(markdown, id));
    if kept.len() > 0 {
        lemma_reread_ended(kept);
        assert forall|i: int| 0 <= i < again.len() implies !entries::holds_entry(
            #[trigger] again[i],
            id,
        ) by {
            assert(again[i] == text::chopped(kept[i]));
            if entries::holds_entry(again[i], id) {
                if text::contains(again[i], "framenote:bookmark:"@ + id) {
                    lemma_contains_chopped(kept[i], "framenote:bookmark:"@ + id);
                } else if text::contains(again[i], "framenote:ai:"@ + id) {
                    lemma_contains_chopped(kept[i], "framenote:ai:"@ + id);
                } else {
                    lemma_contains_chopped(kept[i], "framenote:subtitle:"@ + id);
                }
            }
        }
    } else {
        lemma_blank_text(id);
    }
}

/// The text that is left where all lines are deleted is an empty line, which
/// holds nothing.
proof fn lemma_blank_text(id: Seq<char>)
    ensures
        !entries::has_entry(
            text::lines_of(markdown::ended(text::joined(Seq::<Seq<char>>::empty(), "\n"@))),
            id,
        ),
{
    reveal_strlit("\n");
    reveal_strlit("framenote:bookmark:");
    reveal_strlit("framenote:ai:");
    reveal_strlit("framenote:subtitle:");
    let blank = Seq::<char>::empty();
    let one = seq![blank];
    assert(text::joined(one, "\n"@) == blank);
    assert(markdown::ended(text::joined(Seq::<Seq<char>>::empty(), "\n"@)) =~= text::text_of(
        one,
    ));
    assert(text::all_on_one_line(one));
    lemma_reread(one);
}

/// Whatever a deleted entry leaves is what it was: a line that does not hold
/// the entry stays.
pub proof fn law_deletion_keeps_other_lines(markdown: Seq<char>, id: Seq<char>, i: int)
    requires
        0 <= i < text::lines_of(markdown).len(),
        !entries::holds_entry(text::lines_of(markdown)[i], id),
        text::lines_of(markdown)[i].len() > 0,
    ensures
        text::lines_of(entries::entry_deleted(markdown, id)).contains(
            text::chopped(text::lines_of(markdown)[i]),
        ),
{
    let lines = text::lines_of(markdown);
    let kept = entries::without_entry(lines, id, lines.len());
    lemma_without_entry(lines, id, lines.len());
    text::lemma_lines_clean(markdown);
    assert forall|k: int| 0 <= k < kept.len() implies text::on_one_line(#[trigger] kept[k]) by {
        assert(lines.contains(kept[k]));
    }
    assert(kept.contains(lines[i]));
    let k = choose|k: int| 0 <= k < kept.len() && kept[k] == lines[i];
    lemma_reread_ended(kept);
    let again = text::lines_of(entries::entry_deleted(markdown, id));
    assert(again[k] == text::chopped(lines[i]));
}

// ---------------------------------------------------------------------------
// Imported chapters
// ---------------------------------------------------------------------------

/// Whether a text is made of hexadecimal digits.
pub open spec fn is_hexadecimal(s: Seq<char>) -> bool {
    forall|i: int| 0 <= i < s.len() ==> ids::is_hex(#[trigger] s[i])
}

proof fn lemma_hexadecimal(n: nat)
    ensures
        is_hexadecimal(digits::hexadecimal(n)),
    decreases n,
{
    if n >= 16 {
        lemma_hexadecimal(n / 16);
        let front = digits::hexadecimal(n / 16);
        let all = digits::hexadecimal(n);
        assert forall|i: int| 0 <= i < all.len() implies ids::is_hex(#[trigger] all[i]) by {
            if i < front.len() {
                assert(all[i] == front[i]);
            }
        }
    }
}

/// The fingerprint of a video, by its size and the time of its last change.
pub open spec fn source_fingerprint(stamp: FileStamp) -> Seq<char> {
    fingerprint::digest(
        chapters::EMBEDDED_CHAPTER_IMPORT_VERSION@ + "\0"@ + fingerprint::stamp_text(stamp),
    )
}

proof fn lemma_fingerprint(stamp: FileStamp)
    ensures
        is_hexadecimal(source_fingerprint(stamp)),
{
    law_digest_has_sixteen_digits(
        chapters::EMBEDDED_CHAPTER_IMPORT_VERSION@ + "\0"@ + fingerprint::stamp_text(stamp),
    );
}

proof fn lemma_hexadecimal_len(n: nat, k: nat)
    requires
        k > 0,
        n < power2::pow2(4 * k),
    ensures
        digits::hexadecimal(n).len() <= k,
    decreases n,
{
    power2::lemma2_to64();
    if n >= 16 {
        if k > 1 {
            let j = (k - 1) as nat;
            power2::lemma_pow2_adds(4 * j, 4);
            assert(4 * j + 4 == 4 * k);
            lemma_hexadecimal_len(n / 16, j);
        }
    }
}

/// The digest of a text is made of sixteen hexadecimal digits.
pub proof fn law_digest_has_sixteen_digits(identity: Seq<char>)
    ensures
        fingerprint::digest(identity).len() == 16,
        is_hexadecimal(fingerprint::digest(identity)),
{
    let n = fingerprint::fnv1a(fingerprint::utf8(identity)) as nat;
    let body = digits::hexadecimal(n);
    let all = fingerprint::digest(identity);
    lemma_hexadecimal(n);
    power2::lemma2_to64();
    power2::lemma2_to64_rest();
    lemma_hexadecimal_len(n, 16);
    assert forall|i: int| 0 <= i < all.len() implies ids::is_hex(#[trigger] all[i]) by {
        if body.len() < 16 && i >= 16 - body.len() {
            assert(all[i] == body[i - (16 - body.len())]);
        }
    }
}

/// The digit of a number.
spec fn hex_digit(n: nat) -> int {
    (n % 16) as int
}

proof fn lemma_hex_char(a: int, b: int)
    requires
        0 <= a < 16,
        0 <= b < 16,
        digits::digit_char(a) == digits::digit_char(b),
    ensures
        a == b,
{
}

/// Numbers with the same digits in hexadecimal text, from the last one on, are
/// the same.
proof fn lemma_padded_tells(a: nat, b: nat, width: nat)
    requires
        digits::hexadecimal(a).len() <= width,
        digits::hexadecimal(b).len() <= width,
        width > 0,
        digits::padded(digits::hexadecimal(a), width) == digits::padded(
            digits::hexadecimal(b),
            width,
        ),
    ensures
        a == b,
    decreases a + b,
{
    let s = digits::hexadecimal(a);
    let t = digits::hexadecimal(b);
    let p = digits::padded(s, width);
    let q = digits::padded(t, width);
    assert(p.last() == s.last());
    assert(q.last() == t.last());
    assert(s.last() == digits::digit_char(hex_digit(a)));
    assert(t.last() == digits::digit_char(hex_digit(b)));
    lemma_hex_char(hex_digit(a), hex_digit(b));
    if a >= 16 || b >= 16 {
        assert(digits::hexadecimal(a / 16).len() > 0);
        assert(digits::hexadecimal(b / 16).len() > 0);
        let w = (width - 1) as nat;
        lemma_padded_front(a, width);
        lemma_padded_front(b, width);
        lemma_padded_tells(a / 16, b / 16, w);
    }
}

/// Without its last digit, the text of a number is that of its sixteenth.
proof fn lemma_padded_front(n: nat, width: nat)
    requires
        1 < width,
        digits::hexadecimal(n).len() <= width,
    ensures
        digits::hexadecimal(n / 16).len() <= width - 1,
        digits::padded(digits::hexadecimal(n), width).drop_last() == digits::padded(
            digits::hexadecimal(n / 16),
            (width - 1) as nat,
        ),
{
    let all = digits::padded(digits::hexadecimal(n), width);
    let front = digits::padded(digits::hexadecimal(n / 16), (width - 1) as nat);
    if n < 16 {
        assert(digits::hexadecimal(0) =~= seq!['0']);
    } else {
        assert(digits::hexadecimal(n).drop_last() =~= digits::hexadecimal(n / 16));
    }
    assert(all.drop_last() =~= front);
}

/// Texts with different hashes have different digests.
pub proof fn law_digest_tells_hashes(a: Seq<char>, b: Seq<char>)
    requires
        fingerprint::fnv1a(fingerprint::utf8(a)) != fingerprint::fnv1a(fingerprint::utf8(b)),
    ensures
        fingerprint::digest(a) != fingerprint::digest(b),
{
    let m = fingerprint::fnv1a(fingerprint::utf8(a)) as nat;
    let n = fingerprint::fnv1a(fingerprint::utf8(b)) as nat;
    power2::lemma2_to64();
    power2::lemma2_to64_rest();
    lemma_hexadecimal_len(m, 16);
    lemma_hexadecimal_len(n, 16);
    if fingerprint::digest(a) == fingerprint::digest(b) {
        lemma_padded_tells(m, n, 16);
    }
}

proof fn lemma_receipt(print: Seq<char>)
    requires
        is_hexadecimal(print),
    ensures
        text::on_one_line(chapters::receipt(print)),
        text::chopped(chapters::receipt(print)) == chapters::receipt(print),
        chapters::receipt_test().passes(chapters::receipt(print)),
        chapters::receipt(print).len() > 0,
        forall|id: Seq<char>| !entries::holds_entry(chapters::receipt(print), id),
{
    reveal_strlit("<!-- framenote:embedded-chapters fingerprint=");
    reveal_strlit(" -->");
    let front = "<!-- framenote:embedded-chapters fingerprint="@;
    let back = " -->"@;
    let line = chapters::receipt(print);
    assert(line == front + print + back);
    assert(line[0] == '<' && line.last() == '>');
    lemma_trimmed_keeps(line);
    assert(line.subrange(0, front.len() as int) =~= front);
    assert forall|i: int| 0 <= i < line.len() implies #[trigger] line[i] != '\n' && (line[i] == ':'
        ==> i == 14) by {
        if i < front.len() {
            assert(line[i] == front[i]);
        } else if i < front.len() + print.len() {
            assert(line[i] == print[i - front.len()]);
            assert(ids::is_hex(print[i - front.len()]));
        } else {
            assert(line[i] == back[i - front.len() - print.len()]);
        }
    }
    assert forall|id: Seq<char>| !entries::holds_entry(line, id) by {
        reveal_strlit("framenote:bookmark:");
        reveal_strlit("framenote:ai:");
        reveal_strlit("framenote:subtitle:");
        lemma_no_marker(line, "framenote:bookmark:"@, id);
        lemma_no_marker(line, "framenote:ai:"@, id);
        lemma_no_marker(line, "framenote:subtitle:"@, id);
    }
}

proof fn lemma_no_marker(line: Seq<char>, kind: Seq<char>, id: Seq<char>)
    requires
        forall|i: int| 0 <= i < line.len() ==> (#[trigger] line[i] == ':' ==> i == 14),
        line.len() > 15,
        line[15] == 'e',
        kind.len() > 10,
        kind[9] == ':',
        kind[10] != 'e',
    ensures
        !text::contains(line, kind + id),
{
    let pat = kind + id;
    if text::contains(line, pat) {
        let i = choose|i: int| text::occurs_at(line, pat, i);
        let cut = line.subrange(i, i + pat.len());
        assert(cut[9] == line[i + 9] && cut[10] == line[i + 10]);
        assert(pat[9] == ':' && pat[10] == kind[10]);
    }
}

pub(crate) proof fn lemma_receipted(lines: Seq<Seq<char>>, marker: Seq<char>)
    requires
        text::all_on_one_line(lines),
        text::on_one_line(marker),
    ensures
        text::all_on_one_line(chapters::receipted(lines, marker)),
        chapters::receipted(lines, marker).contains(marker),
{
    let test = chapters::receipt_test();
    let out = chapters::receipted(lines, marker);
    markdown::lemma_first(lines, LineTest::Marks(markdown::POSITION_MARKER@), 0);
    markdown::lemma_first(lines, LineTest::Is(markdown::VERSION_MARKER@), 0);
    let at = chapters::receipt_place(lines);
    if markdown::any(lines, test) {
        let i = choose|i: int| 0 <= i < lines.len() && test.passes(#[trigger] lines[i]);
        assert(out[i] == marker);
    } else {
        assert(out[at] == marker);
    }
    assert forall|i: int| 0 <= i < out.len() implies text::on_one_line(#[trigger] out[i]) by {
        if markdown::any(lines, test) {
            assert(out[i] == marker || out[i] == lines[i]);
        } else if i < at {
            assert(out[i] == lines[i]);
        } else if i > at {
            assert(out[i] == lines[i - 1]);
        }
    }
}

/// Chapters are imported once: a later import adds nothing, whatever the video
/// has become, and whichever entry was deleted in between.
pub proof fn law_chapters_are_imported_once(
    markdown: Seq<char>,
    first: Seq<Chapter>,
    stamp: FileStamp,
    deleted: Seq<char>,
    later: Seq<Chapter>,
    later_print: Seq<char>,
)
    requires
        !chapters::is_imported(markdown),
    ensures
        ({
            let imported = chapters::merged(markdown, first, source_fingerprint(stamp))->0;
            &&& chapters::merged(imported, later, later_print) is None
            &&& chapters::merged(
                entries::entry_deleted(imported, deleted),
                later,
                later_print,
            ) is None
        }),
{
    let print = source_fingerprint(stamp);
    let marker = chapters::receipt(print);
    let lines = text::lines_of(chapters::with_chapters(markdown, first, first.len()));
    let out = chapters::receipted(lines, marker);
    let imported = chapters::merged(markdown, first, print)->0;
    lemma_fingerprint(stamp);
    lemma_receipt(print);
    text::lemma_lines_clean(chapters::with_chapters(markdown, first, first.len()));
    lemma_receipted(lines, marker);
    let at = choose|i: int| 0 <= i < out.len() && out[i] == marker;
    lemma_reread(out);
    let again = text::lines_of(imported);
    assert(again[at] == marker);
    assert(chapters::is_imported(imported));
    law_deletion_keeps_other_lines(imported, deleted, at);
    let left = text::lines_of(entries::entry_deleted(imported, deleted));
    let k = choose|k: int| 0 <= k < left.len() && left[k] == marker;
    assert(chapters::receipt_test().passes(left[k]));
}

// ---------------------------------------------------------------------------
// Clean texts
// ---------------------------------------------------------------------------

proof fn lemma_any(s: Seq<char>)
    ensures
        text::all_in(s, |c: char| true),
{
}

/// The text of an entry stands on one line, with single spaces, is not empty,
/// and has at most 700 characters.
pub proof fn law_entry_text_is_one_line(value: Seq<char>)
    ensures
        ({
            let clean = markdown::entry_text(value);
            &&& 0 < clean.len() <= 700
            &&& text::all_in(clean, |c: char| c == ' ' || !text::is_white(c))
            &&& text::on_one_line(clean)
        }),
{
    reveal_strlit("Untitled note");
    let flat = markdown::uncommented(
        text::mapped(value, text::among("\r\n"@), " "@),
    );
    let compact = text::collapsed(flat);
    lemma_any(flat);
    text::lemma_collapsed_in(flat, |c: char| true);
    let clean = markdown::entry_text(value);
    let plain = |c: char| c == ' ' || !text::is_white(c);
    assert forall|i: int| 0 <= i < clean.len() implies plain(#[trigger] clean[i]) && clean[i]
        != '\n' by {
        if compact.len() > 0 {
            assert(clean[i] == compact[i]);
            assert(plain(compact[i]));
        }
    }
}

/// The text of an attribute stands on one line, holds no quote, and has at
/// most 48 characters, where its fallback does.
pub proof fn law_attribute_is_quotable(value: Seq<char>, fallback: Seq<char>)
    requires
        fallback.len() <= 48,
        text::all_in(fallback, |c: char| c != '"' && c != '\n'),
    ensures
        ({
            let clean = markdown::metadata(value, fallback);
            &&& clean.len() <= 48
            &&& text::all_in(clean, |c: char| c != '"' && c != '\n')
        }),
{
    reveal_strlit("\r\n\"");
    reveal_strlit("");
    reveal_strlit("<!--");
    reveal_strlit("-->");
    let quotable = |c: char| c != '"' && c != '\n';
    let set = "\r\n\""@;
    assert(set[0] == '\r' && set[1] == '\n' && set[2] == '"');
    let flat = text::mapped(value, text::among(set), ""@);
    text::lemma_mapped_in(value, text::among(set), ""@, quotable);
    let once = text::replaced(flat, "<!--"@, ""@);
    text::lemma_replaced_in(flat, "<!--"@, ""@, quotable);
    text::lemma_replaced_in(once, "-->"@, ""@, quotable);
    text::lemma_collapsed_in(markdown::uncommented(flat), quotable);
    let compact = text::collapsed(markdown::uncommented(flat));
    let clean = markdown::metadata(value, fallback);
    assert forall|i: int| 0 <= i < clean.len() implies quotable(#[trigger] clean[i]) by {
        if compact.len() > 0 {
            assert(clean[i] == compact[i]);
        }
    }
}

proof fn lemma_leading_in(s: Seq<char>, class: spec_fn(char) -> bool, p: spec_fn(char) -> bool)
    requires
        text::all_in(s, p),
    ensures
        text::all_in(text::drop_leading(s, class), p),
        text::drop_leading(s, class).len() > 0 ==> !class(text::drop_leading(s, class)[0]),
    decreases s.len(),
{
    if s.len() > 0 && class(s[0]) {
        let rest = s.skip(1);
        assert forall|i: int| 0 <= i < rest.len() implies p(#[trigger] rest[i]) by {
            assert(rest[i] == s[i + 1]);
        }
        lemma_leading_in(rest, class, p);
    }
}

proof fn lemma_trailing_in(s: Seq<char>, class: spec_fn(char) -> bool, p: spec_fn(char) -> bool)
    requires
        text::all_in(s, p),
    ensures
        text::all_in(text::drop_trailing(s, class), p),
        text::drop_trailing(s, class).len() > 0 ==> text::drop_trailing(s, class)[0] == s[0],
    decreases s.len(),
{
    if s.len() > 0 && class(s.last()) {
        let rest = s.drop_last();
        assert forall|i: int| 0 <= i < rest.len() implies p(#[trigger] rest[i]) by {
            assert(rest[i] == s[i]);
        }
        lemma_trailing_in(rest, class, p);
    }
}

/// A part of a file name holds none of the characters that a name may not
/// hold, is not empty, keeps to its limit, and begins with neither a point nor
/// a space.
pub proof fn law_file_component_is_safe(value: Seq<char>, limit: int)
    requires
        limit > 0,
    ensures
        ({
            let name = export::file_component(value, limit);
            &&& 0 < name.len() <= limit
            &&& text::all_in(name, |c: char| !export::reserved()(c))
            &&& name[0] != '.' && name[0] != ' '
        }),
{
    reveal_strlit("mark");
    reveal_strlit(" ");
    reveal_strlit(". ");
    reveal_strlit("/\\:*?\"<>|");
    let free = |c: char| !export::reserved()(c);
    let spaced = text::mapped(value, export::reserved(), " "@);
    assert(free(' '));
    text::lemma_mapped_in(value, export::reserved(), " "@, free);
    text::lemma_collapsed_in(spaced, free);
    let compact = text::collapsed(spaced);
    let ends = text::among(". "@);
    lemma_leading_in(compact, ends, free);
    lemma_trailing_in(text::drop_leading(compact, ends), ends, free);
    let clean = export::stripped(compact, ". "@);
    let name = export::file_component(value, limit);
    assert(". "@[0] == '.' && ". "@[1] == ' ');
    if clean.len() > 0 {
        assert(name[0] == clean[0]);
        assert(!ends(clean[0]));
        if clean[0] == '.' || clean[0] == ' ' {
            assert(". "@.contains(clean[0]));
        }
    } else {
        assert(name[0] == 'm');
    }
    assert forall|i: int| 0 <= i < name.len() implies free(#[trigger] name[i]) by {
        if clean.len() > 0 {
            assert(name[i] == clean[i]);
        } else {
            assert(name[i] == "mark"@[i]);
        }
    }
}

// ---------------------------------------------------------------------------
// Exported texts
// ---------------------------------------------------------------------------

/// What a reader of tables makes of the inside of a quoted field: two quotes
/// stand for one.
pub open spec fn unquoted(s: Seq<char>) -> Seq<char>
    decreases s.len(),
{
    if s.len() == 0 {
        Seq::empty()
    } else if s[0] == '"' && s.len() > 1 && s[1] == '"' {
        seq!['"'] + unquoted(s.skip(2))
    } else {
        seq![s[0]] + unquoted(s.skip(1))
    }
}

proof fn lemma_unquoted_plain(a: Seq<char>, b: Seq<char>)
    requires
        forall|i: int| 0 <= i < a.len() ==> #[trigger] a[i] != '"',
    ensures
        unquoted(a + b) == a + unquoted(b),
    decreases a.len(),
{
    if a.len() == 0 {
        assert(a + b =~= b);
        assert(a + unquoted(b) =~= unquoted(b));
    } else {
        let rest = a.skip(1);
        assert forall|i: int| 0 <= i < rest.len() implies #[trigger] rest[i] != '"' by {
            assert(rest[i] == a[i + 1]);
        }
        lemma_unquoted_plain(rest, b);
        assert((a + b).skip(1) =~= rest + b);
        assert((a + b)[0] == a[0]);
        assert(seq![a[0]] + (rest + unquoted(b)) =~= a + unquoted(b));
    }
}

proof fn lemma_unquoted(value: Seq<char>)
    ensures
        unquoted(text::replaced(value, "\""@, "\"\""@)) == value,
    decreases value.len(),
{
    reveal_strlit("\"");
    reveal_strlit("\"\"");
    let quote = "\""@;
    let twice = "\"\""@;
    text::lemma_find(value, quote);
    match text::find(value, quote) {
        Some(i) => {
            let front = value.take(i);
            let rest = value.skip(i + 1);
            assert(value.subrange(i, i + 1)[0] == value[i]);
            assert forall|k: int| 0 <= k < front.len() implies #[trigger] front[k] != '"' by {
                if front[k] == '"' {
                    assert(value.subrange(k, k + 1) =~= quote);
                    assert(text::occurs_at(value, quote, k));
                }
            }
            lemma_unquoted(rest);
            let parts = text::pieces(value, quote);
            let others = text::pieces(rest, quote);
            assert(parts == seq![front] + others);
            assert(others.len() > 0);
            text::lemma_joined_front(parts, twice);
            assert(parts.skip(1) =~= others);
            let tail = text::joined(others, twice);
            assert(text::joined(parts, twice) =~= front + (twice + tail));
            lemma_unquoted_plain(front, twice + tail);
            assert((twice + tail)[0] == '"' && (twice + tail)[1] == '"');
            assert((twice + tail).skip(2) =~= tail);
            assert(front + (seq!['"'] + rest) =~= value);
        },
        None => {
            assert(text::pieces(value, quote) == seq![value]);
            assert forall|k: int| 0 <= k < value.len() implies #[trigger] value[k] != '"' by {
                if value[k] == '"' {
                    assert(value.subrange(k, k + 1) =~= quote);
                    assert(text::occurs_at(value, quote, k));
                }
            }
            lemma_unquoted_plain(value, Seq::empty());
            assert(value + Seq::<char>::empty() =~= value);
        },
    }
}

/// A field of a table gives its value back, whatever it holds.
pub proof fn law_field_reads_back(value: Seq<char>)
    ensures
        ({
            let field = export::quoted(value);
            &&& field.len() >= 2
            &&& field[0] == '"' && field.last() == '"'
            &&& unquoted(field.subrange(1, field.len() - 1)) == value
        }),
{
    reveal_strlit("\"");
    let inside = text::replaced(value, "\""@, "\"\""@);
    let field = export::quoted(value);
    assert(field.subrange(1, field.len() - 1) =~= inside);
    lemma_unquoted(value);
}

/// Every try for the folder of the clips of a video has a name of its own.
pub proof fn law_folder_names_differ(video: FilePath, a: nat, b: nat)
    requires
        1 <= a < b,
    ensures
        export::folder_name(video, a) != export::folder_name(video, b),
{
    reveal_strlit(" ");
    let base = "FrameNote - "@ + export::file_component(video.stem_or("Video"@), 70);
    digits::lemma_decimal(b);
    let y = export::folder_name(video, b);
    assert(y == base + " "@ + digits::decimal(b));
    if a < 2 {
        assert(y.len() > base.len());
    } else {
        let x = export::folder_name(video, a);
        if x == y {
            let n = base.len() + 1int;
            assert(x.skip(n) =~= digits::decimal(a));
            assert(y.skip(n) =~= digits::decimal(b));
            digits::lemma_decimal_injective(a, b);
        }
    }
}

proof fn lemma_names_taken(video: FilePath, taken: Set<Seq<char>>, n: nat)
    requires
        taken.finite(),
        forall|k: nat| 1 <= k <= n ==> taken.contains(#[trigger] export::folder_name(video, k)),
    ensures
        n <= taken.len(),
    decreases n,
{
    if n > 0 {
        let last = export::folder_name(video, n);
        assert(taken.contains(last));
        let rest = taken.remove(last);
        assert forall|k: nat| 1 <= k <= n - 1 implies rest.contains(
            #[trigger] export::folder_name(video, k),
        ) by {
            law_folder_names_differ(video, k, n);
        }
        lemma_names_taken(video, rest, (n - 1) as nat);
    }
}

proof fn lemma_folder_found(video: FilePath, taken: Set<Seq<char>>, tries: nat, steps: nat)
    ensures
        match export::folder_found(video, taken, tries, steps) {
            Some(name) => exists|n: nat|
                tries <= n && name == #[trigger] export::folder_name(video, n) && !taken.contains(
                    name,
                ) && forall|k: nat|
                    tries <= k < n ==> taken.contains(#[trigger] export::folder_name(video, k)),
            None => forall|k: nat|
                tries <= k < tries + steps ==> taken.contains(
                    #[trigger] export::folder_name(video, k),
                ),
        },
    decreases steps,
{
    if steps > 0 && taken.contains(export::folder_name(video, tries)) {
        lemma_folder_found(video, taken, tries + 1, (steps - 1) as nat);
        match export::folder_found(video, taken, tries + 1, (steps - 1) as nat) {
            Some(name) => {
                let n = choose|n: nat|
                    tries + 1 <= n && name == #[trigger] export::folder_name(video, n)
                        && !taken.contains(name) && forall|k: nat|
                        tries + 1 <= k < n ==> taken.contains(
                            #[trigger] export::folder_name(video, k),
                        );
                assert forall|k: nat| tries <= k < n implies taken.contains(
                    #[trigger] export::folder_name(video, k),
                ) by {}
                assert(name == export::folder_name(video, n));
            },
            None => {},
        }
    } else if steps > 0 {
        assert(export::folder_found(video, taken, tries, steps) == Some(
            export::folder_name(video, tries),
        ));
    }
}

/// Every export gets a new folder: the search ends, with the first name that
/// is free, and once that one is taken it is not found again.
pub proof fn law_first_free_folder_is_used(video: FilePath, taken: Set<Seq<char>>)
    requires
        taken.finite(),
    ensures
        ({
            let found = export::folder_found(video, taken, 1, taken.len() + 1);
            &&& found is Some
            &&& !taken.contains(found->0)
            &&& exists|n: nat|
                1 <= n && found->0 == #[trigger] export::folder_name(video, n) && forall|k: nat|
                    1 <= k < n ==> taken.contains(#[trigger] export::folder_name(video, k))
            &&& forall|steps: nat|
                #[trigger] export::folder_found(video, taken.insert(found->0), 1, steps) != found
        }),
{
    let steps = taken.len() + 1;
    let found = export::folder_found(video, taken, 1, steps);
    lemma_folder_found(video, taken, 1, steps);
    if found is None {
        assert forall|k: nat| 1 <= k <= steps implies taken.contains(
            #[trigger] export::folder_name(video, k),
        ) by {}
        lemma_names_taken(video, taken, steps);
        assert(false);
    }
    let more = taken.insert(found->0);
    assert forall|steps: nat| #[trigger] export::folder_found(video, more, 1, steps) != found by {
        lemma_folder_found(video, more, 1, steps);
    }
}

} // verus!
