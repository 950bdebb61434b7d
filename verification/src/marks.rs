//! Bookmarks that are added, ended, reworded and found again.

use vstd::prelude::*;

use crate::chapters;
use crate::clock;
use crate::entries;
use crate::ids;
use crate::laws;
use crate::markdown;
use crate::number;
use crate::number::Binary64;
use crate::roundtrip;
use crate::text;

verus! {

// ---------------------------------------------------------------------------
// Brackets
// ---------------------------------------------------------------------------

pub(crate) proof fn lemma_bracketed(inside: Seq<char>, rest: Seq<char>)
    requires
        forall|i: int| 0 <= i < inside.len() ==> #[trigger] inside[i] != ']',
    ensures
        chapters::bracketed(("- ["@ + inside) + ("]"@ + rest)) == Some(inside),
{
    reveal_strlit("- [");
    reveal_strlit("[");
    reveal_strlit("]");
    let line = ("- ["@ + inside) + ("]"@ + rest);
    assert(line[0] == '-' && line[1] == ' ' && line[2] == '[');
    assert(line.subrange(2, 3) =~= "["@);
    assert(text::occurs_at(line, "["@, 2));
    text::lemma_find(line, "["@);
    let open = text::find(line, "["@)->0;
    assert(open == 2) by {
        if open < 2 {
            assert(line.subrange(open, open + 1)[0] == line[open]);
        }
    }
    let tail = line.skip(3);
    assert(tail =~= inside + ("]"@ + rest));
    let n = inside.len() as int;
    assert(tail.subrange(n, n + 1) =~= "]"@);
    assert(text::occurs_at(tail, "]"@, n));
    text::lemma_find(tail, "]"@);
    let close = text::find(tail, "]"@)->0;
    if close < n {
        assert(tail.subrange(close, close + 1)[0] == tail[close]);
        assert(tail[close] == inside[close]);
    }
    assert(tail.take(n) =~= inside);
}

pub(crate) proof fn lemma_stamp_plain(s: Seq<char>)
    requires
        roundtrip::is_stamp(s),
    ensures
        forall|i: int|
            0 <= i < s.len() ==> text::is_digit(#[trigger] s[i]) || s[i] == ':' || s[i] == '.',
{
    let stamp = |c: char| text::is_digit(c) || c == ':' || c == '.';
    assert forall|i: int| 0 <= i < s.len() implies text::is_digit(#[trigger] s[i]) || s[i] == ':'
        || s[i] == '.' by {
        assert(stamp(s[i]));
    }
}

// ---------------------------------------------------------------------------
// A bookmark at a point
// ---------------------------------------------------------------------------

spec fn point_head(start: Binary64) -> Seq<char> {
    "- ["@ + clock::precise(start) + "]"@
}

spec fn point_tail(start: Binary64) -> Seq<char> {
    (" start="@ + start.fixed()) + " -->"@
}

proof fn lemma_mark_parts(id: Seq<char>, start: Binary64)
    ensures
        entries::mark_line(id, start) == point_head(start) + (" New mark"@ + ((
        " <!-- framenote:bookmark:"@ + id) + point_tail(start))),
{
    reveal_strlit("] New mark <!-- framenote:bookmark:");
    reveal_strlit("]");
    reveal_strlit(" New mark");
    reveal_strlit(" <!-- framenote:bookmark:");
    let m = " <!-- framenote:bookmark:"@;
    let n = " New mark"@;
    assert("] New mark <!-- framenote:bookmark:"@ =~= "]"@ + (n + m));
    let a = "- ["@ + clock::precise(start);
    let h = point_head(start);
    roundtrip::lemma_assoc(a, "]"@, n + m);
    roundtrip::lemma_assoc(h, n, m);
    let hn = h + n;
    roundtrip::lemma_assoc(hn, m, id);
    let mi = m + id;
    roundtrip::lemma_assoc(hn + mi, " start="@, start.fixed());
    roundtrip::lemma_assoc(hn + mi, " start="@ + start.fixed(), " -->"@);
    roundtrip::lemma_assoc(hn, mi, point_tail(start));
    roundtrip::lemma_assoc(h, n, mi + point_tail(start));
}

/// The comment in the line of a bookmark.
#[verifier::rlimit(40)]
proof fn lemma_mark_comment(id: Seq<char>, start: Binary64)
    ensures
        entries::comment(entries::mark_line(id, start)) == ("<!-- framenote:bookmark:"@ + id)
            + point_tail(start),
{
    reveal_strlit("- [");
    reveal_strlit("]");
    reveal_strlit(" ");
    reveal_strlit("<!--");
    reveal_strlit(" New mark");
    reveal_strlit(" framenote:bookmark:");
    reveal_strlit("<!-- framenote:bookmark:");
    reveal_strlit(" <!-- framenote:bookmark:");
    let line = entries::mark_line(id, start);
    let m = " <!-- framenote:bookmark:"@ + id;
    let t = point_tail(start);
    let head = point_head(start);
    let stamp = clock::precise(start);
    roundtrip::lemma_time_is_stamp(start);
    lemma_stamp_plain(stamp);
    lemma_mark_parts(id, start);
    assert forall|i: int| 0 <= i < head.len() implies #[trigger] head[i] != '<' by {
        if 3 <= i < 3 + stamp.len() {
            assert(head[i] == stamp[i - 3]);
        }
    }
    roundtrip::lemma_lacks(head, "<!--"@, 0);
    roundtrip::lemma_lacks(" New mark"@, "<!--"@, 0);
    assert((m + t)[0] == ' ');
    assert((" New mark"@ + (m + t))[0] == ' ');
    roundtrip::lemma_next_segment(" New mark"@, m + t, "<!--"@);
    roundtrip::lemma_next_segment(head, " New mark"@ + (m + t), "<!--"@);
    let after = " framenote:bookmark:"@ + (id + t);
    assert(m + t =~= " "@ + "<!--"@ + after);
    roundtrip::lemma_here("<!--"@, after);
    let i = head.len() + " New mark"@.len() + 1int;
    assert(text::find(line, "<!--"@) == Some(i));
    assert(line[i + 4] == m[5]);
    entries::lemma_comment(line);
    assert(line.skip(i) =~= ("<!-- framenote:bookmark:"@ + id) + t);
}

/// What a pattern with an equals sign finds in the comment of a bookmark: only
/// its start.
proof fn lemma_mark_finds(id: Seq<char>, start: Binary64, pat: Seq<char>, k: int)
    requires
        ids::is_uuid(id),
        roundtrip::is_solid(pat),
        0 <= k < pat.len(),
        pat[k] == '=',
    ensures
        ({
            let attributes = entries::comment(entries::mark_line(id, start));
            &&& roundtrip::behind(attributes, pat) == roundtrip::behind(point_tail(start), pat)
            &&& text::find(attributes, pat) is Some == text::find(point_tail(start), pat) is Some
        }),
{
    reveal_strlit("<!-- framenote:bookmark:");
    reveal_strlit(" start=");
    let front = "<!-- framenote:bookmark:"@;
    let m = front + id;
    let t = point_tail(start);
    lemma_mark_comment(id, start);
    assert forall|i: int| 0 <= i < m.len() implies #[trigger] m[i] != '=' by {
        if i < front.len() {
            assert(m[i] == front[i]);
        } else {
            assert(m[i] == id[i - front.len()]);
        }
    }
    roundtrip::lemma_lacks(m, pat, k);
    assert(t[0] == ' ');
    roundtrip::lemma_next_segment(m, t, pat);
}

/// A pattern that neither the start nor the end of the comment can hold.
proof fn lemma_tail_lacks(start: Binary64, pat: Seq<char>, k: int, c: char)
    requires
        start.finite(),
        !start.is_negative(),
        roundtrip::is_solid(pat),
        0 <= k < pat.len(),
        pat[k] == c,
        c == 'n' || c == 'o',
    ensures
        text::find(point_tail(start), pat) is None,
{
    reveal_strlit(" start=");
    reveal_strlit(" -->");
    let all = point_tail(start);
    let amount = start.fixed();
    let figure = |c: char| text::is_digit(c) || c == '.';
    roundtrip::lemma_amount(start);
    assert forall|i: int| 0 <= i < all.len() implies #[trigger] all[i] != c by {
        if 7 <= i < 7 + amount.len() {
            assert(all[i] == amount[i - 7]);
            assert(figure(amount[i - 7]));
        }
    }
    roundtrip::lemma_lacks(all, pat, k);
    text::lemma_find(all, pat);
}

proof fn lemma_usable(seconds: Binary64)
    ensures
        entries::usable_time(seconds).finite(),
        !entries::usable_time(seconds).is_negative(),
{
    if seconds.finite() {
        laws::lemma_from_start(seconds);
    }
}

/// A bookmark that is added is open, at its time in thousandths of a second.
#[verifier::rlimit(40)]
pub proof fn law_added_mark_is_open(id: Seq<char>, seconds: Binary64)
    requires
        ids::is_uuid(id),
    ensures
        ({
            let start = entries::usable_time(seconds);
            entries::open_start(entries::mark_line(id, start)) == Some(
                number::to_thousandths(start),
            )
        }),
{
    reveal(entries::open_start);
    reveal_strlit("source=embedded-chapter");
    reveal_strlit("–—");
    reveal_strlit(" -->");
    let start = entries::usable_time(seconds);
    let line = entries::mark_line(id, start);
    lemma_usable(seconds);
    roundtrip::lemma_names();
    lemma_mark_holds(id, start);
    roundtrip::lemma_contains_front(line, "framenote:bookmark:"@, id);
    // No origin, no end.
    let origin = "source=embedded-chapter"@;
    lemma_mark_finds(id, start, origin, 6);
    lemma_tail_lacks(start, origin, 1, 'o');
    text::lemma_find(entries::comment(line), origin);
    lemma_mark_finds(id, start, "end="@, 3);
    lemma_tail_lacks(start, "end="@, 1, 'n');
    // The start.
    lemma_mark_finds(id, start, "start="@, 5);
    roundtrip::lemma_amount_here("start"@, " start="@, start, " -->"@);
    // The bracket.
    let stamp = clock::precise(start);
    roundtrip::lemma_time_is_stamp(start);
    lemma_stamp_plain(stamp);
    lemma_mark_parts(id, start);
    let rest = " New mark"@ + ((" <!-- framenote:bookmark:"@ + id) + point_tail(start));
    roundtrip::lemma_assoc("- ["@ + stamp, "]"@, rest);
    lemma_bracketed(stamp, rest);
    assert("–—"@[0] == '–' && "–—"@[1] == '—');
    assert(!text::meets(stamp, "–—"@));
}

/// The line of a bookmark holds its entry.
proof fn lemma_mark_holds(id: Seq<char>, start: Binary64)
    ensures
        text::contains(entries::mark_line(id, start), "framenote:bookmark:"@ + id),
{
    reveal_strlit(" <!-- framenote:bookmark:");
    reveal_strlit("framenote:bookmark:");
    lemma_mark_parts(id, start);
    let marker = "framenote:bookmark:"@ + id;
    let m = " <!-- framenote:bookmark:"@ + id;
    let t = point_tail(start);
    assert((m + t).subrange(6, 6int + marker.len()) =~= marker);
    assert(text::occurs_at(m + t, marker, 6));
    roundtrip::lemma_contains_right(" New mark"@, m + t, marker);
    roundtrip::lemma_contains_right(point_head(start), " New mark"@ + (m + t), marker);
}

// ---------------------------------------------------------------------------
// A bookmark over a range
// ---------------------------------------------------------------------------

/// A bookmark over a range is not open.
#[verifier::rlimit(40)]
pub proof fn law_range_mark_is_closed(
    words: Seq<char>,
    id: Seq<char>,
    start: Binary64,
    end: Binary64,
)
    ensures
        entries::open_start(entries::range_line(words, id, start, end)) is None,
{
    reveal(entries::open_start);
    reveal_strlit("–");
    reveal_strlit("–—");
    reveal_strlit("] ");
    reveal_strlit("]");
    reveal_strlit(" ");
    let line = entries::range_line(words, id, start, end);
    let from = clock::precise(start);
    let to = clock::precise(end);
    let inside = from + "–"@ + to;
    let front = "- ["@ + from + "–"@ + to;
    lemma_range_front(words, id, start, end);
    let rest = line.skip(front.len() as int + 1);
    assert("- ["@ + inside =~= front);
    assert(line =~= ("- ["@ + inside) + ("]"@ + rest));
    roundtrip::lemma_time_is_stamp(start);
    roundtrip::lemma_time_is_stamp(end);
    lemma_stamp_plain(from);
    lemma_stamp_plain(to);
    assert forall|i: int| 0 <= i < inside.len() implies #[trigger] inside[i] != ']' by {
        if i < from.len() {
            assert(inside[i] == from[i]);
        } else if i > from.len() {
            assert(inside[i] == to[i - from.len() - 1]);
        }
    }
    lemma_bracketed(inside, rest);
    let k = from.len() as int;
    assert(inside[k] == '–');
    assert("–—"@[0] == '–');
    assert(text::meets(inside, "–—"@));
}

proof fn lemma_range_front(words: Seq<char>, id: Seq<char>, start: Binary64, end: Binary64)
    ensures
        ({
            let line = entries::range_line(words, id, start, end);
            let front = "- ["@ + clock::precise(start) + "–"@ + clock::precise(end);
            &&& line.len() > front.len()
            &&& line.take(front.len() as int) == front
            &&& line[front.len() as int] == ']'
        }),
{
    reveal_strlit("] ");
    let line = entries::range_line(words, id, start, end);
    let front = "- ["@ + clock::precise(start) + "–"@ + clock::precise(end);
    let a = front + "] "@;
    let b = a + words + " <!-- framenote:bookmark:"@ + id + " start="@ + start.fixed();
    assert(a.take(front.len() as int) =~= front);
    assert(a[front.len() as int] == ']');
    assert(b.take(a.len() as int) =~= a);
    assert(line.take(b.len() as int) =~= b);
    assert(line.take(front.len() as int) =~= a.take(front.len() as int)) by {
        assert forall|i: int| 0 <= i < a.len() implies line[i] == a[i] by {
            assert(line[i] == line.take(b.len() as int)[i]);
            assert(b[i] == b.take(a.len() as int)[i]);
        }
    }
    assert(line[front.len() as int] == line.take(b.len() as int)[front.len() as int]);
    assert(b[front.len() as int] == b.take(a.len() as int)[front.len() as int]);
}

pub(crate) proof fn lemma_fixed_clean(value: Binary64)
    ensures
        text::all_in(value.fixed(), |c: char| c != '\n'),
{
    reveal_strlit("NaN");
    reveal_strlit("-inf");
    reveal_strlit("inf");
    reveal_strlit("-");
    reveal_strlit("");
    let p = |c: char| c != '\n';
    if value.finite() {
        let figures = number::thousandths_text(value.thousandths());
        number::lemma_thousandths_chars(value.thousandths());
        assert(text::all_in(figures, p));
        text::lemma_concat_in("-"@, figures, p);
        text::lemma_concat_in(""@, figures, p);
    }
}

pub(crate) proof fn lemma_stamp_clean(value: Binary64)
    ensures
        text::all_in(clock::precise(value), |c: char| c != '\n'),
        text::all_in(clock::timestamp(value), |c: char| c != '\n'),
{
    roundtrip::lemma_time_is_stamp(value);
    lemma_stamp_plain(clock::precise(value));
    lemma_stamp_plain(clock::timestamp(value));
}

proof fn lemma_range_clean(words: Seq<char>, id: Seq<char>, start: Binary64, end: Binary64)
    requires
        text::on_one_line(words),
        text::on_one_line(id),
    ensures
        text::on_one_line(entries::range_line(words, id, start, end)),
        text::chopped(entries::range_line(words, id, start, end)) == entries::range_line(
            words,
            id,
            start,
            end,
        ),
{
    reveal_strlit("- [");
    reveal_strlit("–");
    reveal_strlit("] ");
    reveal_strlit(" <!-- framenote:bookmark:");
    reveal_strlit(" start=");
    reveal_strlit(" end=");
    reveal_strlit(" -->");
    let p = |c: char| c != '\n';
    lemma_stamp_clean(start);
    lemma_stamp_clean(end);
    lemma_fixed_clean(start);
    lemma_fixed_clean(end);
    let a = "- ["@ + clock::precise(start);
    text::lemma_concat_in("- ["@, clock::precise(start), p);
    text::lemma_concat_in(a, "–"@, p);
    let b = a + "–"@ + clock::precise(end);
    text::lemma_concat_in(a + "–"@, clock::precise(end), p);
    text::lemma_concat_in(b, "] "@, p);
    let c = b + "] "@ + words;
    text::lemma_concat_in(b + "] "@, words, p);
    let m = " <!-- framenote:bookmark:"@;
    text::lemma_concat_in(c, m, p);
    let d = c + m + id;
    text::lemma_concat_in(c + m, id, p);
    text::lemma_concat_in(d, " start="@, p);
    let e = d + " start="@ + start.fixed();
    text::lemma_concat_in(d + " start="@, start.fixed(), p);
    text::lemma_concat_in(e, " end="@, p);
    let f = e + " end="@ + end.fixed();
    text::lemma_concat_in(e + " end="@, end.fixed(), p);
    text::lemma_concat_in(f, " -->"@, p);
    let line = entries::range_line(words, id, start, end);
    assert forall|i: int| 0 <= i < line.len() implies #[trigger] line[i] != '\n' by {
        assert(p(line[i]));
    }
    assert(line.last() == '>');
}

/// The line of a bookmark over a range holds its entry.
pub(crate) proof fn lemma_range_holds(words: Seq<char>, id: Seq<char>, start: Binary64, end: Binary64)
    ensures
        text::contains(
            entries::range_line(words, id, start, end),
            "framenote:bookmark:"@ + id,
        ),
{
    reveal_strlit(" <!-- framenote:bookmark:");
    reveal_strlit("framenote:bookmark:");
    let line = entries::range_line(words, id, start, end);
    let m = " <!-- framenote:bookmark:"@;
    let front = "- ["@ + clock::precise(start) + "–"@ + clock::precise(end) + "] "@ + words;
    let marker = "framenote:bookmark:"@ + id;
    let d = front + m + id;
    let at = front.len() + 6int;
    assert(d.subrange(at, at + marker.len()) =~= marker);
    let e = d + " start="@ + start.fixed();
    assert(e.subrange(at, at + marker.len()) =~= d.subrange(at, at + marker.len()));
    let f = e + " end="@ + end.fixed();
    assert(f.subrange(at, at + marker.len()) =~= e.subrange(at, at + marker.len()));
    assert(line =~= f + " -->"@);
    assert(line.subrange(at, at + marker.len()) =~= f.subrange(at, at + marker.len()));
    assert(text::occurs_at(line, marker, at));
}

pub(crate) proof fn lemma_uuid_clean(id: Seq<char>)
    requires
        ids::is_uuid(id),
    ensures
        text::on_one_line(id),
{
}

/// A bookmark over a range is found under its identifier.
#[verifier::rlimit(40)]
pub proof fn law_added_range_is_found(
    markdown: Seq<char>,
    start: Binary64,
    end: Binary64,
    id: Seq<char>,
)
    requires
        ids::is_uuid(id),
        entries::mark_bounds(start, end) is Ok,
    ensures
        entries::range_added(markdown, start, end, id) is Ok,
        entries::has_entry(
            text::lines_of(entries::range_added(markdown, start, end, id)->Ok_0),
            id,
        ),
{
    reveal_strlit("## Bookmarks");
    reveal_strlit("New mark");
    let (from, to) = entries::mark_bounds(start, end)->Ok_0;
    let line = entries::range_line("New mark"@, id, from, to);
    lemma_uuid_clean(id);
    lemma_range_clean("New mark"@, id, from, to);
    lemma_range_holds("New mark"@, id, from, to);
    laws::lemma_appended_holds(markdown, markdown::BOOKMARK_HEADING@, line);
    let again = text::lines_of(entries::range_added(markdown, start, end, id)->Ok_0);
    let k = choose|k: int| 0 <= k < again.len() && again[k] == line;
    assert(entries::holds_entry(again[k], id));
}

proof fn lemma_mark_clean(id: Seq<char>, start: Binary64)
    requires
        text::on_one_line(id),
    ensures
        text::on_one_line(entries::mark_line(id, start)),
        text::chopped(entries::mark_line(id, start)) == entries::mark_line(id, start),
{
    reveal_strlit("- [");
    reveal_strlit("] New mark <!-- framenote:bookmark:");
    reveal_strlit(" start=");
    reveal_strlit(" -->");
    let p = |c: char| c != '\n';
    lemma_stamp_clean(start);
    lemma_fixed_clean(start);
    let m = "] New mark <!-- framenote:bookmark:"@;
    let a = "- ["@ + clock::precise(start);
    text::lemma_concat_in("- ["@, clock::precise(start), p);
    text::lemma_concat_in(a, m, p);
    text::lemma_concat_in(a + m, id, p);
    text::lemma_concat_in(a + m + id, " start="@, p);
    let b = a + m + id + " start="@ + start.fixed();
    text::lemma_concat_in(a + m + id + " start="@, start.fixed(), p);
    text::lemma_concat_in(b, " -->"@, p);
    let line = entries::mark_line(id, start);
    assert forall|i: int| 0 <= i < line.len() implies #[trigger] line[i] != '\n' by {
        assert(p(line[i]));
    }
    assert(line.last() == '>');
}

/// A bookmark that is added is found under its identifier, and is open: it can
/// be ended at every later time.
pub proof fn law_added_mark_is_found(markdown: Seq<char>, seconds: Binary64, id: Seq<char>)
    requires
        ids::is_uuid(id),
    ensures
        ({
            let start = entries::usable_time(seconds);
            let added = markdown::appended(
                markdown,
                markdown::BOOKMARK_HEADING@,
                entries::mark_line(id, start),
            );
            let lines = text::lines_of(added);
            &&& entries::has_entry(lines, id)
            &&& forall|end: Binary64|
                #![trigger entries::latest_open(lines, end, lines.len())]
                number::to_thousandths(start).le(end) ==> entries::latest_open(
                    lines,
                    end,
                    lines.len(),
                ) is Some
        }),
{
    reveal_strlit("## Bookmarks");
    let start = entries::usable_time(seconds);
    let line = entries::mark_line(id, start);
    let added = markdown::appended(markdown, markdown::BOOKMARK_HEADING@, line);
    let lines = text::lines_of(added);
    lemma_uuid_clean(id);
    lemma_mark_clean(id, start);
    lemma_mark_holds(id, start);
    law_added_mark_is_open(id, seconds);
    laws::lemma_appended_holds(markdown, markdown::BOOKMARK_HEADING@, line);
    let k = choose|k: int| 0 <= k < lines.len() && lines[k] == line;
    assert(entries::holds_entry(lines[k], id));
    assert forall|end: Binary64|
        #![trigger entries::latest_open(lines, end, lines.len())]
        number::to_thousandths(start).le(end) implies entries::latest_open(
        lines,
        end,
        lines.len(),
    ) is Some by {
        entries::law_nearest_open_mark_is_ended(lines, end);
        assert(entries::endable(lines[k], end));
    }
}

proof fn lemma_id_clean(line: Seq<char>)
    ensures
        text::on_one_line(entries::bookmark_id(line)),
{
    match text::cut(line, "framenote:bookmark:"@) {
        Some((_, value)) => {
            lemma_run_in(value, entries::id_class());
            let id = entries::bookmark_id(line);
            assert forall|i: int| 0 <= i < id.len() implies #[trigger] id[i] != '\n' by {
                assert(entries::id_class()(id[i]));
            }
        },
        None => {},
    }
}

proof fn lemma_run_in(s: Seq<char>, p: spec_fn(char) -> bool)
    ensures
        text::run(s, p) <= s.len(),
        text::all_in(text::prefix_of(s, p), p),
    decreases s.len(),
{
    if s.len() > 0 && p(s[0]) {
        lemma_run_in(s.skip(1), p);
        let n = text::run(s.skip(1), p) as int;
        let front = text::prefix_of(s, p);
        assert forall|i: int| 0 <= i < front.len() implies p(#[trigger] front[i]) by {
            if i > 0 {
                assert(front[i] == s.skip(1).take(n)[i - 1]);
            }
        }
    }
}

/// A bookmark that is ended is closed, keeps its identifier, and no other line
/// is changed.
pub proof fn law_ended_mark_is_closed(markdown: Seq<char>, seconds: Binary64)
    requires
        entries::bookmark_ended(markdown, seconds) is Ok,
    ensures
        ({
            let lines = text::lines_of(markdown);
            let i = entries::latest_open(lines, clock::from_start(seconds), lines.len())->0;
            let (ended, id) = entries::bookmark_ended(markdown, seconds)->Ok_0;
            let again = text::lines_of(ended);
            &&& 0 <= i < lines.len()
            &&& again.len() == lines.len()
            &&& entries::open_start(lines[i]) is Some
            &&& entries::open_start(again[i]) is None
            &&& entries::holds_entry(again[i], id)
            &&& id == entries::bookmark_id(lines[i])
            &&& forall|k: int|
                0 <= k < lines.len() && k != i ==> #[trigger] again[k] == text::chopped(lines[k])
        }),
{
    let lines = text::lines_of(markdown);
    let end = clock::from_start(seconds);
    let i = entries::latest_open(lines, end, lines.len())->0;
    entries::law_nearest_open_mark_is_ended(lines, end);
    let start = entries::open_start(lines[i])->0;
    let line = entries::ended_line(lines[i], start, end);
    let words = text::trimmed(entries::entry_body(lines[i]));
    laws::law_entry_text_is_one_line(words);
    lemma_id_clean(lines[i]);
    lemma_range_clean(markdown::entry_text(words), entries::bookmark_id(lines[i]), start, end);
    lemma_range_holds(markdown::entry_text(words), entries::bookmark_id(lines[i]), start, end);
    law_range_mark_is_closed(
        markdown::entry_text(words),
        entries::bookmark_id(lines[i]),
        start,
        end,
    );
    text::lemma_lines_clean(markdown);
    let out = lines.update(i, line);
    assert forall|k: int| 0 <= k < out.len() implies text::on_one_line(#[trigger] out[k]) by {
        assert(out[k] == line || out[k] == lines[k]);
    }
    laws::lemma_reread(out);
}

/// The line of the mark that is ended.
pub(crate) proof fn lemma_ended_line(markdown: Seq<char>, seconds: Binary64)
    requires
        entries::bookmark_ended(markdown, seconds) is Ok,
    ensures
        ({
            let lines = text::lines_of(markdown);
            let end = clock::from_start(seconds);
            let i = entries::latest_open(lines, end, lines.len())->0;
            let start = entries::open_start(lines[i])->0;
            let again = text::lines_of(entries::bookmark_ended(markdown, seconds)->Ok_0.0);
            again[i] == entries::ended_line(lines[i], start, end)
        }),
{
    let lines = text::lines_of(markdown);
    let end = clock::from_start(seconds);
    let i = entries::latest_open(lines, end, lines.len())->0;
    entries::law_nearest_open_mark_is_ended(lines, end);
    let start = entries::open_start(lines[i])->0;
    let line = entries::ended_line(lines[i], start, end);
    let words = text::trimmed(entries::entry_body(lines[i]));
    laws::law_entry_text_is_one_line(words);
    lemma_id_clean(lines[i]);
    lemma_range_clean(markdown::entry_text(words), entries::bookmark_id(lines[i]), start, end);
    text::lemma_lines_clean(markdown);
    let out = lines.update(i, line);
    assert forall|k: int| 0 <= k < out.len() implies text::on_one_line(#[trigger] out[k]) by {
        assert(out[k] == line || out[k] == lines[k]);
    }
    laws::lemma_reread(out);
}

/// What is read as the identifier of a mark can be one.
pub(crate) proof fn lemma_id_is_one(line: Seq<char>)
    ensures
        entries::is_identifier(entries::bookmark_id(line)),
{
    if let Some((_, value)) = text::cut(line, "framenote:bookmark:"@) {
        lemma_run_in(value, entries::id_class());
    }
}

// ---------------------------------------------------------------------------
// Entries that are reworded
// ---------------------------------------------------------------------------

/// An entry that is reworded changes no other line.
pub proof fn law_rewording_keeps_other_lines(
    lines: Seq<Seq<char>>,
    id: Seq<char>,
    words: Seq<char>,
)
    ensures
        entries::rewritten(lines, id, words).len() == lines.len(),
        forall|i: int|
            0 <= i < lines.len() && !entries::holds_entry(lines[i], id)
                ==> #[trigger] entries::rewritten(lines, id, words)[i] == lines[i],
{
}

proof fn lemma_leading_contains(s: Seq<char>, pat: Seq<char>, i: int)
    requires
        text::occurs_at(s, pat, i),
        pat.len() > 0,
        !text::is_white(pat[0]),
    ensures
        text::contains(text::drop_leading(s, text::whites()), pat),
    decreases s.len(),
{
    let p = text::whites();
    let cut = s.subrange(i, i + pat.len());
    assert(cut[0] == s[i]);
    if s.len() > 0 && p(s[0]) {
        let rest = s.skip(1);
        assert(i > 0);
        assert(rest.subrange(i - 1, i - 1 + pat.len()) =~= cut);
        lemma_leading_contains(rest, pat, i - 1);
    }
}

proof fn lemma_trailing_contains(s: Seq<char>, pat: Seq<char>, i: int)
    requires
        text::occurs_at(s, pat, i),
        pat.len() > 0,
        !text::is_white(pat.last()),
    ensures
        text::contains(text::drop_trailing(s, text::whites()), pat),
    decreases s.len(),
{
    let p = text::whites();
    let cut = s.subrange(i, i + pat.len());
    assert(cut[pat.len() - 1] == s[i + pat.len() - 1]);
    if s.len() > 0 && p(s.last()) {
        let rest = s.drop_last();
        assert(i + pat.len() < s.len());
        assert(rest.subrange(i, i + pat.len()) =~= cut);
        lemma_trailing_contains(rest, pat, i);
    }
}

/// An entry whose comment holds its marker still holds it after it was
/// reworded, with the new words behind its bracket.
pub proof fn law_reworded_entry_stays(
    line: Seq<char>,
    kind: Seq<char>,
    id: Seq<char>,
    words: Seq<char>,
)
    requires
        ids::is_uuid(id),
        kind.len() > 0,
        !text::is_white(kind[0]),
        text::find(line, "]"@) is Some,
        text::find(line, "<!--"@) is Some,
        text::contains(line.skip(text::find(line, "<!--"@)->0), kind + id),
    ensures
        ({
            let close = text::find(line, "]"@)->0;
            let after = entries::reworded(line, words);
            &&& text::contains(after, kind + id)
            &&& text::has_prefix(after, line.take(close + 1) + " "@ + words + " "@)
        }),
{
    let close = text::find(line, "]"@)->0;
    let comment = line.skip(text::find(line, "<!--"@)->0);
    let pat = kind + id;
    let i = choose|i: int| text::occurs_at(comment, pat, i);
    assert(pat[0] == kind[0]);
    assert(pat.last() == id[35]);
    lemma_leading_contains(comment, pat, i);
    let once = text::drop_leading(comment, text::whites());
    let j = choose|j: int| text::occurs_at(once, pat, j);
    lemma_trailing_contains(once, pat, j);
    let front = line.take(close + 1) + " "@ + words + " "@;
    let after = entries::reworded(line, words);
    assert(after == front + text::trimmed(comment));
    roundtrip::lemma_contains_right(front, text::trimmed(comment), pat);
    assert(after.subrange(0, front.len() as int) =~= front);
}

} // verus!
