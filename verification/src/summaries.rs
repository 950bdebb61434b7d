//! Generated summaries that are saved and recognised again.

use vstd::prelude::*;

use crate::clock;
use crate::entries;
use crate::ids;
use crate::laws;
use crate::markdown;
use crate::marks;
use crate::number;
use crate::number::Binary64;
use crate::ranges;
use crate::roundtrip;
use crate::text;
use crate::transcript;
use crate::transcript::Cue;

verus! {

pub(crate) proof fn lemma_bounds_usable(start: Binary64, end: Binary64)
    ensures
        ({
            let bounds = transcript::range_bounds(start, end);
            &&& bounds.0.finite() && !bounds.0.is_negative()
            &&& bounds.1.finite() && !bounds.1.is_negative()
        }),
{
    if start.finite() {
        laws::lemma_from_start(start);
    }
    let from = entries::usable_time(start);
    if end.finite() && from.lt(end) {
        assert(from.units() >= 0);
    }
}

pub(crate) open spec fn closing(bounds: (Binary64, Binary64), note: Seq<char>) -> Seq<char> {
    (" start="@ + bounds.0.fixed()) + ((" end="@ + bounds.1.fixed()) + (note + " -->"@))
}

pub(crate) proof fn lemma_summary_parts(
    id: Seq<char>,
    from: Seq<char>,
    to: Seq<char>,
    summary: Seq<char>,
    bounds: (Binary64, Binary64),
    note: Seq<char>,
)
    ensures
        transcript::summary_line(id, from, to, summary, bounds, note) == roundtrip::bracket(from, to)
            + ((" "@ + markdown::entry_text(summary)) + ((" <!-- framenote:ai:"@ + id) + closing(
            bounds,
            note,
        ))),
{
    reveal(roundtrip::bracket);
    reveal_strlit("] ");
    reveal_strlit("]");
    reveal_strlit(" ");
    let words = markdown::entry_text(summary);
    let a = "- ["@ + from + "–"@ + to;
    let s0 = roundtrip::bracket(from, to);
    let s1 = " "@ + words;
    let m = " <!-- framenote:ai:"@;
    let s2 = m + id;
    let s3 = " start="@ + bounds.0.fixed();
    let s4 = " end="@ + bounds.1.fixed();
    let s5 = note + " -->"@;
    assert("] "@ =~= "]"@ + " "@);
    roundtrip::lemma_assoc(a, "]"@, " "@);
    roundtrip::lemma_assoc(s0, " "@, words);
    let l1 = s0 + s1;
    roundtrip::lemma_assoc(l1, m, id);
    let l2 = l1 + s2;
    roundtrip::lemma_assoc(l2, " start="@, bounds.0.fixed());
    let l3 = l2 + s3;
    roundtrip::lemma_assoc(l3, " end="@, bounds.1.fixed());
    let l4 = l3 + s4;
    roundtrip::lemma_assoc(l4, note, " -->"@);
    roundtrip::lemma_assoc(l3, s4, s5);
    roundtrip::lemma_assoc(l2, s3, s4 + s5);
    roundtrip::lemma_assoc(l1, s2, s3 + (s4 + s5));
    roundtrip::lemma_assoc(s0, s1, s2 + (s3 + (s4 + s5)));
}

proof fn lemma_marker_plain(id: Seq<char>)
    requires
        ids::is_uuid(id),
    ensures
        forall|i: int|
            #![trigger (" <!-- framenote:ai:"@ + id)[i]]
            0 <= i < (" <!-- framenote:ai:"@ + id).len() ==> (" <!-- framenote:ai:"@ + id)[i]
                != '=' && (" <!-- framenote:ai:"@ + id)[i] != '\n',
        (" <!-- framenote:ai:"@ + id)[0] == ' ',
        text::contains(" <!-- framenote:ai:"@ + id, "framenote:ai:"@ + id),
{
    reveal_strlit(" <!-- framenote:ai:");
    reveal_strlit("framenote:ai:");
    let front = " <!-- framenote:ai:"@;
    let all = front + id;
    let marker = "framenote:ai:"@ + id;
    assert(all.subrange(6, 6int + marker.len()) =~= marker);
    assert(text::occurs_at(all, marker, 6));
    assert forall|i: int| #![trigger all[i]] 0 <= i < all.len() implies all[i] != '=' && all[i]
        != '\n' by {
        if i < front.len() {
            assert(all[i] == front[i]);
        } else {
            assert(all[i] == id[i - front.len()]);
        }
    }
}

proof fn lemma_contains_left(f: Seq<char>, g: Seq<char>, pat: Seq<char>)
    requires
        text::contains(f, pat),
    ensures
        text::contains(f + g, pat),
{
    let i = choose|i: int| text::occurs_at(f, pat, i);
    assert((f + g).subrange(i, i + pat.len()) =~= f.subrange(i, i + pat.len()));
    assert(text::occurs_at(f + g, pat, i));
}

/// Whether words leave the bounds of a range readable behind them: what reads
/// like a bound, behind a comment that they open, is the bound.
pub open spec fn leaves_range(words: Seq<char>, bounds: (Binary64, Binary64)) -> bool {
    let attributes = entries::comment(words);
    entries::opening(words, 0) is Some ==> {
        &&& text::contains(attributes, "start="@) ==> markdown::gives_bound(
            attributes,
            "start"@,
            bounds.0,
        )
        &&& text::contains(attributes, "end="@) ==> markdown::gives_bound(
            attributes,
            "end"@,
            bounds.1,
        )
    }
}

/// Where a comment opens in a line of words and what follows them: where one
/// opens in the words, else at the start of what follows.
pub(crate) proof fn lemma_first_opening(head: Seq<char>, words: Seq<char>, rest: Seq<char>)
    requires
        text::all_in(head, |c: char| c != '<'),
        rest.len() > 5,
        rest.take(6) == " <!-- "@,
    ensures
        ({
            let line = head + (words + rest);
            entries::comment(line) == if entries::opening(words, 0) is Some {
                entries::comment(words) + rest
            } else {
                rest.skip(1)
            }
        }),
{
    reveal_strlit(" <!-- ");
    reveal_strlit("<!--");
    reveal_strlit("<!-->");
    reveal_strlit("<!--->");
    let plain = |c: char| c != '<';
    let line = head + (words + rest);
    let h = head.len();
    let n = words.len();
    entries::lemma_opening(words, 0);
    entries::lemma_opening(line, 0);
    assert forall|k: int| 0 <= k < 6 implies #[trigger] rest[k] == " <!-- "@[k] by {
        assert(rest[k] == rest.take(6)[k]);
    }
    assert forall|i: int| i < h + n implies #[trigger] entries::opens_at(line, i) == (i >= h
        && entries::opens_at(words, i - h)) by {
        if i >= h {
            lemma_opens_within(head, words, rest, i - h);
        } else if entries::opens_at(line, i) {
            assert(line.subrange(i, i + 4)[0] == line[i]);
            assert(line[i] == head[i]);
            assert(plain(head[i]));
        }
    }
    let at = h + n + 1int;
    assert(!entries::opens_at(line, at - 1)) by {
        if entries::opens_at(line, at - 1) {
            assert(line.subrange(at - 1, at + 3)[0] == line[at - 1]);
            assert(line[at - 1] == rest[0]);
        }
    }
    assert(entries::opens_at(line, at)) by {
        assert(line.subrange(at, at + 4) =~= "<!--"@);
        assert(line[at + 4] == rest[5]);
        if text::occurs_at(line, "<!-->"@, at) {
            assert(line.subrange(at, at + 5)[4] == line[at + 4]);
        }
        if text::occurs_at(line, "<!--->"@, at) {
            assert(line.subrange(at, at + 6)[4] == line[at + 4]);
        }
    }
    match entries::opening(words, 0) {
        Some(i) => {
            assert(entries::opens_at(line, h + i));
            assert(entries::opening(line, 0) == Some(h + i));
            assert(line.skip(h + i) =~= words.skip(i) + rest);
        },
        None => {
            assert(entries::opening(line, 0) == Some(at));
            assert(line.skip(at) =~= rest.skip(1));
        },
    }
}

proof fn lemma_opens_within(head: Seq<char>, words: Seq<char>, rest: Seq<char>, i: int)
    requires
        0 <= i < words.len(),
        rest.len() > 0,
        rest[0] == ' ',
    ensures
        entries::opens_at(head + (words + rest), head.len() + i) == entries::opens_at(words, i),
{
    reveal_strlit("<!--");
    reveal_strlit("<!-->");
    reveal_strlit("<!--->");
    lemma_occurs_within(head, words, rest, "<!--"@, i);
    lemma_occurs_within(head, words, rest, "<!-->"@, i);
    lemma_occurs_within(head, words, rest, "<!--->"@, i);
}

/// A pattern without a space stands in words as in a line of them.
pub(crate) proof fn lemma_occurs_within(
    head: Seq<char>,
    words: Seq<char>,
    rest: Seq<char>,
    pat: Seq<char>,
    i: int,
)
    requires
        0 <= i < words.len(),
        rest.len() > 0,
        rest[0] == ' ',
        forall|k: int| 0 <= k < pat.len() ==> #[trigger] pat[k] != ' ',
    ensures
        text::occurs_at(head + (words + rest), pat, head.len() + i) == text::occurs_at(
            words,
            pat,
            i,
        ),
{
    let line = head + (words + rest);
    let h = head.len();
    if text::occurs_at(words, pat, i) {
        assert(line.subrange(h + i, h + i + pat.len()) =~= words.subrange(i, i + pat.len()));
    }
    if text::occurs_at(line, pat, h + i) {
        let cut = line.subrange(h + i, h + i + pat.len());
        if i + pat.len() > words.len() {
            assert(cut[words.len() - i] == rest[0]);
            assert(pat[words.len() - i] == ' ');
        }
        assert(words.subrange(i, i + pat.len()) =~= cut);
    }
}

/// A number that words hold is read in a line of them too.
proof fn lemma_number_in_words(words: Seq<char>, rest: Seq<char>, name: Seq<char>)
    requires
        rest.len() > 0,
        rest[0] == ' ',
        roundtrip::is_solid(name + "="@),
        text::contains(words, name + "="@),
    ensures
        markdown::number_attribute(words + rest, name) == markdown::number_attribute(words, name),
{
    reveal_strlit("0123456789.-");
    reveal_strlit("=");
    let set = "0123456789.-"@;
    let p = text::among(set);
    let pat = name + "="@;
    let all = words + rest;
    let none = Seq::<char>::empty();
    assert(none + all =~= all);
    text::lemma_find(words, pat);
    text::lemma_find(all, pat);
    let i = text::find(words, pat)->0;
    assert forall|k: int| 0 <= k < pat.len() implies #[trigger] pat[k] != ' ' by {}
    assert forall|j: int| 0 <= j < words.len() implies text::occurs_at(all, pat, j)
        == text::occurs_at(words, pat, j) by {
        lemma_occurs_within(none, words, rest, pat, j);
    }
    assert(i < words.len());
    assert(text::occurs_at(all, pat, i));
    assert(text::find(all, pat) == Some(i));
    let value = words.skip(i + pat.len());
    assert(all.skip(i + pat.len()) =~= value + rest);
    ranges::lemma_run_within(value, p);
    assert(!p(' ')) by {
        assert forall|k: int| 0 <= k < set.len() implies set[k] != ' ' by {}
    }
    if text::run(value, p) < value.len() {
        ranges::lemma_run_ends(value, rest, p);
    } else {
        roundtrip::lemma_run(value, rest, p);
        roundtrip::lemma_run(value, none, p);
        assert(value + none =~= value);
    }
}

/// The bounds that are read of the comment of a summary.
proof fn lemma_closing_reads(id: Seq<char>, bounds: (Binary64, Binary64), note: Seq<char>)
    requires
        ids::is_uuid(id),
        bounds.0.finite() && !bounds.0.is_negative(),
        bounds.1.finite() && !bounds.1.is_negative(),
        (note + " -->"@)[0] == ' ',
    ensures
        ({
            let attributes = (" <!-- framenote:ai:"@ + id) + closing(bounds, note);
            &&& markdown::number_attribute(attributes, "start"@) == Some(
                number::to_thousandths(bounds.0),
            )
            &&& markdown::number_attribute(attributes, "end"@) == Some(
                number::to_thousandths(bounds.1),
            )
            &&& markdown::number_attribute(attributes.skip(1), "start"@) == Some(
                number::to_thousandths(bounds.0),
            )
            &&& markdown::number_attribute(attributes.skip(1), "end"@) == Some(
                number::to_thousandths(bounds.1),
            )
        }),
{
    reveal_strlit(" start=");
    reveal_strlit(" end=");
    reveal_strlit(" -->");
    reveal_strlit(" <!-- framenote:ai:");
    let s2 = " <!-- framenote:ai:"@ + id;
    let m = s2.skip(1);
    let s4 = " end="@ + bounds.1.fixed();
    let s5 = note + " -->"@;
    let tail = closing(bounds, note);
    roundtrip::lemma_names();
    assert(tail[0] == ' ');
    assert((s4 + s5)[0] == ' ');
    assert((s2 + tail).skip(1) =~= m + tail);
    lemma_marker_plain(id);
    assert forall|i: int| 0 <= i < m.len() implies #[trigger] m[i] != '=' by {
        assert(m[i] == s2[i + 1]);
    }
    roundtrip::lemma_lacks(s2, "start="@, 5);
    roundtrip::lemma_lacks(m, "start="@, 5);
    roundtrip::lemma_next_segment(s2, tail, "start="@);
    roundtrip::lemma_next_segment(m, tail, "start="@);
    roundtrip::lemma_amount_here("start"@, " start="@, bounds.0, s4 + s5);
    roundtrip::lemma_lacks(s2, "end="@, 3);
    roundtrip::lemma_lacks(m, "end="@, 3);
    roundtrip::lemma_next_segment(s2, tail, "end="@);
    roundtrip::lemma_next_segment(m, tail, "end="@);
    roundtrip::lemma_amount_lacks(" start="@, bounds.0, s4 + s5, "end="@, 1, 'n');
    roundtrip::lemma_amount_here("end"@, " end="@, bounds.1, s5);
}

proof fn lemma_summary_reads(
    id: Seq<char>,
    from: Seq<char>,
    to: Seq<char>,
    summary: Seq<char>,
    bounds: (Binary64, Binary64),
    note: Seq<char>,
)
    requires
        ids::is_uuid(id),
        roundtrip::is_stamp(from),
        roundtrip::is_stamp(to),
        bounds.0.finite() && !bounds.0.is_negative(),
        bounds.1.finite() && !bounds.1.is_negative(),
        (note + " -->"@)[0] == ' ',
        leaves_range(markdown::entry_text(summary), bounds),
    ensures
        markdown::covers_range(
            transcript::summary_line(id, from, to, summary, bounds, note),
            bounds.0,
            bounds.1,
        ),
{
    reveal_strlit(" ");
    reveal_strlit(" <!-- ");
    reveal_strlit(" <!-- framenote:ai:");
    let line = transcript::summary_line(id, from, to, summary, bounds, note);
    let words = markdown::entry_text(summary);
    let s0 = roundtrip::bracket(from, to);
    let s2 = " <!-- framenote:ai:"@ + id;
    let tail = closing(bounds, note);
    let rest = s2 + tail;
    let head = s0 + " "@;
    lemma_summary_parts(id, from, to, summary, bounds, note);
    assert(line =~= head + (words + rest));
    lemma_marker_plain(id);
    lemma_contains_left(s2, tail, "framenote:ai:"@ + id);
    roundtrip::lemma_contains_right(words, rest, "framenote:ai:"@ + id);
    roundtrip::lemma_contains_right(head, words + rest, "framenote:ai:"@ + id);
    roundtrip::lemma_contains_front(line, "framenote:ai:"@, id);
    roundtrip::lemma_bracket_chars(from, to);
    assert(text::all_in(head, |c: char| c != '<'));
    assert(rest.take(6) =~= " <!-- "@);
    lemma_first_opening(head, words, rest);
    lemma_closing_reads(id, bounds, note);
    roundtrip::lemma_names();
    number::lemma_thousandths_near(bounds.0);
    number::lemma_thousandths_near(bounds.1);
    if entries::opening(words, 0) is Some {
        let inner = entries::comment(words);
        lemma_bound_in_words(inner, rest, "start"@, bounds.0);
        lemma_bound_in_words(inner, rest, "end"@, bounds.1);
    }
}

/// What is read behind words: what they hold themselves, or what follows them.
proof fn lemma_bound_in_words(
    words: Seq<char>,
    rest: Seq<char>,
    name: Seq<char>,
    bound: Binary64,
)
    requires
        rest.len() > 0,
        rest[0] == ' ',
        roundtrip::is_solid(name + "="@),
        text::contains(words, name + "="@) ==> markdown::gives_bound(words, name, bound),
        markdown::gives_bound(rest, name, bound),
    ensures
        markdown::gives_bound(words + rest, name, bound),
{
    if text::contains(words, name + "="@) {
        lemma_number_in_words(words, rest, name);
    } else {
        roundtrip::lemma_next_segment(words, rest, name + "="@);
    }
}

pub(crate) proof fn lemma_summary_clean(
    id: Seq<char>,
    from: Seq<char>,
    to: Seq<char>,
    summary: Seq<char>,
    bounds: (Binary64, Binary64),
    note: Seq<char>,
)
    requires
        ids::is_uuid(id),
        roundtrip::is_stamp(from),
        roundtrip::is_stamp(to),
        text::on_one_line(note),
    ensures
        ({
            let line = transcript::summary_line(id, from, to, summary, bounds, note);
            &&& text::on_one_line(line)
            &&& text::chopped(line) == line
        }),
{
    reveal_strlit(" ");
    reveal_strlit(" start=");
    reveal_strlit(" end=");
    reveal_strlit(" -->");
    let p = |c: char| c != '\n';
    let line = transcript::summary_line(id, from, to, summary, bounds, note);
    let words = markdown::entry_text(summary);
    let s0 = roundtrip::bracket(from, to);
    let s2 = " <!-- framenote:ai:"@ + id;
    let s3 = " start="@ + bounds.0.fixed();
    let s4 = " end="@ + bounds.1.fixed();
    let s5 = note + " -->"@;
    lemma_summary_parts(id, from, to, summary, bounds, note);
    roundtrip::lemma_bracket_chars(from, to);
    lemma_marker_plain(id);
    laws::law_entry_text_is_one_line(summary);
    marks::lemma_fixed_clean(bounds.0);
    marks::lemma_fixed_clean(bounds.1);
    text::lemma_concat_in(" "@, words, p);
    text::lemma_concat_in(" start="@, bounds.0.fixed(), p);
    text::lemma_concat_in(" end="@, bounds.1.fixed(), p);
    text::lemma_concat_in(note, " -->"@, p);
    text::lemma_concat_in(s4, s5, p);
    text::lemma_concat_in(s3, s4 + s5, p);
    text::lemma_concat_in(s2, s3 + (s4 + s5), p);
    text::lemma_concat_in(" "@ + words, s2 + closing(bounds, note), p);
    text::lemma_concat_in(s0, (" "@ + words) + (s2 + closing(bounds, note)), p);
    assert forall|i: int| 0 <= i < line.len() implies #[trigger] line[i] != '\n' by {
        assert(p(line[i]));
    }
    assert(line.last() == '>');
}

pub(crate) proof fn lemma_analysed_found(
    lines: Seq<Seq<char>>,
    bounds: (Binary64, Binary64),
    from: int,
    k: int,
)
    requires
        0 <= from <= k < lines.len(),
        markdown::covers_range(lines[k], bounds.0, bounds.1),
    ensures
        transcript::analysed_at(lines, bounds, from) is Some,
    decreases k - from,
{
    if from < k && !markdown::covers_range(lines[from], bounds.0, bounds.1) {
        lemma_analysed_found(lines, bounds, from + 1, k);
    }
}

/// A summary that is added is found under its identifier.
pub proof fn law_added_summary_is_found(
    markdown: Seq<char>,
    start: Binary64,
    end: Binary64,
    summary: Seq<char>,
    id: Seq<char>,
)
    requires
        ids::is_uuid(id),
    ensures
        entries::has_entry(
            text::lines_of(transcript::summary_added(markdown, start, end, summary, id)),
            id,
        ),
{
    reveal_strlit("## AI timeline");
    reveal_strlit("");
    let bounds = transcript::range_bounds(start, end);
    let from = clock::timestamp(start);
    let to = clock::timestamp(end);
    let line = transcript::summary_line(id, from, to, summary, bounds, ""@);
    roundtrip::lemma_time_is_stamp(start);
    roundtrip::lemma_time_is_stamp(end);
    lemma_summary_clean(id, from, to, summary, bounds, ""@);
    lemma_summary_parts(id, from, to, summary, bounds, ""@);
    lemma_marker_plain(id);
    let marker = "framenote:ai:"@ + id;
    let s2 = " <!-- framenote:ai:"@ + id;
    let words = " "@ + markdown::entry_text(summary);
    lemma_contains_left(s2, closing(bounds, ""@), marker);
    roundtrip::lemma_contains_right(words, s2 + closing(bounds, ""@), marker);
    roundtrip::lemma_contains_right(
        roundtrip::bracket(from, to),
        words + (s2 + closing(bounds, ""@)),
        marker,
    );
    laws::lemma_appended_holds(markdown, markdown::AI_HEADING@, line);
    let again = text::lines_of(transcript::summary_added(markdown, start, end, summary, id));
    let k = choose|k: int| 0 <= k < again.len() && again[k] == line;
    assert(entries::holds_entry(again[k], id));
}

/// The line of a summary that is saved: it is read again, and covers its range.
#[verifier::rlimit(40)]
pub(crate) proof fn lemma_summary_saved(
    markdown: Seq<char>,
    start: Binary64,
    end: Binary64,
    summary: Seq<char>,
    complete: bool,
    id: Seq<char>,
) -> (line: Seq<char>)
    requires
        ids::is_uuid(id),
        transcript::analysed_at(
            text::lines_of(markdown),
            transcript::range_bounds(start, end),
            0,
        ) is None,
        leaves_range(markdown::entry_text(summary), transcript::range_bounds(start, end)),
    ensures
        ({
            let bounds = transcript::range_bounds(start, end);
            let saved = transcript::summarised(markdown, bounds, summary, complete, id);
            &&& text::lines_of(saved).contains(line)
            &&& text::chopped(line) == line
            &&& markdown::covers_range(line, bounds.0, bounds.1)
        }),
{
    reveal_strlit("## AI timeline");
    reveal_strlit("");
    reveal_strlit(" transcript=complete");
    reveal_strlit(" -->");
    let bounds = transcript::range_bounds(start, end);
    let from = clock::timestamp(bounds.0);
    let to = clock::timestamp(bounds.1);
    let note = if complete {
        " transcript=complete"@
    } else {
        ""@
    };
    assert((note + " -->"@)[0] == ' ');
    let line = transcript::summary_line(id, from, to, summary, bounds, note);
    lemma_bounds_usable(start, end);
    roundtrip::lemma_time_is_stamp(bounds.0);
    roundtrip::lemma_time_is_stamp(bounds.1);
    lemma_summary_clean(id, from, to, summary, bounds, note);
    lemma_summary_reads(id, from, to, summary, bounds, note);
    laws::lemma_appended_holds(markdown, markdown::AI_HEADING@, line);
    line
}

/// A summary that a range has already is kept: all lines stay but for the note
/// that the transcript is complete, which may be added to the one of the range.
pub proof fn law_known_summary_is_kept(
    markdown: Seq<char>,
    bounds: (Binary64, Binary64),
    summary: Seq<char>,
    complete: bool,
    id: Seq<char>,
)
    requires
        transcript::analysed_at(text::lines_of(markdown), bounds, 0) is Some,
    ensures
        ({
            let lines = text::lines_of(markdown);
            let i = transcript::analysed_at(lines, bounds, 0)->0;
            let again = text::lines_of(
                transcript::summarised(markdown, bounds, summary, complete, id),
            );
            &&& 0 <= i < lines.len()
            &&& again.len() == lines.len()
            &&& forall|k: int|
                0 <= k < lines.len() && k != i ==> #[trigger] again[k] == text::chopped(lines[k])
            &&& again[i] == text::chopped(
                if complete {
                    transcript::completed(lines[i])
                } else {
                    lines[i]
                },
            )
        }),
{
    let lines = text::lines_of(markdown);
    let i = transcript::analysed_at(lines, bounds, 0)->0;
    lemma_analysed_within(lines, bounds, 0);
    text::lemma_lines_clean(markdown);
    let out = if complete {
        lines.update(i, transcript::completed(lines[i]))
    } else {
        lines
    };
    lemma_completed_clean(lines[i]);
    assert forall|k: int| 0 <= k < out.len() implies text::on_one_line(#[trigger] out[k]) by {
        if k == i {
            assert(text::on_one_line(lines[i]));
        } else {
            assert(out[k] == lines[k]);
        }
    }
    laws::lemma_reread(out);
}

proof fn lemma_analysed_within(lines: Seq<Seq<char>>, bounds: (Binary64, Binary64), from: int)
    requires
        0 <= from,
    ensures
        transcript::analysed_at(lines, bounds, from) matches Some(i) ==> from <= i < lines.len(),
    decreases lines.len() - from,
{
    if from < lines.len() && !markdown::covers_range(lines[from], bounds.0, bounds.1) {
        lemma_analysed_within(lines, bounds, from + 1);
    }
}

proof fn lemma_completed_clean(line: Seq<char>)
    ensures
        text::on_one_line(line) ==> text::on_one_line(transcript::completed(line)),
{
    reveal_strlit("transcript=complete -->");
    if text::on_one_line(line) {
        text::lemma_find(line, "-->"@);
    }
}

// ---------------------------------------------------------------------------
// The result of an analysis
// ---------------------------------------------------------------------------

/// The line under which a passage of an analysed range is saved.
pub open spec fn saved_line(cue: Cue, id: Seq<char>) -> Seq<char> {
    transcript::cue_line(id, clock::timestamp(cue.start), clock::timestamp(cue.end), cue)
}

pub(crate) proof fn lemma_kept_clean(cue: Cue, bounds: (Binary64, Binary64), id: Seq<char>)
    requires
        ids::is_uuid(id),
        transcript::kept_cue(cue, bounds) is Some,
    ensures
        ({
            let line = saved_line(transcript::kept_cue(cue, bounds)->0, id);
            text::on_one_line(line) && text::chopped(line) == line
        }),
{
    reveal_strlit("Speaker");
    reveal_strlit("unknown");
    let kept = transcript::kept_cue(cue, bounds)->0;
    let quotable = |c: char| c != '"' && c != '\n';
    assert(text::all_in("Speaker"@, quotable));
    assert(text::all_in("unknown"@, quotable));
    laws::law_attribute_is_quotable(cue.speaker, "Speaker"@);
    laws::law_attribute_is_quotable(cue.language, "unknown"@);
    laws::law_entry_text_is_one_line(cue.text);
    roundtrip::lemma_time_is_stamp(kept.start);
    roundtrip::lemma_time_is_stamp(kept.end);
    roundtrip::lemma_cue_line_clean(
        id,
        clock::timestamp(kept.start),
        clock::timestamp(kept.end),
        kept,
    );
}

/// The passages of an analysed range leave every line that is read again
/// unchanged in its sidecar.
#[verifier::rlimit(40)]
proof fn lemma_transcript_keeps(
    markdown: Seq<char>,
    bounds: (Binary64, Binary64),
    cues: Seq<Cue>,
    ids: Seq<Seq<char>>,
    from: nat,
    n: nat,
    line: Seq<char>,
)
    requires
        from <= n <= ids.len(),
        transcript::all_uuids(ids),
        text::chopped(line) == line,
        text::lines_of(transcript::transcribed(markdown, bounds, cues, ids, from)).contains(line),
    ensures
        text::lines_of(transcript::transcribed(markdown, bounds, cues, ids, n)).contains(line),
    decreases n,
{
    if from < n {
        lemma_transcript_keeps(markdown, bounds, cues, ids, from, (n - 1) as nat, line);
        let before = transcript::transcribed(markdown, bounds, cues, ids, (n - 1) as nat);
        if let Some(cue) = transcript::kept_cue(cues[n - 1], bounds) {
            reveal_strlit("## Subtitles");
            assert(ids::is_uuid(ids[n - 1]));
            lemma_kept_clean(cues[n - 1], bounds, ids[n - 1]);
            laws::lemma_appended_keeps(
                before,
                markdown::SUBTITLE_HEADING@,
                saved_line(cue, ids[n - 1]),
                line,
            );
        }
    }
}

/// What was said in an analysed range is read again as it was saved, with its
/// times in thousandths of a second, and stands under its identifier.
#[verifier::rlimit(40)]
pub proof fn law_saved_transcript_reads_back(
    markdown: Seq<char>,
    start: Binary64,
    end: Binary64,
    summary: Seq<char>,
    cues: Seq<Cue>,
    complete: bool,
    id: Seq<char>,
    ids: Seq<Seq<char>>,
    k: int,
)
    requires
        transcript::all_uuids(ids),
        ids.len() >= transcript::read_count(cues.len()),
        0 <= k < transcript::read_count(cues.len()),
        ({
            let kept = transcript::kept_cue(cues[k], transcript::range_bounds(start, end));
            kept is Some && roundtrip::is_lasting(kept->0)
        }),
    ensures
        ({
            let kept = transcript::kept_cue(cues[k], transcript::range_bounds(start, end))->0;
            let saved = transcript::analysed(
                markdown,
                start,
                end,
                summary,
                cues,
                complete,
                id,
                ids,
            );
            &&& transcript::subtitles(saved).contains(roundtrip::in_thousandths(kept))
            &&& entries::has_entry(text::lines_of(saved), ids[k])
        }),
{
    reveal_strlit("## Subtitles");
    let bounds = transcript::range_bounds(start, end);
    let base = transcript::summarised(markdown, bounds, summary, complete, id);
    let n = transcript::read_count(cues.len());
    let kept = transcript::kept_cue(cues[k], bounds)->0;
    let from = clock::timestamp(kept.start);
    let to = clock::timestamp(kept.end);
    let line = saved_line(kept, ids[k]);
    assert(ids::is_uuid(ids[k]));
    lemma_kept_clean(cues[k], bounds, ids[k]);
    let before = transcript::transcribed(base, bounds, cues, ids, k as nat);
    laws::lemma_appended_holds(before, markdown::SUBTITLE_HEADING@, line);
    lemma_transcript_keeps(base, bounds, cues, ids, (k + 1) as nat, n, line);
    let again = text::lines_of(transcript::transcribed(base, bounds, cues, ids, n));
    let i = choose|i: int| 0 <= i < again.len() && again[i] == line;
    roundtrip::lemma_time_is_stamp(kept.start);
    roundtrip::lemma_time_is_stamp(kept.end);
    roundtrip::law_cue_line_reads_back(ids[k], from, to, kept);
    roundtrip::lemma_sorted_holds(again, again.len(), i);
    roundtrip::lemma_reads_text(ids[k], from, to, kept);
    assert(entries::holds_entry(again[i], ids[k]));
}

} // verus!
