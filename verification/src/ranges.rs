//! Analysed ranges that stay recognised.

use vstd::prelude::*;

use crate::clock;
use crate::entries;
use crate::ids;
use crate::laws;
use crate::markdown;
use crate::number;
use crate::number::Binary64;
use crate::roundtrip;
use crate::summaries;
use crate::text;
use crate::transcript;
use crate::transcript::Cue;

verus! {

// ---------------------------------------------------------------------------
// Numbers behind a name
// ---------------------------------------------------------------------------

/// The class of the characters of a number in a marker.
spec fn figures() -> spec_fn(char) -> bool {
    text::among("0123456789.-"@)
}

/// A text that two hyphens end is no number.
proof fn lemma_hyphens_are_no_number(s: Seq<char>)
    requires
        s.len() >= 2,
        s.last() == '-',
        forall|i: int| 0 <= i < s.len() ==> #[trigger] s[i] != 'e' && s[i] != 'E',
    ensures
        number::parsed(s) is None,
{
    reveal_strlit("inf");
    reveal_strlit("infinity");
    reveal_strlit("nan");
    reveal_strlit("e");
    reveal_strlit(".");
    let body = if s[0] == '+' || s[0] == '-' {
        s.skip(1)
    } else {
        s
    };
    let low = text::lower(body);
    assert(low.last() == '-');
    assert("inf"@.last() == 'f');
    assert("infinity"@.last() == 'y');
    assert("nan"@.last() == 'n');
    assert forall|i: int| 0 <= i < low.len() implies #[trigger] low[i] != "e"@[0] by {
        assert(low[i] == text::lower_char(body[i]));
        assert(body[i] == s[i] || body[i] == s[i + 1]);
    }
    roundtrip::lemma_lacks(low, "e"@, 0);
    text::lemma_find(low, "e"@);
    text::lemma_find(low, "."@);
    match text::find(low, "."@) {
        Some(i) => {
            let behind = low.skip(i + 1);
            assert(low.subrange(i, i + 1)[0] == '.');
            assert(i < low.len() - 1);
            assert(behind.last() == '-');
            assert(!text::is_digit(behind[behind.len() - 1]));
            assert(!crate::digits::all_digits(behind));
        },
        None => {
            assert(!text::is_digit(low[low.len() - 1]));
            assert(!crate::digits::all_digits(low));
        },
    }
}

/// What follows changes nothing of a run of characters that ends before.
pub(crate) proof fn lemma_run_ends(a: Seq<char>, b: Seq<char>, p: spec_fn(char) -> bool)
    requires
        text::run(a, p) < a.len(),
    ensures
        text::prefix_of(a + b, p) == text::prefix_of(a, p),
    decreases a.len(),
{
    let all = a + b;
    assert(all[0] == a[0]);
    if p(a[0]) {
        assert(all.skip(1) =~= a.skip(1) + b);
        lemma_run_ends(a.skip(1), b, p);
        lemma_run_within(a.skip(1), p);
        let n = text::run(a.skip(1), p);
        assert(text::prefix_of(a.skip(1) + b, p).len() == text::prefix_of(a.skip(1), p).len());
        lemma_run_within(a.skip(1) + b, p);
        assert(text::run(all, p) == text::run(a, p));
    }
    assert(text::prefix_of(all, p) =~= text::prefix_of(a, p));
}

pub(crate) proof fn lemma_run_within(a: Seq<char>, p: spec_fn(char) -> bool)
    ensures
        text::run(a, p) <= a.len(),
        text::run(a, p) == a.len() ==> text::all_in(a, p),
    decreases a.len(),
{
    if a.len() > 0 && p(a[0]) {
        let rest = a.skip(1);
        lemma_run_within(rest, p);
        if text::run(rest, p) == rest.len() {
            assert forall|i: int| 0 <= i < a.len() implies p(#[trigger] a[i]) by {
                if i > 0 {
                    assert(a[i] == rest[i - 1]);
                }
            }
        }
    }
}

// ---------------------------------------------------------------------------
// Lines that lose a carriage return
// ---------------------------------------------------------------------------

proof fn lemma_chop_keeps_occurrence(line: Seq<char>, pat: Seq<char>, i: int)
    requires
        pat.len() > 0,
        forall|k: int| 0 <= k < pat.len() ==> #[trigger] pat[k] != '\r',
    ensures
        text::occurs_at(text::chopped(line), pat, i) == text::occurs_at(line, pat, i),
{
    let short = text::chopped(line);
    if text::occurs_at(line, pat, i) {
        let cut = line.subrange(i, i + pat.len());
        if i + pat.len() > short.len() {
            assert(cut[pat.len() - 1] == line.last());
            assert(pat[pat.len() - 1] == '\r');
        }
        assert(short.subrange(i, i + pat.len()) =~= cut);
    }
    if text::occurs_at(short, pat, i) {
        assert(line.subrange(i, i + pat.len()) =~= short.subrange(i, i + pat.len()));
    }
}

proof fn lemma_chop_keeps_find(line: Seq<char>, pat: Seq<char>)
    requires
        pat.len() > 0,
        forall|i: int| 0 <= i < pat.len() ==> #[trigger] pat[i] != '\r',
    ensures
        text::find(text::chopped(line), pat) == text::find(line, pat),
        text::contains(text::chopped(line), pat) == text::contains(line, pat),
{
    let short = text::chopped(line);
    text::lemma_find(short, pat);
    text::lemma_find(line, pat);
    assert forall|i: int| text::occurs_at(line, pat, i) == text::occurs_at(short, pat, i) by {
        lemma_chop_keeps_occurrence(line, pat, i);
    }
    match text::find(line, pat) {
        Some(i) => {
            assert(text::occurs_at(short, pat, i));
        },
        None => {
            if text::contains(short, pat) {
                let i = choose|i: int| text::occurs_at(short, pat, i);
                assert(text::occurs_at(line, pat, i));
            }
        },
    }
}

proof fn lemma_chop_keeps_comment(line: Seq<char>)
    ensures
        entries::comment(text::chopped(line)) == text::chopped(entries::comment(line)),
{
    reveal_strlit("<!--");
    reveal_strlit("<!-->");
    reveal_strlit("<!--->");
    let short = text::chopped(line);
    entries::lemma_opening(short, 0);
    entries::lemma_opening(line, 0);
    assert forall|i: int| entries::opens_at(short, i) == entries::opens_at(line, i) by {
        lemma_chop_keeps_occurrence(line, "<!--"@, i);
        lemma_chop_keeps_occurrence(line, "<!-->"@, i);
        lemma_chop_keeps_occurrence(line, "<!--->"@, i);
    }
    match entries::opening(line, 0) {
        Some(i) => {
            assert(entries::opens_at(short, i));
            assert(entries::opening(short, 0) == Some(i));
            assert(short.skip(i) =~= text::chopped(line.skip(i)));
        },
        None => {
            if let Some(i) = entries::opening(short, 0) {
                assert(entries::opens_at(line, i));
            }
        },
    }
}

proof fn lemma_chop_keeps_number(line: Seq<char>, name: Seq<char>)
    requires
        forall|i: int| 0 <= i < name.len() ==> #[trigger] name[i] != '\r',
    ensures
        markdown::number_attribute(text::chopped(line), name) == markdown::number_attribute(
            line,
            name,
        ),
{
    reveal_strlit("=");
    reveal_strlit("0123456789.-");
    let pat = name + "="@;
    assert forall|i: int| 0 <= i < pat.len() implies #[trigger] pat[i] != '\r' by {
        if i < name.len() {
            assert(pat[i] == name[i]);
        }
    }
    let short = text::chopped(line);
    lemma_chop_keeps_find(line, pat);
    text::lemma_find(short, pat);
    if let Some(i) = text::find(line, pat) {
        let rest = short.skip(i + pat.len());
        if short != line {
            let end = seq!['\r'];
            assert(line.skip(i + pat.len()) =~= rest + end);
            lemma_run_within(rest, figures());
            assert(!figures()('\r')) by {
                let set = "0123456789.-"@;
                assert forall|k: int| 0 <= k < set.len() implies set[k] != '\r' by {}
            }
            if text::run(rest, figures()) < rest.len() {
                lemma_run_ends(rest, end, figures());
            } else {
                roundtrip::lemma_run(rest, end, figures());
                roundtrip::lemma_run(rest, Seq::<char>::empty(), figures());
                assert(rest + Seq::<char>::empty() =~= rest);
            }
        }
    }
}

/// The summary of a range is still one without a carriage return at its end.
#[verifier::rlimit(40)]
proof fn lemma_chopped_covers(line: Seq<char>, start: Binary64, end: Binary64)
    requires
        markdown::covers_range(line, start, end),
    ensures
        markdown::covers_range(text::chopped(line), start, end),
{
    reveal_strlit("start");
    reveal_strlit("end");
    reveal_strlit("framenote:ai:");
    lemma_chop_keeps_find(line, "framenote:ai:"@);
    lemma_chop_keeps_comment(line);
    lemma_chop_keeps_number(entries::comment(line), "start"@);
    lemma_chop_keeps_number(entries::comment(line), "end"@);
}

// ---------------------------------------------------------------------------
// Summaries whose transcript is complete
// ---------------------------------------------------------------------------

/// Whether a pattern stands neither in the note of a complete transcript nor
/// across its bounds, whatever stands around the note.
spec fn is_apart(pat: Seq<char>) -> bool {
    let note = "transcript=complete -->"@;
    &&& pat.len() > 1
    &&& pat.last() != 't'
    &&& forall|i: int| 0 <= i < pat.len() ==> #[trigger] pat[i] != '-' && pat[i] != '>'
    &&& forall|i: int| 0 <= i < pat.len() - 1 && #[trigger] pat[i] == 't' ==> pat[i + 1] != 'r'
    &&& forall|j: int|
        0 <= j < note.len() - 1 && #[trigger] note[j] == pat[0] ==> note[j + 1] != pat[1]
}

proof fn lemma_names_are_apart()
    ensures
        is_apart("start"@ + "="@),
        is_apart("end"@ + "="@),
        is_apart("framenote:ai:"@),
{
    reveal_strlit("transcript=complete -->");
    reveal_strlit("start");
    reveal_strlit("end");
    reveal_strlit("=");
    reveal_strlit("framenote:ai:");
    let a = "start"@ + "="@;
    let b = "end"@ + "="@;
    assert(a =~= seq!['s', 't', 'a', 'r', 't', '=']);
    assert(b =~= seq!['e', 'n', 'd', '=']);
}

proof fn lemma_note_keeps_occurrences(a: Seq<char>, b: Seq<char>, pat: Seq<char>, i: int)
    requires
        is_apart(pat),
        text::occurs_at(a + "-->"@ + b, pat, i),
    ensures
        i + pat.len() <= a.len() ==> text::occurs_at(a + "transcript=complete -->"@ + b, pat, i),
        i + pat.len() > a.len() ==> i >= a.len() + 3 && text::occurs_at(
            a + "transcript=complete -->"@ + b,
            pat,
            i + 20,
        ),
{
    reveal_strlit("-->");
    reveal_strlit("transcript=complete -->");
    let s = a + "-->"@ + b;
    let t = a + "transcript=complete -->"@ + b;
    let cut = s.subrange(i, i + pat.len());
    if i + pat.len() <= a.len() {
        assert(t.subrange(i, i + pat.len()) =~= cut);
    } else {
        if i < a.len() + 3 {
            let k = if i < a.len() {
                a.len() as int
            } else {
                i
            };
            assert(cut[k - i] == s[k]);
            assert(s[k] == "-->"@[k - a.len()]);
        }
        assert(t.subrange(i + 20, i + 20 + pat.len()) =~= cut);
    }
}

proof fn lemma_note_adds_no_occurrence(a: Seq<char>, b: Seq<char>, pat: Seq<char>, j: int)
    requires
        is_apart(pat),
        text::occurs_at(a + "transcript=complete -->"@ + b, pat, j),
    ensures
        j + pat.len() <= a.len() ==> text::occurs_at(a + "-->"@ + b, pat, j),
        j + pat.len() > a.len() ==> j >= a.len() + 23 && text::occurs_at(
            a + "-->"@ + b,
            pat,
            j - 20,
        ),
{
    reveal_strlit("-->");
    reveal_strlit("transcript=complete -->");
    let note = "transcript=complete -->"@;
    let s = a + "-->"@ + b;
    let t = a + note + b;
    let cut = t.subrange(j, j + pat.len());
    if j + pat.len() <= a.len() {
        assert(s.subrange(j, j + pat.len()) =~= cut);
    } else {
        if j < a.len() {
            let k = a.len() - j;
            assert(cut[k] == t[a.len() as int]);
            assert(t[a.len() as int] == note[0]);
            assert(pat[k] == 't');
            if k + 1 < pat.len() {
                assert(cut[k + 1] == t[1int + a.len()]);
                assert(t[1int + a.len()] == note[1]);
            }
            assert(false);
        } else if j < a.len() + 23 {
            let k = j - a.len();
            if j + pat.len() > a.len() + 23 {
                assert(cut[22 - k] == t[22int + a.len()]);
                assert(t[22int + a.len()] == note[22]);
                assert(pat[22 - k] == '>');
            } else {
                assert(cut[0] == t[j] && t[j] == note[k]);
                assert(cut[1] == t[j + 1] && t[j + 1] == note[k + 1]);
            }
            assert(false);
        }
        assert(s.subrange(j - 20, j - 20 + pat.len()) =~= cut);
    }
}

/// The first place of a pattern, with a note in place of the end of a comment.
proof fn lemma_note_keeps_find(a: Seq<char>, b: Seq<char>, pat: Seq<char>)
    requires
        is_apart(pat),
        text::contains(a + "-->"@ + b, pat),
    ensures
        ({
            let i = text::find(a + "-->"@ + b, pat)->0;
            text::find(a + "transcript=complete -->"@ + b, pat) == Some(
                if i + pat.len() <= a.len() {
                    i
                } else {
                    i + 20
                },
            )
        }),
{
    let s = a + "-->"@ + b;
    let t = a + "transcript=complete -->"@ + b;
    text::lemma_find(s, pat);
    text::lemma_find(t, pat);
    let i = text::find(s, pat)->0;
    lemma_note_keeps_occurrences(a, b, pat, i);
    let to = if i + pat.len() <= a.len() {
        i
    } else {
        i + 20
    };
    assert(text::occurs_at(t, pat, to));
    let j = text::find(t, pat)->0;
    lemma_note_adds_no_occurrence(a, b, pat, j);
    if j + pat.len() <= a.len() {
        assert(text::occurs_at(s, pat, j));
        assert(i <= j);
    } else {
        assert(text::occurs_at(s, pat, j - 20));
        assert(i <= j - 20);
    }
}

proof fn lemma_note_keeps_number(a: Seq<char>, b: Seq<char>, name: Seq<char>)
    requires
        is_apart(name + "="@),
        markdown::number_attribute(a + "-->"@ + b, name) is Some,
    ensures
        markdown::number_attribute(a + "transcript=complete -->"@ + b, name)
            == markdown::number_attribute(a + "-->"@ + b, name),
{
    reveal_strlit("-->");
    reveal_strlit("transcript=complete -->");
    reveal_strlit("0123456789.-");
    let note = "transcript=complete -->"@;
    let set = "0123456789.-"@;
    let pat = name + "="@;
    let s = a + "-->"@ + b;
    let t = a + note + b;
    text::lemma_find(s, pat);
    text::lemma_find(t, pat);
    lemma_note_keeps_find(a, b, pat);
    let i = text::find(s, pat)->0;
    if i + pat.len() <= a.len() {
        let rest = a.skip(i + pat.len());
        assert(s.skip(i + pat.len()) =~= rest + ("-->"@ + b));
        assert(t.skip(i + pat.len()) =~= rest + (note + b));
        lemma_run_within(rest, figures());
        if text::run(rest, figures()) < rest.len() {
            lemma_run_ends(rest, "-->"@ + b, figures());
            lemma_run_ends(rest, note + b, figures());
        } else {
            let token = rest + seq!['-', '-'];
            let tail = seq!['>'] + b;
            assert(set[11] == '-');
            assert(set.contains('-'));
            assert forall|k: int| 0 <= k < token.len() implies figures()(#[trigger] token[k]) by {
                if k < rest.len() {
                    assert(token[k] == rest[k]);
                    assert(figures()(rest[k]));
                }
            }
            assert(!figures()('>')) by {
                assert forall|k: int| 0 <= k < set.len() implies set[k] != '>' by {}
            }
            roundtrip::lemma_run(token, tail, figures());
            assert(rest + ("-->"@ + b) =~= token + tail);
            assert forall|k: int| 0 <= k < token.len() implies #[trigger] token[k] != 'e'
                && token[k] != 'E' by {
                assert(figures()(token[k]));
                assert forall|m: int| 0 <= m < set.len() implies set[m] != 'e' && set[m]
                    != 'E' by {}
            }
            lemma_hyphens_are_no_number(token);
            assert(false);
        }
    } else {
        lemma_note_keeps_occurrences(a, b, pat, i);
        assert(t.skip(i + 20 + pat.len()) =~= s.skip(i + pat.len()));
    }
}

/// A comment opens where it did, with a note in place of the end of a comment.
proof fn lemma_note_keeps_opener(a: Seq<char>, b: Seq<char>, i: int)
    requires
        entries::opens_at(a + "-->"@ + b, i),
    ensures
        i + 4 <= a.len() ==> entries::opens_at(a + "transcript=complete -->"@ + b, i),
        i + 4 > a.len() ==> i >= a.len() + 3 && entries::opens_at(
            a + "transcript=complete -->"@ + b,
            i + 20,
        ),
{
    reveal_strlit("-->");
    reveal_strlit("transcript=complete -->");
    reveal_strlit("<!--");
    reveal_strlit("<!-->");
    reveal_strlit("<!--->");
    let s = a + "-->"@ + b;
    let t = a + "transcript=complete -->"@ + b;
    let cut = s.subrange(i, i + 4);
    assert(cut == "<!--"@);
    assert(s[i] == cut[0] && s[i + 1] == cut[1] && s[i + 2] == cut[2] && s[i + 3] == cut[3]);
    if i + 4 <= a.len() {
        assert(t.subrange(i, i + 4) =~= cut);
        if text::occurs_at(t, "<!-->"@, i) {
            assert(t.subrange(i, i + 5)[4] == t[i + 4]);
            assert(s.subrange(i, i + 5) =~= "<!-->"@);
        }
        if text::occurs_at(t, "<!--->"@, i) {
            assert(t.subrange(i, i + 6)[4] == t[i + 4]);
            assert(t.subrange(i, i + 6)[5] == t[i + 5]);
            assert(s.subrange(i, i + 6) =~= "<!--->"@);
        }
    } else {
        if i == a.len() - 2 {
            assert(s.subrange(i, i + 5) =~= "<!-->"@);
        }
        if i == a.len() - 3 {
            assert(s.subrange(i, i + 6) =~= "<!--->"@);
        }
        assert(i >= a.len() + 3);
        assert(t.subrange(i + 20, i + 24) =~= cut);
        if text::occurs_at(t, "<!-->"@, i + 20) {
            assert(s.subrange(i, i + 5) =~= t.subrange(i + 20, i + 25));
        }
        if text::occurs_at(t, "<!--->"@, i + 20) {
            assert(s.subrange(i, i + 6) =~= t.subrange(i + 20, i + 26));
        }
    }
}

proof fn lemma_note_adds_no_opener(a: Seq<char>, b: Seq<char>, j: int)
    requires
        entries::opens_at(a + "transcript=complete -->"@ + b, j),
    ensures
        j + 4 <= a.len() ==> entries::opens_at(a + "-->"@ + b, j),
        j + 4 > a.len() ==> j >= a.len() + 23 && entries::opens_at(a + "-->"@ + b, j - 20),
{
    reveal_strlit("-->");
    reveal_strlit("transcript=complete -->");
    reveal_strlit("<!--");
    reveal_strlit("<!-->");
    reveal_strlit("<!--->");
    let note = "transcript=complete -->"@;
    let s = a + "-->"@ + b;
    let t = a + note + b;
    let cut = t.subrange(j, j + 4);
    assert(cut == "<!--"@);
    assert(t[j] == cut[0] && t[j + 1] == cut[1] && t[j + 2] == cut[2] && t[j + 3] == cut[3]);
    if j + 4 <= a.len() {
        assert(s.subrange(j, j + 4) =~= cut);
        if text::occurs_at(s, "<!-->"@, j) {
            assert(s.subrange(j, j + 5)[4] == s[j + 4]);
            assert(t.subrange(j, j + 5) =~= "<!-->"@);
        }
        if text::occurs_at(s, "<!--->"@, j) {
            assert(s.subrange(j, j + 6)[4] == s[j + 4]);
            assert(s.subrange(j, j + 6)[5] == s[j + 5]);
            assert(t.subrange(j, j + 6) =~= "<!--->"@);
        }
    } else {
        if j < a.len() {
            assert(t[a.len() as int] == note[0]);
            assert(cut[a.len() - j] == 't');
        } else if j < a.len() + 23 {
            assert(t[j] == note[j - a.len()]);
        }
        assert(s.subrange(j - 20, j - 16) =~= cut);
        if text::occurs_at(s, "<!-->"@, j - 20) {
            assert(t.subrange(j, j + 5) =~= s.subrange(j - 20, j - 15));
        }
        if text::occurs_at(s, "<!--->"@, j - 20) {
            assert(t.subrange(j, j + 6) =~= s.subrange(j - 20, j - 14));
        }
    }
}

/// What carries the attributes of a line, with a note in place of the end of a
/// comment.
proof fn lemma_note_keeps_comment(a: Seq<char>, b: Seq<char>)
    ensures
        ({
            let rest = entries::comment(a + "-->"@ + b);
            let done = entries::comment(a + "transcript=complete -->"@ + b);
            ||| done == rest
            ||| exists|front: Seq<char>|
                rest == #[trigger] (front + "-->"@ + b) && done == front
                    + "transcript=complete -->"@ + b
        }),
{
    let s = a + "-->"@ + b;
    let t = a + "transcript=complete -->"@ + b;
    entries::lemma_opening(s, 0);
    entries::lemma_opening(t, 0);
    if let Some(j) = entries::opening(t, 0) {
        lemma_note_adds_no_opener(a, b, j);
    }
    match entries::opening(s, 0) {
        Some(i) => {
            lemma_note_keeps_opener(a, b, i);
            let to = if i + 4 <= a.len() {
                i
            } else {
                i + 20
            };
            assert(entries::opens_at(t, to));
            assert(entries::opening(t, 0) == Some(to));
            if i + 4 <= a.len() {
                let front = a.skip(i);
                assert(s.skip(i) =~= front + "-->"@ + b);
                assert(t.skip(i) =~= front + "transcript=complete -->"@ + b);
            } else {
                reveal_strlit("-->");
                reveal_strlit("transcript=complete -->");
                assert(t.skip(i + 20) =~= s.skip(i));
            }
        },
        None => {
            assert(entries::opening(t, 0) is None);
            assert(entries::comment(s) == a + "-->"@ + b);
        },
    }
}

/// The summary of a range is still one where its transcript is complete.
#[verifier::rlimit(40)]
proof fn lemma_completed_covers(line: Seq<char>, start: Binary64, end: Binary64)
    requires
        markdown::covers_range(line, start, end),
    ensures
        markdown::covers_range(transcript::completed(line), start, end),
{
    reveal_strlit("-->");
    text::lemma_find(line, "-->"@);
    if !text::contains(line, "transcript=complete"@) && text::contains(line, "-->"@) {
        let i = text::find(line, "-->"@)->0;
        let a = line.take(i);
        let b = line.skip(i + 3);
        assert(line.subrange(i, i + 3) == "-->"@);
        assert(a + "-->"@ + b =~= line);
        let done = a + "transcript=complete -->"@ + b;
        lemma_names_are_apart();
        lemma_note_keeps_find(a, b, "framenote:ai:"@);
        text::lemma_find(done, "framenote:ai:"@);
        lemma_note_keeps_comment(a, b);
        let rest = entries::comment(line);
        if entries::comment(done) != rest {
            let front = choose|front: Seq<char>|
                rest == #[trigger] (front + "-->"@ + b) && entries::comment(done) == front
                    + "transcript=complete -->"@ + b;
            lemma_note_keeps_number(front, b, "start"@);
            lemma_note_keeps_number(front, b, "end"@);
        }
    }
}

// ---------------------------------------------------------------------------
// Ranges that stay analysed
// ---------------------------------------------------------------------------

/// Whether a sidecar holds the analysis of a range.
pub open spec fn is_analysed(markdown: Seq<char>, range: (Binary64, Binary64)) -> bool {
    transcript::analysed_at(text::lines_of(markdown), range, 0) is Some
}

proof fn lemma_analysed_line(lines: Seq<Seq<char>>, range: (Binary64, Binary64), from: int)
    requires
        0 <= from,
    ensures
        transcript::analysed_at(lines, range, from) matches Some(i) ==> from <= i < lines.len()
            && markdown::covers_range(lines[i], range.0, range.1),
    decreases lines.len() - from,
{
    if from < lines.len() && !markdown::covers_range(lines[from], range.0, range.1) {
        lemma_analysed_line(lines, range, from + 1);
    }
}

proof fn lemma_append_keeps_range(
    markdown: Seq<char>,
    heading: Seq<char>,
    line: Seq<char>,
    range: (Binary64, Binary64),
)
    requires
        text::on_one_line(heading),
        text::on_one_line(line),
        is_analysed(markdown, range),
    ensures
        is_analysed(markdown::appended(markdown, heading, line), range),
{
    let lines = text::lines_of(markdown);
    let (at, added) = markdown::addition(lines, heading, line);
    let out = markdown::extended(lines, heading, line);
    laws::law_entry_is_only_added(lines, heading, line);
    laws::lemma_extended_clean(markdown, heading, line);
    laws::lemma_reread(out);
    lemma_analysed_line(lines, range, 0);
    let k = transcript::analysed_at(lines, range, 0)->0;
    let j = if k < at {
        assert(out[k] == out.take(at)[k]);
        assert(lines[k] == lines.take(at)[k]);
        k
    } else {
        assert(out[k + added.len()] == out.skip(at + added.len())[k - at]);
        assert(lines[k] == lines.skip(at)[k - at]);
        k + added.len() as int
    };
    lemma_chopped_covers(lines[k], range.0, range.1);
    summaries::lemma_analysed_found(laws::reread(out), range, 0, j);
}

#[verifier::rlimit(40)]
proof fn lemma_transcript_keeps_range(
    markdown: Seq<char>,
    bounds: (Binary64, Binary64),
    cues: Seq<Cue>,
    ids: Seq<Seq<char>>,
    n: nat,
    range: (Binary64, Binary64),
)
    requires
        n <= ids.len(),
        transcript::all_uuids(ids),
        is_analysed(markdown, range),
    ensures
        is_analysed(transcript::transcribed(markdown, bounds, cues, ids, n), range),
    decreases n,
{
    if n > 0 {
        lemma_transcript_keeps_range(markdown, bounds, cues, ids, (n - 1) as nat, range);
        let before = transcript::transcribed(markdown, bounds, cues, ids, (n - 1) as nat);
        if let Some(cue) = transcript::kept_cue(cues[n - 1], bounds) {
            reveal_strlit("## Subtitles");
            assert(ids::is_uuid(ids[n - 1]));
            summaries::lemma_kept_clean(cues[n - 1], bounds, ids[n - 1]);
            lemma_append_keeps_range(
                before,
                markdown::SUBTITLE_HEADING@,
                summaries::saved_line(cue, ids[n - 1]),
                range,
            );
        }
    }
}

proof fn lemma_known_summary_keeps_range(
    markdown: Seq<char>,
    bounds: (Binary64, Binary64),
    summary: Seq<char>,
    complete: bool,
    id: Seq<char>,
    range: (Binary64, Binary64),
)
    requires
        is_analysed(markdown, bounds),
        is_analysed(markdown, range),
    ensures
        is_analysed(transcript::summarised(markdown, bounds, summary, complete, id), range),
{
    let lines = text::lines_of(markdown);
    lemma_analysed_line(lines, range, 0);
    let k = transcript::analysed_at(lines, range, 0)->0;
    let line = lines[k];
    let done = transcript::completed(line);
    let again = text::lines_of(transcript::summarised(markdown, bounds, summary, complete, id));
    summaries::law_known_summary_is_kept(markdown, bounds, summary, complete, id);
    assert(again.len() == lines.len());
    assert(again[k] == text::chopped(line) || again[k] == text::chopped(done));
    assert(markdown::covers_range(again[k], range.0, range.1)) by {
        lemma_completed_covers(line, range.0, range.1);
        lemma_chopped_covers(line, range.0, range.1);
        lemma_chopped_covers(done, range.0, range.1);
    }
    summaries::lemma_analysed_found(again, range, 0, k);
}

proof fn lemma_new_summary_keeps_range(
    markdown: Seq<char>,
    bounds: (Binary64, Binary64),
    summary: Seq<char>,
    complete: bool,
    id: Seq<char>,
    range: (Binary64, Binary64),
)
    requires
        ids::is_uuid(id),
        !is_analysed(markdown, bounds),
        is_analysed(markdown, range),
    ensures
        is_analysed(transcript::summarised(markdown, bounds, summary, complete, id), range),
{
    let note = if complete {
        " transcript=complete"@
    } else {
        ""@
    };
    let from = clock::timestamp(bounds.0);
    let to = clock::timestamp(bounds.1);
    let line = transcript::summary_line(id, from, to, summary, bounds, note);
    assert(text::on_one_line(note)) by {
        reveal_strlit("");
        reveal_strlit(" transcript=complete");
    }
    assert(text::on_one_line(markdown::AI_HEADING@)) by {
        reveal_strlit("## AI timeline");
    }
    assert(text::on_one_line(line)) by {
        roundtrip::lemma_time_is_stamp(bounds.0);
        roundtrip::lemma_time_is_stamp(bounds.1);
        summaries::lemma_summary_clean(id, from, to, summary, bounds, note);
    }
    lemma_append_keeps_range(markdown, markdown::AI_HEADING@, line, range);
}

/// Every range that was analysed stays recognised, whatever range is analysed
/// after it.
pub proof fn law_analysed_ranges_stay(
    markdown: Seq<char>,
    start: Binary64,
    end: Binary64,
    summary: Seq<char>,
    cues: Seq<Cue>,
    complete: bool,
    id: Seq<char>,
    ids: Seq<Seq<char>>,
    range: (Binary64, Binary64),
)
    requires
        ids::is_uuid(id),
        transcript::all_uuids(ids),
        ids.len() >= transcript::read_count(cues.len()),
        is_analysed(markdown, range),
    ensures
        is_analysed(
            transcript::analysed(markdown, start, end, summary, cues, complete, id, ids),
            range,
        ),
{
    let bounds = transcript::range_bounds(start, end);
    if is_analysed(markdown, bounds) {
        lemma_known_summary_keeps_range(markdown, bounds, summary, complete, id, range);
    } else {
        lemma_new_summary_keeps_range(markdown, bounds, summary, complete, id, range);
    }
    lemma_transcript_keeps_range(
        transcript::summarised(markdown, bounds, summary, complete, id),
        bounds,
        cues,
        ids,
        transcript::read_count(cues.len()),
        range,
    );
}

/// An analysis that is saved is recognised: a second analysis of the range adds
/// no other summary. Its words may read like bounds; only behind a comment that
/// they open themselves must those be the bounds of the range.
pub proof fn law_saved_range_is_recognised(
    markdown: Seq<char>,
    start: Binary64,
    end: Binary64,
    summary: Seq<char>,
    cues: Seq<Cue>,
    complete: bool,
    id: Seq<char>,
    ids: Seq<Seq<char>>,
)
    requires
        ids::is_uuid(id),
        transcript::all_uuids(ids),
        ids.len() >= transcript::read_count(cues.len()),
        is_analysed(markdown, transcript::range_bounds(start, end)) || summaries::leaves_range(
            markdown::entry_text(summary),
            transcript::range_bounds(start, end),
        ),
    ensures
        is_analysed(
            transcript::analysed(markdown, start, end, summary, cues, complete, id, ids),
            transcript::range_bounds(start, end),
        ),
{
    let bounds = transcript::range_bounds(start, end);
    if is_analysed(markdown, bounds) {
        law_analysed_ranges_stay(markdown, start, end, summary, cues, complete, id, ids, bounds);
    } else {
        let saved = transcript::summarised(markdown, bounds, summary, complete, id);
        let line = summaries::lemma_summary_saved(markdown, start, end, summary, complete, id);
        let again = text::lines_of(saved);
        let k = choose|k: int| 0 <= k < again.len() && again[k] == line;
        summaries::lemma_analysed_found(again, bounds, 0, k);
        lemma_transcript_keeps_range(
            saved,
            bounds,
            cues,
            ids,
            transcript::read_count(cues.len()),
            bounds,
        );
    }
}

} // verus!
