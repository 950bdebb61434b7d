//! Subtitles that are written and read again.

use vstd::prelude::*;

use crate::clock;
use crate::digits;
use crate::entries;
use crate::laws;
use crate::markdown;
use crate::marks;
use crate::number;
use crate::number::Binary64;
use crate::text;
use crate::transcript;
use crate::transcript::Cue;

verus! {

// ---------------------------------------------------------------------------
// Texts that come back as they are
// ---------------------------------------------------------------------------

/// Whether a text has no white space but single spaces, and none in front.
pub open spec fn tidy(s: Seq<char>) -> bool {
    &&& s.len() > 0 ==> s[0] != ' '
    &&& text::all_in(s, |c: char| c == ' ' || !text::is_white(c))
    &&& forall|i: int, j: int|
        0 <= i < j < s.len() && #[trigger] s[i] == ' ' && #[trigger] s[j] == ' ' ==> j != i + 1
}

proof fn lemma_joined_tidy(words: Seq<Seq<char>>)
    requires
        text::each_in(words, |c: char| !text::is_white(c)),
        forall|k: int| 0 <= k < words.len() ==> (#[trigger] words[k]).len() > 0,
    ensures
        tidy(text::joined(words, " "@)),
        words.len() > 0 ==> text::joined(words, " "@).len() > 0 && !text::is_white(
            text::joined(words, " "@).last(),
        ),
    decreases words.len(),
{
    reveal_strlit(" ");
    let plain = |c: char| c == ' ' || !text::is_white(c);
    let solid = |c: char| !text::is_white(c);
    let all = text::joined(words, " "@);
    if words.len() > 0 {
        let last = words.last();
        assert(last == words[words.len() - 1]);
        assert(text::all_in(last, solid));
        assert forall|i: int| 0 <= i < last.len() implies !text::is_white(#[trigger] last[i]) by {
            assert(solid(last[i]));
        }
        if words.len() > 1 {
            let front = words.drop_last();
            assert forall|k: int| 0 <= k < front.len() implies text::all_in(
                #[trigger] front[k],
                solid,
            ) && front[k].len() > 0 by {
                assert(front[k] == words[k]);
            }
            lemma_joined_tidy(front);
            let a = text::joined(front, " "@);
            assert(all == a + " "@ + last);
            assert forall|i: int| 0 <= i < all.len() implies plain(#[trigger] all[i]) by {
                if i < a.len() {
                    assert(plain(a[i]));
                    assert(all[i] == a[i]);
                } else if i > a.len() {
                    assert(all[i] == last[i - a.len() - 1]);
                }
            }
            assert forall|i: int, j: int|
                0 <= i < j < all.len() && #[trigger] all[i] == ' ' && #[trigger] all[j]
                    == ' ' implies j != i + 1 by {
                if j < a.len() {
                    assert(all[i] == a[i] && all[j] == a[j]);
                } else if j == a.len() {
                    assert(all[i] == a[i]);
                } else {
                    assert(all[j] == last[j - a.len() - 1]);
                }
            }
            assert(all[0] == a[0]);
        } else {
            assert(all == last);
            assert forall|i: int| 0 <= i < all.len() implies plain(#[trigger] all[i]) by {
                assert(!text::is_white(last[i]));
            }
        }
    }
}

/// A tidy text is its words with a space between them.
pub(crate) proof fn lemma_collapsed_tidy(s: Seq<char>)
    requires
        tidy(s),
    ensures
        s.len() == 0 || s.last() != ' ' ==> text::collapsed(s) == s,
        s.len() > 0 && s.last() == ' ' ==> text::collapsed(s) == s.drop_last(),
    decreases s.len(),
{
    reveal_strlit(" ");
    let plain = |c: char| c == ' ' || !text::is_white(c);
    if s.len() > 0 {
        let front = s.drop_last();
        let c = s.last();
        assert(c == s[s.len() - 1]);
        assert(plain(c));
        assert(tidy(front)) by {
            assert forall|i: int| 0 <= i < front.len() implies plain(#[trigger] front[i]) by {
                assert(plain(s[i]));
            }
        }
        lemma_collapsed_tidy(front);
        let before = text::words(front);
        if c == ' ' {
            assert(s.len() > 1);
            assert(front.last() == s[s.len() - 2]);
            assert(front.last() != ' ');
        } else if s.len() == 1 {
            assert(before =~= Seq::empty());
            assert(text::words(s) =~= seq![seq![c]]);
            assert(text::collapsed(s) =~= s);
        } else if text::is_white(s[s.len() - 2]) {
            assert(plain(s[s.len() - 2]));
            assert(front.last() == ' ');
            assert(front.len() > 1);
            assert(text::collapsed(front) == front.drop_last());
            assert(before.len() > 0);
            assert(text::words(s) =~= before.push(seq![c]));
            assert(text::words(s).drop_last() =~= before);
            assert(text::collapsed(s) =~= s);
        } else {
            assert(plain(s[s.len() - 2]));
            assert(front.last() == s[s.len() - 2]);
            assert(text::collapsed(front) == front);
            assert(before.len() > 0);
            let longer = before.drop_last().push(before.last().push(c));
            assert(text::words(s) == longer);
            assert(longer.drop_last() =~= before.drop_last());
            if before.len() == 1 {
                assert(before.last() == before[0]);
                assert(text::joined(longer, " "@) == longer[0]);
            } else {
                assert(longer.len() == before.len());
                assert(longer.last() == before.last().push(c));
                assert(text::joined(longer, " "@) == text::joined(before.drop_last(), " "@) + " "@
                    + before.last().push(c));
            }
            assert(text::joined(longer, " "@) =~= text::joined(before, " "@).push(c));
            assert(text::collapsed(s) =~= s);
        }
    }
}

pub(crate) proof fn lemma_mapped_keeps(s: Seq<char>, class: spec_fn(char) -> bool, with: Seq<char>)
    requires
        forall|i: int| 0 <= i < s.len() ==> !class(#[trigger] s[i]),
    ensures
        text::mapped(s, class, with) == s,
    decreases s.len(),
{
    if s.len() > 0 {
        let front = s.drop_last();
        assert forall|i: int| 0 <= i < front.len() implies !class(#[trigger] front[i]) by {
            assert(front[i] == s[i]);
        }
        lemma_mapped_keeps(front, class, with);
        assert(!class(s[s.len() - 1]));
        assert(text::mapped(s, class, with) =~= s);
    }
}

pub(crate) proof fn lemma_replaced_keeps(s: Seq<char>, pat: Seq<char>, with: Seq<char>)
    requires
        !text::contains(s, pat),
    ensures
        text::replaced(s, pat, with) == s,
{
    text::lemma_find(s, pat);
    assert(text::pieces(s, pat) == seq![s]);
}

/// The text of an entry is tidy.
pub proof fn lemma_entry_text_tidy(value: Seq<char>)
    ensures
        tidy(markdown::entry_text(value)),
        markdown::entry_text(value).len() > 0,
{
    reveal_strlit("Untitled note");
    let flat = markdown::uncommented(text::mapped(value, text::among("\r\n"@), " "@));
    let compact = text::collapsed(flat);
    assert(text::all_in(flat, |c: char| true));
    text::lemma_words_in(flat, |c: char| true);
    lemma_joined_tidy(text::words(flat));
    let clean = markdown::entry_text(value);
    let plain = |c: char| c == ' ' || !text::is_white(c);
    assert forall|i: int| 0 <= i < clean.len() implies plain(#[trigger] clean[i]) by {
        if compact.len() > 0 {
            assert(plain(compact[i]));
            assert(clean[i] == compact[i]);
        }
    }
    if compact.len() > 0 {
        assert(clean[0] == compact[0]);
        assert forall|i: int, j: int|
            0 <= i < j < clean.len() && #[trigger] clean[i] == ' ' && #[trigger] clean[j]
                == ' ' implies j != i + 1 by {
            assert(clean[i] == compact[i] && clean[j] == compact[j]);
        }
    }
}

/// The text of an entry that is read and cleaned again is the same, where it
/// holds no delimiter of a comment and was not cut behind a space.
pub proof fn law_entry_text_is_settled(value: Seq<char>)
    requires
        ({
            let clean = markdown::entry_text(value);
            &&& !text::contains(clean, "<!--"@)
            &&& !text::contains(clean, "-->"@)
            &&& clean.last() != ' '
        }),
    ensures
        markdown::entry_text(markdown::entry_text(value)) == markdown::entry_text(value),
        text::trimmed(markdown::entry_text(value)) == markdown::entry_text(value),
{
    reveal_strlit("\r\n");
    let clean = markdown::entry_text(value);
    let plain = |c: char| c == ' ' || !text::is_white(c);
    lemma_entry_text_tidy(value);
    laws::law_entry_text_is_one_line(value);
    let set = "\r\n"@;
    assert(set[0] == '\r' && set[1] == '\n');
    assert forall|i: int| 0 <= i < clean.len() implies !text::among(set)(#[trigger] clean[i]) by {
        assert(plain(clean[i]));
    }
    lemma_mapped_keeps(clean, text::among(set), " "@);
    lemma_replaced_keeps(clean, "<!--"@, ""@);
    lemma_replaced_keeps(clean, "-->"@, ""@);
    lemma_collapsed_tidy(clean);
    assert(plain(clean[0]) && plain(clean[clean.len() - 1]));
    laws::lemma_trimmed_keeps(clean);
}

/// A text that is clean already, and holds no delimiter of a comment, ends in
/// no space.
pub(crate) proof fn lemma_clean_end(clean: Seq<char>)
    requires
        markdown::entry_text(clean) == clean,
        !text::contains(clean, "<!--"@),
        !text::contains(clean, "-->"@),
    ensures
        clean.last() != ' ',
{
    reveal_strlit("\r\n");
    let plain = |c: char| c == ' ' || !text::is_white(c);
    lemma_entry_text_tidy(clean);
    let set = "\r\n"@;
    assert(set[0] == '\r' && set[1] == '\n');
    assert forall|i: int| 0 <= i < clean.len() implies !text::among(set)(#[trigger] clean[i]) by {
        assert(plain(clean[i]));
    }
    lemma_mapped_keeps(clean, text::among(set), " "@);
    lemma_replaced_keeps(clean, "<!--"@, ""@);
    lemma_replaced_keeps(clean, "-->"@, ""@);
    lemma_collapsed_tidy(clean);
    if clean.last() == ' ' {
        let compact = text::collapsed(clean);
        assert(compact == clean.drop_last());
        if compact.len() == 0 {
            assert(clean[0] == clean.last());
        }
        assert(markdown::entry_text(clean).len() < clean.len());
    }
}

// ---------------------------------------------------------------------------
// Segments of a line
// ---------------------------------------------------------------------------

/// What stands behind the first `pat`.
pub open spec fn behind(s: Seq<char>, pat: Seq<char>) -> Option<Seq<char>> {
    match text::cut(s, pat) {
        Some((_, rest)) => Some(rest),
        None => None,
    }
}

pub(crate) proof fn lemma_assoc(a: Seq<char>, b: Seq<char>, c: Seq<char>)
    ensures
        a + b + c == a + (b + c),
{
    assert(a + b + c =~= a + (b + c));
}

/// A text that lacks a character of a pattern lacks the pattern.
pub(crate) proof fn lemma_lacks(s: Seq<char>, pat: Seq<char>, k: int)
    requires
        0 <= k < pat.len(),
        forall|i: int| 0 <= i < s.len() ==> #[trigger] s[i] != pat[k],
    ensures
        !text::contains(s, pat),
{
    if text::contains(s, pat) {
        let i = choose|i: int| text::occurs_at(s, pat, i);
        assert(s.subrange(i, i + pat.len())[k] == s[i + k]);
    }
}

/// Whether a pattern can stand within one segment only.
pub open spec fn is_solid(pat: Seq<char>) -> bool {
    pat.len() > 0 && forall|i: int| 0 <= i < pat.len() ==> #[trigger] pat[i] != ' '
}

/// A pattern without spaces that a segment lacks is found where it stands in
/// what follows behind a space.
pub(crate) proof fn lemma_next_segment(f: Seq<char>, g: Seq<char>, pat: Seq<char>)
    requires
        is_solid(pat),
        g.len() > 0,
        g[0] == ' ',
        !text::contains(f, pat),
    ensures
        text::find(f + g, pat) == match text::find(g, pat) {
            Some(i) => Some(f.len() + i),
            None => None,
        },
        behind(f + g, pat) == behind(g, pat),
{
    let s = f + g;
    text::lemma_find(g, pat);
    text::lemma_find(s, pat);
    assert forall|i: int| text::occurs_at(s, pat, i) implies i >= f.len() && text::occurs_at(
        g,
        pat,
        i - f.len(),
    ) by {
        let cut = s.subrange(i, i + pat.len());
        if i < f.len() {
            if i + pat.len() <= f.len() {
                assert(f.subrange(i, i + pat.len()) =~= cut);
                assert(text::occurs_at(f, pat, i));
            } else {
                let k = f.len() - i;
                assert(cut[k] == s[f.len() as int]);
                assert(pat[k] == ' ');
            }
        } else {
            assert(g.subrange(i - f.len(), i - f.len() + pat.len()) =~= cut);
        }
    }
    match text::find(g, pat) {
        Some(i) => {
            assert(s.subrange(f.len() + i, f.len() + i + pat.len()) =~= g.subrange(
                i,
                i + pat.len(),
            ));
            assert(text::occurs_at(s, pat, f.len() + i));
            let found = text::find(s, pat)->0;
            assert(text::occurs_at(g, pat, found - f.len()));
            assert(found == f.len() + i);
            assert(s.skip(f.len() + i + pat.len()) =~= g.skip(i + pat.len()));
        },
        None => {},
    }
}

/// A pattern stands behind the space with which a segment begins.
pub(crate) proof fn lemma_here(pat: Seq<char>, rest: Seq<char>)
    requires
        is_solid(pat),
    ensures
        text::find(" "@ + pat + rest, pat) == Some(1int),
        behind(" "@ + pat + rest, pat) == Some(rest),
{
    reveal_strlit(" ");
    let s = " "@ + pat + rest;
    assert(s.subrange(1, 1int + pat.len()) =~= pat);
    assert(text::occurs_at(s, pat, 1));
    assert(s.subrange(0, pat.len() as int)[0] == ' ');
    assert(pat[0] != ' ');
    assert(!text::occurs_at(s, pat, 0));
    text::lemma_find(s, pat);
    assert(text::find(s, pat)->0 == 1);
    assert(s.skip(1int + pat.len()) =~= rest);
}

// ---------------------------------------------------------------------------
// The line of a subtitle
// ---------------------------------------------------------------------------

/// Whether a text can stand in brackets: digits and the signs between them.
pub open spec fn is_stamp(s: Seq<char>) -> bool {
    text::all_in(s, |c: char| text::is_digit(c) || c == ':' || c == '.')
}

/// Whether a text can stand in quotes.
pub open spec fn is_quotable(s: Seq<char>) -> bool {
    text::all_in(s, |c: char| c != '"' && c != '\n')
}

/// The stamps of an entry in brackets.
#[verifier::opaque]
pub open spec fn bracket(from: Seq<char>, to: Seq<char>) -> Seq<char> {
    "- ["@ + from + "–"@ + to + "]"@
}

spec fn attributes(id: Seq<char>, cue: Cue) -> Seq<Seq<char>> {
    seq![
        " <!-- framenote:subtitle:"@ + id,
        " start="@ + cue.start.fixed(),
        " end="@ + cue.end.fixed(),
        " speaker=\""@ + cue.speaker + "\""@,
        " language=\""@ + cue.language + "\" -->"@,
    ]
}

/// The segments of the line from one on.
spec fn tail(segments: Seq<Seq<char>>, k: int) -> Seq<char>
    decreases segments.len() - k,
{
    if k < 0 || k >= segments.len() {
        Seq::empty()
    } else if k == segments.len() - 1 {
        segments[k]
    } else {
        segments[k] + tail(segments, k + 1)
    }
}

#[verifier::opaque]
spec fn segments(id: Seq<char>, from: Seq<char>, to: Seq<char>, cue: Cue) -> Seq<Seq<char>> {
    seq![bracket(from, to), " "@ + cue.text] + attributes(id, cue)
}

proof fn lemma_segments(id: Seq<char>, from: Seq<char>, to: Seq<char>, cue: Cue)
    ensures
        ({
            let segs = segments(id, from, to, cue);
            &&& segs.len() == 7
            &&& segs[0] == bracket(from, to)
            &&& segs[1] == " "@ + cue.text
            &&& segs[2] == " <!-- framenote:subtitle:"@ + id
            &&& segs[3] == " start="@ + cue.start.fixed()
            &&& segs[4] == " end="@ + cue.end.fixed()
            &&& segs[5] == " speaker=\""@ + cue.speaker + "\""@
            &&& segs[6] == " language=\""@ + cue.language + "\" -->"@
            &&& tail(segs, 0) == transcript::cue_line(id, from, to, cue)
            &&& tail(segs, 0) == segs[0] + tail(segs, 1)
            &&& tail(segs, 1) == segs[1] + tail(segs, 2)
            &&& tail(segs, 2) == segs[2] + tail(segs, 3)
            &&& tail(segs, 3) == segs[3] + tail(segs, 4)
            &&& tail(segs, 4) == segs[4] + tail(segs, 5)
            &&& tail(segs, 5) == segs[5] + tail(segs, 6)
            &&& tail(segs, 6) == segs[6]
        }),
{
    reveal(segments);
    reveal(bracket);
    reveal_with_fuel(tail, 8);
    reveal_strlit("] ");
    reveal_strlit("]");
    reveal_strlit(" ");
    reveal_strlit("\" language=\"");
    reveal_strlit(" language=\"");
    reveal_strlit("\"");
    let segs = segments(id, from, to, cue);
    let s0 = segs[0];
    let s1 = segs[1];
    let s2 = segs[2];
    let s3 = segs[3];
    let s4 = segs[4];
    let s5 = segs[5];
    let s6 = segs[6];
    assert("] "@ =~= "]"@ + " "@);
    assert("\" language=\""@ =~= "\""@ + " language=\""@);
    let a = "- ["@ + from + "–"@ + to;
    lemma_assoc(a, "]"@, " "@);
    lemma_assoc(s0, " "@, cue.text);
    let l1 = s0 + s1;
    lemma_assoc(l1, " <!-- framenote:subtitle:"@, id);
    let l2 = l1 + s2;
    lemma_assoc(l2, " start="@, cue.start.fixed());
    let l3 = l2 + s3;
    lemma_assoc(l3, " end="@, cue.end.fixed());
    let l4 = l3 + s4;
    lemma_assoc(l4, " speaker=\""@, cue.speaker);
    let opened = " speaker=\""@ + cue.speaker;
    lemma_assoc(l4 + opened, "\""@, " language=\""@);
    lemma_assoc(l4, opened, "\""@);
    let l5 = l4 + s5;
    lemma_assoc(l5, " language=\""@, cue.language);
    lemma_assoc(l5, " language=\""@ + cue.language, "\" -->"@);
    assert(transcript::cue_line(id, from, to, cue) == l5 + s6);
    lemma_assoc(l4, s5, s6);
    lemma_assoc(l3, s4, s5 + s6);
    lemma_assoc(l2, s3, s4 + (s5 + s6));
    lemma_assoc(l1, s2, s3 + (s4 + (s5 + s6)));
    lemma_assoc(s0, s1, s2 + (s3 + (s4 + (s5 + s6))));
}

pub(crate) proof fn lemma_run(a: Seq<char>, b: Seq<char>, p: spec_fn(char) -> bool)
    requires
        text::all_in(a, p),
        b.len() > 0 ==> !p(b[0]),
    ensures
        text::run(a + b, p) == a.len(),
        text::prefix_of(a + b, p) == a,
    decreases a.len(),
{
    if a.len() == 0 {
        assert(a + b =~= b);
        assert(b.take(0) =~= a);
    } else {
        let rest = a.skip(1);
        assert forall|i: int| 0 <= i < rest.len() implies p(#[trigger] rest[i]) by {
            assert(rest[i] == a[i + 1]);
        }
        lemma_run(rest, b, p);
        assert((a + b).skip(1) =~= rest + b);
        assert(p((a + b)[0])) by {
            assert((a + b)[0] == a[0]);
        }
        assert((a + b).take(a.len() as int) =~= a);
    }
}

/// The decimal text of a time: digits and a point.
pub open spec fn is_amount(s: Seq<char>) -> bool {
    s.len() > 0 && text::all_in(s, |c: char| text::is_digit(c) || c == '.')
}

pub(crate) proof fn lemma_amount(value: Binary64)
    requires
        value.finite(),
        !value.is_negative(),
    ensures
        is_amount(value.fixed()),
{
    reveal_strlit("");
    number::lemma_thousandths_chars(value.thousandths());
    assert(value.fixed() =~= number::thousandths_text(value.thousandths()));
}

pub(crate) proof fn lemma_spaced(s: Seq<char>, pat: Seq<char>)
    requires
        is_solid(pat),
        !text::contains(s, pat),
    ensures
        !text::contains(" "@ + s, pat),
{
    reveal_strlit(" ");
    let all = " "@ + s;
    if text::contains(all, pat) {
        let i = choose|i: int| text::occurs_at(all, pat, i);
        let cut = all.subrange(i, i + pat.len());
        assert(cut[0] == all[i]);
        assert(s.subrange(i - 1, i - 1 + pat.len()) =~= cut);
        assert(text::occurs_at(s, pat, i - 1));
    }
}

/// What a line can be read for behind its bracket and its text.
pub(crate) proof fn lemma_behind_text(
    head: Seq<char>,
    words: Seq<char>,
    rest: Seq<char>,
    pat: Seq<char>,
    k: int,
)
    requires
        is_solid(pat),
        0 <= k < pat.len(),
        forall|i: int| 0 <= i < head.len() ==> #[trigger] head[i] != pat[k],
        !text::contains(words, pat),
        rest.len() > 0,
        rest[0] == ' ',
    ensures
        text::find(head + ((" "@ + words) + rest), pat) == match text::find(rest, pat) {
            Some(i) => Some(head.len() + 1 + words.len() + i),
            None => None,
        },
        behind(head + ((" "@ + words) + rest), pat) == behind(rest, pat),
{
    reveal_strlit(" ");
    let s1 = " "@ + words;
    lemma_lacks(head, pat, k);
    lemma_spaced(words, pat);
    assert((s1 + rest)[0] == ' ');
    lemma_next_segment(head, s1 + rest, pat);
    lemma_next_segment(s1, rest, pat);
}

pub(crate) proof fn lemma_bracket_chars(from: Seq<char>, to: Seq<char>)
    requires
        is_stamp(from),
        is_stamp(to),
    ensures
        forall|i: int|
            #![trigger bracket(from, to)[i]]
            0 <= i < bracket(from, to).len() ==> {
                let c = bracket(from, to)[i];
                &&& c != '=' && c != '"' && c != '<' && c != '\n'
                &&& c == ']' ==> i == bracket(from, to).len() - 1
            },
        bracket(from, to).len() > 0,
        bracket(from, to).last() == ']',
{
    reveal(bracket);
    reveal_strlit("- [");
    reveal_strlit("–");
    reveal_strlit("]");
    let stamp = |c: char| text::is_digit(c) || c == ':' || c == '.';
    let all = bracket(from, to);
    let a = "- ["@;
    let n = a.len() + from.len() as int;
    assert forall|i: int| #![trigger all[i]] 0 <= i < all.len() implies {
        let c = all[i];
        &&& c != '=' && c != '"' && c != '<' && c != '\n'
        &&& c == ']' ==> i == all.len() - 1
    } by {
        if i < a.len() {
            assert(all[i] == a[i]);
        } else if i < n {
            assert(all[i] == from[i - a.len()]);
            assert(stamp(from[i - a.len()]));
        } else if i == n {
            assert(all[i] == "–"@[0]);
        } else if i < n + 1 + to.len() {
            assert(all[i] == to[i - n - 1]);
            assert(stamp(to[i - n - 1]));
        }
    }
}

proof fn lemma_marker_chars(id: Seq<char>)
    requires
        entries::is_identifier(id),
    ensures
        text::all_in(
            " <!-- framenote:subtitle:"@ + id,
            |c: char| c != '=' && c != '"' && c != '\n',
        ),
{
    reveal_strlit(" <!-- framenote:subtitle:");
    let front = " <!-- framenote:subtitle:"@;
    let all = front + id;
    let p = |c: char| c != '=' && c != '"' && c != '\n';
    assert forall|i: int| 0 <= i < all.len() implies p(#[trigger] all[i]) by {
        if i < front.len() {
            assert(all[i] == front[i]);
        } else {
            assert(all[i] == id[i - front.len()]);
            assert(entries::id_class()(id[i - front.len()]));
        }
    }
}

pub(crate) proof fn lemma_amount_chars(label: Seq<char>, amount: Seq<char>, p: spec_fn(char) -> bool)
    requires
        text::all_in(label, p),
        is_amount(amount),
        forall|c: char| text::is_digit(c) || c == '.' ==> #[trigger] p(c),
    ensures
        text::all_in(label + amount, p),
{
    let all = label + amount;
    let figure = |c: char| text::is_digit(c) || c == '.';
    assert forall|i: int| 0 <= i < all.len() implies p(#[trigger] all[i]) by {
        if i < label.len() {
            assert(all[i] == label[i]);
            assert(p(label[i]));
        } else {
            assert(all[i] == amount[i - label.len()]);
            assert(figure(amount[i - label.len()]));
            assert(p(amount[i - label.len()]));
        }
    }
}

pub(crate) proof fn lemma_read_amount(amount: Seq<char>, rest: Seq<char>)
    requires
        is_amount(amount),
        rest.len() > 0,
        rest[0] == ' ',
    ensures
        text::prefix_of(amount + rest, text::among("0123456789.-"@)) == amount,
{
    reveal_strlit("0123456789.-");
    let set = "0123456789.-"@;
    let figure = |c: char| text::is_digit(c) || c == '.';
    assert forall|i: int| 0 <= i < amount.len() implies text::among(set)(#[trigger] amount[i]) by {
        let c = amount[i];
        assert(figure(c));
        let k = if c == '.' {
            10int
        } else {
            c as u32 - 48
        };
        assert(set[k] == c);
    }
    lemma_run(amount, rest, text::among(set));
}

/// The number behind a name, where the name begins a segment.
pub(crate) proof fn lemma_amount_here(name: Seq<char>, label: Seq<char>, value: Binary64, rest: Seq<char>)
    requires
        label == " "@ + (name + "="@),
        is_solid(name + "="@),
        value.finite(),
        !value.is_negative(),
        rest.len() > 0,
        rest[0] == ' ',
    ensures
        behind((label + value.fixed()) + rest, name + "="@) == Some(value.fixed() + rest),
        number::parsed(text::prefix_of(value.fixed() + rest, text::among("0123456789.-"@)))
            == Some(number::to_thousandths(value)),
{
    lemma_amount(value);
    lemma_assoc(label, value.fixed(), rest);
    lemma_here(name + "="@, value.fixed() + rest);
    lemma_read_amount(value.fixed(), rest);
    number::lemma_fixed_reads(value);
}

proof fn lemma_text_here(name: Seq<char>, label: Seq<char>, value: Seq<char>, rest: Seq<char>)
    requires
        label == " "@ + (name + "=\""@),
        is_solid(name + "=\""@),
        is_quotable(value),
    ensures
        ({
            let segment = (label + value) + ("\""@ + rest);
            match behind(segment, name + "=\""@) {
                Some(found) => match text::cut(found, "\""@) {
                    Some((inside, _)) => inside == value,
                    None => false,
                },
                None => false,
            }
        }),
{
    reveal_strlit("\"");
    lemma_assoc(label, value, "\""@ + rest);
    let found = value + ("\""@ + rest);
    lemma_here(name + "=\""@, found);
    assert(text::occurs_at(found, "\""@, value.len() as int)) by {
        assert(found.subrange(value.len() as int, value.len() + 1int) =~= "\""@);
    }
    text::lemma_find(found, "\""@);
    let at = text::find(found, "\""@)->0;
    if at < value.len() {
        assert(found.subrange(at, at + 1)[0] == found[at]);
        assert(found[at] == value[at]);
        assert((|c: char| c != '"' && c != '\n')(value[at]));
    }
    assert(found.take(value.len() as int) =~= value);
}

proof fn lemma_speaker_segment(speaker: Seq<char>)
    requires
        is_quotable(speaker),
        !text::has_suffix(speaker, "language="@),
    ensures
        !text::contains(" speaker=\""@ + speaker + "\""@, "language=\""@),
{
    reveal_strlit(" speaker=\"");
    reveal_strlit("\"");
    reveal_strlit("language=\"");
    reveal_strlit("language=");
    let front = " speaker=\""@;
    let all = front + speaker + "\""@;
    let pat = "language=\""@;
    let n = speaker.len() as int;
    if text::contains(all, pat) {
        let i = choose|i: int| text::occurs_at(all, pat, i);
        let cut = all.subrange(i, i + 10);
        assert(cut == pat);
        assert(cut[9] == all[i + 9]);
        assert(all[i + 9] == '"');
        if i + 9 < 10 {
            assert(all[i + 9] == front[i + 9]);
            assert(cut[0] == all[i] && all[i] == front[i]);
        } else if i + 9 < 10 + n {
            assert(all[i + 9] == speaker[i - 1]);
            assert((|c: char| c != '"' && c != '\n')(speaker[i - 1]));
        } else if i < 10 {
            assert(cut[9 - i] == all[9]);
            assert(all[9] == front[9]);
        } else {
            assert(i == n + 1);
            assert(speaker.subrange(n - 9, n) =~= "language="@) by {
                assert forall|k: int| 0 <= k < 9 implies speaker[n - 9 + k] == "language="@[k] by {
                    assert(cut[k] == all[i + k]);
                    assert(all[i + k] == speaker[i + k - 10]);
                }
            }
        }
    }
}

/// Whether a passage of speech can be written without loss but for the
/// thousandths of its times.
pub open spec fn is_lasting(cue: Cue) -> bool {
    &&& cue.start.finite() && !cue.start.is_negative()
    &&& cue.end.finite() && !cue.end.is_negative()
    &&& number::to_thousandths(cue.start).lt(number::to_thousandths(cue.end))
    &&& cue.text.len() > 0
    &&& text::on_one_line(cue.text)
    &&& text::trimmed(cue.text) == cue.text
    &&& markdown::entry_text(cue.text) == cue.text
    &&& !text::contains(cue.text, "<!--"@)
    &&& is_quotable(cue.speaker) && !text::has_suffix(cue.speaker, "language="@)
    &&& is_quotable(cue.language)
}

/// A passage with its times in thousandths of a second.
pub open spec fn in_thousandths(cue: Cue) -> Cue {
    Cue {
        start: number::to_thousandths(cue.start),
        end: number::to_thousandths(cue.end),
        text: cue.text,
        speaker: cue.speaker,
        language: cue.language,
    }
}

proof fn lemma_tails_spaced(id: Seq<char>, from: Seq<char>, to: Seq<char>, cue: Cue)
    ensures
        ({
            let segs = segments(id, from, to, cue);
            forall|k: int|
                1 <= k <= 6 ==> (#[trigger] tail(segs, k)).len() > 0 && tail(segs, k)[0] == ' '
        }),
{
    reveal_strlit(" ");
    reveal_strlit(" <!-- framenote:subtitle:");
    reveal_strlit(" start=");
    reveal_strlit(" end=");
    reveal_strlit(" speaker=\"");
    reveal_strlit(" language=\"");
    lemma_segments(id, from, to, cue);
}

/// The names of the attributes, as they are written and as they are looked for.
pub(crate) proof fn lemma_names()
    ensures
        " start="@ == " "@ + ("start"@ + "="@),
        " end="@ == " "@ + ("end"@ + "="@),
        " speaker=\""@ == " "@ + ("speaker"@ + "=\""@),
        " language=\""@ == " "@ + ("language"@ + "=\""@),
        "start"@ + "="@ == "start="@,
        "end"@ + "="@ == "end="@,
        "speaker"@ + "=\""@ == "speaker=\""@,
        "language"@ + "=\""@ == "language=\""@,
        is_solid("start="@),
        is_solid("end="@),
        is_solid("speaker=\""@),
        is_solid("language=\""@),
        "start="@.len() == 6 && "start="@[5] == '=',
        "end="@.len() == 4 && "end="@[3] == '=' && "end="@[1] == 'n',
        "speaker=\""@.len() == 9 && "speaker=\""@[8] == '"',
        "language=\""@.len() == 10 && "language=\""@[9] == '"',
        text::all_in(" start="@, |c: char| c != 'n'),
        text::all_in(" start="@, |c: char| c != '"'),
        text::all_in(" end="@, |c: char| c != '"'),
        "\" -->"@ == "\""@ + " -->"@,
{
    reveal_strlit(" ");
    reveal_strlit("=");
    reveal_strlit("\"");
    reveal_strlit("=\"");
    reveal_strlit("start");
    reveal_strlit("end");
    reveal_strlit("speaker");
    reveal_strlit("language");
    reveal_strlit("start=");
    reveal_strlit("end=");
    reveal_strlit("speaker=\"");
    reveal_strlit("language=\"");
    reveal_strlit(" start=");
    reveal_strlit(" end=");
    reveal_strlit(" speaker=\"");
    reveal_strlit(" language=\"");
    reveal_strlit("\" -->");
    reveal_strlit(" -->");
    assert("start"@ + "="@ =~= "start="@);
    assert("end"@ + "="@ =~= "end="@);
    assert("speaker"@ + "=\""@ =~= "speaker=\""@);
    assert("language"@ + "=\""@ =~= "language=\""@);
    assert(" start="@ =~= " "@ + "start="@);
    assert(" end="@ =~= " "@ + "end="@);
    assert(" speaker=\""@ =~= " "@ + "speaker=\""@);
    assert(" language=\""@ =~= " "@ + "language=\""@);
    assert("\" -->"@ =~= "\""@ + " -->"@);
}

/// What stands behind an attribute in the comment of a subtitle.
proof fn lemma_behind_marker(
    id: Seq<char>,
    from: Seq<char>,
    to: Seq<char>,
    cue: Cue,
    pat: Seq<char>,
    k: int,
)
    requires
        entries::is_identifier(id),
        is_stamp(from),
        is_stamp(to),
        is_lasting(cue),
        is_solid(pat),
        0 <= k < pat.len(),
        pat[k] == '=' || pat[k] == '"',
    ensures
        behind(entries::comment(transcript::cue_line(id, from, to, cue)), pat) == behind(
            tail(segments(id, from, to, cue), 3),
            pat,
        ),
{
    let line = transcript::cue_line(id, from, to, cue);
    let segs = segments(id, from, to, cue);
    lemma_segments(id, from, to, cue);
    lemma_tails_spaced(id, from, to, cue);
    lemma_marker_chars(id);
    lemma_reads_text(id, from, to, cue);
    reveal_strlit(" <!-- framenote:subtitle:");
    let marker = segs[2].skip(1);
    let head = segs[0] + segs[1];
    lemma_assoc(segs[0], segs[1], tail(segs, 2));
    reveal_strlit(" ");
    assert(head.len() == bracket(from, to).len() + 1 + cue.text.len());
    assert(line =~= head + tail(segs, 2));
    assert(line[head.len() + 5int] == segs[2][5]);
    entries::lemma_comment(line);
    assert(entries::comment(line) =~= marker + tail(segs, 3));
    let plain = |c: char| c != '=' && c != '"' && c != '\n';
    assert forall|i: int| 0 <= i < marker.len() implies #[trigger] marker[i] != pat[k] by {
        assert(marker[i] == segs[2][i + 1]);
        assert(plain(segs[2][i + 1]));
    }
    lemma_lacks(marker, pat, k);
    lemma_next_segment(marker, tail(segs, 3), pat);
}

/// A segment of a label and a number lacks a pattern.
pub(crate) proof fn lemma_amount_lacks(
    label: Seq<char>,
    value: Binary64,
    rest: Seq<char>,
    pat: Seq<char>,
    k: int,
    c: char,
)
    requires
        value.finite(),
        !value.is_negative(),
        text::all_in(label, |d: char| d != c),
        !text::is_digit(c),
        c != '.',
        is_solid(pat),
        0 <= k < pat.len(),
        pat[k] == c,
        rest.len() > 0,
        rest[0] == ' ',
    ensures
        behind((label + value.fixed()) + rest, pat) == behind(rest, pat),
{
    let other = |d: char| d != c;
    let segment = label + value.fixed();
    lemma_amount(value);
    lemma_amount_chars(label, value.fixed(), other);
    assert forall|i: int| 0 <= i < segment.len() implies #[trigger] segment[i] != pat[k] by {
        assert(other(segment[i]));
    }
    lemma_lacks(segment, pat, k);
    lemma_next_segment(segment, rest, pat);
}

proof fn lemma_reads_start(id: Seq<char>, from: Seq<char>, to: Seq<char>, cue: Cue)
    requires
        entries::is_identifier(id),
        is_stamp(from),
        is_stamp(to),
        is_lasting(cue),
    ensures
        markdown::number_attribute(
            entries::comment(transcript::cue_line(id, from, to, cue)),
            "start"@,
        ) == Some(
            number::to_thousandths(cue.start),
        ),
{
    let segs = segments(id, from, to, cue);
    lemma_names();
    lemma_segments(id, from, to, cue);
    lemma_tails_spaced(id, from, to, cue);
    lemma_behind_marker(id, from, to, cue, "start="@, 5);
    lemma_amount_here("start"@, " start="@, cue.start, tail(segs, 4));
}

proof fn lemma_reads_end(id: Seq<char>, from: Seq<char>, to: Seq<char>, cue: Cue)
    requires
        entries::is_identifier(id),
        is_stamp(from),
        is_stamp(to),
        is_lasting(cue),
    ensures
        markdown::number_attribute(
            entries::comment(transcript::cue_line(id, from, to, cue)),
            "end"@,
        ) == Some(
            number::to_thousandths(cue.end),
        ),
{
    let segs = segments(id, from, to, cue);
    lemma_names();
    lemma_segments(id, from, to, cue);
    lemma_tails_spaced(id, from, to, cue);
    lemma_behind_marker(id, from, to, cue, "end="@, 3);
    lemma_amount_lacks(" start="@, cue.start, tail(segs, 4), "end="@, 1, 'n');
    lemma_amount_here("end"@, " end="@, cue.end, tail(segs, 5));
}

proof fn lemma_reads_speaker(id: Seq<char>, from: Seq<char>, to: Seq<char>, cue: Cue)
    requires
        entries::is_identifier(id),
        is_stamp(from),
        is_stamp(to),
        is_lasting(cue),
    ensures
        markdown::text_attribute(
            entries::comment(transcript::cue_line(id, from, to, cue)),
            "speaker"@,
        ) == Some(
            cue.speaker,
        ),
{
    let segs = segments(id, from, to, cue);
    lemma_names();
    lemma_segments(id, from, to, cue);
    lemma_tails_spaced(id, from, to, cue);
    lemma_behind_marker(id, from, to, cue, "speaker=\""@, 8);
    lemma_amount_lacks(" start="@, cue.start, tail(segs, 4), "speaker=\""@, 8, '"');
    lemma_amount_lacks(" end="@, cue.end, tail(segs, 5), "speaker=\""@, 8, '"');
    lemma_assoc(" speaker=\""@ + cue.speaker, "\""@, tail(segs, 6));
    lemma_text_here("speaker"@, " speaker=\""@, cue.speaker, tail(segs, 6));
}

proof fn lemma_reads_language(id: Seq<char>, from: Seq<char>, to: Seq<char>, cue: Cue)
    requires
        entries::is_identifier(id),
        is_stamp(from),
        is_stamp(to),
        is_lasting(cue),
    ensures
        markdown::text_attribute(
            entries::comment(transcript::cue_line(id, from, to, cue)),
            "language"@,
        ) == Some(
            cue.language,
        ),
{
    let segs = segments(id, from, to, cue);
    lemma_names();
    lemma_segments(id, from, to, cue);
    lemma_tails_spaced(id, from, to, cue);
    lemma_behind_marker(id, from, to, cue, "language=\""@, 9);
    lemma_amount_lacks(" start="@, cue.start, tail(segs, 4), "language=\""@, 9, '"');
    lemma_amount_lacks(" end="@, cue.end, tail(segs, 5), "language=\""@, 9, '"');
    lemma_speaker_segment(cue.speaker);
    lemma_next_segment(segs[5], tail(segs, 6), "language=\""@);
    lemma_text_here("language"@, " language=\""@, cue.language, " -->"@);
}

pub(crate) proof fn lemma_first_close(head: Seq<char>, rest: Seq<char>)
    requires
        head.len() > 0,
        head.last() == ']',
        forall|i: int| 0 <= i < head.len() - 1 ==> #[trigger] head[i] != ']',
    ensures
        text::find(head + rest, "]"@) == Some(head.len() - 1),
{
    reveal_strlit("]");
    let line = head + rest;
    let n = head.len() as int;
    assert(line.subrange(n - 1, n) =~= "]"@);
    assert(text::occurs_at(line, "]"@, n - 1));
    text::lemma_find(line, "]"@);
    let close = text::find(line, "]"@)->0;
    if close < n - 1 {
        assert(line.subrange(close, close + 1)[0] == line[close]);
        assert(line[close] == head[close]);
    }
}

/// The marker of an entry stands behind the space in front of its comment.
proof fn lemma_comment(id: Seq<char>, rest: Seq<char>)
    ensures
        text::find((" <!-- framenote:subtitle:"@ + id) + rest, "<!--"@) == Some(1int),
        text::contains((" <!-- framenote:subtitle:"@ + id) + rest, "framenote:subtitle:"@ + id),
{
    reveal_strlit(" ");
    reveal_strlit("<!--");
    reveal_strlit(" <!-- framenote:subtitle:");
    reveal_strlit("framenote:subtitle:");
    reveal_strlit(" framenote:subtitle:");
    let all = (" <!-- framenote:subtitle:"@ + id) + rest;
    assert(" <!-- framenote:subtitle:"@ =~= " "@ + "<!--"@ + " framenote:subtitle:"@);
    let after = " framenote:subtitle:"@ + (id + rest);
    assert(all =~= " "@ + "<!--"@ + after);
    lemma_here("<!--"@, after);
    let marker = "framenote:subtitle:"@ + id;
    assert(all.subrange(6, 6int + marker.len()) =~= marker);
    assert(text::occurs_at(all, marker, 6));
}

pub(crate) proof fn lemma_contains_right(f: Seq<char>, g: Seq<char>, pat: Seq<char>)
    requires
        text::contains(g, pat),
    ensures
        text::contains(f + g, pat),
{
    let i = choose|i: int| text::occurs_at(g, pat, i);
    let s = f + g;
    assert(s.subrange(f.len() + i, f.len() + i + pat.len()) =~= g.subrange(i, i + pat.len()));
    assert(text::occurs_at(s, pat, f.len() + i));
}

pub(crate) proof fn lemma_contains_front(s: Seq<char>, pat: Seq<char>, more: Seq<char>)
    requires
        text::contains(s, pat + more),
    ensures
        text::contains(s, pat),
{
    let i = choose|i: int| text::occurs_at(s, pat + more, i);
    assert(s.subrange(i, i + pat.len()) =~= s.subrange(i, i + (pat + more).len()).take(
        pat.len() as int,
    ));
    assert((pat + more).take(pat.len() as int) =~= pat);
    assert(text::occurs_at(s, pat, i));
}

proof fn lemma_body(head: Seq<char>, words: Seq<char>, rest: Seq<char>)
    requires
        rest.len() > 0,
        rest[0] == ' ',
    ensures
        ({
            let line = head + ((" "@ + words) + rest);
            line.subrange(head.len() as int, head.len() + 2int + words.len()) == " "@ + words + " "@
        }),
{
    reveal_strlit(" ");
    let line = head + ((" "@ + words) + rest);
    assert(line.subrange(head.len() as int, head.len() + 2int + words.len()) =~= " "@ + words
        + " "@);
}

pub(crate) proof fn lemma_reads_text(id: Seq<char>, from: Seq<char>, to: Seq<char>, cue: Cue)
    requires
        is_stamp(from),
        is_stamp(to),
        cue.text.len() > 0,
        text::trimmed(cue.text) == cue.text,
        !text::contains(cue.text, "<!--"@),
    ensures
        ({
            let line = transcript::cue_line(id, from, to, cue);
            &&& text::contains(line, "framenote:subtitle:"@ + id)
            &&& text::contains(line, "framenote:subtitle:"@)
            &&& text::find(line, "]"@) == Some(bracket(from, to).len() - 1)
            &&& entries::text_end(line) == bracket(from, to).len() + 2 + cue.text.len()
            &&& text::trimmed(entries::entry_body(line)) == cue.text
        }),
{
    reveal_strlit("<!--");
    let line = transcript::cue_line(id, from, to, cue);
    let segs = segments(id, from, to, cue);
    lemma_segments(id, from, to, cue);
    lemma_tails_spaced(id, from, to, cue);
    lemma_bracket_chars(from, to);
    lemma_first_close(bracket(from, to), tail(segs, 1));
    lemma_behind_text(segs[0], cue.text, tail(segs, 2), "<!--"@, 0);
    lemma_comment(id, tail(segs, 3));
    lemma_body(bracket(from, to), cue.text, tail(segs, 2));
    lemma_trimmed_spaced(cue.text);
    lemma_contains_right(segs[1], tail(segs, 2), "framenote:subtitle:"@ + id);
    lemma_contains_right(segs[0], tail(segs, 1), "framenote:subtitle:"@ + id);
    lemma_contains_front(line, "framenote:subtitle:"@, id);
}

pub(crate) proof fn lemma_trimmed_spaced(s: Seq<char>)
    requires
        s.len() > 0,
        text::trimmed(s) == s,
    ensures
        text::trimmed(" "@ + s + " "@) == s,
{
    reveal_strlit(" ");
    let p = text::whites();
    let all = " "@ + s + " "@;
    lemma_trimmed_ends(s);
    assert(all[0] == ' ');
    assert(all.skip(1) =~= s + " "@);
    let once = s + " "@;
    assert(once[0] == s[0]);
    assert(text::drop_leading(all, p) == text::drop_leading(once, p));
    assert(text::drop_leading(once, p) == once);
    assert(once.drop_last() =~= s);
    assert(text::drop_trailing(once, p) == text::drop_trailing(s, p));
    assert(s.last() == s[s.len() - 1]);
}

proof fn lemma_drop_lengths(s: Seq<char>, p: spec_fn(char) -> bool)
    ensures
        text::drop_leading(s, p).len() <= s.len(),
        text::drop_trailing(s, p).len() <= s.len(),
        s.len() > 0 && p(s[0]) ==> text::drop_leading(s, p).len() < s.len(),
        s.len() > 0 && p(s.last()) ==> text::drop_trailing(s, p).len() < s.len(),
    decreases s.len(),
{
    if s.len() > 0 {
        lemma_drop_lengths(s.skip(1), p);
        lemma_drop_lengths(s.drop_last(), p);
    }
}

/// A text that trimming leaves as it is has no white space at its ends.
pub(crate) proof fn lemma_trimmed_ends(s: Seq<char>)
    requires
        s.len() > 0,
        text::trimmed(s) == s,
    ensures
        !text::is_white(s[0]),
        !text::is_white(s.last()),
{
    let p = text::whites();
    lemma_drop_lengths(s, p);
    lemma_drop_lengths(text::drop_leading(s, p), p);
}

/// The line of a passage of speech gives the passage back, with its times in
/// thousandths of a second.
pub proof fn law_cue_line_reads_back(id: Seq<char>, from: Seq<char>, to: Seq<char>, cue: Cue)
    requires
        entries::is_identifier(id),
        is_stamp(from),
        is_stamp(to),
        is_lasting(cue),
    ensures
        transcript::cue_in(transcript::cue_line(id, from, to, cue)) == Some(in_thousandths(cue)),
{
    reveal(transcript::cue_in);
    lemma_reads_start(id, from, to, cue);
    lemma_reads_end(id, from, to, cue);
    lemma_reads_speaker(id, from, to, cue);
    lemma_reads_language(id, from, to, cue);
    lemma_reads_text(id, from, to, cue);
}

// ---------------------------------------------------------------------------
// The subtitles of a sidecar
// ---------------------------------------------------------------------------

proof fn lemma_stamp_chars(total: nat, point: Seq<char>)
    requires
        is_stamp(point),
    ensures
        is_stamp(clock::stamp(total)),
        is_stamp(clock::precise_stamp(total, point)),
{
    reveal_strlit(":");
    let p = |c: char| text::is_digit(c) || c == ':' || c == '.';
    assert(text::all_in(":"@, p));
    lemma_padded_chars(total / 3600, 2);
    lemma_padded_chars((total % 3600) / 60, 2);
    lemma_padded_chars(total % 60, 2);
    lemma_stamp_only(total / 1000);
    lemma_padded_chars(total % 1000, 3);
    lemma_stamp_only(total);
    text::lemma_concat_in(clock::stamp(total / 1000), point, p);
    text::lemma_concat_in(
        clock::stamp(total / 1000) + point,
        digits::padded(digits::decimal(total % 1000), 3),
        p,
    );
}

proof fn lemma_stamp_only(total: nat)
    ensures
        is_stamp(clock::stamp(total)),
{
    reveal_strlit(":");
    let p = |c: char| text::is_digit(c) || c == ':' || c == '.';
    assert(text::all_in(":"@, p));
    lemma_padded_chars(total / 3600, 2);
    lemma_padded_chars((total % 3600) / 60, 2);
    lemma_padded_chars(total % 60, 2);
    let h = digits::padded(digits::decimal(total / 3600), 2);
    let m = digits::padded(digits::decimal((total % 3600) / 60), 2);
    let s = digits::padded(digits::decimal(total % 60), 2);
    text::lemma_concat_in(h, ":"@, p);
    text::lemma_concat_in(h + ":"@, m, p);
    text::lemma_concat_in(h + ":"@ + m, ":"@, p);
    text::lemma_concat_in(h + ":"@ + m + ":"@, s, p);
}

proof fn lemma_padded_chars(n: nat, width: nat)
    ensures
        is_stamp(digits::padded(digits::decimal(n), width)),
{
    digits::lemma_decimal(n);
    digits::lemma_padded(digits::decimal(n), width);
}

/// A time that is written can stand in brackets.
pub proof fn lemma_time_is_stamp(seconds: Binary64)
    ensures
        is_stamp(clock::precise(seconds)),
        is_stamp(clock::timestamp(seconds)),
{
    reveal_strlit(".");
    assert(is_stamp("."@));
    lemma_stamp_chars(clock::whole_milliseconds(seconds), "."@);
    lemma_stamp_only(clock::whole_seconds(seconds));
}

proof fn lemma_tail_in(segs: Seq<Seq<char>>, k: int, p: spec_fn(char) -> bool)
    requires
        0 <= k < segs.len(),
        text::each_in(segs, p),
        segs.last().len() > 0,
    ensures
        text::all_in(tail(segs, k), p),
        tail(segs, k).len() > 0,
        tail(segs, k).last() == segs.last().last(),
    decreases segs.len() - k,
{
    assert(text::all_in(segs[k], p));
    if k < segs.len() - 1 {
        lemma_tail_in(segs, k + 1, p);
        text::lemma_concat_in(segs[k], tail(segs, k + 1), p);
    }
}

proof fn lemma_quoted_in(label: Seq<char>, value: Seq<char>, end: Seq<char>)
    requires
        text::all_in(label, |c: char| c != '\n'),
        is_quotable(value),
        text::all_in(end, |c: char| c != '\n'),
    ensures
        text::all_in(label + value + end, |c: char| c != '\n'),
{
    let p = |c: char| c != '\n';
    let quotable = |c: char| c != '"' && c != '\n';
    assert forall|i: int| 0 <= i < value.len() implies p(#[trigger] value[i]) by {
        assert(quotable(value[i]));
    }
    text::lemma_concat_in(label, value, p);
    text::lemma_concat_in(label + value, end, p);
}

proof fn lemma_labels_clean()
    ensures
        text::all_in(" "@, |c: char| c != '\n'),
        text::all_in(" start="@, |c: char| c != '\n'),
        text::all_in(" end="@, |c: char| c != '\n'),
        text::all_in(" speaker=\""@, |c: char| c != '\n'),
        text::all_in(" language=\""@, |c: char| c != '\n'),
        text::all_in("\""@, |c: char| c != '\n'),
        text::all_in("\" -->"@, |c: char| c != '\n'),
        "\" -->"@.len() == 5,
        "\" -->"@.last() == '>',
{
    reveal_strlit(" ");
    reveal_strlit("\"");
    reveal_strlit(" start=");
    reveal_strlit(" end=");
    reveal_strlit(" speaker=\"");
    reveal_strlit(" language=\"");
    reveal_strlit("\" -->");
}

proof fn lemma_segments_clean(id: Seq<char>, from: Seq<char>, to: Seq<char>, cue: Cue)
    requires
        entries::is_identifier(id),
        is_stamp(from),
        is_stamp(to),
        text::on_one_line(cue.text),
        is_quotable(cue.speaker),
        is_quotable(cue.language),
    ensures
        text::each_in(segments(id, from, to, cue), |c: char| c != '\n'),
        segments(id, from, to, cue).last().len() > 0,
        segments(id, from, to, cue).last().last() == '>',
{
    let p = |c: char| c != '\n';
    let plain = |c: char| c != '=' && c != '"' && c != '\n';
    let segs = segments(id, from, to, cue);
    lemma_segments(id, from, to, cue);
    lemma_labels_clean();
    lemma_bracket_chars(from, to);
    lemma_marker_chars(id);
    marks::lemma_fixed_clean(cue.start);
    marks::lemma_fixed_clean(cue.end);
    assert(text::all_in(segs[2], p)) by {
        assert forall|i: int| 0 <= i < segs[2].len() implies p(#[trigger] segs[2][i]) by {
            assert(plain(segs[2][i]));
        }
    }
    assert(text::all_in(segs[0], p));
    text::lemma_concat_in(" "@, cue.text, p);
    text::lemma_concat_in(" start="@, cue.start.fixed(), p);
    text::lemma_concat_in(" end="@, cue.end.fixed(), p);
    lemma_quoted_in(" speaker=\""@, cue.speaker, "\""@);
    lemma_quoted_in(" language=\""@, cue.language, "\" -->"@);
    assert forall|k: int| 0 <= k < segs.len() implies text::all_in(#[trigger] segs[k], p) by {
        assert(k == 0 || k == 1 || k == 2 || k == 3 || k == 4 || k == 5 || k == 6);
    }
}

pub(crate) proof fn lemma_cue_line_clean(id: Seq<char>, from: Seq<char>, to: Seq<char>, cue: Cue)
    requires
        entries::is_identifier(id),
        is_stamp(from),
        is_stamp(to),
        text::on_one_line(cue.text),
        is_quotable(cue.speaker),
        is_quotable(cue.language),
    ensures
        text::on_one_line(transcript::cue_line(id, from, to, cue)),
        text::chopped(transcript::cue_line(id, from, to, cue)) == transcript::cue_line(
            id,
            from,
            to,
            cue,
        ),
{
    let p = |c: char| c != '\n';
    let line = transcript::cue_line(id, from, to, cue);
    lemma_segments(id, from, to, cue);
    lemma_segments_clean(id, from, to, cue);
    lemma_tail_in(segments(id, from, to, cue), 0, p);
    assert forall|i: int| 0 <= i < line.len() implies #[trigger] line[i] != '\n' by {
        assert(p(line[i]));
    }
}

pub(crate) proof fn lemma_sorted_holds(lines: Seq<Seq<char>>, n: nat, k: int)
    requires
        n <= lines.len(),
        0 <= k < n,
        transcript::cue_in(lines[k]) is Some,
    ensures
        transcript::sorted_cues(lines, n).contains(transcript::cue_in(lines[k])->0),
    decreases n,
{
    let cue = transcript::cue_in(lines[k])->0;
    let before = transcript::sorted_cues(lines, (n - 1) as nat);
    let after = transcript::sorted_cues(lines, n);
    match transcript::cue_in(lines[n - 1]) {
        Some(last) => {
            let at = transcript::cue_slot(before, last.start, before.len()) as int;
            lemma_slot_within(before, last.start, before.len());
            if k == n - 1 {
                assert(after[at] == cue);
            } else {
                lemma_sorted_holds(lines, (n - 1) as nat, k);
                let j = choose|j: int| 0 <= j < before.len() && before[j] == cue;
                assert(after[if j < at {
                    j
                } else {
                    j + 1
                }] == cue);
            }
        },
        None => {
            lemma_sorted_holds(lines, (n - 1) as nat, k);
        },
    }
}

proof fn lemma_slot_within(cues: Seq<Cue>, start: Binary64, n: nat)
    ensures
        transcript::cue_slot(cues, start, n) <= n,
    decreases n,
{
    if n > 0 && start.rank() < cues[n - 1].start.rank() {
        lemma_slot_within(cues, start, (n - 1) as nat);
    }
}

/// The passage that is written for a subtitle that was entered.
pub open spec fn entered(cue: Cue) -> Cue {
    Cue {
        start: clock::from_start(cue.start),
        end: cue.end,
        text: markdown::entry_text(cue.text),
        speaker: markdown::metadata(cue.speaker, "Unknown"@),
        language: markdown::metadata(cue.language, "unknown"@),
    }
}

/// Whether a subtitle that is entered can be read again: its times differ in
/// thousandths of a second, and its words do not read like a comment.
pub open spec fn is_readable(cue: Cue) -> bool {
    &&& clock::cue_bounds(cue.start, cue.end) is Ok
    &&& number::to_thousandths(clock::from_start(cue.start)).lt(number::to_thousandths(cue.end))
    &&& !text::contains(markdown::entry_text(cue.text), "<!--"@)
    &&& !text::contains(markdown::entry_text(cue.text), "-->"@)
    &&& markdown::entry_text(cue.text).last() != ' '
    &&& !text::has_suffix(markdown::metadata(cue.speaker, "Unknown"@), "language="@)
}

proof fn lemma_entered_lasts(cue: Cue)
    requires
        is_readable(cue),
    ensures
        is_lasting(entered(cue)),
{
    reveal_strlit("Unknown");
    reveal_strlit("unknown");
    laws::lemma_from_start(cue.start);
    assert(cue.end.units() > 0);
    law_entry_text_is_settled(cue.text);
    laws::law_entry_text_is_one_line(cue.text);
    let quotable = |c: char| c != '"' && c != '\n';
    assert(text::all_in("Unknown"@, quotable));
    assert(text::all_in("unknown"@, quotable));
    laws::law_attribute_is_quotable(cue.speaker, "Unknown"@);
    laws::law_attribute_is_quotable(cue.language, "unknown"@);
}

pub(crate) proof fn lemma_written_reads(id: Seq<char>, cue: Cue)
    requires
        entries::is_identifier(id),
        is_readable(cue),
    ensures
        ({
            let line = transcript::written_subtitle(id, cue)->Ok_0;
            &&& transcript::written_subtitle(id, cue) is Ok
            &&& text::on_one_line(line)
            &&& text::chopped(line) == line
            &&& transcript::cue_in(line) == Some(in_thousandths(entered(cue)))
            &&& text::contains(line, "framenote:subtitle:"@ + id)
        }),
{
    let written = entered(cue);
    lemma_entered_lasts(cue);
    let from = clock::precise(written.start);
    let to = clock::precise(written.end);
    lemma_time_is_stamp(written.start);
    lemma_time_is_stamp(written.end);
    law_cue_line_reads_back(id, from, to, written);
    lemma_cue_line_clean(id, from, to, written);
    lemma_reads_text(id, from, to, written);
}

/// A subtitle that is changed is the one that is read again, and its entry is
/// still there under its identifier.
pub proof fn law_updated_subtitle_reads_back(markdown: Seq<char>, id: Seq<char>, cue: Cue)
    requires
        entries::is_identifier(id),
        is_readable(cue),
        markdown::any(text::lines_of(markdown), transcript::subtitle_test(id)),
    ensures
        ({
            let updated = transcript::subtitle_updated(markdown, id, cue)->Ok_0;
            &&& transcript::subtitle_updated(markdown, id, cue) is Ok
            &&& transcript::subtitles(updated).contains(in_thousandths(entered(cue)))
            &&& entries::has_entry(text::lines_of(updated), id)
        }),
{
    let lines = text::lines_of(markdown);
    let test = transcript::subtitle_test(id);
    let line = transcript::written_subtitle(id, cue)->Ok_0;
    lemma_written_reads(id, cue);
    text::lemma_lines_clean(markdown);
    let k = choose|k: int| 0 <= k < lines.len() && test.passes(#[trigger] lines[k]);
    let swapped = markdown::swapped(lines, test, line);
    assert forall|i: int| 0 <= i < swapped.len() implies text::on_one_line(
        #[trigger] swapped[i],
    ) by {
        assert(swapped[i] == line || swapped[i] == lines[i]);
    }
    laws::lemma_reread(swapped);
    let again = laws::reread(swapped);
    assert(again[k] == line);
    lemma_sorted_holds(again, again.len(), k);
    assert(entries::holds_entry(again[k], id));
}

/// A subtitle that is added is one of those that are read again, and its entry
/// is found under its identifier.
#[verifier::rlimit(40)]
pub proof fn law_added_subtitle_reads_back(markdown: Seq<char>, id: Seq<char>, cue: Cue)
    requires
        entries::is_identifier(id),
        is_readable(cue),
    ensures
        ({
            let line = transcript::written_subtitle(id, cue)->Ok_0;
            let added = markdown::appended(markdown, markdown::SUBTITLE_HEADING@, line);
            &&& transcript::written_subtitle(id, cue) is Ok
            &&& transcript::subtitles(added).contains(in_thousandths(entered(cue)))
            &&& entries::has_entry(text::lines_of(added), id)
        }),
{
    reveal_strlit("## Subtitles");
    let line = transcript::written_subtitle(id, cue)->Ok_0;
    lemma_written_reads(id, cue);
    laws::lemma_appended_holds(markdown, markdown::SUBTITLE_HEADING@, line);
    let again = text::lines_of(
        markdown::appended(markdown, markdown::SUBTITLE_HEADING@, line),
    );
    let k = choose|k: int| 0 <= k < again.len() && again[k] == line;
    lemma_sorted_holds(again, again.len(), k);
    assert(entries::holds_entry(again[k], id));
}

/// A short tidy text without signs of comments is the text of an entry as it
/// is.
pub(crate) proof fn lemma_entry_text_keeps(s: Seq<char>)
    requires
        tidy(s),
        0 < s.len() <= 700,
        s.last() != ' ',
        forall|i: int| 0 <= i < s.len() ==> #[trigger] s[i] != '<' && s[i] != '>',
    ensures
        markdown::entry_text(s) == s,
{
    reveal_strlit("\r\n");
    reveal_strlit("<!--");
    reveal_strlit("-->");
    let plain = |c: char| c == ' ' || !text::is_white(c);
    let set = "\r\n"@;
    assert(set[0] == '\r' && set[1] == '\n');
    assert forall|i: int| 0 <= i < s.len() implies !text::among(set)(#[trigger] s[i]) by {
        assert(plain(s[i]));
    }
    lemma_mapped_keeps(s, text::among(set), " "@);
    lemma_lacks(s, "<!--"@, 0);
    lemma_lacks(s, "-->"@, 2);
    lemma_replaced_keeps(s, "<!--"@, ""@);
    lemma_replaced_keeps(s, "-->"@, ""@);
    lemma_collapsed_tidy(s);
}

proof fn lemma_metadata_keeps(s: Seq<char>, fallback: Seq<char>)
    requires
        tidy(s),
        0 < s.len() <= 48,
        s.last() != ' ',
        forall|i: int|
            0 <= i < s.len() ==> #[trigger] s[i] != '<' && s[i] != '>' && s[i] != '"',
    ensures
        markdown::metadata(s, fallback) == s,
{
    reveal_strlit("\r\n\"");
    reveal_strlit("<!--");
    reveal_strlit("-->");
    let plain = |c: char| c == ' ' || !text::is_white(c);
    let set = "\r\n\""@;
    assert(set[0] == '\r' && set[1] == '\n' && set[2] == '"');
    assert forall|i: int| 0 <= i < s.len() implies !text::among(set)(#[trigger] s[i]) by {
        assert(plain(s[i]));
    }
    lemma_mapped_keeps(s, text::among(set), ""@);
    lemma_lacks(s, "<!--"@, 0);
    lemma_lacks(s, "-->"@, 2);
    lemma_replaced_keeps(s, "<!--"@, ""@);
    lemma_replaced_keeps(s, "-->"@, ""@);
    lemma_collapsed_tidy(s);
}

proof fn lemma_new_words()
    ensures
        markdown::entry_text("New subtitle"@) == "New subtitle"@,
        !text::contains("New subtitle"@, "<!--"@),
        !text::contains("New subtitle"@, "-->"@),
        "New subtitle"@.last() != ' ',
{
    reveal_strlit("New subtitle");
    reveal_strlit("<!--");
    reveal_strlit("-->");
    let words = "New subtitle"@;
    assert(tidy(words));
    lemma_entry_text_keeps(words);
    lemma_lacks(words, "<!--"@, 0);
    lemma_lacks(words, "-->"@, 2);
}

proof fn lemma_unknown_words()
    ensures
        markdown::metadata("Unknown"@, "Unknown"@) == "Unknown"@,
        markdown::metadata("unknown"@, "unknown"@) == "unknown"@,
        !text::has_suffix("Unknown"@, "language="@),
{
    reveal_strlit("Unknown");
    reveal_strlit("unknown");
    reveal_strlit("language=");
    assert(tidy("Unknown"@));
    assert(tidy("unknown"@));
    lemma_metadata_keeps("Unknown"@, "Unknown"@);
    lemma_metadata_keeps("unknown"@, "unknown"@);
}

/// A new subtitle reads "New subtitle", by an unknown speaker in an unknown
/// language, at its times in thousandths of a second.
pub proof fn law_new_subtitle_reads_back(
    markdown: Seq<char>,
    start: Binary64,
    end: Binary64,
    id: Seq<char>,
)
    requires
        entries::is_identifier(id),
        clock::cue_bounds(start, end) is Ok,
        number::to_thousandths(clock::from_start(start)).lt(number::to_thousandths(end)),
    ensures
        ({
            let added = transcript::subtitle_added(markdown, start, end, id)->Ok_0;
            &&& transcript::subtitle_added(markdown, start, end, id) is Ok
            &&& entries::has_entry(text::lines_of(added), id)
            &&& transcript::subtitles(added).contains(
                (Cue {
                    start: number::to_thousandths(clock::from_start(start)),
                    end: number::to_thousandths(end),
                    text: "New subtitle"@,
                    speaker: "Unknown"@,
                    language: "unknown"@,
                }),
            )
        }),
{
    let cue = transcript::new_cue(start, end);
    lemma_new_words();
    lemma_unknown_words();
    law_added_subtitle_reads_back(markdown, id, cue);
}

} // verus!
