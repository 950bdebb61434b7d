//! How texts are taken apart and put together again.

use vstd::prelude::*;

use crate::markdown;
use crate::roundtrip;
use crate::text;

verus! {

/// A text that is parted at a pattern is its parts with the pattern between
/// them.
pub proof fn law_pieces_join_back(s: Seq<char>, pat: Seq<char>)
    requires
        pat.len() > 0,
    ensures
        text::pieces(s, pat).len() > 0,
        text::joined(text::pieces(s, pat), pat) == s,
    decreases s.len(),
{
    text::lemma_find(s, pat);
    match text::find(s, pat) {
        Some(i) => {
            let rest = s.skip(i + pat.len());
            law_pieces_join_back(rest, pat);
            let parts = text::pieces(s, pat);
            let more = text::pieces(rest, pat);
            assert(parts == seq![s.take(i)] + more);
            text::lemma_joined_front(parts, pat);
            assert(parts.skip(1) =~= more);
            assert(s.subrange(i, i + pat.len()) == pat);
            assert(s =~= s.take(i) + pat + rest);
        },
        None => {
            assert(text::pieces(s, pat) =~= seq![s]);
        },
    }
}

/// Parts in which a separator does not stand come back when the text that it
/// joins is parted at it.
pub proof fn law_joined_parts_come_back(parts: Seq<Seq<char>>, c: char)
    requires
        parts.len() > 0,
        forall|i: int| 0 <= i < parts.len() ==> !(#[trigger] parts[i]).contains(c),
    ensures
        text::pieces(text::joined(parts, seq![c]), seq![c]) == parts,
    decreases parts.len(),
{
    let sep = seq![c];
    let s = text::joined(parts, sep);
    let first = parts[0];
    assert(!first.contains(c));
    text::lemma_find(s, sep);
    if parts.len() == 1 {
        if let Some(i) = text::find(s, sep) {
            assert(s.subrange(i, i + 1)[0] == s[i]);
            assert(first.contains(c));
        }
        assert(parts =~= seq![first]);
    } else {
        text::lemma_joined_front(parts, sep);
        let rest = parts.skip(1);
        assert forall|i: int| 0 <= i < rest.len() implies !(#[trigger] rest[i]).contains(c) by {
            assert(rest[i] == parts[i + 1]);
        }
        law_joined_parts_come_back(rest, c);
        let n = first.len() as int;
        assert(s.subrange(n, n + 1) =~= sep);
        assert(text::occurs_at(s, sep, n));
        let i = text::find(s, sep)->0;
        if i < n {
            assert(s.subrange(i, i + 1)[0] == s[i]);
            assert(s[i] == first[i]);
            assert(first.contains(c));
        }
        assert(i == n);
        assert(s.take(n) =~= first);
        assert(s.skip(n + 1) =~= text::joined(rest, sep));
        assert(parts =~= seq![first] + rest);
    }
}

/// The characters in front of a text that are dropped are of a class, and the
/// first one that is left is not.
pub proof fn law_leading_is_dropped(s: Seq<char>, class: spec_fn(char) -> bool) -> (front: Seq<char>)
    ensures
        s == front + text::drop_leading(s, class),
        text::all_in(front, class),
        text::drop_leading(s, class).len() > 0 ==> !class(text::drop_leading(s, class)[0]),
    decreases s.len(),
{
    if s.len() > 0 && class(s[0]) {
        let rest = law_leading_is_dropped(s.skip(1), class);
        let front = seq![s[0]] + rest;
        let left = text::drop_leading(s.skip(1), class);
        assert(s =~= seq![s[0]] + s.skip(1));
        assert(seq![s[0]] + (rest + left) =~= front + left);
        assert forall|i: int| 0 <= i < front.len() implies class(#[trigger] front[i]) by {
            if i > 0 {
                assert(front[i] == rest[i - 1]);
            }
        }
        front
    } else {
        assert(s =~= Seq::<char>::empty() + s);
        Seq::empty()
    }
}

/// The characters behind a text that are dropped are of a class, and the last
/// one that is left is not.
pub proof fn law_trailing_is_dropped(s: Seq<char>, class: spec_fn(char) -> bool) -> (back: Seq<char>)
    ensures
        s == text::drop_trailing(s, class) + back,
        text::all_in(back, class),
        text::drop_trailing(s, class).len() > 0 ==> !class(text::drop_trailing(s, class).last()),
    decreases s.len(),
{
    if s.len() > 0 && class(s.last()) {
        let rest = law_trailing_is_dropped(s.drop_last(), class);
        let back = rest.push(s.last());
        let left = text::drop_trailing(s.drop_last(), class);
        assert(s =~= s.drop_last().push(s.last()));
        assert((left + rest).push(s.last()) =~= left + back);
        assert forall|i: int| 0 <= i < back.len() implies class(#[trigger] back[i]) by {
            if i < rest.len() {
                assert(back[i] == rest[i]);
            }
        }
        back
    } else {
        assert(s =~= s + Seq::<char>::empty());
        Seq::empty()
    }
}

/// What stands between characters of a class is what is left when they are
/// dropped at both ends.
pub proof fn law_ends_are_dropped(
    front: Seq<char>,
    core: Seq<char>,
    back: Seq<char>,
    class: spec_fn(char) -> bool,
)
    requires
        text::all_in(front, class),
        text::all_in(back, class),
        core.len() > 0,
        !class(core[0]),
        !class(core.last()),
    ensures
        text::drop_trailing(text::drop_leading(front + core + back, class), class) == core,
    decreases front.len() + back.len(),
{
    let s = front + core + back;
    if front.len() > 0 {
        assert(class(front[0]));
        assert(s[0] == front[0]);
        let less = front.skip(1);
        assert(s.skip(1) =~= less + core + back);
        assert forall|i: int| 0 <= i < less.len() implies class(#[trigger] less[i]) by {
            assert(less[i] == front[i + 1]);
        }
        law_ends_are_dropped(less, core, back, class);
    } else {
        assert(s =~= core + back);
        assert(s[0] == core[0]);
        assert(text::drop_leading(s, class) == s);
        if back.len() > 0 {
            assert(class(back[back.len() - 1]));
            assert(s.last() == back.last());
            let less = back.drop_last();
            assert(s.drop_last() =~= core + less);
            assert forall|i: int| 0 <= i < less.len() implies class(#[trigger] less[i]) by {
                assert(less[i] == back[i]);
            }
            assert(front + core + less =~= core + less);
            law_ends_are_dropped(front, core, less, class);
            assert((core + less)[0] == core[0]);
            assert(text::drop_leading(core + less, class) == core + less);
        } else {
            assert(s =~= core);
        }
    }
}

/// A text without white space at its ends is left where they are dropped, and
/// what is dropped is white space.
pub proof fn law_trimmed_is_inside(s: Seq<char>) -> (r: (Seq<char>, Seq<char>))
    ensures
        s == r.0 + text::trimmed(s) + r.1,
        text::all_in(r.0, text::whites()),
        text::all_in(r.1, text::whites()),
        text::trimmed(s).len() > 0 ==> !text::is_white(text::trimmed(s)[0]) && !text::is_white(
            text::trimmed(s).last(),
        ),
{
    let front = law_leading_is_dropped(s, text::whites());
    let rest = text::drop_leading(s, text::whites());
    let back = law_trailing_is_dropped(rest, text::whites());
    assert(s =~= front + text::trimmed(s) + back);
    if text::trimmed(s).len() > 0 {
        assert(text::trimmed(s)[0] == rest[0]);
    }
    (front, back)
}

// ---------------------------------------------------------------------------
// Characters
// ---------------------------------------------------------------------------

/// Capital letters are lowered to the small ones, and nothing else changes.
pub proof fn law_letters_are_lowered(c: char)
    ensures
        'A' <= c <= 'Z' ==> text::lower_char(c) as u32 == c as u32 + 32,
        !('A' <= c <= 'Z') ==> text::lower_char(c) == c,
        text::lower_char('A') == 'a' && text::lower_char('Z') == 'z',
{
}

/// Two texts agree whatever the case of their letters where they are lowered to
/// one, and lowering twice changes nothing more.
pub proof fn law_lowering_settles(s: Seq<char>)
    ensures
        text::lower(s).len() == s.len(),
        text::lower(text::lower(s)) == text::lower(s),
{
    assert(text::lower(text::lower(s)) =~= text::lower(s));
}

/// Spaces, tabs and the ends of lines are white space; letters and digits are
/// not.
pub proof fn law_white_space_is_known(c: char)
    ensures
        text::is_white(' ') && text::is_white('\t') && text::is_white('\n') && text::is_white('\r'),
        text::is_alphanumeric(c) ==> !text::is_white(c) && !text::is_control(c),
        text::is_digit(c) ==> text::is_alphanumeric(c),
        text::is_digit('0') && text::is_digit('9') && !text::is_digit('a') && !text::is_digit('/'),
{
}

/// Where a pattern stands once, it is replaced there, and nothing else is.
pub proof fn law_patterns_are_replaced(
    a: Seq<char>,
    pat: Seq<char>,
    b: Seq<char>,
    with: Seq<char>,
)
    requires
        pat.len() > 0,
        text::find(a + pat + b, pat) == Some(a.len() as int),
        !text::contains(b, pat),
    ensures
        text::replaced(a + pat + b, pat, with) == a + with + b,
{
    let s = a + pat + b;
    let n = a.len() as int;
    text::lemma_find(b, pat);
    assert(s.take(n) =~= a);
    assert(s.skip(n + pat.len()) =~= b);
    assert(text::pieces(b, pat) =~= seq![b]);
    let parts = text::pieces(s, pat);
    assert(parts =~= seq![a, b]);
    assert(parts.drop_last() =~= seq![a]);
    assert(text::joined(seq![a], with) == a);
}

/// What opens or closes a comment is dropped from words.
pub proof fn law_comments_are_dropped(a: Seq<char>, b: Seq<char>)
    requires
        text::find(a + "<!--"@ + b, "<!--"@) == Some(a.len() as int),
        !text::contains(b, "<!--"@),
        !text::contains(a + b, "-->"@),
    ensures
        markdown::uncommented(a + "<!--"@ + b) == a + b,
{
    reveal_strlit("<!--");
    reveal_strlit("");
    law_patterns_are_replaced(a, "<!--"@, b, ""@);
    assert(a + ""@ + b =~= a + b);
    roundtrip::lemma_replaced_keeps(a + b, "-->"@, ""@);
}

/// What closes a comment is dropped from words.
pub proof fn law_closed_comments_are_dropped(a: Seq<char>, b: Seq<char>)
    requires
        !text::contains(a + "-->"@ + b, "<!--"@),
        text::find(a + "-->"@ + b, "-->"@) == Some(a.len() as int),
        !text::contains(b, "-->"@),
    ensures
        markdown::uncommented(a + "-->"@ + b) == a + b,
{
    reveal_strlit("-->");
    reveal_strlit("");
    roundtrip::lemma_replaced_keeps(a + "-->"@ + b, "<!--"@, ""@);
    law_patterns_are_replaced(a, "-->"@, b, ""@);
    assert(a + ""@ + b =~= a + b);
}

/// Lines are ended by a line feed, or by one behind a carriage return, and the
/// last one need not be ended.
pub proof fn law_lines_are_parted(front: Seq<char>, line: Seq<char>)
    requires
        text::on_one_line(front),
        text::on_one_line(line),
        line.len() > 0,
        front.len() == 0 || front.last() != '\r',
    ensures
        text::lines_of(front + "\n"@ + line) == seq![front, line],
        text::lines_of(front + "\r\n"@ + line) == seq![front, line],
        text::lines_of(front + "\n"@ + line + "\n"@).len() == 2,
{
    reveal_strlit("\n");
    reveal_strlit("\r\n");
    let returned = front.push('\r');
    lemma_two_lines(front, line);
    lemma_two_lines(returned, line);
    assert(front + "\r\n"@ + line =~= returned + "\n"@ + line);
    assert(returned.drop_last() =~= front);
    let a = text::lines_of(front + "\n"@ + line);
    assert(a =~= seq![front, line]);
    let b = text::lines_of(returned + "\n"@ + line);
    assert(b =~= seq![front, line]);
    let parts = seq![front, line, Seq::<char>::empty()];
    assert("\n"@ =~= seq!['\n']);
    assert(parts.drop_last() =~= seq![front, line]);
    assert(seq![front, line].drop_last() =~= seq![front]);
    assert(text::joined(seq![front], "\n"@) == front);
    assert(text::joined(seq![front, line], "\n"@) == front + "\n"@ + line);
    assert(text::joined(parts, "\n"@) =~= front + "\n"@ + line + "\n"@);
    assert forall|i: int| 0 <= i < parts.len() implies !(#[trigger] parts[i]).contains('\n') by {
        assert(text::on_one_line(parts[i]));
    }
    law_joined_parts_come_back(parts, '\n');
}

proof fn lemma_two_lines(front: Seq<char>, line: Seq<char>)
    requires
        text::on_one_line(front),
        text::on_one_line(line),
        line.len() > 0,
    ensures
        text::pieces(front + "\n"@ + line, "\n"@) == seq![front, line],
{
    reveal_strlit("\n");
    let parts = seq![front, line];
    assert("\n"@ =~= seq!['\n']);
    assert(parts.drop_last() =~= seq![front]);
    assert(text::joined(seq![front], "\n"@) == front);
    assert(text::joined(parts, "\n"@) == front + "\n"@ + line);
    assert forall|i: int| 0 <= i < parts.len() implies !(#[trigger] parts[i]).contains('\n') by {
        assert(text::on_one_line(parts[i]));
    }
    law_joined_parts_come_back(parts, '\n');
}

} // verus!
