//! Arguments of the programs that the player runs.

use vstd::prelude::*;

use crate::text;

verus! {

/// The characters of every string slice in a sequence.
pub open spec fn literals(words: Seq<&str>) -> Seq<Seq<char>> {
    Seq::new(words.len(), |i: int| words[i]@)
}

/// Adds arguments at the end.
pub(crate) fn add_all(args: &mut Vec<String>, words: &[&str])
    ensures
        text::views(final(args)@) == text::views(old(args)@) + literals(words@),
{
    let ghost before = text::views(args@);
    let mut i: usize = 0;
    assert(before == before + literals(words@.take(0)));
    while i < words.len()
        invariant
            i <= words@.len(),
            text::views(args@) == before + literals(words@.take(i as int)),
        decreases words@.len() - i,
    {
        let ghost had = text::views(args@);
        args.push(words[i].to_owned());
        assert(text::views(args@) == had.push(words@[i as int]@));
        assert(literals(words@.take(i + 1)) == literals(words@.take(i as int)).push(
            words@[i as int]@,
        ));
        i += 1;
    }
    assert(words@.take(i as int) == words@);
}

/// The last `n` lines of a text, on one line.
pub open spec fn tail(s: Seq<char>, n: int) -> Seq<char> {
    let lines = text::lines_of(s);
    text::joined(
        if lines.len() > n {
            lines.skip(lines.len() - n)
        } else {
            lines
        },
        " "@,
    )
}

/// Puts the last `n` lines of what a program reported on one line.
pub fn last_lines(report: &str, n: usize) -> (r: String)
    ensures
        r@ == tail(report@, n as int),
{
    let lines = text::lines(report);
    let total: usize = lines.len();
    let from: usize = if total > n {
        total - n
    } else {
        0
    };
    let ghost views = text::views(lines@);
    let mut kept: Vec<String> = Vec::new();
    let mut i: usize = from;
    while i < total
        invariant
            from <= i <= total,
            total == lines@.len(),
            views == text::views(lines@),
            text::views(kept@) == views.subrange(from as int, i as int),
        decreases total - i,
    {
        let ghost had = text::views(kept@);
        kept.push(lines[i].clone());
        assert(text::views(kept@) == had.push(views[i as int]));
        i += 1;
        assert(text::views(kept@) == views.subrange(from as int, i as int));
    }
    assert(views.subrange(from as int, total as int) == if views.len() > n {
        views.skip(views.len() - n)
    } else {
        views
    });
    text::join(&kept, " ")
}

/// Lists where a program is looked for before the folders that the system
/// names, in order.
pub fn find_executable(name: &str) -> (r: Vec<String>)
    ensures
        text::views(r@) == seq![
            "/opt/homebrew/bin/"@ + name@,
            "/usr/local/bin/"@ + name@,
            "/usr/bin/"@ + name@,
        ],
{
    let mut first: String = "/opt/homebrew/bin/".to_owned();
    first.append(name);
    let mut second: String = "/usr/local/bin/".to_owned();
    second.append(name);
    let mut third: String = "/usr/bin/".to_owned();
    third.append(name);
    let ghost places = seq![first@, second@, third@];
    let mut out: Vec<String> = Vec::new();
    out.push(first);
    out.push(second);
    out.push(third);
    assert(text::views(out@) =~= places);
    out
}

} // verus!
