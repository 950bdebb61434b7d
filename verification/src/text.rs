//! Character-sequence operations on strings.
//!
//! Every function here works on the characters of a string, and is described
//! by a specification function over `Seq<char>`.

use vstd::prelude::*;

verus! {

// ---------------------------------------------------------------------------
// Strings and their characters
// ---------------------------------------------------------------------------

/// `String::push` appends one character to the end of a string.
pub assume_specification[ String::push ](s: &mut String, c: char)
    ensures
        final(s)@ == old(s)@.push(c),
;

/// The characters of every string in a sequence.
pub open spec fn views(parts: Seq<String>) -> Seq<Seq<char>> {
    Seq::new(parts.len(), |i: int| parts[i]@)
}

/// The characters of a string, in order.
pub fn chars_of(s: &str) -> (r: Vec<char>)
    ensures
        r@ == s@,
{
    let mut out: Vec<char> = Vec::new();
    for c in it: s.chars()
        invariant
            out@ == it.seq().take(it.index() as int),
            it.seq() == s@,
    {
        proof {
            assert(it.seq().take(it.index() as int).push(c) == it.seq().take(it.index() + 1));
        }
        out.push(c);
    }
    assert(out@ == s@);
    out
}

/// The string whose characters are `chars[from..to]`.
pub fn slice(chars: &Vec<char>, from: usize, to: usize) -> (r: String)
    requires
        from <= to <= chars@.len(),
    ensures
        r@ == chars@.subrange(from as int, to as int),
{
    let mut out: String = String::new();
    let mut i: usize = from;
    while i < to
        invariant
            from <= i <= to <= chars@.len(),
            out@ == chars@.subrange(from as int, i as int),
        decreases to - i,
    {
        out.push(chars[i]);
        proof {
            assert(chars@.subrange(from as int, i as int).push(chars@[i as int])
                == chars@.subrange(from as int, i + 1));
        }
        i += 1;
    }
    out
}

/// Whether two strings hold the same characters.
pub fn same(a: &str, b: &str) -> (r: bool)
    ensures
        r == (a@ == b@),
{
    a.to_owned() == b.to_owned()
}

// ---------------------------------------------------------------------------
// Character classes
// ---------------------------------------------------------------------------

/// The Unicode `White_Space` property.
pub open spec fn is_white(c: char) -> bool {
    let n = c as u32;
    ||| 0x09 <= n <= 0x0d
    ||| n == 0x20
    ||| n == 0x85
    ||| n == 0xa0
    ||| n == 0x1680
    ||| 0x2000 <= n <= 0x200a
    ||| n == 0x2028
    ||| n == 0x2029
    ||| n == 0x202f
    ||| n == 0x205f
    ||| n == 0x3000
}

/// Whether a character is white space.
pub fn white(c: char) -> (r: bool)
    ensures
        r == is_white(c),
{
    let n: u32 = c as u32;
    (0x09 <= n && n <= 0x0d) || n == 0x20 || n == 0x85 || n == 0xa0 || n == 0x1680 || (0x2000
        <= n && n <= 0x200a) || n == 0x2028 || n == 0x2029 || n == 0x202f || n == 0x205f || n
        == 0x3000
}

/// The Unicode general category `Cc`.
pub open spec fn is_control(c: char) -> bool {
    let n = c as u32;
    n <= 0x1f || 0x7f <= n <= 0x9f
}

/// Whether a character is a control character.
pub fn control(c: char) -> (r: bool)
    ensures
        r == is_control(c),
{
    let n: u32 = c as u32;
    n <= 0x1f || (0x7f <= n && n <= 0x9f)
}

pub open spec fn is_digit(c: char) -> bool {
    '0' <= c <= '9'
}

/// Whether a character is an ASCII digit.
pub fn digit(c: char) -> (r: bool)
    ensures
        r == is_digit(c),
{
    '0' <= c && c <= '9'
}

pub open spec fn is_alphanumeric(c: char) -> bool {
    is_digit(c) || 'a' <= c <= 'z' || 'A' <= c <= 'Z'
}

/// Whether a character is an ASCII letter or digit.
pub fn alphanumeric(c: char) -> (r: bool)
    ensures
        r == is_alphanumeric(c),
{
    digit(c) || ('a' <= c && c <= 'z') || ('A' <= c && c <= 'Z')
}

pub open spec fn lower_char(c: char) -> char {
    if 'A' <= c <= 'Z' {
        ((c as u8) + 32) as char
    } else {
        c
    }
}

fn lowered(c: char) -> (r: char)
    ensures
        r == lower_char(c),
{
    if 'A' <= c && c <= 'Z' {
        (c as u8 + 32) as char
    } else {
        c
    }
}

/// A string with its ASCII letters in lower case.
pub open spec fn lower(s: Seq<char>) -> Seq<char> {
    Seq::new(s.len(), |i: int| lower_char(s[i]))
}

/// Lowers the ASCII letters of a string.
pub fn ascii_lower(s: &str) -> (r: String)
    ensures
        r@ == lower(s@),
{
    let chars = chars_of(s);
    let mut out: String = String::new();
    let mut i: usize = 0;
    while i < chars.len()
        invariant
            i <= chars@.len(),
            out@ == lower(chars@.take(i as int)),
        decreases chars@.len() - i,
    {
        out.push(lowered(chars[i]));
        i += 1;
        assert(out@ == lower(chars@.take(i as int)));
    }
    assert(chars@.take(i as int) == chars@);
    out
}

/// Whether two strings differ at most in the case of ASCII letters.
pub fn same_ignoring_case(a: &str, b: &str) -> (r: bool)
    ensures
        r == (lower(a@) == lower(b@)),
{
    ascii_lower(a) == ascii_lower(b)
}

// ---------------------------------------------------------------------------
// Trimming
// ---------------------------------------------------------------------------

/// `s` without its longest prefix of characters in the class `p`.
pub open spec fn drop_leading(s: Seq<char>, p: spec_fn(char) -> bool) -> Seq<char>
    decreases s.len(),
{
    if s.len() > 0 && p(s[0]) {
        drop_leading(s.skip(1), p)
    } else {
        s
    }
}

/// `s` without its longest suffix of characters in the class `p`.
pub open spec fn drop_trailing(s: Seq<char>, p: spec_fn(char) -> bool) -> Seq<char>
    decreases s.len(),
{
    if s.len() > 0 && p(s.last()) {
        drop_trailing(s.drop_last(), p)
    } else {
        s
    }
}

/// The class of white space.
pub open spec fn whites() -> spec_fn(char) -> bool {
    |c: char| is_white(c)
}

/// The class of the characters that `set` holds.
pub open spec fn among(set: Seq<char>) -> spec_fn(char) -> bool {
    |c: char| set.contains(c)
}

/// `s` without white space at either end.
pub open spec fn trimmed(s: Seq<char>) -> Seq<char> {
    drop_trailing(drop_leading(s, whites()), whites())
}

/// Whether the characters hold `c`.
fn holds(set: &Vec<char>, c: char) -> (r: bool)
    ensures
        r == set@.contains(c),
{
    let mut i: usize = 0;
    while i < set.len()
        invariant
            i <= set@.len(),
            forall|j: int| 0 <= j < i ==> set@[j] != c,
        decreases set@.len() - i,
    {
        if set[i] == c {
            return true;
        }
        i += 1;
    }
    false
}

/// Removes white space from the start of a string.
pub fn trim_start(s: &str) -> (r: String)
    ensures
        r@ == drop_leading(s@, whites()),
{
    let chars = chars_of(s);
    let mut i: usize = 0;
    assert(chars@.skip(0) == chars@);
    while i < chars.len() && white(chars[i])
        invariant
            i <= chars@.len(),
            drop_leading(chars@.skip(i as int), whites()) == drop_leading(chars@, whites()),
        decreases chars@.len() - i,
    {
        assert(chars@.skip(i as int).skip(1) == chars@.skip(i + 1));
        i += 1;
    }
    assert(chars@.skip(i as int) == chars@.subrange(i as int, chars@.len() as int));
    slice(&chars, i, chars.len())
}

/// Removes white space from the end of a string.
pub fn trim_end(s: &str) -> (r: String)
    ensures
        r@ == drop_trailing(s@, whites()),
{
    let chars = chars_of(s);
    let mut n: usize = chars.len();
    assert(chars@.take(n as int) == chars@);
    while n > 0 && white(chars[n - 1])
        invariant
            n <= chars@.len(),
            drop_trailing(chars@.take(n as int), whites()) == drop_trailing(chars@, whites()),
        decreases n,
    {
        assert(chars@.take(n as int).drop_last() == chars@.take(n - 1));
        n -= 1;
    }
    assert(chars@.take(n as int) == chars@.subrange(0, n as int));
    slice(&chars, 0, n)
}

/// Removes white space from both ends of a string.
pub fn trim(s: &str) -> (r: String)
    ensures
        r@ == trimmed(s@),
{
    trim_end(trim_start(s).as_str())
}

/// Removes the characters of `set` from the start of a string.
pub fn trim_start_matches(s: &str, set: &str) -> (r: String)
    ensures
        r@ == drop_leading(s@, among(set@)),
{
    let chars = chars_of(s);
    let class = chars_of(set);
    let mut i: usize = 0;
    assert(chars@.skip(0) == chars@);
    while i < chars.len() && holds(&class, chars[i])
        invariant
            i <= chars@.len(),
            class@ == set@,
            drop_leading(chars@.skip(i as int), among(set@)) == drop_leading(chars@, among(set@)),
        decreases chars@.len() - i,
    {
        assert(chars@.skip(i as int).skip(1) == chars@.skip(i + 1));
        i += 1;
    }
    assert(chars@.skip(i as int) == chars@.subrange(i as int, chars@.len() as int));
    slice(&chars, i, chars.len())
}

/// Removes the characters of `set` from the end of a string.
pub fn trim_end_matches(s: &str, set: &str) -> (r: String)
    ensures
        r@ == drop_trailing(s@, among(set@)),
{
    let chars = chars_of(s);
    let class = chars_of(set);
    let mut n: usize = chars.len();
    assert(chars@.take(n as int) == chars@);
    while n > 0 && holds(&class, chars[n - 1])
        invariant
            n <= chars@.len(),
            class@ == set@,
            drop_trailing(chars@.take(n as int), among(set@)) == drop_trailing(
                chars@,
                among(set@),
            ),
        decreases n,
    {
        assert(chars@.take(n as int).drop_last() == chars@.take(n - 1));
        n -= 1;
    }
    assert(chars@.take(n as int) == chars@.subrange(0, n as int));
    slice(&chars, 0, n)
}

// ---------------------------------------------------------------------------
// Searching
// ---------------------------------------------------------------------------

/// Whether `pat` stands in `s` at position `i`.
pub open spec fn occurs_at(s: Seq<char>, pat: Seq<char>, i: int) -> bool {
    0 <= i && i + pat.len() <= s.len() && s.subrange(i, i + pat.len()) == pat
}

/// Whether `pat` stands anywhere in `s`.
pub open spec fn contains(s: Seq<char>, pat: Seq<char>) -> bool {
    exists|i: int| occurs_at(s, pat, i)
}

/// The first position from `from` on at which `pat` stands in `s`.
pub open spec fn find_from(s: Seq<char>, pat: Seq<char>, from: int) -> Option<int>
    decreases s.len() + 1 - from,
{
    if from < 0 || from + pat.len() > s.len() {
        None
    } else if occurs_at(s, pat, from) {
        Some(from)
    } else {
        find_from(s, pat, from + 1)
    }
}

/// The first position at which `pat` stands in `s`.
pub open spec fn find(s: Seq<char>, pat: Seq<char>) -> Option<int> {
    find_from(s, pat, 0)
}

proof fn lemma_find_from(s: Seq<char>, pat: Seq<char>, from: int)
    requires
        from >= 0,
    ensures
        match find_from(s, pat, from) {
            Some(i) => from <= i && occurs_at(s, pat, i) && forall|j: int|
                from <= j < i ==> !occurs_at(s, pat, j),
            None => forall|j: int| from <= j ==> !occurs_at(s, pat, j),
        },
    decreases s.len() + 1 - from,
{
    if from + pat.len() > s.len() {
    } else if occurs_at(s, pat, from) {
    } else {
        lemma_find_from(s, pat, from + 1);
    }
}

/// `find` gives the least position at which the pattern stands, and `None`
/// exactly when it stands nowhere.
pub proof fn lemma_find(s: Seq<char>, pat: Seq<char>)
    ensures
        match find(s, pat) {
            Some(i) => occurs_at(s, pat, i) && forall|j: int| j < i ==> !occurs_at(s, pat, j),
            None => !contains(s, pat),
        },
        find(s, pat) is Some == contains(s, pat),
{
    lemma_find_from(s, pat, 0);
}

pub(crate) fn stands_at(s: &Vec<char>, pat: &Vec<char>, at: usize) -> (r: bool)
    requires
        at <= s@.len(),
    ensures
        r == occurs_at(s@, pat@, at as int),
{
    if pat.len() > s.len() - at {
        return false;
    }
    let mut i: usize = 0;
    while i < pat.len()
        invariant
            i <= pat@.len(),
            at + pat@.len() <= s@.len() <= usize::MAX,
            forall|j: int| 0 <= j < i ==> s@[at + j] == pat@[j],
        decreases pat@.len() - i,
    {
        if s[at + i] != pat[i] {
            assert(s@.subrange(at as int, at + pat@.len())[i as int] != pat@[i as int]);
            return false;
        }
        i += 1;
    }
    assert(s@.subrange(at as int, at + pat@.len()) =~= pat@);
    true
}

fn search(s: &Vec<char>, pat: &Vec<char>, from: usize) -> (r: Option<usize>)
    requires
        from <= s@.len(),
    ensures
        match r {
            Some(i) => find_from(s@, pat@, from as int) == Some(i as int) && i + pat@.len()
                <= s@.len(),
            None => find_from(s@, pat@, from as int) is None,
        },
{
    let mut i: usize = from;
    while i < s.len()
        invariant
            from <= i <= s@.len(),
            find_from(s@, pat@, i as int) == find_from(s@, pat@, from as int),
        decreases s@.len() - i,
    {
        if stands_at(s, pat, i) {
            return Some(i);
        }
        if pat.len() > s.len() - i {
            return None;
        }
        i += 1;
    }
    assert(find_from(s@, pat@, i + 1) is None);
    if stands_at(s, pat, i) {
        Some(i)
    } else {
        None
    }
}

/// Whether `pat` stands anywhere in `s`.
pub fn has(s: &str, pat: &str) -> (r: bool)
    ensures
        r == contains(s@, pat@),
{
    let chars = chars_of(s);
    let wanted = chars_of(pat);
    proof {
        lemma_find(s@, pat@);
    }
    search(&chars, &wanted, 0).is_some()
}

/// The first character position at which `pat` stands in `s`.
pub fn position(s: &str, pat: &str) -> (r: Option<usize>)
    ensures
        match r {
            Some(i) => find(s@, pat@) == Some(i as int) && i + pat@.len() <= s@.len(),
            None => find(s@, pat@) is None,
        },
{
    let chars = chars_of(s);
    let wanted = chars_of(pat);
    search(&chars, &wanted, 0)
}

/// The characters `from..to` of a string.
pub fn part(s: &str, from: usize, to: usize) -> (r: String)
    requires
        from <= to <= s@.len(),
    ensures
        r@ == s@.subrange(from as int, to as int),
{
    let chars = chars_of(s);
    slice(&chars, from, to)
}

/// The number of characters of a string.
pub fn length(s: &str) -> (r: usize)
    ensures
        r == s@.len(),
{
    let chars = chars_of(s);
    chars.len()
}

pub open spec fn has_prefix(s: Seq<char>, pat: Seq<char>) -> bool {
    occurs_at(s, pat, 0)
}

/// Whether a string begins with `pat`.
pub fn starts_with(s: &str, pat: &str) -> (r: bool)
    ensures
        r == has_prefix(s@, pat@),
{
    let chars = chars_of(s);
    let wanted = chars_of(pat);
    stands_at(&chars, &wanted, 0)
}

pub open spec fn has_suffix(s: Seq<char>, pat: Seq<char>) -> bool {
    occurs_at(s, pat, s.len() - pat.len())
}

/// Whether a string ends with `pat`.
pub fn ends_with(s: &str, pat: &str) -> (r: bool)
    ensures
        r == has_suffix(s@, pat@),
{
    let chars = chars_of(s);
    let wanted = chars_of(pat);
    if wanted.len() > chars.len() {
        return false;
    }
    stands_at(&chars, &wanted, chars.len() - wanted.len())
}

pub open spec fn without_prefix(s: Seq<char>, pat: Seq<char>) -> Option<Seq<char>> {
    if has_prefix(s, pat) {
        Some(s.skip(pat.len() as int))
    } else {
        None
    }
}

/// What follows the prefix `pat`, where the string begins with it.
pub fn strip_prefix(s: &str, pat: &str) -> (r: Option<String>)
    ensures
        opt(r) == without_prefix(s@, pat@),
{
    if starts_with(s, pat) {
        let n: usize = length(pat);
        let r = part(s, n, length(s));
        assert(r@ == s@.skip(n as int));
        Some(r)
    } else {
        None
    }
}

pub open spec fn without_suffix(s: Seq<char>, pat: Seq<char>) -> Option<Seq<char>> {
    if has_suffix(s, pat) {
        Some(s.take(s.len() - pat.len()))
    } else {
        None
    }
}

/// What precedes the suffix `pat`, where the string ends with it.
pub fn strip_suffix(s: &str, pat: &str) -> (r: Option<String>)
    ensures
        opt(r) == without_suffix(s@, pat@),
{
    if ends_with(s, pat) {
        let n: usize = length(s) - length(pat);
        let r = part(s, 0, n);
        assert(r@ == s@.take(n as int));
        Some(r)
    } else {
        None
    }
}

/// The characters of an optional string.
pub open spec fn opt(s: Option<String>) -> Option<Seq<char>> {
    match s {
        Some(s) => Some(s@),
        None => None,
    }
}

/// The characters of an optional string slice.
pub open spec fn opt_str(s: Option<&str>) -> Option<Seq<char>> {
    match s {
        Some(s) => Some(s@),
        None => None,
    }
}

/// The characters of a result that holds a text.
pub open spec fn told(r: Result<String, String>) -> Result<Seq<char>, Seq<char>> {
    match r {
        Ok(s) => Ok(s@),
        Err(message) => Err(message@),
    }
}

/// What stands before and after the first `pat` of `s`.
pub open spec fn cut(s: Seq<char>, pat: Seq<char>) -> Option<(Seq<char>, Seq<char>)> {
    match find(s, pat) {
        Some(i) => Some((s.take(i), s.skip(i + pat.len()))),
        None => None,
    }
}

/// Parts a string at the first `pat`.
pub fn split_once(s: &str, pat: &str) -> (r: Option<(String, String)>)
    ensures
        match r {
            Some(pair) => cut(s@, pat@) == Some((pair.0@, pair.1@)),
            None => cut(s@, pat@) is None,
        },
{
    let n: usize = length(s);
    match position(s, pat) {
        Some(i) => {
            let before = part(s, 0, i);
            let after = part(s, i + length(pat), n);
            assert(before@ == s@.take(i as int));
            assert(after@ == s@.skip(i + pat@.len()));
            Some((before, after))
        },
        None => None,
    }
}

// ---------------------------------------------------------------------------
// Splitting and joining
// ---------------------------------------------------------------------------

/// The parts of `s` between the occurrences of the non-empty `pat`, taken from
/// the left and without overlap.
pub open spec fn pieces(s: Seq<char>, pat: Seq<char>) -> Seq<Seq<char>>
    decreases s.len(),
{
    match find(s, pat) {
        Some(i) if 0 <= i && pat.len() > 0 && i + pat.len() <= s.len() => seq![s.take(i)] + pieces(
            s.skip(i + pat.len()),
            pat,
        ),
        _ => seq![s],
    }
}

/// The parts in order, with `sep` between neighbours.
pub open spec fn joined(parts: Seq<Seq<char>>, sep: Seq<char>) -> Seq<char>
    decreases parts.len(),
{
    if parts.len() == 0 {
        Seq::empty()
    } else if parts.len() == 1 {
        parts[0]
    } else {
        joined(parts.drop_last(), sep) + sep + parts.last()
    }
}

/// `s` with every occurrence of `pat` replaced.
pub open spec fn replaced(s: Seq<char>, pat: Seq<char>, with: Seq<char>) -> Seq<char> {
    joined(pieces(s, pat), with)
}

/// Looking from a position on is looking in what stands from there on.
proof fn lemma_find_skip(s: Seq<char>, pat: Seq<char>, from: int, at: int)
    requires
        0 <= from <= at,
        from <= s.len(),
    ensures
        find_from(s, pat, at) == match find_from(s.skip(from), pat, at - from) {
            Some(i) => Some(i + from),
            None => None::<int>,
        },
    decreases s.len() + 1 - at,
{
    if at + pat.len() <= s.len() {
        let rest = s.skip(from);
        assert(rest.subrange(at - from, at - from + pat.len()) =~= s.subrange(
            at,
            at + pat.len(),
        ));
        if !occurs_at(s, pat, at) {
            lemma_find_skip(s, pat, from, at + 1);
        }
    }
}

/// Splits a string at every occurrence of the non-empty `pat`.
pub fn split(s: &str, pat: &str) -> (r: Vec<String>)
    requires
        pat@.len() > 0,
    ensures
        views(r@) == pieces(s@, pat@),
        r@.len() > 0,
{
    let wanted = chars_of(pat);
    let chars = chars_of(s);
    let total: usize = chars.len();
    let mut out: Vec<String> = Vec::new();
    let mut from: usize = 0;
    assert(chars@.skip(0) == chars@);
    assert(views(out@) + pieces(chars@, pat@) == pieces(s@, pat@));
    loop
        invariant
            wanted@ == pat@,
            pat@.len() > 0,
            total == chars@.len(),
            from <= total,
            views(out@) + pieces(chars@.skip(from as int), pat@) == pieces(s@, pat@),
        decreases total - from,
    {
        let ghost rest = chars@.skip(from as int);
        let ghost had = out@;
        proof {
            lemma_find_skip(chars@, pat@, from as int, from as int);
            lemma_find(rest, pat@);
        }
        match search(&chars, &wanted, from) {
            Some(i) => {
                let next: usize = i + wanted.len();
                let before = slice(&chars, from, i);
                let ghost rest_front = rest.take(i - from);
                assert(before@ == rest_front);
                assert(chars@.skip(next as int) == rest.skip(i - from + pat@.len()));
                out.push(before);
                from = next;
                assert(views(out@) == views(had) + seq![rest_front]);
                assert(views(out@) + pieces(chars@.skip(next as int), pat@) == views(had) + (
                seq![rest_front] + pieces(chars@.skip(next as int), pat@)));
            },
            None => {
                let last = slice(&chars, from, total);
                assert(last@ == rest);
                out.push(last);
                assert(views(out@) == views(had) + seq![rest]);
                return out;
            },
        }
    }
}

/// Joins strings with a separator.
pub fn join(parts: &Vec<String>, sep: &str) -> (r: String)
    ensures
        r@ == joined(views(parts@), sep@),
{
    let mut out: String = String::new();
    let mut i: usize = 0;
    while i < parts.len()
        invariant
            i <= parts@.len(),
            out@ == joined(views(parts@.take(i as int)), sep@),
        decreases parts@.len() - i,
    {
        if i > 0 {
            out.append(sep);
        }
        out.append(parts[i].as_str());
        proof {
            let now = views(parts@.take(i + 1));
            assert(now.drop_last() == views(parts@.take(i as int)));
            assert(now.last() == parts@[i as int]@);
            if i == 0 {
                assert(out@ == parts@[0]@);
            }
        }
        i += 1;
    }
    assert(parts@.take(i as int) == parts@);
    out
}

/// Replaces every occurrence of the non-empty `pat`.
pub fn replace(s: &str, pat: &str, with: &str) -> (r: String)
    requires
        pat@.len() > 0,
    ensures
        r@ == replaced(s@, pat@, with@),
{
    let parts = split(s, pat);
    join(&parts, with)
}

/// The characters of `s`, those of the class `p` replaced by `with`.
pub open spec fn mapped(s: Seq<char>, p: spec_fn(char) -> bool, with: Seq<char>) -> Seq<char>
    decreases s.len(),
{
    if s.len() == 0 {
        Seq::empty()
    } else {
        mapped(s.drop_last(), p, with) + if p(s.last()) {
            with
        } else {
            seq![s.last()]
        }
    }
}

/// Replaces every character that `set` holds.
pub fn replace_chars(s: &str, set: &str, with: &str) -> (r: String)
    ensures
        r@ == mapped(s@, among(set@), with@),
{
    let chars = chars_of(s);
    let class = chars_of(set);
    let mut out: String = String::new();
    let mut i: usize = 0;
    while i < chars.len()
        invariant
            i <= chars@.len(),
            class@ == set@,
            out@ == mapped(chars@.take(i as int), among(set@), with@),
        decreases chars@.len() - i,
    {
        proof {
            assert(chars@.take(i + 1).drop_last() == chars@.take(i as int));
            assert(chars@.take(i + 1).last() == chars@[i as int]);
        }
        if holds(&class, chars[i]) {
            out.append(with);
        } else {
            let ghost had = out@;
            out.push(chars[i]);
            assert(out@ == had + seq![chars@[i as int]]);
        }
        i += 1;
    }
    assert(chars@.take(i as int) == chars@);
    out
}

/// The length of the longest prefix of `s` made of characters of the class `p`.
pub open spec fn run(s: Seq<char>, p: spec_fn(char) -> bool) -> nat
    decreases s.len(),
{
    if s.len() > 0 && p(s[0]) {
        1 + run(s.skip(1), p)
    } else {
        0
    }
}

/// The longest prefix of `s` made of characters of the class `p`.
pub open spec fn prefix_of(s: Seq<char>, p: spec_fn(char) -> bool) -> Seq<char> {
    s.take(run(s, p) as int)
}

/// The longest prefix of a string made of characters that `set` holds.
pub fn leading(s: &str, set: &str) -> (r: String)
    ensures
        r@ == prefix_of(s@, among(set@)),
{
    let chars = chars_of(s);
    let class = chars_of(set);
    let mut i: usize = 0;
    assert(chars@.skip(0) == chars@);
    while i < chars.len() && holds(&class, chars[i])
        invariant
            i <= chars@.len(),
            class@ == set@,
            run(chars@, among(set@)) == i + run(chars@.skip(i as int), among(set@)),
        decreases chars@.len() - i,
    {
        assert(chars@.skip(i as int).skip(1) == chars@.skip(i + 1));
        i += 1;
    }
    assert(chars@.take(i as int) == chars@.subrange(0, i as int));
    slice(&chars, 0, i)
}

/// The class of the characters that `set` does not hold.
pub open spec fn outside(set: Seq<char>) -> spec_fn(char) -> bool {
    |c: char| !set.contains(c)
}

/// What precedes the first character that `set` holds.
pub fn until_any(s: &str, set: &str) -> (r: String)
    ensures
        r@ == prefix_of(s@, outside(set@)),
{
    let chars = chars_of(s);
    let class = chars_of(set);
    let mut i: usize = 0;
    assert(chars@.skip(0) == chars@);
    while i < chars.len() && !holds(&class, chars[i])
        invariant
            i <= chars@.len(),
            class@ == set@,
            run(chars@, outside(set@)) == i + run(chars@.skip(i as int), outside(set@)),
        decreases chars@.len() - i,
    {
        assert(chars@.skip(i as int).skip(1) == chars@.skip(i + 1));
        i += 1;
    }
    assert(chars@.take(i as int) == chars@.subrange(0, i as int));
    slice(&chars, 0, i)
}

/// Whether a string holds any character of `set`.
pub open spec fn meets(s: Seq<char>, set: Seq<char>) -> bool {
    exists|i: int| 0 <= i < s.len() && set.contains(#[trigger] s[i])
}

/// Whether a string holds any character of `set`.
pub fn has_any(s: &str, set: &str) -> (r: bool)
    ensures
        r == meets(s@, set@),
{
    let chars = chars_of(s);
    let class = chars_of(set);
    let mut i: usize = 0;
    while i < chars.len()
        invariant
            i <= chars@.len(),
            chars@ == s@,
            class@ == set@,
            forall|j: int| 0 <= j < i ==> !set@.contains(#[trigger] s@[j]),
        decreases chars@.len() - i,
    {
        if holds(&class, chars[i]) {
            assert(set@.contains(s@[i as int]));
            return true;
        }
        i += 1;
    }
    false
}

/// At most the first `n` characters of `s`.
pub open spec fn head(s: Seq<char>, n: int) -> Seq<char> {
    if s.len() > n {
        s.take(n)
    } else {
        s
    }
}

/// Keeps at most the first `n` characters of a string.
pub fn take(s: &str, n: usize) -> (r: String)
    ensures
        r@ == head(s@, n as int),
{
    let chars = chars_of(s);
    let end: usize = if chars.len() > n {
        n
    } else {
        chars.len()
    };
    let r = slice(&chars, 0, end);
    assert(r@ == head(s@, n as int));
    r
}

/// The maximal runs of characters that are not white space, in order.
pub open spec fn words(s: Seq<char>) -> Seq<Seq<char>>
    decreases s.len(),
{
    if s.len() == 0 {
        Seq::empty()
    } else {
        let before = words(s.drop_last());
        if is_white(s.last()) {
            before
        } else if s.len() == 1 || is_white(s[s.len() - 2]) {
            before.push(seq![s.last()])
        } else {
            before.drop_last().push(before.last().push(s.last()))
        }
    }
}

/// The words of `s` with one space between neighbours.
pub open spec fn collapsed(s: Seq<char>) -> Seq<char> {
    joined(words(s), " "@)
}

proof fn lemma_words_open(s: Seq<char>)
    requires
        s.len() > 0,
        !is_white(s.last()),
    ensures
        words(s).len() > 0,
    decreases s.len(),
{
    if s.len() > 1 && !is_white(s[s.len() - 2]) {
        lemma_words_open(s.drop_last());
    }
}

/// Splits a string at white space.
pub fn split_whitespace(s: &str) -> (r: Vec<String>)
    ensures
        views(r@) == words(s@),
{
    let chars = chars_of(s);
    let mut out: Vec<String> = Vec::new();
    let mut i: usize = 0;
    assert(views(out@) == words(chars@.take(0)));
    while i < chars.len()
        invariant
            i <= chars@.len(),
            views(out@) == words(chars@.take(i as int)),
        decreases chars@.len() - i,
    {
        let c: char = chars[i];
        let ghost next = chars@.take(i + 1);
        let ghost had = out@;
        proof {
            assert(next.drop_last() == chars@.take(i as int));
        }
        if white(c) {
        } else if i == 0 || white(chars[i - 1]) {
            let mut word: String = String::new();
            word.push(c);
            assert(word@ == seq![c]);
            out.push(word);
            assert(views(out@) == views(had).push(seq![c]));
        } else {
            proof {
                lemma_words_open(chars@.take(i as int));
                assert(views(had).len() > 0);
            }
            match out.pop() {
                Some(mut word) => {
                    word.push(c);
                    out.push(word);
                    assert(views(out@) == views(had).drop_last().push(views(had).last().push(c)));
                },
                None => {
                    assert(false);
                },
            }
        }
        i += 1;
    }
    assert(chars@.take(i as int) == chars@);
    out
}

/// Collapses every run of white space into one space and trims the ends.
pub fn collapse(s: &str) -> (r: String)
    ensures
        r@ == collapsed(s@),
{
    let parts = split_whitespace(s);
    join(&parts, " ")
}

// ---------------------------------------------------------------------------
// Lines
// ---------------------------------------------------------------------------

/// A terminated line without the carriage return before its end.
pub open spec fn chopped(s: Seq<char>) -> Seq<char> {
    if s.len() > 0 && s.last() == '\r' {
        s.drop_last()
    } else {
        s
    }
}

/// The lines of a text. A line ends at a line feed, which may follow a
/// carriage return; the last line need not be ended.
pub open spec fn lines_of(s: Seq<char>) -> Seq<Seq<char>> {
    let parts = pieces(s, "\n"@);
    let count = if parts.last().len() == 0 {
        (parts.len() - 1) as nat
    } else {
        parts.len()
    };
    Seq::new(
        count,
        |i: int|
            if i < parts.len() - 1 {
                chopped(parts[i])
            } else {
                parts[i]
            },
    )
}

/// The text in which every line is ended by a line feed.
pub open spec fn text_of(lines: Seq<Seq<char>>) -> Seq<char> {
    joined(lines, "\n"@) + "\n"@
}

/// Removes one carriage return from the end of a string.
fn chop(s: &str) -> (r: String)
    ensures
        r@ == chopped(s@),
{
    let chars = chars_of(s);
    if chars.len() > 0 && chars[chars.len() - 1] == '\r' {
        let r = slice(&chars, 0, chars.len() - 1);
        assert(r@ == s@.drop_last());
        r
    } else {
        s.to_owned()
    }
}

/// The lines of a text.
pub fn lines(s: &str) -> (r: Vec<String>)
    ensures
        views(r@) == lines_of(s@),
{
    proof {
        reveal_strlit("\n");
    }
    let parts = split(s, "\n");
    let mut out: Vec<String> = Vec::new();
    let last: usize = parts.len() - 1;
    let mut i: usize = 0;
    while i < last
        invariant
            i <= last,
            last == parts@.len() - 1,
            out@.len() == i,
            forall|j: int| 0 <= j < i ==> #[trigger] out@[j]@ == chopped(parts@[j]@),
        decreases last - i,
    {
        out.push(chop(parts[i].as_str()));
        i += 1;
    }
    assert(parts@[last as int]@ == views(parts@).last());
    if length(parts[last].as_str()) > 0 {
        out.push(parts[last].clone());
    }
    assert(views(out@) == lines_of(s@));
    out
}

/// The text in which every one of the lines is ended by a line feed.
pub fn text(lines: &Vec<String>) -> (r: String)
    ensures
        r@ == text_of(views(lines@)),
{
    let mut out: String = join(lines, "\n");
    out.append("\n");
    out
}

/// Whether a line can stand on its own: it holds no line feed.
pub open spec fn on_one_line(s: Seq<char>) -> bool {
    forall|i: int| 0 <= i < s.len() ==> #[trigger] s[i] != '\n'
}

/// Whether every line can stand on its own.
pub open spec fn all_on_one_line(lines: Seq<Seq<char>>) -> bool {
    forall|i: int| 0 <= i < lines.len() ==> on_one_line(#[trigger] lines[i])
}

proof fn lemma_find_after_line(a: Seq<char>, b: Seq<char>)
    requires
        on_one_line(a),
    ensures
        find(a + "\n"@ + b, "\n"@) == Some(a.len() as int),
{
    reveal_strlit("\n");
    let s = a + "\n"@ + b;
    lemma_find(s, "\n"@);
    let n = a.len() as int;
    assert(s.subrange(n, n + 1) == "\n"@);
    assert(occurs_at(s, "\n"@, n));
    let i = find(s, "\n"@)->0;
    if i < n {
        assert(s.subrange(i, i + 1)[0] == a[i]);
    }
}

proof fn lemma_no_break(a: Seq<char>)
    requires
        on_one_line(a),
    ensures
        find(a, "\n"@) is None,
{
    reveal_strlit("\n");
    lemma_find(a, "\n"@);
    if let Some(i) = find(a, "\n"@) {
        assert(a.subrange(i, i + 1)[0] == a[i]);
    }
}

/// The join of two or more parts begins with the first of them.
pub proof fn lemma_joined_front(parts: Seq<Seq<char>>, sep: Seq<char>)
    requires
        parts.len() >= 2,
    ensures
        joined(parts, sep) == parts[0] + sep + joined(parts.skip(1), sep),
    decreases parts.len(),
{
    if parts.len() == 2 {
        assert(parts.drop_last().len() == 1);
        assert(joined(parts.drop_last(), sep) == parts[0]);
        assert(parts.skip(1).len() == 1);
        assert(joined(parts.skip(1), sep) == parts[1]);
    } else {
        lemma_joined_front(parts.drop_last(), sep);
        assert(parts.drop_last().skip(1) == parts.skip(1).drop_last());
        assert(parts.skip(1).last() == parts.last());
        assert(joined(parts, sep) == parts[0] + sep + joined(parts.drop_last().skip(1), sep) + sep
            + parts.last());
        assert(joined(parts, sep) == parts[0] + sep + (joined(parts.skip(1).drop_last(), sep) + sep
            + parts.last()));
    }
}

/// Lines that were joined part again into the same lines.
pub proof fn lemma_pieces_joined(lines: Seq<Seq<char>>)
    requires
        lines.len() > 0,
        all_on_one_line(lines),
    ensures
        pieces(joined(lines, "\n"@), "\n"@) == lines,
    decreases lines.len(),
{
    reveal_strlit("\n");
    if lines.len() == 1 {
        assert(on_one_line(lines[0]));
        lemma_no_break(lines[0]);
        assert(lines == seq![lines[0]]);
    } else {
        lemma_joined_front(lines, "\n"@);
        assert(on_one_line(lines[0]));
        let rest = lines.skip(1);
        assert forall|i: int| 0 <= i < rest.len() implies on_one_line(#[trigger] rest[i]) by {
            assert(rest[i] == lines[i + 1]);
        }
        lemma_pieces_joined(rest);
        lemma_find_after_line(lines[0], joined(rest, "\n"@));
        let s = joined(lines, "\n"@);
        assert(s.take(lines[0].len() as int) == lines[0]);
        assert(s.skip(lines[0].len() as int + 1) == joined(rest, "\n"@));
        assert(lines == seq![lines[0]] + rest);
    }
}

/// The lines of a text made of lines are those lines, each without a carriage
/// return at its end.
pub proof fn lemma_lines_of_text(lines: Seq<Seq<char>>)
    requires
        lines.len() > 0,
        all_on_one_line(lines),
    ensures
        lines_of(text_of(lines)) == Seq::new(lines.len(), |i: int| chopped(lines[i])),
{
    let all = lines.push(Seq::empty());
    assert(all.drop_last() == lines);
    assert(joined(all, "\n"@) == text_of(lines));
    assert forall|i: int| 0 <= i < all.len() implies on_one_line(#[trigger] all[i]) by {
        if i < lines.len() {
            assert(all[i] == lines[i]);
        }
    }
    lemma_pieces_joined(all);
}

proof fn lemma_pieces_clean(s: Seq<char>)
    ensures
        all_on_one_line(pieces(s, "\n"@)),
    decreases s.len(),
{
    reveal_strlit("\n");
    lemma_find(s, "\n"@);
    match find(s, "\n"@) {
        Some(i) => {
            let rest = s.skip(i + 1);
            lemma_pieces_clean(rest);
            let parts = pieces(s, "\n"@);
            assert(parts == seq![s.take(i)] + pieces(rest, "\n"@));
            assert forall|k: int| 0 <= k < parts.len() implies on_one_line(#[trigger] parts[k]) by {
                if k == 0 {
                    assert forall|j: int| 0 <= j < parts[0].len() implies #[trigger] parts[0][j]
                        != '\n' by {
                        if parts[0][j] == '\n' {
                            assert(s.subrange(j, j + 1) == "\n"@);
                            assert(occurs_at(s, "\n"@, j));
                        }
                    }
                } else {
                    assert(parts[k] == pieces(rest, "\n"@)[k - 1]);
                }
            }
        },
        None => {
            assert forall|j: int| 0 <= j < s.len() implies #[trigger] s[j] != '\n' by {
                if s[j] == '\n' {
                    assert(s.subrange(j, j + 1) == "\n"@);
                    assert(occurs_at(s, "\n"@, j));
                }
            }
        },
    }
}

/// No line of a text holds a line feed.
pub proof fn lemma_lines_clean(s: Seq<char>)
    ensures
        all_on_one_line(lines_of(s)),
{
    lemma_pieces_clean(s);
    let parts = pieces(s, "\n"@);
    assert forall|i: int| 0 <= i < lines_of(s).len() implies on_one_line(
        #[trigger] lines_of(s)[i],
    ) by {
        assert(on_one_line(parts[i]));
    }
}

// ---------------------------------------------------------------------------
// The characters of results
// ---------------------------------------------------------------------------

/// Whether every character is of a class.
pub open spec fn all_in(s: Seq<char>, p: spec_fn(char) -> bool) -> bool {
    forall|i: int| 0 <= i < s.len() ==> p(#[trigger] s[i])
}

/// Whether every character of every part is of a class.
pub open spec fn each_in(parts: Seq<Seq<char>>, p: spec_fn(char) -> bool) -> bool {
    forall|k: int| 0 <= k < parts.len() ==> all_in(#[trigger] parts[k], p)
}

/// The characters of two texts in a row.
pub proof fn lemma_concat_in(a: Seq<char>, b: Seq<char>, p: spec_fn(char) -> bool)
    requires
        all_in(a, p),
        all_in(b, p),
    ensures
        all_in(a + b, p),
{
    let all = a + b;
    assert forall|i: int| 0 <= i < all.len() implies p(#[trigger] all[i]) by {
        if i < a.len() {
            assert(all[i] == a[i]);
        } else {
            assert(all[i] == b[i - a.len()]);
        }
    }
}

proof fn lemma_pieces_in(s: Seq<char>, pat: Seq<char>, p: spec_fn(char) -> bool)
    requires
        all_in(s, p),
    ensures
        each_in(pieces(s, pat), p),
    decreases s.len(),
{
    match find(s, pat) {
        Some(i) if 0 <= i && pat.len() > 0 && i + pat.len() <= s.len() => {
            let rest = s.skip(i + pat.len());
            assert forall|k: int| 0 <= k < rest.len() implies p(#[trigger] rest[k]) by {
                assert(rest[k] == s[k + i + pat.len()]);
            }
            lemma_pieces_in(rest, pat, p);
            let parts = pieces(s, pat);
            assert forall|k: int| 0 <= k < parts.len() implies all_in(#[trigger] parts[k], p) by {
                if k == 0 {
                    assert(parts[0] == s.take(i));
                } else {
                    assert(parts[k] == pieces(rest, pat)[k - 1]);
                }
            }
        },
        _ => {},
    }
}

/// The join of parts has the characters of the parts and of the separator.
pub proof fn lemma_joined_in(parts: Seq<Seq<char>>, sep: Seq<char>, p: spec_fn(char) -> bool)
    requires
        each_in(parts, p),
        all_in(sep, p),
    ensures
        all_in(joined(parts, sep), p),
    decreases parts.len(),
{
    if parts.len() == 1 {
        assert(all_in(parts[0], p));
    } else if parts.len() > 1 {
        let front = parts.drop_last();
        assert forall|k: int| 0 <= k < front.len() implies all_in(#[trigger] front[k], p) by {
            assert(front[k] == parts[k]);
        }
        lemma_joined_in(front, sep, p);
        assert(all_in(parts.last(), p)) by {
            assert(parts.last() == parts[parts.len() - 1]);
        }
        let a = joined(front, sep);
        let all = joined(parts, sep);
        assert forall|i: int| 0 <= i < all.len() implies p(#[trigger] all[i]) by {
            if i < a.len() {
                assert(all[i] == a[i]);
            } else if i < a.len() + sep.len() {
                assert(all[i] == sep[i - a.len()]);
            } else {
                assert(all[i] == parts.last()[i - a.len() - sep.len()]);
            }
        }
    }
}

/// What is replaced brings no other characters than those of the replacement.
pub proof fn lemma_replaced_in(
    s: Seq<char>,
    pat: Seq<char>,
    with: Seq<char>,
    p: spec_fn(char) -> bool,
)
    requires
        all_in(s, p),
        all_in(with, p),
    ensures
        all_in(replaced(s, pat, with), p),
{
    lemma_pieces_in(s, pat, p);
    lemma_joined_in(pieces(s, pat), with, p);
}

/// What is left after the characters of a class were replaced is outside of
/// the class.
pub proof fn lemma_mapped_in(
    s: Seq<char>,
    class: spec_fn(char) -> bool,
    with: Seq<char>,
    p: spec_fn(char) -> bool,
)
    requires
        forall|i: int| 0 <= i < s.len() ==> class(#[trigger] s[i]) || p(s[i]),
        all_in(with, p),
    ensures
        all_in(mapped(s, class, with), p),
    decreases s.len(),
{
    if s.len() > 0 {
        let front = s.drop_last();
        assert forall|i: int| 0 <= i < front.len() implies class(#[trigger] front[i]) || p(
            front[i],
        ) by {
            assert(front[i] == s[i]);
        }
        lemma_mapped_in(front, class, with, p);
        let a = mapped(front, class, with);
        let all = mapped(s, class, with);
        assert(class(s[s.len() - 1]) || p(s[s.len() - 1]));
        assert forall|i: int| 0 <= i < all.len() implies p(#[trigger] all[i]) by {
            if i < a.len() {
                assert(all[i] == a[i]);
            } else if class(s.last()) {
                assert(all[i] == with[i - a.len()]);
            } else {
                assert(all[i] == s.last());
            }
        }
    }
}

/// Words are not empty, and have no other characters than the text, none of
/// them white space.
pub proof fn lemma_words_in(s: Seq<char>, p: spec_fn(char) -> bool)
    requires
        all_in(s, p),
    ensures
        each_in(words(s), p),
        each_in(words(s), |c: char| !is_white(c)),
        forall|k: int| 0 <= k < words(s).len() ==> (#[trigger] words(s)[k]).len() > 0,
    decreases s.len(),
{
    if s.len() > 0 {
        let front = s.drop_last();
        let c = s.last();
        assert(c == s[s.len() - 1]);
        assert forall|i: int| 0 <= i < front.len() implies p(#[trigger] front[i]) by {
            assert(front[i] == s[i]);
        }
        lemma_words_in(front, p);
        let before = words(front);
        let all = words(s);
        let solid = |c: char| !is_white(c);
        if !is_white(c) {
            if s.len() == 1 || is_white(s[s.len() - 2]) {
                assert forall|k: int| 0 <= k < all.len() implies all_in(#[trigger] all[k], p)
                    && all_in(all[k], solid) && all[k].len() > 0 by {
                    if k < before.len() {
                        assert(all[k] == before[k]);
                    } else {
                        assert(all[k] == seq![c]);
                    }
                }
            } else {
                lemma_words_open(front);
                let last = before.last();
                assert(last == before[before.len() - 1]);
                assert forall|k: int| 0 <= k < all.len() implies all_in(#[trigger] all[k], p)
                    && all_in(all[k], solid) && all[k].len() > 0 by {
                    if k < before.len() - 1 {
                        assert(all[k] == before[k]);
                    } else {
                        assert(all[k] == last.push(c));
                        assert forall|i: int| 0 <= i < all[k].len() implies p(#[trigger] all[k][i])
                            && solid(all[k][i]) by {
                            if i < last.len() {
                                assert(all[k][i] == last[i]);
                                assert(p(last[i]) && solid(last[i]));
                            }
                        }
                    }
                }
            }
        }
    }
}

/// A collapsed text has the characters of the text, and no white space but
/// single spaces.
pub proof fn lemma_collapsed_in(s: Seq<char>, p: spec_fn(char) -> bool)
    requires
        all_in(s, p),
        p(' '),
    ensures
        all_in(collapsed(s), p),
        all_in(collapsed(s), |c: char| c == ' ' || !is_white(c)),
{
    reveal_strlit(" ");
    let plain = |c: char| c == ' ' || !is_white(c);
    lemma_words_in(s, p);
    let all = words(s);
    assert forall|k: int| 0 <= k < all.len() implies all_in(#[trigger] all[k], plain) by {
        assert(all_in(all[k], |c: char| !is_white(c)));
        assert forall|i: int| 0 <= i < all[k].len() implies plain(#[trigger] all[k][i]) by {
            assert((|c: char| !is_white(c))(all[k][i]));
        }
    }
    lemma_joined_in(all, " "@, p);
    lemma_joined_in(all, " "@, plain);
}

} // verus!
