//! New sidecars, and the chapters that are imported into them.

use vstd::prelude::*;

use crate::chapters;
use crate::chapters::Chapter;
use crate::clock;
use crate::digits;
use crate::laws;
use crate::markdown;
use crate::markdown::LineTest;
use crate::marks;
use crate::number;
use crate::roundtrip;
use crate::text;

verus! {

// ---------------------------------------------------------------------------
// Chapters as bookmarks
// ---------------------------------------------------------------------------

proof fn lemma_decimal_clean(n: nat)
    ensures
        text::all_in(digits::decimal(n), |c: char| c != '\n'),
{
    digits::lemma_decimal(n);
}

proof fn lemma_chapter_line(c: Chapter)
    requires
        text::on_one_line(c.title),
    ensures
        text::on_one_line(chapters::chapter_line(c)),
        text::chopped(chapters::chapter_line(c)) == chapters::chapter_line(c),
        !chapters::receipt_test().passes(chapters::chapter_line(c)),
{
    reveal_strlit("- [");
    reveal_strlit("] ");
    reveal_strlit(" <!-- framenote:bookmark:embedded-");
    reveal_strlit("-");
    reveal_strlit(" start=");
    reveal_strlit(" source=embedded-chapter -->");
    let p = |c: char| c != '\n';
    let index = digits::decimal((c.source_index + 1) as nat);
    let millis = digits::decimal(c.start.product(number::natural(1000)).whole());
    let marker = " <!-- framenote:bookmark:embedded-"@;
    let origin = " source=embedded-chapter -->"@;
    marks::lemma_stamp_clean(c.start);
    marks::lemma_fixed_clean(c.start);
    lemma_decimal_clean((c.source_index + 1) as nat);
    lemma_decimal_clean(c.start.product(number::natural(1000)).whole());
    let a = "- ["@ + clock::precise(c.start);
    text::lemma_concat_in("- ["@, clock::precise(c.start), p);
    text::lemma_concat_in(a, "] "@, p);
    let b = a + "] "@ + c.title;
    text::lemma_concat_in(a + "] "@, c.title, p);
    text::lemma_concat_in(b, marker, p);
    let d = b + marker + index;
    text::lemma_concat_in(b + marker, index, p);
    text::lemma_concat_in(d, "-"@, p);
    let e = d + "-"@ + millis;
    text::lemma_concat_in(d + "-"@, millis, p);
    text::lemma_concat_in(e, " start="@, p);
    let f = e + " start="@ + c.start.fixed();
    text::lemma_concat_in(e + " start="@, c.start.fixed(), p);
    text::lemma_concat_in(f, origin, p);
    let line = chapters::chapter_line(c);
    assert(line == f + origin);
    assert forall|i: int| 0 <= i < line.len() implies #[trigger] line[i] != '\n' by {
        assert(p(line[i]));
    }
    assert(line.last() == '>');
    assert(line[0] == '-') by {
        assert(a[0] == '-');
        assert(b[0] == a[0]);
        assert(d[0] == b[0]);
        assert(e[0] == d[0]);
        assert(f[0] == e[0]);
    }
    lemma_not_receipt(line);
}

proof fn lemma_not_receipt(line: Seq<char>)
    requires
        line.len() > 0,
        !text::is_white(line[0]),
        !text::is_white(line.last()),
        line[0] != '<',
    ensures
        !chapters::receipt_test().passes(line),
{
    reveal_strlit("<!-- framenote:embedded-chapters fingerprint=");
    laws::lemma_trimmed_keeps(line);
    let front = markdown::EMBEDDED_CHAPTER_MARKER@;
    if text::has_prefix(line, front) {
        assert(line.subrange(0, front.len() as int)[0] == line[0]);
    }
}

proof fn lemma_append_keeps(
    markdown: Seq<char>,
    heading: Seq<char>,
    line: Seq<char>,
    other: Seq<char>,
)
    requires
        text::on_one_line(heading),
        text::on_one_line(line),
        text::lines_of(markdown).contains(other),
        text::chopped(other) == other,
    ensures
        text::lines_of(markdown::appended(markdown, heading, line)).contains(other),
{
    let lines = text::lines_of(markdown);
    let (at, added) = markdown::addition(lines, heading, line);
    let out = markdown::extended(lines, heading, line);
    laws::law_entry_is_only_added(lines, heading, line);
    laws::lemma_extended_clean(markdown, heading, line);
    laws::lemma_reread(out);
    let i = choose|i: int| 0 <= i < lines.len() && lines[i] == other;
    let k = if i < at {
        i
    } else {
        i + added.len() as int
    };
    if i < at {
        assert(out.take(at)[i] == lines.take(at)[i]);
    } else {
        assert(out.skip(at + added.len())[i - at] == lines.skip(at)[i - at]);
    }
    assert(out[k] == other);
    assert(laws::reread(out)[k] == other);
}

proof fn lemma_bookmark_heading()
    ensures
        text::on_one_line(markdown::BOOKMARK_HEADING@),
{
    reveal_strlit("## Bookmarks");
}

/// A chapter that is added stays where others are added.
proof fn lemma_next_chapter(before: Seq<char>, c: Chapter, line: Seq<char>)
    requires
        text::on_one_line(c.title),
        text::lines_of(before).contains(line),
        text::chopped(line) == line,
    ensures
        text::lines_of(
            markdown::appended(before, markdown::BOOKMARK_HEADING@, chapters::chapter_line(c)),
        ).contains(line),
{
    lemma_bookmark_heading();
    lemma_chapter_line(c);
    lemma_append_keeps(before, markdown::BOOKMARK_HEADING@, chapters::chapter_line(c), line);
}

/// A chapter that is added is there.
proof fn lemma_new_chapter(before: Seq<char>, c: Chapter)
    requires
        text::on_one_line(c.title),
    ensures
        text::lines_of(
            markdown::appended(before, markdown::BOOKMARK_HEADING@, chapters::chapter_line(c)),
        ).contains(chapters::chapter_line(c)),
        text::chopped(chapters::chapter_line(c)) == chapters::chapter_line(c),
{
    lemma_bookmark_heading();
    lemma_chapter_line(c);
    laws::lemma_appended_holds(
        before,
        markdown::BOOKMARK_HEADING@,
        chapters::chapter_line(c),
    );
}

proof fn lemma_chapters_stay(
    markdown: Seq<char>,
    all: Seq<Chapter>,
    k: int,
    n: nat,
)
    requires
        0 <= k < n <= all.len(),
        forall|i: int| 0 <= i < all.len() ==> text::on_one_line((#[trigger] all[i]).title),
        !chapters::listed(
            text::lines_of(chapters::with_chapters(markdown, all, k as nat)),
            all[k].start,
            false,
            0,
        ),
    ensures
        text::lines_of(chapters::with_chapters(markdown, all, n)).contains(
            chapters::chapter_line(all[k]),
        ),
    decreases n,
{
    let before = chapters::with_chapters(markdown, all, (n - 1) as nat);
    let c = all[n - 1];
    lemma_new_chapter(before, c);
    if k < n - 1 {
        lemma_chapters_stay(markdown, all, k, (n - 1) as nat);
        lemma_new_chapter(before, all[k]);
        lemma_next_chapter(before, c, chapters::chapter_line(all[k]));
    }
}

/// Every chapter that is imported becomes a bookmark with its title, unless a
/// bookmark stands at its start already.
#[verifier::rlimit(40)]
pub proof fn law_chapters_become_marks(
    markdown: Seq<char>,
    all: Seq<Chapter>,
    print: Seq<char>,
    k: int,
)
    requires
        !chapters::is_imported(markdown),
        0 <= k < all.len(),
        text::on_one_line(print),
        forall|i: int| 0 <= i < all.len() ==> text::on_one_line((#[trigger] all[i]).title),
    ensures
        ({
            let imported = chapters::merged(markdown, all, print)->0;
            ||| text::lines_of(imported).contains(chapters::chapter_line(all[k]))
            ||| chapters::listed(
                text::lines_of(chapters::with_chapters(markdown, all, k as nat)),
                all[k].start,
                false,
                0,
            )
        }),
{
    let added = chapters::with_chapters(markdown, all, all.len());
    let lines = text::lines_of(added);
    let marker = chapters::receipt(print);
    let out = chapters::receipted(lines, marker);
    let line = chapters::chapter_line(all[k]);
    if !chapters::listed(
        text::lines_of(chapters::with_chapters(markdown, all, k as nat)),
        all[k].start,
        false,
        0,
    ) {
        lemma_chapters_stay(markdown, all, k, all.len());
        lemma_chapter_line(all[k]);
        text::lemma_lines_clean(added);
        lemma_receipt_clean(print);
        laws::lemma_receipted(lines, marker);
        laws::lemma_reread(out);
        let i = choose|i: int| 0 <= i < lines.len() && lines[i] == line;
        let at = chapters::receipt_place(lines);
        let j = if markdown::any(lines, chapters::receipt_test()) || i < at {
            i
        } else {
            i + 1
        };
        markdown::lemma_first(lines, LineTest::Marks(markdown::POSITION_MARKER@), 0);
        markdown::lemma_first(lines, LineTest::Is(markdown::VERSION_MARKER@), 0);
        assert(out[j] == line);
        assert(laws::reread(out)[j] == line);
    }
}

proof fn lemma_receipt_clean(print: Seq<char>)
    requires
        text::on_one_line(print),
    ensures
        text::on_one_line(chapters::receipt(print)),
{
    reveal_strlit("<!-- framenote:embedded-chapters fingerprint=");
    reveal_strlit(" -->");
    let p = |c: char| c != '\n';
    let front = markdown::EMBEDDED_CHAPTER_MARKER@;
    text::lemma_concat_in(front, print, p);
    text::lemma_concat_in(front + print, " -->"@, p);
    let line = chapters::receipt(print);
    assert forall|i: int| 0 <= i < line.len() implies #[trigger] line[i] != '\n' by {
        assert(p(line[i]));
    }
}

// ---------------------------------------------------------------------------
// Receipts
// ---------------------------------------------------------------------------

/// What stands at the start of a line begins a piece of the text.
proof fn lemma_piece_begins(a: Seq<char>, p: Seq<char>, b: Seq<char>) -> (k: int)
    requires
        a.len() == 0 || a.last() == '\n',
        p.len() > 0,
        text::on_one_line(p),
    ensures
        0 <= k < text::pieces(a + p + b, "\n"@).len(),
        text::has_prefix(text::pieces(a + p + b, "\n"@)[k], p),
    decreases a.len(),
{
    reveal_strlit("\n");
    let s = a + p + b;
    let n = a.len() as int;
    text::lemma_find(s, "\n"@);
    if n == 0 {
        assert(s.subrange(0, p.len() as int) =~= p);
        if let Some(i) = text::find(s, "\n"@) {
            assert(s.subrange(i, i + 1)[0] == s[i]);
            if i < p.len() {
                assert(s[i] == p[i]);
            }
            assert(s.take(i).subrange(0, p.len() as int) =~= p);
            assert(text::pieces(s, "\n"@)[0] == s.take(i));
        }
        0
    } else {
        assert(s.subrange(n - 1, n) =~= "\n"@);
        assert(text::occurs_at(s, "\n"@, n - 1));
        let i = text::find(s, "\n"@)->0;
        assert(i < n);
        let rest = a.skip(i + 1);
        assert(s.skip(i + 1) =~= rest + p + b);
        let k = lemma_piece_begins(rest, p, b);
        assert(text::pieces(s, "\n"@) == seq![s.take(i)] + text::pieces(rest + p + b, "\n"@));
        assert(text::pieces(s, "\n"@)[k + 1] == text::pieces(rest + p + b, "\n"@)[k]);
        k + 1
    }
}

/// A part of a text of lines stands at the start of a line.
proof fn lemma_part_begins(parts: Seq<Seq<char>>, k: int) -> (r: (Seq<char>, Seq<char>))
    requires
        0 <= k < parts.len(),
    ensures
        text::joined(parts, "\n"@) == r.0 + parts[k] + r.1,
        r.0.len() == 0 || r.0.last() == '\n',
    decreases parts.len(),
{
    reveal_strlit("\n");
    let none = Seq::<char>::empty();
    if parts.len() == 1 {
        assert(parts[0] =~= none + parts[k] + none);
        (none, none)
    } else if k == parts.len() - 1 {
        let front = text::joined(parts.drop_last(), "\n"@) + "\n"@;
        assert(front + parts.last() =~= front + parts[k] + none);
        (front, none)
    } else {
        let (front, back) = lemma_part_begins(parts.drop_last(), k);
        let more = back + "\n"@ + parts.last();
        assert(text::joined(parts, "\n"@) =~= front + parts[k] + more);
        (front, more)
    }
}

proof fn lemma_trailing_keeps_front(s: Seq<char>, p: Seq<char>)
    requires
        p.len() > 0,
        !text::is_white(p.last()),
        text::has_prefix(s, p),
    ensures
        text::has_prefix(text::drop_trailing(s, text::whites()), p),
    decreases s.len(),
{
    if text::is_white(s.last()) {
        let short = s.drop_last();
        let cut = s.subrange(0, p.len() as int);
        assert(cut.last() == s[p.len() - 1]);
        assert(p.len() < s.len());
        assert(short.subrange(0, p.len() as int) =~= cut);
        lemma_trailing_keeps_front(short, p);
    }
}

proof fn lemma_receipt_passes(line: Seq<char>)
    requires
        text::has_prefix(line, markdown::EMBEDDED_CHAPTER_MARKER@),
    ensures
        chapters::receipt_test().passes(line),
{
    reveal_strlit("<!-- framenote:embedded-chapters fingerprint=");
    let p = markdown::EMBEDDED_CHAPTER_MARKER@;
    assert(line.subrange(0, p.len() as int)[0] == line[0]);
    assert(p[0] == '<' && p.last() == '=');
    assert(text::drop_leading(line, text::whites()) == line);
    lemma_trailing_keeps_front(line, p);
}

/// Chapters that are imported leave a receipt, whatever their titles and the
/// fingerprint of their video hold.
#[verifier::rlimit(40)]
proof fn lemma_import_is_noted(markdown: Seq<char>, all: Seq<Chapter>, print: Seq<char>)
    requires
        !chapters::is_imported(markdown),
    ensures
        chapters::is_imported(chapters::merged(markdown, all, print)->0),
{
    reveal_strlit("\n");
    reveal_strlit("<!-- framenote:embedded-chapters fingerprint=");
    let p = markdown::EMBEDDED_CHAPTER_MARKER@;
    let lines = text::lines_of(chapters::with_chapters(markdown, all, all.len()));
    let marker = chapters::receipt(print);
    let out = chapters::receipted(lines, marker);
    let test = chapters::receipt_test();
    markdown::lemma_first(lines, LineTest::Marks(markdown::POSITION_MARKER@), 0);
    markdown::lemma_first(lines, LineTest::Is(markdown::VERSION_MARKER@), 0);
    let at = if markdown::any(lines, test) {
        choose|i: int| 0 <= i < lines.len() && test.passes(#[trigger] lines[i])
    } else {
        chapters::receipt_place(lines)
    };
    assert(out[at] == marker);
    let whole = text::text_of(out);
    let (front, back) = lemma_part_begins(out, at);
    let behind = marker.skip(p.len() as int) + back + "\n"@;
    assert(marker =~= p + marker.skip(p.len() as int));
    assert(whole =~= front + p + behind);
    let k = lemma_piece_begins(front, p, behind);
    let pieces = text::pieces(whole, "\n"@);
    let piece = pieces[k];
    assert(piece.subrange(0, p.len() as int) == p);
    assert(piece[p.len() - 1] == p[p.len() - 1]);
    assert(text::chopped(piece).subrange(0, p.len() as int) =~= p);
    let again = text::lines_of(whole);
    assert(again[k] == piece || again[k] == text::chopped(piece));
    lemma_receipt_passes(again[k]);
    assert(test.passes(again[k]));
}

/// Once chapters were imported, none are imported again as long as the receipt
/// stands, however the other lines were edited, and whatever the video has
/// become.
pub proof fn law_receipt_rules_out_imports(
    markdown: Seq<char>,
    first: Seq<Chapter>,
    print: Seq<char>,
    edited: Seq<char>,
    later: Seq<Chapter>,
    later_print: Seq<char>,
)
    requires
        !chapters::is_imported(markdown),
    ensures
        ({
            let imported = chapters::merged(markdown, first, print)->0;
            &&& chapters::is_imported(imported)
            &&& (exists|line: Seq<char>|
                #![trigger text::lines_of(imported).contains(line)]
                text::lines_of(imported).contains(line) && chapters::receipt_test().passes(line)
                    && text::lines_of(edited).contains(line)) ==> chapters::merged(
                edited,
                later,
                later_print,
            ) is None
        }),
{
    let imported = chapters::merged(markdown, first, print)->0;
    lemma_import_is_noted(markdown, first, print);
    if exists|line: Seq<char>|
        #![trigger text::lines_of(imported).contains(line)]
        text::lines_of(imported).contains(line) && chapters::receipt_test().passes(line)
            && text::lines_of(edited).contains(line) {
        let line = choose|line: Seq<char>|
            #![trigger text::lines_of(imported).contains(line)]
            text::lines_of(imported).contains(line) && chapters::receipt_test().passes(line)
                && text::lines_of(edited).contains(line);
        let lines = text::lines_of(edited);
        let i = choose|i: int| 0 <= i < lines.len() && lines[i] == line;
        assert(chapters::receipt_test().passes(lines[i]));
    }
}

// ---------------------------------------------------------------------------
// New sidecars
// ---------------------------------------------------------------------------

/// The lines of a new sidecar.
pub open spec fn fresh_lines(name: Seq<char>) -> Seq<Seq<char>> {
    seq![
        "# "@ + name,
        ""@,
        "<!-- framenote:v1 -->"@,
        "<!-- framenote:position seconds=0.000 -->"@,
        ""@,
        "## Bookmarks"@,
        ""@,
        "## AI timeline"@,
        ""@,
        "## Subtitles"@,
    ]
}

proof fn lemma_fresh_middle()
    ensures
        "\n\n<!-- framenote:v1 -->\n<!-- framenote:position seconds=0.000 -->\n\n"@ == "\n"@ + ""@
            + "\n"@ + "<!-- framenote:v1 -->"@ + "\n"@
            + "<!-- framenote:position seconds=0.000 -->"@ + "\n"@ + ""@ + "\n"@,
        "\n\n"@ == "\n"@ + ""@ + "\n"@,
{
    reveal_strlit("\n\n<!-- framenote:v1 -->\n<!-- framenote:position seconds=0.000 -->\n\n");
    reveal_strlit("\n");
    reveal_strlit("\n\n");
    reveal_strlit("");
    reveal_strlit("<!-- framenote:v1 -->");
    reveal_strlit("<!-- framenote:position seconds=0.000 -->");
    assert("\n\n<!-- framenote:v1 -->\n<!-- framenote:position seconds=0.000 -->\n\n"@ =~= "\n"@
        + ""@ + "\n"@ + "<!-- framenote:v1 -->"@ + "\n"@
        + "<!-- framenote:position seconds=0.000 -->"@ + "\n"@ + ""@ + "\n"@);
    assert("\n\n"@ =~= "\n"@ + ""@ + "\n"@);
}

proof fn lemma_joined_step(lines: Seq<Seq<char>>, n: int)
    requires
        1 <= n < lines.len(),
    ensures
        text::joined(lines.take(n + 1), "\n"@) == text::joined(lines.take(n), "\n"@) + "\n"@
            + lines[n],
        lines.take(1).len() == 1,
{
    assert(lines.take(n + 1).drop_last() =~= lines.take(n));
}

proof fn lemma_gap(a: Seq<char>)
    ensures
        a + "\n\n"@ == a + "\n"@ + ""@ + "\n"@,
{
    lemma_fresh_middle();
    let n = "\n"@;
    let e = ""@;
    roundtrip::lemma_assoc(a, n, e);
    roundtrip::lemma_assoc(a, n + e, n);
}

proof fn lemma_middle(h: Seq<char>)
    ensures
        h + "\n\n<!-- framenote:v1 -->\n<!-- framenote:position seconds=0.000 -->\n\n"@ == h
            + "\n"@ + ""@ + "\n"@ + "<!-- framenote:v1 -->"@ + "\n"@
            + "<!-- framenote:position seconds=0.000 -->"@ + "\n"@ + ""@ + "\n"@,
{
    lemma_fresh_middle();
    let n = "\n"@;
    let e = ""@;
    let v = "<!-- framenote:v1 -->"@;
    let q = "<!-- framenote:position seconds=0.000 -->"@;
    roundtrip::lemma_assoc(h, n, e);
    roundtrip::lemma_assoc(h, n + e, n);
    roundtrip::lemma_assoc(h, n + e + n, v);
    roundtrip::lemma_assoc(h, n + e + n + v, n);
    roundtrip::lemma_assoc(h, n + e + n + v + n, q);
    roundtrip::lemma_assoc(h, n + e + n + v + n + q, n);
    roundtrip::lemma_assoc(h, n + e + n + v + n + q + n, e);
    roundtrip::lemma_assoc(h, n + e + n + v + n + q + n + e, n);
}

pub(crate) proof fn lemma_fresh(name: Seq<char>)
    ensures
        markdown::fresh(name) == text::text_of(fresh_lines(name)),
{
    let lines = fresh_lines(name);
    let h = "# "@ + name;
    let n = "\n"@;
    assert(text::joined(lines.take(1), n) == h);
    lemma_joined_step(lines, 1);
    lemma_joined_step(lines, 2);
    lemma_joined_step(lines, 3);
    lemma_joined_step(lines, 4);
    lemma_joined_step(lines, 5);
    lemma_joined_step(lines, 6);
    lemma_joined_step(lines, 7);
    lemma_joined_step(lines, 8);
    lemma_joined_step(lines, 9);
    assert(lines.take(10) =~= lines);
    lemma_middle(h);
    let a = h + "\n\n<!-- framenote:v1 -->\n<!-- framenote:position seconds=0.000 -->\n\n"@
        + markdown::BOOKMARK_HEADING@;
    lemma_gap(a);
    let b = a + "\n\n"@ + markdown::AI_HEADING@;
    lemma_gap(b);
}

proof fn lemma_zero_written()
    ensures
        markdown::position_line(number::zero()) == "<!-- framenote:position seconds=0.000 -->"@,
        number::to_thousandths(number::zero()) == number::zero(),
{
    reveal_strlit("<!-- framenote:position seconds=0.000 -->");
    reveal_strlit("<!-- framenote:position seconds=");
    reveal_strlit(" -->");
    reveal_strlit("");
    reveal_strlit(".");
    let zero = number::zero();
    let f = number::double();
    assert(zero.finite() && !zero.is_negative());
    assert(clock::from_start(zero) == zero);
    assert(0nat / f.half as nat == 0);
    assert(zero.size() == 0);
    let p = vstd::arithmetic::power2::pow2(1074);
    vstd::arithmetic::power2::lemma_pow2_pos(1074);
    assert(0nat / p == 0 && 0nat % p == 0) by {
        vstd::arithmetic::div_mod::lemma_small_mod(0, p);
        vstd::arithmetic::div_mod::lemma_basic_div(0, p as int);
    }
    assert(zero.thousandths() == 0);
    assert(digits::decimal(0) =~= seq!['0']);
    assert(digits::padded(digits::decimal(0), 3) =~= seq!['0', '0', '0']);
    assert(zero.fixed() =~= seq!['0', '.', '0', '0', '0']);
    assert(markdown::position_line(zero) =~= "<!-- framenote:position seconds=0.000 -->"@);
    number::lemma_nearest_exists(f, 0, 1000);
    let mag = number::nearest(f, 0, 1000);
    if mag > 0 {
        number::lemma_steps_grow(f, (mag - 1) as nat, mag);
        let low = number::steps(f, (mag - 1) as nat);
        let high = number::steps(f, mag);
        assert(number::past(f, 0, 1000, (mag - 1) as nat));
        assert((low + high) * 1000 > 0);
    }
    assert(0nat * p == 0);
}

proof fn lemma_fresh_line(line: Seq<char>)
    requires
        line.len() == 0 || line[0] == '#' || line == "<!-- framenote:v1 -->"@,
        line.len() > 0 ==> !text::is_white(line[0]),
    ensures
        !chapters::receipt_test().passes(line),
        markdown::marked_position(line) is None,
{
    reveal_strlit("<!-- framenote:v1 -->");
    reveal_strlit("<!-- framenote:embedded-chapters fingerprint=");
    reveal_strlit("<!-- framenote:position seconds=");
    let plain = text::trimmed(line);
    lemma_trimmed_front(line);
    let a = markdown::EMBEDDED_CHAPTER_MARKER@;
    let b = markdown::POSITION_MARKER@;
    if text::has_prefix(plain, a) {
        assert(plain.subrange(0, a.len() as int)[0] == plain[0]);
        assert(plain.subrange(0, a.len() as int)[15] == plain[15]);
    }
    if text::has_prefix(plain, b) {
        assert(plain.subrange(0, b.len() as int)[0] == plain[0]);
        assert(plain.subrange(0, b.len() as int)[15] == plain[15]);
    }
}

/// Trimming does not change the front of a text that begins with no white
/// space.
proof fn lemma_trimmed_front(line: Seq<char>)
    requires
        line.len() > 0 ==> !text::is_white(line[0]),
    ensures
        text::trimmed(line).len() <= line.len(),
        forall|i: int|
            0 <= i < text::trimmed(line).len() ==> #[trigger] text::trimmed(line)[i] == line[i],
{
    let p = text::whites();
    assert(text::drop_leading(line, p) == line);
    lemma_trailing_front(line, p);
}

proof fn lemma_trailing_front(s: Seq<char>, p: spec_fn(char) -> bool)
    ensures
        text::drop_trailing(s, p).len() <= s.len(),
        forall|i: int|
            0 <= i < text::drop_trailing(s, p).len() ==> #[trigger] text::drop_trailing(s, p)[i]
                == s[i],
    decreases s.len(),
{
    if s.len() > 0 && p(s.last()) {
        lemma_trailing_front(s.drop_last(), p);
    }
}

/// A new sidecar starts at the beginning of the video, and awaits the one
/// import of its chapters.
#[verifier::rlimit(40)]
pub proof fn law_new_sidecar_is_blank(name: Seq<char>)
    requires
        text::on_one_line(name),
    ensures
        markdown::position_of(markdown::fresh(name)) == number::zero(),
        !chapters::is_imported(markdown::fresh(name)),
{
    reveal_strlit("");
    reveal_strlit("# ");
    reveal_strlit("<!-- framenote:v1 -->");
    reveal_strlit("<!-- framenote:position seconds=0.000 -->");
    reveal_strlit("<!-- framenote:embedded-chapters fingerprint=");
    reveal_strlit("## Bookmarks");
    reveal_strlit("## AI timeline");
    reveal_strlit("## Subtitles");
    let lines = fresh_lines(name);
    let position = "<!-- framenote:position seconds=0.000 -->"@;
    lemma_fresh(name);
    assert forall|i: int| 0 <= i < lines.len() implies text::on_one_line(#[trigger] lines[i]) by {
        if i == 0 {
            let first = "# "@ + name;
            assert forall|k: int| 0 <= k < first.len() implies #[trigger] first[k] != '\n' by {
                if k >= 2 {
                    assert(first[k] == name[k - 2]);
                }
            }
        }
    }
    laws::lemma_reread(lines);
    let again = laws::reread(lines);
    lemma_zero_written();
    laws::lemma_position_line(number::zero());
    assert(again[3] == position);
    assert forall|i: int| 0 <= i < again.len() && i != 3 implies !chapters::receipt_test().passes(
        #[trigger] again[i],
    ) && markdown::marked_position(again[i]) is None by {
        assert(again[i] == text::chopped(lines[i]));
        lemma_fresh_line(again[i]);
    }
    assert(!chapters::receipt_test().passes(position)) by {
        laws::lemma_trimmed_keeps(position);
        let a = markdown::EMBEDDED_CHAPTER_MARKER@;
        if text::has_prefix(position, a) {
            assert(position.subrange(0, a.len() as int)[15] == position[15]);
        }
    }
    reveal_with_fuel(markdown::first_position, 5);
    assert(markdown::first_position(again, 0) == Some(number::zero()));
    assert(number::zero().le(number::zero()));
}

} // verus!
