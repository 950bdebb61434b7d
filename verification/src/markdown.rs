//! The Markdown sidecar: markers, sections and the playback position.

use vstd::prelude::*;

use crate::clock;
use crate::entries;
use crate::number;
use crate::number::Binary64;
use crate::paths::FilePath;
use crate::text;

verus! {

pub const BOOKMARK_HEADING: &'static str = "## Bookmarks";

pub const AI_HEADING: &'static str = "## AI timeline";

pub const SUBTITLE_HEADING: &'static str = "## Subtitles";

pub const EMBEDDED_CHAPTER_MARKER: &'static str = "<!-- framenote:embedded-chapters fingerprint=";

pub const POSITION_MARKER: &'static str = "<!-- framenote:position seconds=";

pub const VERSION_MARKER: &'static str = "<!-- framenote:v1 -->";

// ---------------------------------------------------------------------------
// Looking for lines
// ---------------------------------------------------------------------------

/// A property of a line.
pub enum LineTest {
    /// The line without white space at its ends is the text.
    Is(Seq<char>),
    /// The line without white space at its ends is the text but for the case
    /// of letters.
    IsHeading(Seq<char>),
    /// The line without white space at its ends begins with the text.
    Marks(Seq<char>),
    /// The line begins with the text.
    Begins(Seq<char>),
    /// The line without white space before it begins with the text.
    Opens(Seq<char>),
    /// The line contains the text.
    Contains(Seq<char>),
}

impl LineTest {
    pub open spec fn passes(self, line: Seq<char>) -> bool {
        match self {
            LineTest::Is(s) => text::trimmed(line) == s,
            LineTest::IsHeading(s) => text::lower(text::trimmed(line)) == text::lower(s),
            LineTest::Marks(s) => text::has_prefix(text::trimmed(line), s),
            LineTest::Begins(s) => text::has_prefix(line, s),
            LineTest::Opens(s) => text::has_prefix(
                text::drop_leading(line, text::whites()),
                s,
            ),
            LineTest::Contains(s) => text::contains(line, s),
        }
    }
}

/// A property of a line, with its text at hand.
pub enum Probe<'a> {
    Is(&'a str),
    IsHeading(&'a str),
    Marks(&'a str),
    Begins(&'a str),
    Opens(&'a str),
    Contains(&'a str),
}

impl<'a> View for Probe<'a> {
    type V = LineTest;

    open spec fn view(&self) -> LineTest {
        match *self {
            Probe::Is(s) => LineTest::Is(s@),
            Probe::IsHeading(s) => LineTest::IsHeading(s@),
            Probe::Marks(s) => LineTest::Marks(s@),
            Probe::Begins(s) => LineTest::Begins(s@),
            Probe::Opens(s) => LineTest::Opens(s@),
            Probe::Contains(s) => LineTest::Contains(s@),
        }
    }
}

impl<'a> Probe<'a> {
    /// Whether a line has the property.
    pub fn test(&self, line: &str) -> (r: bool)
        ensures
            r == self@.passes(line@),
    {
        match self {
            Probe::Is(s) => text::same(text::trim(line).as_str(), s),
            Probe::IsHeading(s) => text::same_ignoring_case(text::trim(line).as_str(), s),
            Probe::Marks(s) => text::starts_with(text::trim(line).as_str(), s),
            Probe::Begins(s) => text::starts_with(line, s),
            Probe::Opens(s) => text::starts_with(text::trim_start(line).as_str(), s),
            Probe::Contains(s) => text::has(line, s),
        }
    }
}

/// The first line from `from` on that passes a test.
pub open spec fn first_from(lines: Seq<Seq<char>>, test: LineTest, from: int) -> Option<int>
    decreases lines.len() - from,
{
    if from < 0 || from >= lines.len() {
        None
    } else if test.passes(lines[from]) {
        Some(from)
    } else {
        first_from(lines, test, from + 1)
    }
}

/// The first line that passes a test.
pub open spec fn first(lines: Seq<Seq<char>>, test: LineTest) -> Option<int> {
    first_from(lines, test, 0)
}

/// Whether a line passes a test.
pub open spec fn any(lines: Seq<Seq<char>>, test: LineTest) -> bool {
    exists|i: int| 0 <= i < lines.len() && test.passes(#[trigger] lines[i])
}

/// `first_from` gives the least position that passes, and `None` exactly when
/// no position from `from` on does.
pub proof fn lemma_first(lines: Seq<Seq<char>>, test: LineTest, from: int)
    requires
        from >= 0,
    ensures
        match first_from(lines, test, from) {
            Some(i) => from <= i < lines.len() && test.passes(lines[i]) && forall|j: int|
                from <= j < i ==> !test.passes(#[trigger] lines[j]),
            None => forall|j: int| from <= j < lines.len() ==> !test.passes(#[trigger] lines[j]),
        },
    decreases lines.len() - from,
{
    if from < lines.len() && !test.passes(lines[from]) {
        lemma_first(lines, test, from + 1);
    }
}

/// Finds the first line from `from` on that has a property.
pub fn find_line(lines: &Vec<String>, probe: &Probe, from: usize) -> (r: Option<usize>)
    ensures
        match r {
            Some(i) => first_from(text::views(lines@), probe@, from as int) == Some(i as int)
                && from <= i < lines@.len() && i < usize::MAX,
            None => first_from(text::views(lines@), probe@, from as int) is None,
        },
{
    let mut i: usize = from;
    let ghost views = text::views(lines@);
    while i < lines.len()
        invariant
            from <= i,
            views == text::views(lines@),
            first_from(views, probe@, i as int) == first_from(views, probe@, from as int),
        decreases lines@.len() - i,
    {
        assert(views[i as int] == lines@[i as int]@);
        if probe.test(lines[i].as_str()) {
            return Some(i);
        }
        i += 1;
    }
    None
}

/// Whether any line has a property.
pub fn any_line(lines: &Vec<String>, probe: &Probe) -> (r: bool)
    ensures
        r == any(text::views(lines@), probe@),
{
    let found = find_line(lines, probe, 0);
    proof {
        lemma_first(text::views(lines@), probe@, 0);
    }
    found.is_some()
}

/// The lines, those that pass a test replaced.
pub open spec fn swapped(lines: Seq<Seq<char>>, test: LineTest, with: Seq<char>) -> Seq<Seq<char>> {
    Seq::new(
        lines.len(),
        |i: int|
            if test.passes(lines[i]) {
                with
            } else {
                lines[i]
            },
    )
}

/// Replaces the lines that have a property.
pub fn swap_lines(lines: &Vec<String>, probe: &Probe, with: &str) -> (r: Vec<String>)
    ensures
        text::views(r@) == swapped(text::views(lines@), probe@, with@),
{
    let mut out: Vec<String> = Vec::new();
    let mut i: usize = 0;
    while i < lines.len()
        invariant
            i <= lines@.len(),
            out@.len() == i,
            forall|j: int|
                0 <= j < i ==> #[trigger] out@[j]@ == swapped(
                    text::views(lines@),
                    probe@,
                    with@,
                )[j],
        decreases lines@.len() - i,
    {
        assert(text::views(lines@)[i as int] == lines@[i as int]@);
        if probe.test(lines[i].as_str()) {
            out.push(with.to_owned());
        } else {
            out.push(lines[i].clone());
        }
        i += 1;
    }
    assert(text::views(out@) == swapped(text::views(lines@), probe@, with@));
    out
}

/// Inserts a line.
pub(crate) fn insert_line(lines: &mut Vec<String>, at: usize, line: &str)
    requires
        at <= old(lines)@.len(),
    ensures
        text::views(final(lines)@) == text::views(old(lines)@).insert(at as int, line@),
        final(lines)@.len() == old(lines)@.len() + 1,
{
    lines.insert(at, line.to_owned());
    assert(text::views(lines@) == text::views(old(lines)@).insert(at as int, line@));
}

/// Adds a line at the end.
pub(crate) fn push_line(lines: &mut Vec<String>, line: &str)
    ensures
        text::views(final(lines)@) == text::views(old(lines)@).push(line@),
        final(lines)@.len() == old(lines)@.len() + 1,
{
    lines.push(line.to_owned());
    assert(text::views(lines@) == text::views(old(lines)@).push(line@));
}

// ---------------------------------------------------------------------------
// Clean text for entries
// ---------------------------------------------------------------------------

/// A text without the delimiters of comments.
pub open spec fn uncommented(s: Seq<char>) -> Seq<char> {
    text::replaced(text::replaced(s, "<!--"@, ""@), "-->"@, ""@)
}

/// The text of an entry: on one line, without the delimiters of comments,
/// with single spaces, and of at most 700 characters.
pub open spec fn entry_text(value: Seq<char>) -> Seq<char> {
    let compact = text::collapsed(
        uncommented(text::mapped(value, text::among("\r\n"@), " "@)),
    );
    if compact.len() == 0 {
        "Untitled note"@
    } else {
        text::head(compact, 700)
    }
}

/// The text of an attribute: on one line, without quotes or the delimiters of
/// comments, with single spaces, and of at most 48 characters.
pub open spec fn metadata(value: Seq<char>, fallback: Seq<char>) -> Seq<char> {
    let clean = text::collapsed(
        uncommented(text::mapped(value, text::among("\r\n\""@), ""@)),
    );
    if clean.len() == 0 {
        fallback
    } else {
        text::head(clean, 48)
    }
}

fn without_comments(s: &str) -> (r: String)
    ensures
        r@ == uncommented(s@),
{
    proof {
        reveal_strlit("<!--");
        reveal_strlit("-->");
    }
    let once = text::replace(s, "<!--", "");
    text::replace(once.as_str(), "-->", "")
}

/// Cleans the text of an entry.
pub fn sanitize_entry_text(value: &str) -> (r: String)
    ensures
        r@ == entry_text(value@),
{
    let flat = text::replace_chars(value, "\r\n", " ");
    let compact = text::collapse(without_comments(flat.as_str()).as_str());
    if compact.as_str().is_empty() {
        "Untitled note".to_owned()
    } else {
        text::take(compact.as_str(), 700)
    }
}

/// Cleans the text of an attribute.
pub fn sanitize_metadata(value: &str, fallback: &str) -> (r: String)
    ensures
        r@ == metadata(value@, fallback@),
{
    let flat = text::replace_chars(value, "\r\n\"", "");
    let clean = text::collapse(without_comments(flat.as_str()).as_str());
    if clean.as_str().is_empty() {
        fallback.to_owned()
    } else {
        text::take(clean.as_str(), 48)
    }
}

// ---------------------------------------------------------------------------
// Attributes of markers
// ---------------------------------------------------------------------------

/// The number behind the first `name=` of a line.
pub open spec fn number_attribute(line: Seq<char>, name: Seq<char>) -> Option<Binary64> {
    match text::cut(line, name + "="@) {
        Some((_, value)) => number::parsed(text::prefix_of(value, text::among("0123456789.-"@))),
        None => None,
    }
}

/// The quoted text behind the first `name=` of a line.
pub open spec fn text_attribute(line: Seq<char>, name: Seq<char>) -> Option<Seq<char>> {
    match text::cut(line, name + "=\""@) {
        Some((_, rest)) => match text::cut(rest, "\""@) {
            Some((value, _)) => Some(value),
            None => None,
        },
        None => None,
    }
}

/// Reads a number from a marker.
pub fn marker_number(line: &str, name: &str) -> (r: Option<Binary64>)
    ensures
        r == number_attribute(line@, name@),
{
    let mut key: String = name.to_owned();
    key.append("=");
    match text::split_once(line, key.as_str()) {
        Some((_, value)) => number::parse(
            text::leading(value.as_str(), "0123456789.-").as_str(),
        ),
        None => None,
    }
}

/// Reads a quoted text from a marker.
pub fn marker_text(line: &str, name: &str) -> (r: Option<String>)
    ensures
        text::opt(r) == text_attribute(line@, name@),
{
    let mut key: String = name.to_owned();
    key.append("=\"");
    match text::split_once(line, key.as_str()) {
        Some((_, rest)) => match text::split_once(rest.as_str(), "\"") {
            Some((value, _)) => Some(value),
            None => None,
        },
        None => None,
    }
}

/// Whether two times differ by at most a bound.
pub open spec fn within(a: Binary64, b: Binary64, bound: Binary64) -> bool {
    a.difference(b).absolute().le(bound)
}

/// Whether two times differ by at most a bound.
pub fn is_within(a: Binary64, b: Binary64, bound: Binary64) -> (r: bool)
    ensures
        r == within(a, b, bound),
{
    a.sub(b).abs().at_most(bound)
}

/// Whether attributes give a bound of a range, to the second.
pub open spec fn gives_bound(attributes: Seq<char>, name: Seq<char>, bound: Binary64) -> bool {
    number_attribute(attributes, name) matches Some(value) && within(
        value,
        bound,
        number::natural(1),
    )
}

/// Whether a line is the analysis of a range, to the second. The bounds stand
/// in its comment; what the words in front of it hold counts for nothing.
pub open spec fn covers_range(line: Seq<char>, start: Binary64, end: Binary64) -> bool {
    let attributes = entries::comment(line);
    &&& text::contains(line, "framenote:ai:"@)
    &&& gives_bound(attributes, "start"@, start)
    &&& gives_bound(attributes, "end"@, end)
}

/// Whether a line is the analysis of a range.
pub fn ai_range_matches(line: &str, start: Binary64, end: Binary64) -> (r: bool)
    ensures
        r == covers_range(line@, start, end),
{
    let one: Binary64 = Binary64::from_u64(1);
    if !text::has(line, "framenote:ai:") {
        return false;
    }
    let attributes = entries::comment_of(line);
    match (
        marker_number(attributes.as_str(), "start"),
        marker_number(attributes.as_str(), "end"),
    ) {
        (Some(from), Some(to)) => is_within(from, start, one) && is_within(to, end, one),
        _ => false,
    }
}

// ---------------------------------------------------------------------------
// A new sidecar
// ---------------------------------------------------------------------------

/// The sidecar of a video that has none yet.
pub open spec fn fresh(name: Seq<char>) -> Seq<char> {
    "# "@ + name
        + "\n\n<!-- framenote:v1 -->\n<!-- framenote:position seconds=0.000 -->\n\n"@
        + BOOKMARK_HEADING@ + "\n\n"@ + AI_HEADING@ + "\n\n"@ + SUBTITLE_HEADING@ + "\n"@
}

/// Writes the sidecar of a video that has none yet.
pub fn initial_markdown(video_path: &FilePath) -> (r: String)
    ensures
        r@ == fresh(video_path.name_or("Video"@)),
{
    let mut out: String = "# ".to_owned();
    out.append(video_path.name_text("Video").as_str());
    out.append("\n\n<!-- framenote:v1 -->\n<!-- framenote:position seconds=0.000 -->\n\n");
    out.append(BOOKMARK_HEADING);
    out.append("\n\n");
    out.append(AI_HEADING);
    out.append("\n\n");
    out.append(SUBTITLE_HEADING);
    out.append("\n");
    out
}

/// A text that ends with a line feed.
pub open spec fn ended(markdown: Seq<char>) -> Seq<char> {
    if text::has_suffix(markdown, "\n"@) {
        markdown
    } else {
        markdown + "\n"@
    }
}

/// Ends a text with a line feed.
pub fn normalize(markdown: &str) -> (r: String)
    ensures
        r@ == ended(markdown@),
{
    let mut out: String = markdown.to_owned();
    if !text::ends_with(markdown, "\n") {
        out.append("\n");
    }
    out
}

// ---------------------------------------------------------------------------
// The playback position
// ---------------------------------------------------------------------------

/// The position that a line marks.
pub open spec fn marked_position(line: Seq<char>) -> Option<Binary64> {
    match text::without_prefix(text::trimmed(line), POSITION_MARKER@) {
        Some(rest) => match text::without_suffix(rest, " -->"@) {
            Some(value) => number::parsed(value),
            None => None,
        },
        None => None,
    }
}

/// The position that the first line to mark one gives.
pub open spec fn first_position(lines: Seq<Seq<char>>, from: int) -> Option<Binary64>
    decreases lines.len() - from,
{
    if from < 0 || from >= lines.len() {
        None
    } else {
        match marked_position(lines[from]) {
            Some(value) => Some(value),
            None => first_position(lines, from + 1),
        }
    }
}

/// The playback position of a sidecar: the first one marked, zero where it is
/// not a time.
pub open spec fn position_of(markdown: Seq<char>) -> Binary64 {
    match first_position(text::lines_of(markdown), 0) {
        Some(value) if value.finite() && number::zero().le(value) => value,
        _ => number::zero(),
    }
}

/// The line that marks a position.
pub open spec fn position_line(seconds: Binary64) -> Seq<char> {
    POSITION_MARKER@ + clock::from_start(seconds).fixed() + " -->"@
}

/// Where the first marker of a position goes: behind the version marker, else
/// behind the first heading, else to the top.
pub open spec fn position_place(lines: Seq<Seq<char>>) -> int {
    match first(lines, LineTest::Is(VERSION_MARKER@)) {
        Some(i) => i + 1,
        None => match first(lines, LineTest::Begins("#"@)) {
            Some(i) => i + 1,
            None => 0,
        },
    }
}

/// The lines with a position marked: every marker is replaced; where there is
/// none, one is inserted.
pub open spec fn positioned(lines: Seq<Seq<char>>, marker: Seq<char>) -> Seq<Seq<char>> {
    let test = LineTest::Marks(POSITION_MARKER@);
    if any(lines, test) {
        swapped(lines, test, marker)
    } else {
        lines.insert(position_place(lines), marker)
    }
}

fn position_in_line(line: &str) -> (r: Option<Binary64>)
    ensures
        r == marked_position(line@),
{
    match text::strip_prefix(text::trim(line).as_str(), POSITION_MARKER) {
        Some(rest) => match text::strip_suffix(rest.as_str(), " -->") {
            Some(value) => number::parse(value.as_str()),
            None => None,
        },
        None => None,
    }
}

/// Reads the playback position of a sidecar.
pub fn playback_position(markdown: &str) -> (r: Binary64)
    ensures
        r == position_of(markdown@),
{
    let lines = text::lines(markdown);
    let ghost views = text::views(lines@);
    let mut i: usize = 0;
    while i < lines.len()
        invariant
            i <= lines@.len(),
            views == text::views(lines@),
            views == text::lines_of(markdown@),
            first_position(views, i as int) == first_position(views, 0),
        decreases lines@.len() - i,
    {
        assert(views[i as int] == lines@[i as int]@);
        match position_in_line(lines[i].as_str()) {
            Some(value) => {
                let start: Binary64 = Binary64 { bits: 0 };
                return if value.is_finite() && start.at_most(value) {
                    value
                } else {
                    start
                };
            },
            None => {},
        }
        i += 1;
    }
    Binary64 { bits: 0 }
}

/// Marks the playback position in a sidecar.
pub fn with_playback_position(markdown: &str, seconds: Binary64) -> (r: String)
    ensures
        r@ == text::text_of(positioned(text::lines_of(markdown@), position_line(seconds))),
{
    let mut marker: String = POSITION_MARKER.to_owned();
    marker.append(clock::at_start_or_later(seconds).fixed_text().as_str());
    marker.append(" -->");
    let mut lines = text::lines(markdown);
    if any_line(&lines, &Probe::Marks(POSITION_MARKER)) {
        let swapped = swap_lines(&lines, &Probe::Marks(POSITION_MARKER), marker.as_str());
        return text::text(&swapped);
    }
    let at: usize = match find_line(&lines, &Probe::Is(VERSION_MARKER), 0) {
        Some(i) => i + 1,
        None => match find_line(&lines, &Probe::Begins("#"), 0) {
            Some(i) => i + 1,
            None => 0,
        },
    };
    insert_line(&mut lines, at, marker.as_str());
    text::text(&lines)
}

// ---------------------------------------------------------------------------
// Sections
// ---------------------------------------------------------------------------

pub open spec fn blank(line: Seq<char>) -> bool {
    text::trimmed(line).len() == 0
}

/// The end of the lines before `to` and not before `from` that are not blank.
pub open spec fn content_end(lines: Seq<Seq<char>>, from: int, to: int) -> int
    decreases to - from,
{
    if to > from && blank(lines[to - 1]) {
        content_end(lines, from, to - 1)
    } else {
        to
    }
}

/// Where an entry of the section whose heading stands at `heading` goes:
/// behind the last line of the section that is not blank.
pub open spec fn section_end(lines: Seq<Seq<char>>, heading: int) -> int {
    let next = match first_from(lines, LineTest::Opens("## "@), heading + 1) {
        Some(i) => i,
        None => lines.len() as int,
    };
    content_end(lines, heading + 1, next)
}

/// The lines that an entry adds to a sidecar, with the place where they go.
pub open spec fn addition(lines: Seq<Seq<char>>, heading: Seq<char>, line: Seq<char>) -> (
    int,
    Seq<Seq<char>>,
) {
    match first(lines, LineTest::IsHeading(heading)) {
        Some(h) => {
            let at = section_end(lines, h);
            if at == h + 1 {
                (at, seq![""@, line])
            } else {
                (at, seq![line])
            }
        },
        None => if lines.len() > 0 && !blank(lines.last()) {
            (lines.len() as int, seq![""@, heading, ""@, line])
        } else {
            (lines.len() as int, seq![heading, ""@, line])
        },
    }
}

/// The lines with others inserted.
pub open spec fn spliced(lines: Seq<Seq<char>>, at: int, added: Seq<Seq<char>>) -> Seq<Seq<char>> {
    lines.take(at) + added + lines.skip(at)
}

/// The lines with an entry added to a section.
pub open spec fn extended(lines: Seq<Seq<char>>, heading: Seq<char>, line: Seq<char>) -> Seq<
    Seq<char>,
> {
    let (at, added) = addition(lines, heading, line);
    spliced(lines, at, added)
}

/// A sidecar with an entry added to a section.
pub open spec fn appended(markdown: Seq<char>, heading: Seq<char>, line: Seq<char>) -> Seq<char> {
    text::text_of(extended(text::lines_of(markdown), heading, line))
}

/// The content of a section ends within it.
pub proof fn lemma_content_end(lines: Seq<Seq<char>>, from: int, to: int)
    requires
        from <= to,
    ensures
        from <= content_end(lines, from, to) <= to,
    decreases to - from,
{
    if to > from && blank(lines[to - 1]) {
        lemma_content_end(lines, from, to - 1);
    }
}

/// An entry is added at a place within the text.
pub proof fn lemma_addition_place(lines: Seq<Seq<char>>, heading: Seq<char>, line: Seq<char>)
    ensures
        0 <= addition(lines, heading, line).0 <= lines.len(),
{
    lemma_first(lines, LineTest::IsHeading(heading), 0);
    match first(lines, LineTest::IsHeading(heading)) {
        Some(h) => {
            lemma_first(lines, LineTest::Opens("## "@), h + 1);
            let next = match first_from(lines, LineTest::Opens("## "@), h + 1) {
                Some(i) => i,
                None => lines.len() as int,
            };
            lemma_content_end(lines, h + 1, next);
        },
        None => {},
    }
}

fn is_blank(line: &str) -> (r: bool)
    ensures
        r == blank(line@),
{
    text::trim(line).as_str().is_empty()
}

/// Adds an entry to a section of a sidecar.
#[verifier::rlimit(40)]
pub fn append_to_section(markdown: &str, heading: &str, line: &str) -> (r: String)
    ensures
        r@ == appended(markdown@, heading@, line@),
{
    let mut lines = text::lines(markdown);
    let ghost before = text::views(lines@);
    proof {
        lemma_addition_place(before, heading@, line@);
    }
    match find_line(&lines, &Probe::IsHeading(heading), 0) {
        Some(h) => {
            let next: usize = match find_line(&lines, &Probe::Opens("## "), h + 1) {
                Some(i) => i,
                None => lines.len(),
            };
            let mut at: usize = next;
            while at > h + 1 && is_blank(lines[at - 1].as_str())
                invariant
                    h + 1 <= at <= lines@.len(),
                    before == text::views(lines@),
                    content_end(before, h + 1, at as int) == content_end(
                        before,
                        h + 1,
                        next as int,
                    ),
                decreases at,
            {
                assert(before[at - 1] == lines@[at - 1]@);
                at -= 1;
            }
            proof {
                if at > h + 1 {
                    assert(before[at - 1] == lines@[at - 1]@);
                }
                assert(at == section_end(before, h as int));
            }
            if at == h + 1 {
                insert_line(&mut lines, at, "");
                let total: usize = lines.len();
                assert(at < total);
                insert_line(&mut lines, at + 1, line);
                assert(text::views(lines@) == spliced(before, at as int, seq![""@, line@]));
            } else {
                insert_line(&mut lines, at, line);
                assert(text::views(lines@) == spliced(before, at as int, seq![line@]));
            }
        },
        None => {
            let n: usize = lines.len();
            if n > 0 {
                assert(before.last() == lines@[n - 1]@);
            }
            if n > 0 && !is_blank(lines[n - 1].as_str()) {
                push_line(&mut lines, "");
                push_line(&mut lines, heading);
                push_line(&mut lines, "");
                push_line(&mut lines, line);
                assert(text::views(lines@) == spliced(
                    before,
                    n as int,
                    seq![""@, heading@, ""@, line@],
                ));
            } else {
                push_line(&mut lines, heading);
                push_line(&mut lines, "");
                push_line(&mut lines, line);
                assert(text::views(lines@) == spliced(
                    before,
                    n as int,
                    seq![heading@, ""@, line@],
                ));
            }
        },
    }
    text::text(&lines)
}

} // verus!
