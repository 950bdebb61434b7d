//! Entries of a sidecar: bookmarks, subtitles and generated summaries.

use vstd::prelude::*;

use crate::chapters;
use crate::clock;
use crate::ids;
use crate::markdown;
use crate::number;
use crate::number::Binary64;
use crate::text;

verus! {

/// A sidecar to which an entry was added or in which one was ended.
pub struct AddedEntry {
    pub markdown: String,
    pub entry_id: String,
}

/// The content of a result that holds an entry: the sidecar and the identifier.
pub open spec fn told_entry(r: Result<AddedEntry, String>) -> Result<
    (Seq<char>, Seq<char>),
    Seq<char>,
> {
    match r {
        Ok(entry) => Ok((entry.markdown@, entry.entry_id@)),
        Err(message) => Err(message@),
    }
}

/// A time, held at or after the start; what is not a time counts as the start.
pub open spec fn usable_time(seconds: Binary64) -> Binary64 {
    if seconds.finite() {
        clock::from_start(seconds)
    } else {
        number::zero()
    }
}

pub(crate) fn time_or_start(seconds: Binary64) -> (r: Binary64)
    ensures
        r == usable_time(seconds),
{
    if seconds.is_finite() {
        clock::at_start_or_later(seconds)
    } else {
        Binary64 { bits: 0 }
    }
}

// ---------------------------------------------------------------------------
// Bookmarks
// ---------------------------------------------------------------------------

/// The line of a bookmark at a point.
pub open spec fn mark_line(id: Seq<char>, start: Binary64) -> Seq<char> {
    "- ["@ + clock::precise(start) + "] New mark <!-- framenote:bookmark:"@ + id + " start="@
        + start.fixed() + " -->"@
}

/// The line of a bookmark over a range.
pub open spec fn range_line(text: Seq<char>, id: Seq<char>, start: Binary64, end: Binary64) -> Seq<
    char,
> {
    "- ["@ + clock::precise(start) + "–"@ + clock::precise(end) + "] "@ + text
        + " <!-- framenote:bookmark:"@ + id + " start="@ + start.fixed() + " end="@ + end.fixed()
        + " -->"@
}

fn write_range_line(text: &str, id: &str, start: Binary64, end: Binary64) -> (r: String)
    ensures
        r@ == range_line(text@, id@, start, end),
{
    let mut out: String = "- [".to_owned();
    out.append(clock::format_precise_timestamp(start).as_str());
    out.append("–");
    out.append(clock::format_precise_timestamp(end).as_str());
    out.append("] ");
    out.append(text);
    out.append(" <!-- framenote:bookmark:");
    out.append(id);
    out.append(" start=");
    out.append(start.fixed_text().as_str());
    out.append(" end=");
    out.append(end.fixed_text().as_str());
    out.append(" -->");
    out
}

/// Adds a bookmark under an identifier.
pub fn add_bookmark_as(markdown: &str, timestamp_seconds: Binary64, id: &str) -> (r: String)
    ensures
        r@ == markdown::appended(
            markdown@,
            markdown::BOOKMARK_HEADING@,
            mark_line(id@, usable_time(timestamp_seconds)),
        ),
{
    let start: Binary64 = time_or_start(timestamp_seconds);
    let mut line: String = "- [".to_owned();
    line.append(clock::format_precise_timestamp(start).as_str());
    line.append("] New mark <!-- framenote:bookmark:");
    line.append(id);
    line.append(" start=");
    line.append(start.fixed_text().as_str());
    line.append(" -->");
    markdown::append_to_section(markdown, markdown::BOOKMARK_HEADING, line.as_str())
}

/// Adds a bookmark under a new identifier.
pub fn add_bookmark(markdown: &str, timestamp_seconds: Binary64) -> (r: AddedEntry)
    ensures
        ids::is_uuid(r.entry_id@),
        r.markdown@ == markdown::appended(
            markdown@,
            markdown::BOOKMARK_HEADING@,
            mark_line(r.entry_id@, usable_time(timestamp_seconds)),
        ),
{
    let id = ids::new_uuid();
    AddedEntry {
        markdown: add_bookmark_as(markdown, timestamp_seconds, id.as_str()),
        entry_id: id,
    }
}

/// The bounds of a new bookmark over a range.
pub open spec fn mark_bounds(start: Binary64, end: Binary64) -> Result<
    (Binary64, Binary64),
    Seq<char>,
> {
    if !start.finite() || !end.finite() {
        Err("The selected mark range is not valid."@)
    } else if end.le(clock::from_start(start)) {
        Err("Drag across the waveform to select a mark range."@)
    } else {
        Ok((clock::from_start(start), end))
    }
}

/// A sidecar with a bookmark over a range added.
pub open spec fn range_added(markdown: Seq<char>, start: Binary64, end: Binary64, id: Seq<char>) -> Result<
    Seq<char>,
    Seq<char>,
> {
    match mark_bounds(start, end) {
        Ok((start, end)) => Ok(
            markdown::appended(
                markdown,
                markdown::BOOKMARK_HEADING@,
                range_line("New mark"@, id, start, end),
            ),
        ),
        Err(message) => Err(message),
    }
}

/// Adds a bookmark over a range under an identifier.
pub fn add_bookmark_range_as(
    markdown: &str,
    start_seconds: Binary64,
    end_seconds: Binary64,
    id: &str,
) -> (r: Result<String, String>)
    ensures
        text::told(r) == range_added(markdown@, start_seconds, end_seconds, id@),
{
    if !start_seconds.is_finite() || !end_seconds.is_finite() {
        return Err("The selected mark range is not valid.".to_owned());
    }
    let start: Binary64 = clock::at_start_or_later(start_seconds);
    if end_seconds.at_most(start) {
        return Err("Drag across the waveform to select a mark range.".to_owned());
    }
    let line = write_range_line("New mark", id, start, end_seconds);
    Ok(markdown::append_to_section(markdown, markdown::BOOKMARK_HEADING, line.as_str()))
}

/// Adds a bookmark over a range under a new identifier.
pub fn add_bookmark_range(
    markdown: &str,
    start_seconds: Binary64,
    end_seconds: Binary64,
) -> (r: Result<AddedEntry, String>)
    ensures
        match r {
            Ok(entry) => ids::is_uuid(entry.entry_id@) && range_added(
                markdown@,
                start_seconds,
                end_seconds,
                entry.entry_id@,
            ) == Ok::<Seq<char>, Seq<char>>(entry.markdown@),
            Err(message) => mark_bounds(start_seconds, end_seconds) == Err::<
                (Binary64, Binary64),
                Seq<char>,
            >(message@),
        },
{
    let id = ids::new_uuid();
    match add_bookmark_range_as(markdown, start_seconds, end_seconds, id.as_str()) {
        Ok(markdown) => Ok(AddedEntry { markdown, entry_id: id }),
        Err(message) => Err(message),
    }
}

/// The start of a bookmark that a line holds and that has no end yet. Markers
/// of a video are points and stay so.
#[verifier::opaque]
pub open spec fn open_start(line: Seq<char>) -> Option<Binary64> {
    if !text::contains(line, "framenote:bookmark:"@) || text::contains(
        comment(line),
        "source=embedded-chapter"@,
    ) || markdown::number_attribute(comment(line), "end"@) is Some {
        None
    } else {
        match chapters::bracketed(line) {
            Some(inside) if !text::meets(inside, "–—"@) => match markdown::number_attribute(
                comment(line),
                "start"@,
            ) {
                Some(value) => Some(value),
                None => clock::stamp_value(text::trimmed(inside)),
            },
            _ => None,
        }
    }
}

/// Reads the start of a bookmark that has no end yet.
pub fn open_bookmark_start(line: &str) -> (r: Option<Binary64>)
    ensures
        r == open_start(line@),
{
    reveal(open_start);
    let attributes = comment_of(line);
    if !text::has(line, "framenote:bookmark:") || text::has(
        attributes.as_str(),
        "source=embedded-chapter",
    ) || markdown::marker_number(attributes.as_str(), "end").is_some() {
        return None;
    }
    match chapters::bracket_text(line) {
        Some(inside) => {
            if text::has_any(inside.as_str(), "–—") {
                return None;
            }
            match markdown::marker_number(attributes.as_str(), "start") {
                Some(value) => Some(value),
                None => clock::parse_subtitle_timestamp(text::trim(inside.as_str()).as_str()),
            }
        },
        None => None,
    }
}

/// Whether a line holds an open bookmark that starts no later than a time.
pub open spec fn endable(line: Seq<char>, end: Binary64) -> bool {
    open_start(line) matches Some(start) && start.le(end)
}

/// Among the first `n` lines, the open bookmark to end at a time: the one that
/// starts last, and of those the last one.
pub open spec fn latest_open(lines: Seq<Seq<char>>, end: Binary64, n: nat) -> Option<int>
    decreases n,
{
    if n == 0 {
        None
    } else {
        let before = latest_open(lines, end, (n - 1) as nat);
        if !endable(lines[n - 1], end) {
            before
        } else {
            match before {
                Some(i) if open_start(lines[n - 1])->0.rank() < open_start(lines[i])->0.rank()
                    => before,
                _ => Some(n - 1),
            }
        }
    }
}

/// The class of the characters of an identifier.
pub open spec fn id_class() -> spec_fn(char) -> bool {
    |c: char| text::is_alphanumeric(c) || c == '-'
}

/// Whether a text can be an identifier: letters, digits and hyphens.
pub open spec fn is_identifier(id: Seq<char>) -> bool {
    text::all_in(id, id_class())
}

/// The identifier of the bookmark that a line holds.
pub open spec fn bookmark_id(line: Seq<char>) -> Seq<char> {
    match text::cut(line, "framenote:bookmark:"@) {
        Some((_, value)) => text::prefix_of(value, id_class()),
        None => Seq::empty(),
    }
}

/// Where the text of an entry ends: before its comment.
pub open spec fn text_end(line: Seq<char>) -> int {
    match text::find(line, "<!--"@) {
        Some(i) => i,
        None => line.len() as int,
    }
}

/// The text of an entry: between its bracket and its comment.
pub open spec fn entry_body(line: Seq<char>) -> Seq<char> {
    line.subrange(text::find(line, "]"@)->0 + 1, text_end(line))
}

/// Whether a comment opens at a position: one that its own hyphens do not close.
pub open spec fn opens_at(line: Seq<char>, i: int) -> bool {
    &&& text::occurs_at(line, "<!--"@, i)
    &&& !text::occurs_at(line, "<!-->"@, i)
    &&& !text::occurs_at(line, "<!--->"@, i)
}

/// The first position from one on at which a comment opens.
pub open spec fn opening(line: Seq<char>, from: int) -> Option<int>
    decreases line.len() - from,
{
    if from < 0 || from >= line.len() {
        None
    } else if opens_at(line, from) {
        Some(from)
    } else {
        opening(line, from + 1)
    }
}

/// What carries the attributes of an entry: the line from its comment on, or
/// the whole line where it has none.
pub open spec fn comment(line: Seq<char>) -> Seq<char> {
    match opening(line, 0) {
        Some(i) => line.skip(i),
        None => line,
    }
}

/// `opening` gives the least position at which a comment opens, and `None`
/// exactly when none does.
pub proof fn lemma_opening(line: Seq<char>, from: int)
    requires
        0 <= from,
    ensures
        match opening(line, from) {
            Some(i) => from <= i < line.len() && opens_at(line, i) && forall|j: int|
                from <= j < i ==> !opens_at(line, j),
            None => forall|j: int| from <= j ==> !opens_at(line, j),
        },
    decreases line.len() - from,
{
    reveal_strlit("<!--");
    if from < line.len() && !opens_at(line, from) {
        lemma_opening(line, from + 1);
    }
}

/// Where a comment opens with a space behind it, and none in front of it, it
/// carries the attributes.
pub proof fn lemma_comment(line: Seq<char>)
    requires
        text::find(line, "<!--"@) matches Some(i) && i + 4 < line.len() && line[i + 4] == ' ',
    ensures
        comment(line) == line.skip(text::find(line, "<!--"@)->0),
{
    reveal_strlit("<!--");
    reveal_strlit("<!-->");
    reveal_strlit("<!--->");
    let i = text::find(line, "<!--"@)->0;
    text::lemma_find(line, "<!--"@);
    lemma_opening(line, 0);
    if text::occurs_at(line, "<!-->"@, i) {
        assert(line.subrange(i, i + 5)[4] == ' ');
    }
    if text::occurs_at(line, "<!--->"@, i) {
        assert(line.subrange(i, i + 6)[4] == ' ');
    }
    assert(opens_at(line, i));
}

/// Whether the comment of an entry stands behind its bracket.
pub open spec fn is_ordered(line: Seq<char>) -> bool {
    text::find(line, "]"@) matches Some(i) ==> i < text_end(line)
}

/// The line of a bookmark that is ended.
pub open spec fn ended_line(line: Seq<char>, start: Binary64, end: Binary64) -> Seq<char> {
    range_line(
        markdown::entry_text(text::trimmed(entry_body(line))),
        bookmark_id(line),
        start,
        end,
    )
}

/// A sidecar in which the open bookmark before a time is ended, and its
/// identifier.
pub open spec fn bookmark_ended(markdown: Seq<char>, seconds: Binary64) -> Result<
    (Seq<char>, Seq<char>),
    Seq<char>,
> {
    let end = clock::from_start(seconds);
    let lines = text::lines_of(markdown);
    if !seconds.finite() {
        Err("The current playback time is not valid."@)
    } else {
        match latest_open(lines, end, lines.len()) {
            None => Err("No open mark starts before the current playback time."@),
            Some(i) => {
                let start = open_start(lines[i])->0;
                if end.le(start) {
                    Err("Move past the mark start before ending it."@)
                } else if bookmark_id(lines[i]).len() == 0 {
                    Err("The open mark has an invalid identifier."@)
                } else {
                    Ok(
                        (
                            text::text_of(
                                lines.update(i, ended_line(lines[i], start, end)),
                            ),
                            bookmark_id(lines[i]),
                        ),
                    )
                }
            },
        }
    }
}

/// Whether the bookmark that is ended at a time, where one is, has its comment
/// behind its bracket.
pub open spec fn can_end(markdown: Seq<char>, seconds: Binary64) -> bool {
    let end = clock::from_start(seconds);
    let lines = text::lines_of(markdown);
    bookmark_ended(markdown, seconds) is Ok ==> is_ordered(
        lines[latest_open(lines, end, lines.len())->0],
    )
}

proof fn lemma_latest_open(lines: Seq<Seq<char>>, end: Binary64, n: nat)
    requires
        n <= lines.len(),
    ensures
        match latest_open(lines, end, n) {
            Some(i) => 0 <= i < n && endable(lines[i], end) && forall|j: int|
                0 <= j < n && endable(#[trigger] lines[j], end) ==> open_start(lines[j])->0.rank()
                    <= open_start(lines[i])->0.rank(),
            None => forall|j: int| 0 <= j < n ==> !endable(#[trigger] lines[j], end),
        },
    decreases n,
{
    if n > 0 {
        lemma_latest_open(lines, end, (n - 1) as nat);
    }
}

/// The bookmark that is ended is open, starts no later than the time, and no
/// other such bookmark starts after it.
pub proof fn law_nearest_open_mark_is_ended(lines: Seq<Seq<char>>, end: Binary64)
    ensures
        match latest_open(lines, end, lines.len()) {
            Some(i) => 0 <= i < lines.len() && endable(lines[i], end) && forall|j: int|
                0 <= j < lines.len() && endable(#[trigger] lines[j], end) ==> open_start(
                    lines[j],
                )->0.rank() <= open_start(lines[i])->0.rank(),
            None => forall|j: int| 0 <= j < lines.len() ==> !endable(#[trigger] lines[j], end),
        },
{
    lemma_latest_open(lines, end, lines.len());
}

fn find_open(lines: &Vec<String>, end: Binary64) -> (r: Option<(usize, Binary64)>)
    ensures
        match r {
            Some((i, start)) => i < lines@.len() && latest_open(
                text::views(lines@),
                end,
                lines@.len(),
            ) == Some(i as int) && open_start(lines@[i as int]@) == Some(start),
            None => latest_open(text::views(lines@), end, lines@.len()) is None,
        },
{
    let ghost views = text::views(lines@);
    let mut best: Option<(usize, Binary64)> = None;
    let mut k: usize = 0;
    while k < lines.len()
        invariant
            k <= lines@.len(),
            views == text::views(lines@),
            match best {
                Some((i, start)) => i < k && latest_open(views, end, k as nat) == Some(i as int)
                    && open_start(lines@[i as int]@) == Some(start),
                None => latest_open(views, end, k as nat) is None,
            },
        decreases lines@.len() - k,
    {
        assert(views[k as int] == lines@[k as int]@);
        match open_bookmark_start(lines[k].as_str()) {
            Some(start) => {
                if start.at_most(end) {
                    let keep: bool = match best {
                        Some((i, found)) => {
                            assert(views[i as int] == lines@[i as int]@);
                            start.ranks_before(found)
                        },
                        None => false,
                    };
                    if !keep {
                        best = Some((k, start));
                    }
                }
            },
            None => {},
        }
        k += 1;
    }
    best
}

fn id_of(line: &str) -> (r: String)
    ensures
        r@ == bookmark_id(line@),
{
    match text::split_once(line, "framenote:bookmark:") {
        Some((_, value)) => {
            let chars = text::chars_of(value.as_str());
            let mut i: usize = 0;
            assert(chars@.skip(0) == chars@);
            while i < chars.len() && (text::alphanumeric(chars[i]) || chars[i] == '-')
                invariant
                    i <= chars@.len(),
                    text::run(chars@, id_class()) == i + text::run(
                        chars@.skip(i as int),
                        id_class(),
                    ),
                decreases chars@.len() - i,
            {
                assert(chars@.skip(i as int).skip(1) == chars@.skip(i + 1));
                i += 1;
            }
            assert(chars@.take(i as int) == chars@.subrange(0, i as int));
            text::slice(&chars, 0, i)
        },
        None => String::new(),
    }
}

/// Whether the bookmark that is ended at a time, where one is, has its comment
/// behind its bracket.
pub fn can_end_bookmark(markdown: &str, timestamp_seconds: Binary64) -> (r: bool)
    ensures
        r == can_end(markdown@, timestamp_seconds),
{
    if !timestamp_seconds.is_finite() {
        return true;
    }
    let lines = text::lines(markdown);
    let end: Binary64 = clock::at_start_or_later(timestamp_seconds);
    match find_open(&lines, end) {
        Some((i, start)) => {
            assert(text::views(lines@)[i as int] == lines@[i as int]@);
            let line = lines[i].as_str();
            if end.at_most(start) || id_of(line).as_str().is_empty() {
                return true;
            }
            let until: usize = end_of_text(line);
            match text::position(line, "]") {
                Some(close) => close < until,
                None => true,
            }
        },
        None => true,
    }
}

pub(crate) fn end_of_text(line: &str) -> (r: usize)
    ensures
        r == text_end(line@),
        r <= line@.len(),
{
    match text::position(line, "<!--") {
        Some(i) => i,
        None => text::length(line),
    }
}

pub(crate) fn comment_of(line: &str) -> (r: String)
    ensures
        r@ == comment(line@),
{
    let chars = text::chars_of(line);
    let opener = text::chars_of("<!--");
    let short = text::chars_of("<!-->");
    let closed = text::chars_of("<!--->");
    let n: usize = chars.len();
    let mut i: usize = 0;
    while i < n
        invariant
            i <= n,
            n == chars@.len(),
            chars@ == line@,
            opener@ == "<!--"@,
            short@ == "<!-->"@,
            closed@ == "<!--->"@,
            opening(line@, 0) == opening(line@, i as int),
        decreases n - i,
    {
        if text::stands_at(&chars, &opener, i) && !text::stands_at(&chars, &short, i)
            && !text::stands_at(&chars, &closed, i) {
            let rest = text::slice(&chars, i, n);
            assert(rest@ =~= line@.skip(i as int));
            return rest;
        }
        i += 1;
    }
    line.to_owned()
}

/// Ends the open bookmark that starts last before a time.
pub fn end_bookmark(markdown: &str, timestamp_seconds: Binary64) -> (r: Result<AddedEntry, String>)
    requires
        can_end(markdown@, timestamp_seconds),
    ensures
        told_entry(r) == bookmark_ended(markdown@, timestamp_seconds),
{
    if !timestamp_seconds.is_finite() {
        return Err("The current playback time is not valid.".to_owned());
    }
    let end: Binary64 = clock::at_start_or_later(timestamp_seconds);
    let mut lines = text::lines(markdown);
    let ghost views = text::views(lines@);
    let (index, start) = match find_open(&lines, end) {
        Some((i, start)) => (i, start),
        None => {
            return Err("No open mark starts before the current playback time.".to_owned());
        },
    };
    assert(views[index as int] == lines@[index as int]@);
    if end.at_most(start) {
        return Err("Move past the mark start before ending it.".to_owned());
    }
    let line = lines[index].clone();
    let id = id_of(line.as_str());
    if id.as_str().is_empty() {
        return Err("The open mark has an invalid identifier.".to_owned());
    }
    let until: usize = end_of_text(line.as_str());
    let close: usize = match text::position(line.as_str(), "]") {
        Some(close) => close,
        None => {
            proof {
                lemma_open_has_bracket(line@);
            }
            return Err("The open mark has an invalid timestamp.".to_owned());
        },
    };
    let body = text::part(line.as_str(), close + 1, until);
    let clean = markdown::sanitize_entry_text(text::trim(body.as_str()).as_str());
    let replacement = write_range_line(clean.as_str(), id.as_str(), start, end);
    lines.set(index, replacement);
    assert(text::views(lines@) == views.update(
        index as int,
        ended_line(views[index as int], start, end),
    ));
    Ok(AddedEntry { markdown: text::text(&lines), entry_id: id })
}

proof fn lemma_open_has_bracket(line: Seq<char>)
    requires
        open_start(line) is Some,
    ensures
        text::find(line, "]"@) is Some,
{
    reveal(open_start);
    text::lemma_find(line, "["@);
    let i = text::find(line, "["@)->0;
    let rest = line.skip(i + "["@.len());
    text::lemma_find(rest, "]"@);
    let j = text::find(rest, "]"@)->0;
    let n = i + "["@.len();
    assert(line.subrange(n + j, n + j + "]"@.len()) == rest.subrange(j, j + "]"@.len()));
    assert(text::occurs_at(line, "]"@, n + j));
    text::lemma_find(line, "]"@);
}

// ---------------------------------------------------------------------------
// Entries of any kind
// ---------------------------------------------------------------------------

/// Whether a line holds the entry of an identifier.
pub open spec fn holds_entry(line: Seq<char>, id: Seq<char>) -> bool {
    ||| text::contains(line, "framenote:bookmark:"@ + id)
    ||| text::contains(line, "framenote:ai:"@ + id)
    ||| text::contains(line, "framenote:subtitle:"@ + id)
}

/// The markers of an identifier.
pub struct Markers {
    bookmark: String,
    summary: String,
    subtitle: String,
}

impl Markers {
    pub closed spec fn id(&self) -> Seq<char> {
        self.bookmark@.skip("framenote:bookmark:"@.len() as int)
    }

    pub closed spec fn wf(&self) -> bool {
        &&& self.bookmark@ == "framenote:bookmark:"@ + self.id()
        &&& self.summary@ == "framenote:ai:"@ + self.id()
        &&& self.subtitle@ == "framenote:subtitle:"@ + self.id()
    }

    /// The markers of an identifier.
    pub fn new(id: &str) -> (r: Markers)
        ensures
            r.wf(),
            r.id() == id@,
    {
        let mut bookmark: String = "framenote:bookmark:".to_owned();
        bookmark.append(id);
        let mut summary: String = "framenote:ai:".to_owned();
        summary.append(id);
        let mut subtitle: String = "framenote:subtitle:".to_owned();
        subtitle.append(id);
        assert(bookmark@.skip("framenote:bookmark:"@.len() as int) == id@);
        Markers { bookmark, summary, subtitle }
    }

    /// Whether a line holds the entry.
    pub fn mark(&self, line: &str) -> (r: bool)
        requires
            self.wf(),
        ensures
            r == holds_entry(line@, self.id()),
    {
        text::has(line, self.bookmark.as_str()) || text::has(line, self.summary.as_str())
            || text::has(line, self.subtitle.as_str())
    }
}

/// A line with the text of its entry replaced. A line without a bracket or a
/// comment stays as it is.
pub open spec fn reworded(line: Seq<char>, words: Seq<char>) -> Seq<char> {
    match (text::find(line, "]"@), text::find(line, "<!--"@)) {
        (Some(close), Some(comment)) => line.take(close + 1) + " "@ + words + " "@ + text::trimmed(
            line.skip(comment),
        ),
        _ => line,
    }
}

/// The lines with the text of an entry replaced.
pub open spec fn rewritten(lines: Seq<Seq<char>>, id: Seq<char>, words: Seq<char>) -> Seq<
    Seq<char>,
> {
    Seq::new(
        lines.len(),
        |i: int|
            if holds_entry(lines[i], id) {
                reworded(lines[i], words)
            } else {
                lines[i]
            },
    )
}

/// Whether any line holds the entry of an identifier.
pub open spec fn has_entry(lines: Seq<Seq<char>>, id: Seq<char>) -> bool {
    exists|i: int| 0 <= i < lines.len() && holds_entry(#[trigger] lines[i], id)
}

/// A sidecar with the text of an entry replaced.
pub open spec fn entry_updated(markdown: Seq<char>, id: Seq<char>, words: Seq<char>) -> Result<
    Seq<char>,
    Seq<char>,
> {
    let lines = text::lines_of(markdown);
    if has_entry(lines, id) {
        Ok(text::text_of(rewritten(lines, id, markdown::entry_text(words))))
    } else {
        Err("That entry was changed outside FrameNote. Reload the Markdown and try again."@)
    }
}

fn reword(line: &str, words: &str) -> (r: String)
    ensures
        r@ == reworded(line@, words@),
{
    match (text::position(line, "]"), text::position(line, "<!--")) {
        (Some(close), Some(comment)) => {
            proof {
                reveal_strlit("]");
            }
            let total: usize = text::length(line);
            let mut out: String = text::part(line, 0, close + 1);
            let rest = text::part(line, comment, total);
            assert(out@ == line@.take(close + 1));
            assert(rest@ == line@.skip(comment as int));
            out.append(" ");
            out.append(words);
            out.append(" ");
            out.append(text::trim(rest.as_str()).as_str());
            out
        },
        _ => line.to_owned(),
    }
}

/// Replaces the text of an entry.
pub fn update_entry(markdown: &str, entry_id: &str, words: &str) -> (r: Result<String, String>)
    ensures
        text::told(r) == entry_updated(markdown@, entry_id@, words@),
{
    let markers = Markers::new(entry_id);
    let cleaned = markdown::sanitize_entry_text(words);
    let lines = text::lines(markdown);
    let ghost views = text::views(lines@);
    let mut out: Vec<String> = Vec::new();
    let mut found: bool = false;
    let mut i: usize = 0;
    while i < lines.len()
        invariant
            i <= lines@.len(),
            views == text::views(lines@),
            markers.wf(),
            markers.id() == entry_id@,
            out@.len() == i,
            found == exists|j: int| 0 <= j < i && holds_entry(#[trigger] views[j], entry_id@),
            forall|j: int|
                0 <= j < i ==> #[trigger] out@[j]@ == rewritten(views, entry_id@, cleaned@)[j],
        decreases lines@.len() - i,
    {
        assert(views[i as int] == lines@[i as int]@);
        if markers.mark(lines[i].as_str()) {
            found = true;
            out.push(reword(lines[i].as_str(), cleaned.as_str()));
        } else {
            out.push(lines[i].clone());
        }
        i += 1;
    }
    if !found {
        return Err(
            "That entry was changed outside FrameNote. Reload the Markdown and try again.".to_owned(),
        );
    }
    assert(text::views(out@) == rewritten(views, entry_id@, cleaned@));
    Ok(text::text(&out))
}

/// The first `n` lines but for those that hold the entry of an identifier.
pub open spec fn without_entry(lines: Seq<Seq<char>>, id: Seq<char>, n: nat) -> Seq<Seq<char>>
    decreases n,
{
    if n == 0 {
        Seq::empty()
    } else {
        let before = without_entry(lines, id, (n - 1) as nat);
        if holds_entry(lines[n - 1], id) {
            before
        } else {
            before.push(lines[n - 1])
        }
    }
}

/// A sidecar without an entry.
pub open spec fn entry_deleted(markdown: Seq<char>, id: Seq<char>) -> Seq<char> {
    let lines = text::lines_of(markdown);
    markdown::ended(text::joined(without_entry(lines, id, lines.len()), "\n"@))
}

/// Deletes an entry.
pub fn delete_entry(markdown: &str, entry_id: &str) -> (r: String)
    ensures
        r@ == entry_deleted(markdown@, entry_id@),
{
    let markers = Markers::new(entry_id);
    let lines = text::lines(markdown);
    let ghost views = text::views(lines@);
    let mut out: Vec<String> = Vec::new();
    let mut i: usize = 0;
    assert(text::views(out@) == without_entry(views, entry_id@, 0));
    while i < lines.len()
        invariant
            i <= lines@.len(),
            views == text::views(lines@),
            markers.wf(),
            markers.id() == entry_id@,
            text::views(out@) == without_entry(views, entry_id@, i as nat),
        decreases lines@.len() - i,
    {
        assert(views[i as int] == lines@[i as int]@);
        if !markers.mark(lines[i].as_str()) {
            markdown::push_line(&mut out, lines[i].as_str());
        }
        i += 1;
    }
    let joined = text::join(&out, "\n");
    markdown::normalize(joined.as_str())
}

} // verus!
