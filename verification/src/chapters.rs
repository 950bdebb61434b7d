//! Chapter markers that a video carries, and their import into its sidecar.

use vstd::prelude::*;

use crate::arguments;
use crate::clock;
use crate::digits;
use crate::json;
use crate::json::Json;
use crate::json::Tree;
use crate::entries;
use crate::markdown;
use crate::number;
use crate::number::Binary64;
use crate::text;

verus! {

pub const EMBEDDED_CHAPTER_IMPORT_VERSION: &'static str = "embedded-chapters-v1";

/// A chapter marker of a video.
pub struct EmbeddedChapter {
    /// The place of the marker among those of the video.
    pub source_index: usize,
    pub start_seconds: Binary64,
    pub title: String,
}

/// The content of a chapter marker.
pub struct Chapter {
    pub source_index: nat,
    pub start: Binary64,
    pub title: Seq<char>,
}

impl View for EmbeddedChapter {
    type V = Chapter;

    open spec fn view(&self) -> Chapter {
        Chapter {
            source_index: self.source_index as nat,
            start: self.start_seconds,
            title: self.title@,
        }
    }
}

/// The content of chapter markers.
pub open spec fn chapters_of(chapters: Seq<EmbeddedChapter>) -> Seq<Chapter> {
    Seq::new(chapters.len(), |i: int| chapters[i]@)
}

// ---------------------------------------------------------------------------
// Reading the markers of a video
// ---------------------------------------------------------------------------

/// The start of a chapter: a number, by its text or as it is.
pub open spec fn chapter_start(tree: Tree) -> Option<Binary64> {
    let value = json::field(Some(tree), "start_time"@);
    match json::string(value) {
        Some(s) => number::parsed(s),
        None => json::numeric(value),
    }
}

/// The title of a chapter, or the words that stand for it.
pub open spec fn chapter_title(tree: Tree, place: int) -> Seq<char> {
    let fallback = "Embedded marker "@ + digits::decimal((place + 1) as nat);
    match json::string(json::field(json::field(Some(tree), "tags"@), "title"@)) {
        Some(s) if text::trimmed(markdown::entry_text(s)).len() > 0 => markdown::entry_text(s),
        _ => fallback,
    }
}

/// The chapter that an item describes, where its start is a time.
pub open spec fn chapter(tree: Tree, place: int) -> Option<Chapter> {
    match chapter_start(tree) {
        Some(start) if start.finite() && !start.lt(number::zero()) => Some(
            Chapter { source_index: place as nat, start, title: chapter_title(tree, place) },
        ),
        _ => None,
    }
}

/// The place of a chapter among sorted ones: behind those that do not start
/// later.
pub open spec fn slot(chapters: Seq<Chapter>, start: Binary64, n: nat) -> nat
    decreases n,
{
    if n > 0 && start.rank() < chapters[n - 1].start.rank() {
        slot(chapters, start, (n - 1) as nat)
    } else {
        n
    }
}

/// The chapters of the first `n` items, by their start, those that start
/// together in the order of the items.
pub open spec fn sorted_chapters(items: Seq<Tree>, n: nat) -> Seq<Chapter>
    decreases n,
{
    if n == 0 {
        Seq::empty()
    } else {
        let before = sorted_chapters(items, (n - 1) as nat);
        match chapter(items[n - 1], n - 1) {
            Some(c) => before.insert(slot(before, c.start, before.len()) as int, c),
            None => before,
        }
    }
}

/// The chapters of a description of a video.
pub open spec fn described_chapters(tree: Tree) -> Seq<Chapter> {
    let items = json::items(json::field(Some(tree), "chapters"@));
    sorted_chapters(items, items.len())
}

proof fn lemma_slot(chapters: Seq<Chapter>, start: Binary64, n: nat)
    ensures
        slot(chapters, start, n) <= n,
        forall|i: int|
            slot(chapters, start, n) <= i < n ==> start.rank() < (
            #[trigger] chapters[i]).start.rank(),
        slot(chapters, start, n) > 0 ==> chapters[slot(chapters, start, n) - 1].start.rank()
            <= start.rank(),
    decreases n,
{
    if n > 0 && start.rank() < chapters[n - 1].start.rank() {
        lemma_slot(chapters, start, (n - 1) as nat);
    }
}

/// The imported chapters are sorted by their start.
pub proof fn law_chapters_are_sorted(items: Seq<Tree>, n: nat)
    ensures
        forall|i: int, j: int|
            0 <= i <= j < sorted_chapters(items, n).len() ==> (
            #[trigger] sorted_chapters(items, n)[i]).start.rank() <= (
            #[trigger] sorted_chapters(items, n)[j]).start.rank(),
    decreases n,
{
    if n > 0 {
        law_chapters_are_sorted(items, (n - 1) as nat);
        let before = sorted_chapters(items, (n - 1) as nat);
        match chapter(items[n - 1], n - 1) {
            Some(c) => {
                lemma_slot(before, c.start, before.len());
                let k = slot(before, c.start, before.len()) as int;
                let after = before.insert(k, c);
                assert forall|i: int, j: int| 0 <= i <= j < after.len() implies (
                #[trigger] after[i]).start.rank() <= (#[trigger] after[j]).start.rank() by {
                    if i < k {
                        assert(after[i] == before[i]);
                        if k > 0 {
                            assert(before[i].start.rank() <= before[k - 1].start.rank());
                        }
                    } else if i > k {
                        assert(after[i] == before[i - 1]);
                    }
                    if j < k {
                        assert(after[j] == before[j]);
                    } else if j > k {
                        assert(after[j] == before[j - 1]);
                    }
                }
            },
            None => {},
        }
    }
}

fn start_of(item: &Json) -> (r: Option<Binary64>)
    ensures
        r == chapter_start(item.tree()),
{
    let value = json::get(Some(item), "start_time");
    match json::as_text(value) {
        Some(s) => number::parse(s.as_str()),
        None => json::as_number(value),
    }
}

fn title_of(item: &Json, place: usize) -> (r: String)
    requires
        place < usize::MAX,
    ensures
        r@ == chapter_title(item.tree(), place as int),
{
    match json::as_text(json::get(json::get(Some(item), "tags"), "title")) {
        Some(s) => {
            let clean = markdown::sanitize_entry_text(s.as_str());
            if !text::trim(clean.as_str()).as_str().is_empty() {
                return clean;
            }
        },
        None => {},
    }
    let mut out: String = "Embedded marker ".to_owned();
    out.append(digits::decimal_text(place as u64 + 1).as_str());
    out
}

/// Reads the chapter markers that a probe of a video describes.
pub fn parse_embedded_chapters(json: &Json) -> (r: Vec<EmbeddedChapter>)
    ensures
        chapters_of(r@) == described_chapters(json.tree()),
{
    let list = json::get(Some(json), "chapters");
    let n: usize = json::list_len(list);
    let ghost items = json::items(json::seen(list));
    let mut out: Vec<EmbeddedChapter> = Vec::new();
    let mut i: usize = 0;
    assert(chapters_of(out@) == sorted_chapters(items, 0));
    while i < n
        invariant
            i <= n,
            n == items.len(),
            items == json::items(json::seen(list)),
            chapters_of(out@) == sorted_chapters(items, i as nat),
        decreases n - i,
    {
        match json::nth(list, i) {
            Some(item) => {
                assert(item.tree() == items[i as int]);
                match start_of(item) {
                    Some(start) => {
                        let zero: Binary64 = Binary64 { bits: 0 };
                        if start.is_finite() && !start.less(zero) {
                            let ghost before = chapters_of(out@);
                            let mut p: usize = out.len();
                            while p > 0 && start.ranks_before(out[p - 1].start_seconds)
                                invariant
                                    p <= out@.len(),
                                    before == chapters_of(out@),
                                    slot(before, start, p as nat) == slot(
                                        before,
                                        start,
                                        before.len(),
                                    ),
                                decreases p,
                            {
                                assert(before[p - 1] == out@[p - 1]@);
                                p -= 1;
                            }
                            if p > 0 {
                                assert(before[p - 1] == out@[p - 1]@);
                            }
                            let chapter = EmbeddedChapter {
                                source_index: i,
                                start_seconds: start,
                                title: title_of(item, i),
                            };
                            let ghost added = chapter@;
                            out.insert(p, chapter);
                            assert(chapters_of(out@) == before.insert(p as int, added));
                        }
                    },
                    None => {},
                }
            },
            None => {
                assert(false);
            },
        }
        i += 1;
    }
    out
}

/// The arguments with which FFprobe tells the chapter markers of a video.
pub fn chapter_arguments(video: &str) -> (r: Vec<String>)
    ensures
        text::views(r@) == seq![
            "-v"@,
            "error"@,
            "-show_chapters"@,
            "-show_entries"@,
            "chapter=start_time:chapter_tags=title"@,
            "-of"@,
            "json"@,
            video@,
        ],
{
    let mut args: Vec<String> = Vec::new();
    arguments::add_all(
        &mut args,
        &[
            "-v",
            "error",
            "-show_chapters",
            "-show_entries",
            "chapter=start_time:chapter_tags=title",
            "-of",
            "json",
            video,
        ],
    );
    args
}

/// What a probe for chapter markers says, given how it ended.
pub open spec fn probe_outcome(success: bool, stdout: Seq<u8>, stderr: Seq<char>) -> Result<
    Seq<Chapter>,
    Seq<char>,
> {
    let detail = text::trimmed(stderr);
    if !success && detail.len() == 0 {
        Err("FFprobe could not inspect embedded chapter markers."@)
    } else if !success {
        Err("FFprobe could not inspect embedded chapter markers: "@ + detail)
    } else {
        match json::document(stdout) {
            Ok(tree) => Ok(described_chapters(tree)),
            Err(error) => Err("FFprobe returned unreadable chapter metadata: "@ + error),
        }
    }
}

/// The content of the outcome of a probe.
pub open spec fn probed(r: Result<Vec<EmbeddedChapter>, String>) -> Result<
    Seq<Chapter>,
    Seq<char>,
> {
    match r {
        Ok(chapters) => Ok(chapters_of(chapters@)),
        Err(message) => Err(message@),
    }
}

/// Reads the output of a probe for chapter markers.
pub fn probe_embedded_chapters(success: bool, stdout: &[u8], stderr: &str) -> (r: Result<
    Vec<EmbeddedChapter>,
    String,
>)
    ensures
        probed(r) == probe_outcome(success, stdout@, stderr@),
{
    if !success {
        let detail = text::trim(stderr);
        if detail.as_str().is_empty() {
            return Err("FFprobe could not inspect embedded chapter markers.".to_owned());
        }
        let mut message: String = "FFprobe could not inspect embedded chapter markers: ".to_owned();
        message.append(detail.as_str());
        return Err(message);
    }
    match json::parse_json(stdout) {
        Ok(tree) => Ok(parse_embedded_chapters(&tree)),
        Err(error) => {
            let mut message: String = "FFprobe returned unreadable chapter metadata: ".to_owned();
            message.append(error.as_str());
            Err(message)
        },
    }
}

// ---------------------------------------------------------------------------
// Import into the sidecar
// ---------------------------------------------------------------------------

/// The text between the first brackets of a line.
pub open spec fn bracketed(line: Seq<char>) -> Option<Seq<char>> {
    match text::cut(line, "["@) {
        Some((_, rest)) => match text::cut(rest, "]"@) {
            Some((inside, _)) => Some(inside),
            None => None,
        },
        None => None,
    }
}

/// Reads the text between the first brackets of a line.
pub fn bracket_text(line: &str) -> (r: Option<String>)
    ensures
        text::opt(r) == bracketed(line@),
{
    match text::split_once(line, "[") {
        Some((_, rest)) => match text::split_once(rest.as_str(), "]") {
            Some((inside, _)) => Some(inside),
            None => None,
        },
        None => None,
    }
}

/// The start of an entry: by its marker, else by the time stamp in brackets.
pub open spec fn entry_start(line: Seq<char>) -> Option<Binary64> {
    match markdown::number_attribute(entries::comment(line), "start"@) {
        Some(value) => Some(value),
        None => match bracketed(line) {
            Some(inside) => clock::stamp_value(
                text::trimmed(text::prefix_of(inside, text::outside("–—"@))),
            ),
            None => None,
        },
    }
}

/// The value nearest to five thousandths.
pub open spec fn five_milliseconds() -> Binary64 {
    Binary64 { bits: 0x3f74_7ae1_47ae_147b }
}

/// Whether a bookmark from line `from` on starts at a time. `inside` says
/// whether that line belongs to the section of bookmarks.
pub open spec fn listed(lines: Seq<Seq<char>>, start: Binary64, inside: bool, from: int) -> bool
    decreases lines.len() - from,
{
    if from < 0 || from >= lines.len() {
        false
    } else {
        let line = lines[from];
        let plain = text::trimmed(line);
        if text::has_prefix(plain, "## "@) {
            listed(
                lines,
                start,
                text::lower(plain) == text::lower(markdown::BOOKMARK_HEADING@),
                from + 1,
            )
        } else if !inside {
            listed(lines, start, false, from + 1)
        } else {
            (entry_start(line) matches Some(value) && markdown::within(
                value,
                start,
                five_milliseconds(),
            )) || listed(lines, start, true, from + 1)
        }
    }
}

fn start_of_entry(line: &str) -> (r: Option<Binary64>)
    ensures
        r == entry_start(line@),
{
    match markdown::marker_number(entries::comment_of(line).as_str(), "start") {
        Some(value) => Some(value),
        None => match bracket_text(line) {
            Some(inside) => {
                let stamp = text::until_any(inside.as_str(), "–—");
                clock::parse_subtitle_timestamp(text::trim(stamp.as_str()).as_str())
            },
            None => None,
        },
    }
}

/// Whether a bookmark of a sidecar starts at a time.
pub fn bookmark_start_exists(markdown: &str, start_seconds: Binary64) -> (r: bool)
    ensures
        r == listed(text::lines_of(markdown@), start_seconds, false, 0),
{
    let lines = text::lines(markdown);
    let ghost views = text::views(lines@);
    let bound: Binary64 = Binary64 { bits: 0x3f74_7ae1_47ae_147b };
    let mut inside: bool = false;
    let mut i: usize = 0;
    while i < lines.len()
        invariant
            i <= lines@.len(),
            views == text::views(lines@),
            views == text::lines_of(markdown@),
            bound == five_milliseconds(),
            listed(views, start_seconds, inside, i as int) == listed(
                views,
                start_seconds,
                false,
                0,
            ),
        decreases lines@.len() - i,
    {
        assert(views[i as int] == lines@[i as int]@);
        let line = lines[i].as_str();
        let plain = text::trim(line);
        if text::starts_with(plain.as_str(), "## ") {
            inside = text::same_ignoring_case(plain.as_str(), markdown::BOOKMARK_HEADING);
        } else if inside {
            match start_of_entry(line) {
                Some(value) => {
                    if markdown::is_within(value, start_seconds, bound) {
                        return true;
                    }
                },
                None => {},
            }
        }
        i += 1;
    }
    false
}

/// The receipt of an import.
pub open spec fn receipt(fingerprint: Seq<char>) -> Seq<char> {
    markdown::EMBEDDED_CHAPTER_MARKER@ + fingerprint + " -->"@
}

/// Where the receipt of the first import goes: behind the position marker,
/// else behind the version marker, else to the top.
pub open spec fn receipt_place(lines: Seq<Seq<char>>) -> int {
    match markdown::first(lines, markdown::LineTest::Marks(markdown::POSITION_MARKER@)) {
        Some(i) => i + 1,
        None => match markdown::first(lines, markdown::LineTest::Is(markdown::VERSION_MARKER@)) {
            Some(i) => i + 1,
            None => 0,
        },
    }
}

/// The test for the receipt of an import.
pub open spec fn receipt_test() -> markdown::LineTest {
    markdown::LineTest::Marks(markdown::EMBEDDED_CHAPTER_MARKER@)
}

/// The lines with a receipt: every receipt is replaced; where there is none,
/// one is inserted.
pub open spec fn receipted(lines: Seq<Seq<char>>, marker: Seq<char>) -> Seq<Seq<char>> {
    if markdown::any(lines, receipt_test()) {
        markdown::swapped(lines, receipt_test(), marker)
    } else {
        lines.insert(receipt_place(lines), marker)
    }
}

/// Writes the receipt of an import into a sidecar.
pub fn with_embedded_chapter_marker(markdown: &str, fingerprint: &str) -> (r: String)
    ensures
        r@ == text::text_of(receipted(text::lines_of(markdown@), receipt(fingerprint@))),
{
    let mut marker: String = markdown::EMBEDDED_CHAPTER_MARKER.to_owned();
    marker.append(fingerprint);
    marker.append(" -->");
    let mut lines = text::lines(markdown);
    let probe = markdown::Probe::Marks(markdown::EMBEDDED_CHAPTER_MARKER);
    if markdown::any_line(&lines, &probe) {
        let swapped = markdown::swap_lines(&lines, &probe, marker.as_str());
        return text::text(&swapped);
    }
    let at: usize = match markdown::find_line(
        &lines,
        &markdown::Probe::Marks(markdown::POSITION_MARKER),
        0,
    ) {
        Some(i) => i + 1,
        None => match markdown::find_line(
            &lines,
            &markdown::Probe::Is(markdown::VERSION_MARKER),
            0,
        ) {
            Some(i) => i + 1,
            None => 0,
        },
    };
    markdown::insert_line(&mut lines, at, marker.as_str());
    text::text(&lines)
}

/// The bookmark of a chapter.
pub open spec fn chapter_line(c: Chapter) -> Seq<char> {
    "- ["@ + clock::precise(c.start) + "] "@ + c.title
        + " <!-- framenote:bookmark:embedded-"@ + digits::decimal((c.source_index + 1) as nat)
        + "-"@ + digits::decimal(c.start.product(number::natural(1000)).whole()) + " start="@
        + c.start.fixed() + " source=embedded-chapter -->"@
}

/// A sidecar with the first `n` chapters added as bookmarks, but for those at
/// whose start a bookmark stands already.
pub open spec fn with_chapters(markdown: Seq<char>, chapters: Seq<Chapter>, n: nat) -> Seq<char>
    decreases n,
{
    if n == 0 {
        markdown
    } else {
        let before = with_chapters(markdown, chapters, (n - 1) as nat);
        let c = chapters[n - 1];
        if listed(text::lines_of(before), c.start, false, 0) {
            before
        } else {
            markdown::appended(before, markdown::BOOKMARK_HEADING@, chapter_line(c))
        }
    }
}

/// Whether chapters were imported into a sidecar before.
pub open spec fn is_imported(markdown: Seq<char>) -> bool {
    markdown::any(text::lines_of(markdown), receipt_test())
}

/// A sidecar with chapters imported, where none were before.
pub open spec fn merged(markdown: Seq<char>, chapters: Seq<Chapter>, fingerprint: Seq<char>) -> Option<
    Seq<char>,
> {
    if is_imported(markdown) {
        None
    } else {
        Some(
            text::text_of(
                receipted(
                    text::lines_of(with_chapters(markdown, chapters, chapters.len())),
                    receipt(fingerprint),
                ),
            ),
        )
    }
}

fn write_chapter_line(c: &EmbeddedChapter) -> (r: String)
    requires
        c.source_index < usize::MAX,
    ensures
        r@ == chapter_line(c@),
{
    let millis: u64 = c.start_seconds.mul(Binary64::from_u64(1000)).round_u64();
    let mut out: String = "- [".to_owned();
    out.append(clock::format_precise_timestamp(c.start_seconds).as_str());
    out.append("] ");
    out.append(c.title.as_str());
    out.append(" <!-- framenote:bookmark:embedded-");
    out.append(digits::decimal_text(c.source_index as u64 + 1).as_str());
    out.append("-");
    out.append(digits::decimal_text(millis).as_str());
    out.append(" start=");
    out.append(c.start_seconds.fixed_text().as_str());
    out.append(" source=embedded-chapter -->");
    out
}

/// Whether chapters were imported into a sidecar before.
pub fn has_import_receipt(markdown: &str) -> (r: bool)
    ensures
        r == is_imported(markdown@),
{
    let lines = text::lines(markdown);
    markdown::any_line(&lines, &markdown::Probe::Marks(markdown::EMBEDDED_CHAPTER_MARKER))
}

/// Imports chapters into a sidecar, once.
pub fn merge_embedded_chapters(
    markdown: &str,
    chapters: &Vec<EmbeddedChapter>,
    fingerprint: &str,
) -> (r: Option<String>)
    requires
        is_imported(markdown@) || forall|i: int|
            0 <= i < chapters@.len() ==> (#[trigger] chapters@[i]).source_index < usize::MAX,
    ensures
        text::opt(r) == merged(markdown@, chapters_of(chapters@), fingerprint@),
{
    if has_import_receipt(markdown) {
        return None;
    }
    let ghost all = chapters_of(chapters@);
    let mut updated: String = markdown.to_owned();
    let mut i: usize = 0;
    while i < chapters.len()
        invariant
            i <= chapters@.len(),
            all == chapters_of(chapters@),
            forall|k: int|
                0 <= k < chapters@.len() ==> (#[trigger] chapters@[k]).source_index < usize::MAX,
            updated@ == with_chapters(markdown@, all, i as nat),
        decreases chapters@.len() - i,
    {
        assert(all[i as int] == chapters@[i as int]@);
        if !bookmark_start_exists(updated.as_str(), chapters[i].start_seconds) {
            let line = write_chapter_line(&chapters[i]);
            updated = markdown::append_to_section(
                updated.as_str(),
                markdown::BOOKMARK_HEADING,
                line.as_str(),
            );
        }
        i += 1;
    }
    Some(with_embedded_chapter_marker(updated.as_str(), fingerprint))
}

} // verus!
