//! Subtitles and generated summaries of a sidecar.

use vstd::prelude::*;

use crate::clock;
use crate::entries;
use crate::entries::AddedEntry;
use crate::ids;
use crate::markdown;
use crate::number::Binary64;
use crate::text;

verus! {

/// A passage of speech.
pub struct TranscriptCue {
    pub start_seconds: Binary64,
    pub end_seconds: Binary64,
    pub text: String,
    pub speaker: String,
    pub language: String,
}

/// The content of a passage of speech.
pub struct Cue {
    pub start: Binary64,
    pub end: Binary64,
    pub text: Seq<char>,
    pub speaker: Seq<char>,
    pub language: Seq<char>,
}

impl View for TranscriptCue {
    type V = Cue;

    open spec fn view(&self) -> Cue {
        Cue {
            start: self.start_seconds,
            end: self.end_seconds,
            text: self.text@,
            speaker: self.speaker@,
            language: self.language@,
        }
    }
}

/// The content of passages of speech.
pub open spec fn cues_of(cues: Seq<TranscriptCue>) -> Seq<Cue> {
    Seq::new(cues.len(), |i: int| cues[i]@)
}

// ---------------------------------------------------------------------------
// Subtitles
// ---------------------------------------------------------------------------

/// The line of a subtitle, given the stamps that it shows.
pub open spec fn cue_line(id: Seq<char>, from: Seq<char>, to: Seq<char>, cue: Cue) -> Seq<char> {
    "- ["@ + from + "–"@ + to + "] "@ + cue.text + " <!-- framenote:subtitle:"@ + id + " start="@
        + cue.start.fixed() + " end="@ + cue.end.fixed() + " speaker=\""@ + cue.speaker
        + "\" language=\""@ + cue.language + "\" -->"@
}

fn write_cue_line(id: &str, from: &str, to: &str, cue: &TranscriptCue) -> (r: String)
    ensures
        r@ == cue_line(id@, from@, to@, cue@),
{
    let mut out: String = "- [".to_owned();
    out.append(from);
    out.append("–");
    out.append(to);
    out.append("] ");
    out.append(cue.text.as_str());
    out.append(" <!-- framenote:subtitle:");
    out.append(id);
    out.append(" start=");
    out.append(cue.start_seconds.fixed_text().as_str());
    out.append(" end=");
    out.append(cue.end_seconds.fixed_text().as_str());
    out.append(" speaker=\"");
    out.append(cue.speaker.as_str());
    out.append("\" language=\"");
    out.append(cue.language.as_str());
    out.append("\" -->");
    out
}

/// The line of a subtitle that was written by hand.
pub open spec fn written_subtitle(id: Seq<char>, cue: Cue) -> Result<Seq<char>, Seq<char>> {
    match clock::cue_bounds(cue.start, cue.end) {
        Ok((start, end)) => Ok(
            cue_line(
                id,
                clock::precise(start),
                clock::precise(end),
                Cue {
                    start,
                    end,
                    text: markdown::entry_text(cue.text),
                    speaker: markdown::metadata(cue.speaker, "Unknown"@),
                    language: markdown::metadata(cue.language, "unknown"@),
                },
            ),
        ),
        Err(message) => Err(message),
    }
}

/// Writes the line of a subtitle.
pub fn subtitle_line(
    id: &str,
    start_seconds: Binary64,
    end_seconds: Binary64,
    text: &str,
    speaker: &str,
    language: &str,
) -> (r: Result<String, String>)
    ensures
        text::told(r) == written_subtitle(
            id@,
            (Cue {
                start: start_seconds,
                end: end_seconds,
                text: text@,
                speaker: speaker@,
                language: language@,
            }),
        ),
{
    match clock::subtitle_timing(start_seconds, end_seconds) {
        Ok((start, end)) => {
            let cue = TranscriptCue {
                start_seconds: start,
                end_seconds: end,
                text: markdown::sanitize_entry_text(text),
                speaker: markdown::sanitize_metadata(speaker, "Unknown"),
                language: markdown::sanitize_metadata(language, "unknown"),
            };
            let from = clock::format_precise_timestamp(start);
            let to = clock::format_precise_timestamp(end);
            Ok(write_cue_line(id, from.as_str(), to.as_str(), &cue))
        },
        Err(message) => Err(message),
    }
}

/// A subtitle whose words are still to be written.
pub open spec fn new_cue(start: Binary64, end: Binary64) -> Cue {
    Cue {
        start,
        end,
        text: "New subtitle"@,
        speaker: "Unknown"@,
        language: "unknown"@,
    }
}

/// A sidecar with a new subtitle.
pub open spec fn subtitle_added(
    markdown: Seq<char>,
    start: Binary64,
    end: Binary64,
    id: Seq<char>,
) -> Result<Seq<char>, Seq<char>> {
    match written_subtitle(id, new_cue(start, end)) {
        Ok(line) => Ok(markdown::appended(markdown, markdown::SUBTITLE_HEADING@, line)),
        Err(message) => Err(message),
    }
}

/// Adds a subtitle under an identifier.
pub fn add_subtitle_as(
    markdown: &str,
    start_seconds: Binary64,
    end_seconds: Binary64,
    id: &str,
) -> (r: Result<String, String>)
    ensures
        text::told(r) == subtitle_added(markdown@, start_seconds, end_seconds, id@),
{
    match subtitle_line(id, start_seconds, end_seconds, "New subtitle", "Unknown", "unknown") {
        Ok(line) => Ok(
            markdown::append_to_section(markdown, markdown::SUBTITLE_HEADING, line.as_str()),
        ),
        Err(message) => Err(message),
    }
}

/// Adds a subtitle under a new identifier.
pub fn add_subtitle(markdown: &str, start_seconds: Binary64, end_seconds: Binary64) -> (r: Result<
    AddedEntry,
    String,
>)
    ensures
        match r {
            Ok(entry) => ids::is_uuid(entry.entry_id@) && subtitle_added(
                markdown@,
                start_seconds,
                end_seconds,
                entry.entry_id@,
            ) == Ok::<Seq<char>, Seq<char>>(entry.markdown@),
            Err(message) => clock::cue_bounds(start_seconds, end_seconds) == Err::<
                (Binary64, Binary64),
                Seq<char>,
            >(message@),
        },
{
    let id = ids::new_uuid();
    match add_subtitle_as(markdown, start_seconds, end_seconds, id.as_str()) {
        Ok(markdown) => Ok(AddedEntry { markdown, entry_id: id }),
        Err(message) => Err(message),
    }
}

/// The test for the lines of a subtitle.
pub open spec fn subtitle_test(id: Seq<char>) -> markdown::LineTest {
    markdown::LineTest::Contains("framenote:subtitle:"@ + id)
}

/// A sidecar with a subtitle replaced.
pub open spec fn subtitle_updated(markdown: Seq<char>, id: Seq<char>, cue: Cue) -> Result<
    Seq<char>,
    Seq<char>,
> {
    let lines = text::lines_of(markdown);
    match written_subtitle(id, cue) {
        Err(message) => Err(message),
        Ok(line) => if markdown::any(lines, subtitle_test(id)) {
            Ok(text::text_of(markdown::swapped(lines, subtitle_test(id), line)))
        } else {
            Err(
                "That subtitle was changed outside FrameNote. Reload the Markdown and try again."@,
            )
        },
    }
}

/// Replaces a subtitle.
pub fn update_subtitle(
    markdown: &str,
    entry_id: &str,
    start_seconds: Binary64,
    end_seconds: Binary64,
    text: &str,
    speaker: &str,
    language: &str,
) -> (r: Result<String, String>)
    ensures
        text::told(r) == subtitle_updated(
            markdown@,
            entry_id@,
            (Cue {
                start: start_seconds,
                end: end_seconds,
                text: text@,
                speaker: speaker@,
                language: language@,
            }),
        ),
{
    let mut marker: String = "framenote:subtitle:".to_owned();
    marker.append(entry_id);
    match subtitle_line(entry_id, start_seconds, end_seconds, text, speaker, language) {
        Ok(line) => {
            let lines = text::lines(markdown);
            let probe = markdown::Probe::Contains(marker.as_str());
            if markdown::any_line(&lines, &probe) {
                let swapped = markdown::swap_lines(&lines, &probe, line.as_str());
                Ok(text::text(&swapped))
            } else {
                Err(
                    "That subtitle was changed outside FrameNote. Reload the Markdown and try again.".to_owned(),
                )
            }
        },
        Err(message) => Err(message),
    }
}

// ---------------------------------------------------------------------------
// Reading subtitles
// ---------------------------------------------------------------------------

/// The subtitle that a line holds. Its words stand in front of its comment, its
/// times and names within.
#[verifier::opaque]
pub open spec fn cue_in(line: Seq<char>) -> Option<Cue> {
    if !text::contains(line, "framenote:subtitle:"@) {
        None
    } else {
        match (
            markdown::number_attribute(entries::comment(line), "start"@),
            markdown::number_attribute(entries::comment(line), "end"@),
            text::find(line, "]"@),
        ) {
            (Some(start), Some(end), Some(close)) => if start.lt(end) && close < entries::text_end(
                line,
            ) {
                Some(
                    Cue {
                        start,
                        end,
                        text: markdown::entry_text(text::trimmed(entries::entry_body(line))),
                        speaker: match markdown::text_attribute(entries::comment(line), "speaker"@) {
                            Some(s) => s,
                            None => "Unknown"@,
                        },
                        language: match markdown::text_attribute(entries::comment(line), "language"@) {
                            Some(s) => s,
                            None => "unknown"@,
                        },
                    },
                )
            } else {
                None
            },
            _ => None,
        }
    }
}

/// The place of a passage among sorted ones: behind those that do not start
/// later.
pub open spec fn cue_slot(cues: Seq<Cue>, start: Binary64, n: nat) -> nat
    decreases n,
{
    if n > 0 && start.rank() < cues[n - 1].start.rank() {
        cue_slot(cues, start, (n - 1) as nat)
    } else {
        n
    }
}

/// The subtitles of the first `n` lines, by their start, those that start
/// together in the order of the lines.
pub open spec fn sorted_cues(lines: Seq<Seq<char>>, n: nat) -> Seq<Cue>
    decreases n,
{
    if n == 0 {
        Seq::empty()
    } else {
        let before = sorted_cues(lines, (n - 1) as nat);
        match cue_in(lines[n - 1]) {
            Some(cue) => before.insert(cue_slot(before, cue.start, before.len()) as int, cue),
            None => before,
        }
    }
}

/// The subtitles of a sidecar.
pub open spec fn subtitles(markdown: Seq<char>) -> Seq<Cue> {
    sorted_cues(text::lines_of(markdown), text::lines_of(markdown).len())
}

pub(crate) proof fn lemma_cue_slot(cues: Seq<Cue>, start: Binary64, n: nat)
    ensures
        cue_slot(cues, start, n) <= n,
        forall|i: int|
            cue_slot(cues, start, n) <= i < n ==> start.rank() < (#[trigger] cues[i]).start.rank(),
        cue_slot(cues, start, n) > 0 ==> cues[cue_slot(cues, start, n) - 1].start.rank()
            <= start.rank(),
    decreases n,
{
    if n > 0 && start.rank() < cues[n - 1].start.rank() {
        lemma_cue_slot(cues, start, (n - 1) as nat);
    }
}

proof fn lemma_sorted_cues(lines: Seq<Seq<char>>, n: nat)
    ensures
        forall|i: int, j: int|
            0 <= i <= j < sorted_cues(lines, n).len() ==> (
            #[trigger] sorted_cues(lines, n)[i]).start.rank() <= (
            #[trigger] sorted_cues(lines, n)[j]).start.rank(),
    decreases n,
{
    if n > 0 {
        lemma_sorted_cues(lines, (n - 1) as nat);
        let before = sorted_cues(lines, (n - 1) as nat);
        match cue_in(lines[n - 1]) {
            Some(cue) => {
                lemma_cue_slot(before, cue.start, before.len());
                let k = cue_slot(before, cue.start, before.len()) as int;
                let after = before.insert(k, cue);
                assert forall|i: int, j: int| 0 <= i <= j < after.len() implies (
                #[trigger] after[i]).start.rank() <= (#[trigger] after[j]).start.rank() by {
                    if i < k {
                        assert(after[i] == before[i]);
                        assert(before[i].start.rank() <= before[k - 1].start.rank());
                    } else if i > k {
                        assert(after[i] == before[i - 1]);
                    }
                    if j < k {
                        assert(after[j] == before[j]);
                    } else if j > k {
                        assert(after[j] == before[j - 1]);
                    }
                }
            },
            None => {},
        }
    }
}

/// The subtitles of a sidecar come in the order of their starts.
pub proof fn law_subtitles_are_sorted(markdown: Seq<char>)
    ensures
        forall|i: int, j: int|
            0 <= i <= j < subtitles(markdown).len() ==> (
            #[trigger] subtitles(markdown)[i]).start.rank() <= (
            #[trigger] subtitles(markdown)[j]).start.rank(),
{
    lemma_sorted_cues(text::lines_of(markdown), text::lines_of(markdown).len());
}

fn read_cue(line: &str) -> (r: Option<TranscriptCue>)
    ensures
        match r {
            Some(cue) => cue_in(line@) == Some(cue@),
            None => cue_in(line@) is None,
        },
{
    reveal(cue_in);
    if !text::has(line, "framenote:subtitle:") {
        return None;
    }
    let attributes = entries::comment_of(line);
    match (
        markdown::marker_number(attributes.as_str(), "start"),
        markdown::marker_number(attributes.as_str(), "end"),
        text::position(line, "]"),
    ) {
        (Some(start), Some(end), Some(close)) => {
            let until: usize = entries::end_of_text(line);
            if !start.less(end) || close >= until {
                return None;
            }
            let body = text::part(line, close + 1, until);
            Some(
                TranscriptCue {
                    start_seconds: start,
                    end_seconds: end,
                    text: markdown::sanitize_entry_text(text::trim(body.as_str()).as_str()),
                    speaker: match markdown::marker_text(attributes.as_str(), "speaker") {
                        Some(s) => s,
                        None => "Unknown".to_owned(),
                    },
                    language: match markdown::marker_text(attributes.as_str(), "language") {
                        Some(s) => s,
                        None => "unknown".to_owned(),
                    },
                },
            )
        },
        _ => None,
    }
}

fn place_cue(cues: &mut Vec<TranscriptCue>, cue: TranscriptCue)
    ensures
        cues_of(final(cues)@) == cues_of(old(cues)@).insert(
            cue_slot(cues_of(old(cues)@), cue.start_seconds, old(cues)@.len()) as int,
            cue@,
        ),
{
    let ghost before = cues_of(cues@);
    let mut p: usize = cues.len();
    while p > 0 && cue.start_seconds.ranks_before(cues[p - 1].start_seconds)
        invariant
            p <= cues@.len(),
            before == cues_of(cues@),
            cue_slot(before, cue.start_seconds, p as nat) == cue_slot(
                before,
                cue.start_seconds,
                before.len(),
            ),
        decreases p,
    {
        assert(before[p - 1] == cues@[p - 1]@);
        p -= 1;
    }
    if p > 0 {
        assert(before[p - 1] == cues@[p - 1]@);
    }
    let ghost added = cue@;
    cues.insert(p, cue);
    assert(cues_of(cues@) == before.insert(p as int, added));
}

/// Reads the subtitles of a sidecar.
pub fn subtitle_cues_from_markdown(markdown: &str) -> (r: Vec<TranscriptCue>)
    ensures
        cues_of(r@) == subtitles(markdown@),
{
    let lines = text::lines(markdown);
    let ghost views = text::views(lines@);
    let mut out: Vec<TranscriptCue> = Vec::new();
    let mut i: usize = 0;
    assert(cues_of(out@) == sorted_cues(views, 0));
    while i < lines.len()
        invariant
            i <= lines@.len(),
            views == text::views(lines@),
            cues_of(out@) == sorted_cues(views, i as nat),
        decreases lines@.len() - i,
    {
        assert(views[i as int] == lines@[i as int]@);
        match read_cue(lines[i].as_str()) {
            Some(cue) => {
                place_cue(&mut out, cue);
            },
            None => {},
        }
        i += 1;
    }
    out
}

// ---------------------------------------------------------------------------
// Generated summaries
// ---------------------------------------------------------------------------

/// The bounds of an analysed range.
pub open spec fn range_bounds(start: Binary64, end: Binary64) -> (Binary64, Binary64) {
    let from = entries::usable_time(start);
    (from, if end.finite() {
        end.upper(from)
    } else {
        from
    })
}

fn bound_range(start: Binary64, end: Binary64) -> (r: (Binary64, Binary64))
    ensures
        r == range_bounds(start, end),
        r.0.le(r.1),
{
    let from: Binary64 = entries::time_or_start(start);
    if end.is_finite() {
        (from, end.max(from))
    } else {
        (from, from)
    }
}

/// The line of a summary. `note` stands before the end of its comment.
pub open spec fn summary_line(
    id: Seq<char>,
    from: Seq<char>,
    to: Seq<char>,
    summary: Seq<char>,
    bounds: (Binary64, Binary64),
    note: Seq<char>,
) -> Seq<char> {
    "- ["@ + from + "–"@ + to + "] "@ + markdown::entry_text(summary) + " <!-- framenote:ai:"@
        + id + " start="@ + bounds.0.fixed() + " end="@ + bounds.1.fixed() + note + " -->"@
}

fn write_summary_line(
    id: &str,
    from: &str,
    to: &str,
    summary: &str,
    bounds: (Binary64, Binary64),
    note: &str,
) -> (r: String)
    ensures
        r@ == summary_line(id@, from@, to@, summary@, bounds, note@),
{
    let mut out: String = "- [".to_owned();
    out.append(from);
    out.append("–");
    out.append(to);
    out.append("] ");
    out.append(markdown::sanitize_entry_text(summary).as_str());
    out.append(" <!-- framenote:ai:");
    out.append(id);
    out.append(" start=");
    out.append(bounds.0.fixed_text().as_str());
    out.append(" end=");
    out.append(bounds.1.fixed_text().as_str());
    out.append(note);
    out.append(" -->");
    out
}

/// A sidecar with a summary added.
pub open spec fn summary_added(
    markdown: Seq<char>,
    start: Binary64,
    end: Binary64,
    summary: Seq<char>,
    id: Seq<char>,
) -> Seq<char> {
    markdown::appended(
        markdown,
        markdown::AI_HEADING@,
        summary_line(
            id,
            clock::timestamp(start),
            clock::timestamp(end),
            summary,
            range_bounds(start, end),
            ""@,
        ),
    )
}

/// Adds a summary under an identifier.
pub fn append_ai_entry_as(
    markdown: &str,
    start_seconds: Binary64,
    end_seconds: Binary64,
    summary: &str,
    id: &str,
) -> (r: String)
    ensures
        r@ == summary_added(markdown@, start_seconds, end_seconds, summary@, id@),
{
    let from = clock::format_timestamp(start_seconds);
    let to = clock::format_timestamp(end_seconds);
    let bounds: (Binary64, Binary64) = bound_range(start_seconds, end_seconds);
    let line = write_summary_line(id, from.as_str(), to.as_str(), summary, bounds, "");
    markdown::append_to_section(markdown, markdown::AI_HEADING, line.as_str())
}

/// Adds a summary under a new identifier.
pub fn append_ai_entry(
    markdown: &str,
    start_seconds: Binary64,
    end_seconds: Binary64,
    summary: &str,
) -> (r: AddedEntry)
    ensures
        ids::is_uuid(r.entry_id@),
        r.markdown@ == summary_added(
            markdown@,
            start_seconds,
            end_seconds,
            summary@,
            r.entry_id@,
        ),
{
    let id = ids::new_uuid();
    AddedEntry {
        markdown: append_ai_entry_as(markdown, start_seconds, end_seconds, summary, id.as_str()),
        entry_id: id,
    }
}

// ---------------------------------------------------------------------------
// The result of an analysis
// ---------------------------------------------------------------------------

/// `s` with the first `pat` replaced.
pub open spec fn replaced_once(s: Seq<char>, pat: Seq<char>, with: Seq<char>) -> Seq<char> {
    match text::cut(s, pat) {
        Some((before, after)) => before + with + after,
        None => s,
    }
}

/// A summary whose transcript is complete.
pub open spec fn completed(line: Seq<char>) -> Seq<char> {
    if text::contains(line, "transcript=complete"@) {
        line
    } else {
        replaced_once(line, "-->"@, "transcript=complete -->"@)
    }
}

/// The first line from `from` on that is the analysis of a range.
pub open spec fn analysed_at(
    lines: Seq<Seq<char>>,
    bounds: (Binary64, Binary64),
    from: int,
) -> Option<int>
    decreases lines.len() - from,
{
    if from < 0 || from >= lines.len() {
        None
    } else if markdown::covers_range(lines[from], bounds.0, bounds.1) {
        Some(from)
    } else {
        analysed_at(lines, bounds, from + 1)
    }
}

/// A sidecar with the summary of an analysed range. A summary that the range
/// has already is kept.
pub open spec fn summarised(
    markdown: Seq<char>,
    bounds: (Binary64, Binary64),
    summary: Seq<char>,
    complete: bool,
    id: Seq<char>,
) -> Seq<char> {
    let lines = text::lines_of(markdown);
    match analysed_at(lines, bounds, 0) {
        Some(i) => text::text_of(
            if complete {
                lines.update(i, completed(lines[i]))
            } else {
                lines
            },
        ),
        None => markdown::appended(
            markdown,
            markdown::AI_HEADING@,
            summary_line(
                id,
                clock::timestamp(bounds.0),
                clock::timestamp(bounds.1),
                summary,
                bounds,
                if complete {
                    " transcript=complete"@
                } else {
                    ""@
                },
            ),
        ),
    }
}

/// The passage within an analysed range, where anything of it is left.
pub open spec fn kept_cue(cue: Cue, bounds: (Binary64, Binary64)) -> Option<Cue> {
    let start = cue.start.held(bounds.0, bounds.1);
    let end = cue.end.held(start, bounds.1);
    let text = markdown::entry_text(cue.text);
    if !cue.start.finite() || !cue.end.finite() || end.le(start) || text == "Untitled note"@ {
        None
    } else {
        Some(
            Cue {
                start,
                end,
                text,
                speaker: markdown::metadata(cue.speaker, "Speaker"@),
                language: markdown::metadata(cue.language, "unknown"@),
            },
        )
    }
}

/// A sidecar with the first `n` passages of an analysed range as subtitles.
pub open spec fn transcribed(
    markdown: Seq<char>,
    bounds: (Binary64, Binary64),
    cues: Seq<Cue>,
    ids: Seq<Seq<char>>,
    n: nat,
) -> Seq<char>
    decreases n,
{
    if n == 0 {
        markdown
    } else {
        let before = transcribed(markdown, bounds, cues, ids, (n - 1) as nat);
        match kept_cue(cues[n - 1], bounds) {
            Some(cue) => markdown::appended(
                before,
                markdown::SUBTITLE_HEADING@,
                cue_line(ids[n - 1], clock::timestamp(cue.start), clock::timestamp(cue.end), cue),
            ),
            None => before,
        }
    }
}

/// How many passages of a transcript are read at most.
pub const CUE_LIMIT: usize = 500;

/// How many passages of a transcript are read.
pub open spec fn read_count(cues: nat) -> nat {
    if cues < CUE_LIMIT as nat {
        cues
    } else {
        CUE_LIMIT as nat
    }
}

/// A sidecar with the result of an analysis.
pub open spec fn analysed(
    markdown: Seq<char>,
    start: Binary64,
    end: Binary64,
    summary: Seq<char>,
    cues: Seq<Cue>,
    complete: bool,
    id: Seq<char>,
    ids: Seq<Seq<char>>,
) -> Seq<char> {
    let bounds = range_bounds(start, end);
    transcribed(
        summarised(markdown, bounds, summary, complete, id),
        bounds,
        cues,
        ids,
        read_count(cues.len()),
    )
}

fn find_analysis(lines: &Vec<String>, bounds: (Binary64, Binary64)) -> (r: Option<usize>)
    ensures
        match r {
            Some(i) => analysed_at(text::views(lines@), bounds, 0) == Some(i as int) && i
                < lines@.len(),
            None => analysed_at(text::views(lines@), bounds, 0) is None,
        },
{
    let ghost views = text::views(lines@);
    let mut i: usize = 0;
    while i < lines.len()
        invariant
            i <= lines@.len(),
            views == text::views(lines@),
            analysed_at(views, bounds, i as int) == analysed_at(views, bounds, 0),
        decreases lines@.len() - i,
    {
        assert(views[i as int] == lines@[i as int]@);
        if markdown::ai_range_matches(lines[i].as_str(), bounds.0, bounds.1) {
            return Some(i);
        }
        i += 1;
    }
    None
}

fn complete_line(line: &str) -> (r: String)
    ensures
        r@ == completed(line@),
{
    if text::has(line, "transcript=complete") {
        return line.to_owned();
    }
    match text::split_once(line, "-->") {
        Some((before, after)) => {
            let mut out: String = before;
            out.append("transcript=complete -->");
            out.append(after.as_str());
            out
        },
        None => line.to_owned(),
    }
}

fn summarise(
    markdown: &str,
    bounds: (Binary64, Binary64),
    summary: &str,
    complete: bool,
    id: &str,
) -> (r: String)
    ensures
        r@ == summarised(markdown@, bounds, summary@, complete, id@),
{
    let mut lines = text::lines(markdown);
    let ghost views = text::views(lines@);
    match find_analysis(&lines, bounds) {
        Some(i) => {
            if complete {
                assert(views[i as int] == lines@[i as int]@);
                let line = complete_line(lines[i].as_str());
                lines.set(i, line);
                assert(text::views(lines@) == views.update(i as int, completed(views[i as int])));
            }
            text::text(&lines)
        },
        None => {
            let from = clock::format_timestamp(bounds.0);
            let to = clock::format_timestamp(bounds.1);
            let note: &str = if complete {
                " transcript=complete"
            } else {
                ""
            };
            let line = write_summary_line(id, from.as_str(), to.as_str(), summary, bounds, note);
            markdown::append_to_section(markdown, markdown::AI_HEADING, line.as_str())
        },
    }
}

fn keep_cue(cue: &TranscriptCue, bounds: (Binary64, Binary64)) -> (r: Option<TranscriptCue>)
    requires
        bounds.0.le(bounds.1),
    ensures
        match r {
            Some(kept) => kept_cue(cue@, bounds) == Some(kept@),
            None => kept_cue(cue@, bounds) is None,
        },
{
    if !cue.start_seconds.is_finite() || !cue.end_seconds.is_finite() {
        return None;
    }
    let start: Binary64 = cue.start_seconds.clamp(bounds.0, bounds.1);
    let end: Binary64 = cue.end_seconds.clamp(start, bounds.1);
    let text = markdown::sanitize_entry_text(cue.text.as_str());
    if end.at_most(start) || text::same(text.as_str(), "Untitled note") {
        return None;
    }
    Some(
        TranscriptCue {
            start_seconds: start,
            end_seconds: end,
            text,
            speaker: markdown::sanitize_metadata(cue.speaker.as_str(), "Speaker"),
            language: markdown::sanitize_metadata(cue.language.as_str(), "unknown"),
        },
    )
}

/// Saves the result of an analysis. A range that has a summary keeps it; of
/// each passage of speech what lies within the range becomes a subtitle under
/// the identifier at its place.
pub fn append_analysis_result_as(
    markdown: &str,
    start_seconds: Binary64,
    end_seconds: Binary64,
    summary: &str,
    transcript_cues: &Vec<TranscriptCue>,
    transcript_complete: bool,
    id: &str,
    cue_ids: &Vec<String>,
) -> (r: String)
    requires
        cue_ids@.len() >= read_count(transcript_cues@.len()),
    ensures
        r@ == analysed(
            markdown@,
            start_seconds,
            end_seconds,
            summary@,
            cues_of(transcript_cues@),
            transcript_complete,
            id@,
            text::views(cue_ids@),
        ),
{
    let bounds: (Binary64, Binary64) = bound_range(start_seconds, end_seconds);
    let mut updated: String = summarise(markdown, bounds, summary, transcript_complete, id);
    let ghost base = updated@;
    let ghost cues = cues_of(transcript_cues@);
    let ghost ids = text::views(cue_ids@);
    let n: usize = if transcript_cues.len() < CUE_LIMIT {
        transcript_cues.len()
    } else {
        CUE_LIMIT
    };
    let mut i: usize = 0;
    while i < n
        invariant
            i <= n <= transcript_cues@.len(),
            n <= cue_ids@.len(),
            cues == cues_of(transcript_cues@),
            ids == text::views(cue_ids@),
            bounds.0.le(bounds.1),
            updated@ == transcribed(base, bounds, cues, ids, i as nat),
        decreases n - i,
    {
        assert(cues[i as int] == transcript_cues@[i as int]@);
        assert(ids[i as int] == cue_ids@[i as int]@);
        match keep_cue(&transcript_cues[i], bounds) {
            Some(cue) => {
                let from = clock::format_timestamp(cue.start_seconds);
                let to = clock::format_timestamp(cue.end_seconds);
                let line = write_cue_line(cue_ids[i].as_str(), from.as_str(), to.as_str(), &cue);
                updated = markdown::append_to_section(
                    updated.as_str(),
                    markdown::SUBTITLE_HEADING,
                    line.as_str(),
                );
            },
            None => {},
        }
        i += 1;
    }
    updated
}

/// Whether every text is an identifier.
pub open spec fn all_uuids(ids: Seq<Seq<char>>) -> bool {
    forall|i: int| 0 <= i < ids.len() ==> ids::is_uuid(#[trigger] ids[i])
}

/// Saves the result of an analysis under new identifiers.
pub fn append_analysis_result(
    markdown: &str,
    start_seconds: Binary64,
    end_seconds: Binary64,
    summary: &str,
    transcript_cues: &Vec<TranscriptCue>,
    transcript_complete: bool,
) -> (r: String)
    ensures
        exists|id: Seq<char>, ids: Seq<Seq<char>>|
            ids::is_uuid(id) && all_uuids(ids) && ids.len() == read_count(transcript_cues@.len())
                && r@ == #[trigger] analysed(
                markdown@,
                start_seconds,
                end_seconds,
                summary@,
                cues_of(transcript_cues@),
                transcript_complete,
                id,
                ids,
            ),
{
    let id = ids::new_uuid();
    let n: usize = if transcript_cues.len() < CUE_LIMIT {
        transcript_cues.len()
    } else {
        CUE_LIMIT
    };
    let mut cue_ids: Vec<String> = Vec::new();
    while cue_ids.len() < n
        invariant
            cue_ids@.len() <= n,
            all_uuids(text::views(cue_ids@)),
        decreases n - cue_ids@.len(),
    {
        let ghost before = text::views(cue_ids@);
        let fresh = ids::new_uuid();
        let ghost added = fresh@;
        cue_ids.push(fresh);
        assert(text::views(cue_ids@) == before.push(added));
    }
    append_analysis_result_as(
        markdown,
        start_seconds,
        end_seconds,
        summary,
        transcript_cues,
        transcript_complete,
        id.as_str(),
        &cue_ids,
    )
}

} // verus!
