//! Clips of a video with their subtitles, and the manifests beside them.

use vstd::prelude::*;

use crate::arguments;
use crate::clock;
use crate::digits;
use crate::jobs;
use crate::jobs::JobState;
use crate::markdown;
use crate::number::Binary64;
use crate::paths::FilePath;
use crate::text;
use crate::transcript;
use crate::transcript::Cue;
use crate::transcript::TranscriptCue;

verus! {

// ---------------------------------------------------------------------------
// File names
// ---------------------------------------------------------------------------

/// The class of the characters that a file name may not hold.
pub open spec fn reserved() -> spec_fn(char) -> bool {
    |c: char| text::is_control(c) || "/\\:*?\"<>|"@.contains(c)
}

/// `s` without the characters of `set` at either end.
pub open spec fn stripped(s: Seq<char>, set: Seq<char>) -> Seq<char> {
    text::drop_trailing(text::drop_leading(s, text::among(set)), text::among(set))
}

/// A part of a file name: single spaces in place of what a name may not hold,
/// no points or spaces at the ends, and a word where nothing is left.
pub open spec fn file_component(value: Seq<char>, limit: int) -> Seq<char> {
    let clean = stripped(text::collapsed(text::mapped(value, reserved(), " "@)), ". "@);
    text::head(
        if clean.len() == 0 {
            "mark"@
        } else {
            clean
        },
        limit,
    )
}

fn spaced(value: &str) -> (r: String)
    ensures
        r@ == text::mapped(value@, reserved(), " "@),
{
    let chars = text::chars_of(value);
    let mut out: String = String::new();
    let mut i: usize = 0;
    while i < chars.len()
        invariant
            i <= chars@.len(),
            out@ == text::mapped(chars@.take(i as int), reserved(), " "@),
        decreases chars@.len() - i,
    {
        let c: char = chars[i];
        proof {
            reveal_strlit("/\\:*?\"<>|");
            let set = "/\\:*?\"<>|"@;
            assert(chars@.take(i + 1).drop_last() == chars@.take(i as int));
            assert(chars@.take(i + 1).last() == c);
            assert(set[0] == '/' && set[1] == '\\' && set[2] == ':' && set[3] == '*' && set[4]
                == '?' && set[5] == '"' && set[6] == '<' && set[7] == '>' && set[8] == '|');
        }
        if text::control(c) || c == '/' || c == '\\' || c == ':' || c == '*' || c == '?' || c
            == '"' || c == '<' || c == '>' || c == '|' {
            out.append(" ");
        } else {
            let ghost had = out@;
            out.push(c);
            assert(out@ == had + seq![c]);
        }
        i += 1;
    }
    assert(chars@.take(i as int) == chars@);
    out
}

/// Makes a part of a file name.
pub fn safe_file_component(value: &str, limit: usize) -> (r: String)
    ensures
        r@ == file_component(value@, limit as int),
{
    let cleaned = text::collapse(spaced(value).as_str());
    let trimmed = text::trim_end_matches(
        text::trim_start_matches(cleaned.as_str(), ". ").as_str(),
        ". ",
    );
    if trimmed.as_str().is_empty() {
        text::take("mark", limit)
    } else {
        text::take(trimmed.as_str(), limit)
    }
}

// ---------------------------------------------------------------------------
// Subtitles of a clip
// ---------------------------------------------------------------------------

/// Whether a passage of speech is heard within a clip.
pub open spec fn overlaps(cue: Cue, start: Binary64, end: Binary64) -> bool {
    cue.start.lt(end) && start.lt(cue.end)
}

/// The words of a subtitle, behind the name of who speaks where it is known.
pub open spec fn spoken(cue: Cue) -> Seq<char> {
    let speaker = text::trimmed(cue.speaker);
    if speaker.len() == 0 || text::lower(speaker) == text::lower("unknown"@) {
        cue.text
    } else {
        speaker + ": "@ + cue.text
    }
}

/// The bounds of a passage within a clip, from the start of the clip.
pub open spec fn relative(cue: Cue, start: Binary64, end: Binary64) -> (Binary64, Binary64) {
    (cue.start.upper(start).difference(start), cue.end.lower(end).difference(start))
}

/// The block of a subtitle in a SubRip file.
pub open spec fn srt_block(cue: Cue, start: Binary64, end: Binary64, place: nat) -> Seq<char> {
    let bounds = relative(cue, start, end);
    digits::decimal(place) + "\n"@ + clock::subrip(bounds.0) + " --> "@ + clock::subrip(bounds.1)
        + "\n"@ + spoken(cue) + "\n\n"@
}

/// How many of the first `n` passages are heard within a clip.
pub open spec fn heard(cues: Seq<Cue>, start: Binary64, end: Binary64, n: nat) -> nat
    decreases n,
{
    if n == 0 {
        0
    } else {
        heard(cues, start, end, (n - 1) as nat) + if overlaps(cues[n - 1], start, end) {
            1nat
        } else {
            0nat
        }
    }
}

/// The subtitles of a clip from the first `n` passages, numbered from one.
pub open spec fn srt(cues: Seq<Cue>, start: Binary64, end: Binary64, n: nat) -> Seq<char>
    decreases n,
{
    if n == 0 {
        Seq::empty()
    } else {
        let before = srt(cues, start, end, (n - 1) as nat);
        if overlaps(cues[n - 1], start, end) {
            before + srt_block(cues[n - 1], start, end, heard(cues, start, end, n))
        } else {
            before
        }
    }
}

fn is_heard(cue: &TranscriptCue, start: Binary64, end: Binary64) -> (r: bool)
    ensures
        r == overlaps(cue@, start, end),
{
    cue.start_seconds.less(end) && start.less(cue.end_seconds)
}

fn write_block(cue: &TranscriptCue, start: Binary64, end: Binary64, place: u64) -> (r: String)
    ensures
        r@ == srt_block(cue@, start, end, place as nat),
{
    let from: Binary64 = cue.start_seconds.max(start).sub(start);
    let to: Binary64 = cue.end_seconds.min(end).sub(start);
    let mut out: String = digits::decimal_text(place);
    out.append("\n");
    out.append(clock::srt_timestamp(from).as_str());
    out.append(" --> ");
    out.append(clock::srt_timestamp(to).as_str());
    out.append("\n");
    let speaker = text::trim(cue.speaker.as_str());
    let ghost had = out@;
    if speaker.as_str().is_empty() || text::same_ignoring_case(speaker.as_str(), "unknown") {
        out.append(cue.text.as_str());
    } else {
        out.append(speaker.as_str());
        out.append(": ");
        out.append(cue.text.as_str());
    }
    assert(out@ == had + spoken(cue@));
    out.append("\n\n");
    out
}

/// Writes the subtitles of a clip, with times from the start of the clip.
pub fn clip_srt(cues: &Vec<TranscriptCue>, start: Binary64, end: Binary64) -> (r: String)
    ensures
        r@ == srt(transcript::cues_of(cues@), start, end, cues@.len()),
{
    let ghost all = transcript::cues_of(cues@);
    let mut out: String = String::new();
    let mut place: usize = 0;
    let mut i: usize = 0;
    while i < cues.len()
        invariant
            i <= cues@.len(),
            place <= i,
            all == transcript::cues_of(cues@),
            place == heard(all, start, end, i as nat),
            out@ == srt(all, start, end, i as nat),
        decreases cues@.len() - i,
    {
        assert(all[i as int] == cues@[i as int]@);
        if is_heard(&cues[i], start, end) {
            place += 1;
            out.append(write_block(&cues[i], start, end, place as u64).as_str());
        }
        i += 1;
    }
    out
}

// ---------------------------------------------------------------------------
// Tables
// ---------------------------------------------------------------------------

/// A field of a table: in quotes, with the quotes within doubled.
pub open spec fn quoted(value: Seq<char>) -> Seq<char> {
    "\""@ + text::replaced(value, "\""@, "\"\""@) + "\""@
}

/// Writes a field of a table.
pub fn csv_field(value: &str) -> (r: String)
    ensures
        r@ == quoted(value@),
{
    proof {
        reveal_strlit("\"");
    }
    let mut out: String = "\"".to_owned();
    out.append(text::replace(value, "\"", "\"\"").as_str());
    out.append("\"");
    out
}

/// A clip that was exported.
pub struct ExportManifestClip {
    pub file_name: String,
    pub subtitle_file_name: String,
    pub start_seconds: Binary64,
    pub end_seconds: Binary64,
    pub label: String,
}

/// The content of an exported clip.
pub struct Clip {
    pub file: Seq<char>,
    pub subtitles: Seq<char>,
    pub start: Binary64,
    pub end: Binary64,
    pub label: Seq<char>,
}

impl View for ExportManifestClip {
    type V = Clip;

    open spec fn view(&self) -> Clip {
        Clip {
            file: self.file_name@,
            subtitles: self.subtitle_file_name@,
            start: self.start_seconds,
            end: self.end_seconds,
            label: self.label@,
        }
    }
}

/// The content of exported clips.
pub open spec fn clips_of(clips: Seq<ExportManifestClip>) -> Seq<Clip> {
    Seq::new(clips.len(), |i: int| clips[i]@)
}

/// The row of a clip in the manifest.
pub open spec fn clip_row(clip: Clip, place: nat) -> Seq<char> {
    digits::decimal(place) + ","@ + quoted(clip.file) + ","@ + quoted(clip.subtitles) + ","@
        + clip.start.fixed() + ","@ + clip.end.fixed() + ","@ + clock::from_start(
        clip.end.difference(clip.start),
    ).fixed() + ","@ + quoted(clip.label) + "\n"@
}

/// The heading of the manifest and the rows of the first `n` clips.
pub open spec fn manifest(clips: Seq<Clip>, n: nat) -> Seq<char>
    decreases n,
{
    if n == 0 {
        "clip,file,subtitles,source_start,source_end,duration,label\n"@
    } else {
        manifest(clips, (n - 1) as nat) + clip_row(clips[n - 1], n)
    }
}

/// The row of a passage of speech that is heard within a clip.
pub open spec fn cue_row(clip: Clip, place: nat, cue: Cue) -> Seq<char> {
    let bounds = relative(cue, clip.start, clip.end);
    digits::decimal(place) + ","@ + quoted(clip.file) + ","@ + bounds.0.fixed() + ","@
        + bounds.1.fixed() + ","@ + cue.start.upper(clip.start).fixed() + ","@ + cue.end.lower(
        clip.end,
    ).fixed() + ","@ + quoted(cue.speaker) + ","@ + quoted(cue.language) + ","@ + quoted(cue.text)
        + "\n"@
}

/// The rows of the first `n` passages, those that are heard within a clip.
pub open spec fn cue_rows(clip: Clip, place: nat, cues: Seq<Cue>, n: nat) -> Seq<char>
    decreases n,
{
    if n == 0 {
        Seq::empty()
    } else {
        let before = cue_rows(clip, place, cues, (n - 1) as nat);
        if overlaps(cues[n - 1], clip.start, clip.end) {
            before + cue_row(clip, place, cues[n - 1])
        } else {
            before
        }
    }
}

/// The heading of the table of subtitles and the rows of the first `n` clips.
pub open spec fn cue_table(clips: Seq<Clip>, cues: Seq<Cue>, n: nat) -> Seq<char>
    decreases n,
{
    if n == 0 {
        "clip,file,relative_start,relative_end,source_start,source_end,speaker,language,text\n"@
    } else {
        cue_table(clips, cues, (n - 1) as nat) + cue_rows(clips[n - 1], n, cues, cues.len())
    }
}

/// The instructions beside exported clips.
pub open spec fn instructions(
    source: Seq<char>,
    preset: Seq<char>,
    audio: Seq<char>,
) -> Seq<char> {
    "FrameNote rough-cut export\n\nSource: "@ + source + "\nPreset: "@ + preset + "\nAudio: "@
        + audio
        + "\n\nEach completed mark is exported as a separate media clip. Every matching .srt file uses clip-relative timestamps and prefixes distinguishable speakers. Import the media files into DaVinci Resolve's Media Pool, then import the matching SRT files as subtitles. framenote_manifest.csv retains source in/out points; framenote_subtitles.csv retains source and relative timestamps, speaker labels, language codes, and verbatim text.\n"@
}

fn write_clip_row(clip: &ExportManifestClip, place: u64) -> (r: String)
    ensures
        r@ == clip_row(clip@, place as nat),
{
    let length: Binary64 = clock::at_start_or_later(clip.end_seconds.sub(clip.start_seconds));
    let mut out: String = digits::decimal_text(place);
    out.append(",");
    out.append(csv_field(clip.file_name.as_str()).as_str());
    out.append(",");
    out.append(csv_field(clip.subtitle_file_name.as_str()).as_str());
    out.append(",");
    out.append(clip.start_seconds.fixed_text().as_str());
    out.append(",");
    out.append(clip.end_seconds.fixed_text().as_str());
    out.append(",");
    out.append(length.fixed_text().as_str());
    out.append(",");
    out.append(csv_field(clip.label.as_str()).as_str());
    out.append("\n");
    out
}

fn write_cue_row(clip: &ExportManifestClip, place: u64, cue: &TranscriptCue) -> (r: String)
    ensures
        r@ == cue_row(clip@, place as nat, cue@),
{
    let from: Binary64 = cue.start_seconds.max(clip.start_seconds);
    let to: Binary64 = cue.end_seconds.min(clip.end_seconds);
    let mut out: String = digits::decimal_text(place);
    out.append(",");
    out.append(csv_field(clip.file_name.as_str()).as_str());
    out.append(",");
    out.append(from.sub(clip.start_seconds).fixed_text().as_str());
    out.append(",");
    out.append(to.sub(clip.start_seconds).fixed_text().as_str());
    out.append(",");
    out.append(from.fixed_text().as_str());
    out.append(",");
    out.append(to.fixed_text().as_str());
    out.append(",");
    out.append(csv_field(cue.speaker.as_str()).as_str());
    out.append(",");
    out.append(csv_field(cue.language.as_str()).as_str());
    out.append(",");
    out.append(csv_field(cue.text.as_str()).as_str());
    out.append("\n");
    out
}

fn write_manifest(clips: &Vec<ExportManifestClip>) -> (r: String)
    ensures
        r@ == manifest(clips_of(clips@), clips@.len()),
{
    let ghost all = clips_of(clips@);
    let mut out: String =
        "clip,file,subtitles,source_start,source_end,duration,label\n".to_owned();
    let mut i: usize = 0;
    while i < clips.len()
        invariant
            i <= clips@.len(),
            all == clips_of(clips@),
            out@ == manifest(all, i as nat),
        decreases clips@.len() - i,
    {
        assert(all[i as int] == clips@[i as int]@);
        out.append(write_clip_row(&clips[i], i as u64 + 1).as_str());
        i += 1;
    }
    out
}

fn write_cue_rows(clip: &ExportManifestClip, place: u64, cues: &Vec<TranscriptCue>) -> (r: String)
    ensures
        r@ == cue_rows(clip@, place as nat, transcript::cues_of(cues@), cues@.len()),
{
    let ghost all = transcript::cues_of(cues@);
    let mut out: String = String::new();
    let mut i: usize = 0;
    while i < cues.len()
        invariant
            i <= cues@.len(),
            all == transcript::cues_of(cues@),
            out@ == cue_rows(clip@, place as nat, all, i as nat),
        decreases cues@.len() - i,
    {
        assert(all[i as int] == cues@[i as int]@);
        if is_heard(&cues[i], clip.start_seconds, clip.end_seconds) {
            out.append(write_cue_row(clip, place, &cues[i]).as_str());
        }
        i += 1;
    }
    out
}

fn write_cue_table(clips: &Vec<ExportManifestClip>, cues: &Vec<TranscriptCue>) -> (r: String)
    ensures
        r@ == cue_table(clips_of(clips@), transcript::cues_of(cues@), clips@.len()),
{
    let ghost all = clips_of(clips@);
    let ghost spoken = transcript::cues_of(cues@);
    let mut out: String =
        "clip,file,relative_start,relative_end,source_start,source_end,speaker,language,text\n".to_owned();
    let mut i: usize = 0;
    while i < clips.len()
        invariant
            i <= clips@.len(),
            all == clips_of(clips@),
            spoken == transcript::cues_of(cues@),
            out@ == cue_table(all, spoken, i as nat),
        decreases clips@.len() - i,
    {
        assert(all[i as int] == clips@[i as int]@);
        out.append(write_cue_rows(&clips[i], i as u64 + 1, cues).as_str());
        i += 1;
    }
    out
}

/// The files that stand beside exported clips.
pub struct ExportManifest {
    /// The text of `framenote_manifest.csv`.
    pub clips: String,
    /// The text of `framenote_subtitles.csv`.
    pub subtitles: String,
    /// The text of `README.txt`.
    pub instructions: String,
}

/// Why no files are written beside exported clips, where none are.
pub open spec fn manifest_refusal(video_exists: bool, folder_exists: bool) -> Option<Seq<char>> {
    if !video_exists {
        Some("The selected video no longer exists."@)
    } else if !folder_exists {
        Some("The export folder is no longer available."@)
    } else {
        None
    }
}

/// Checks whether files can be written beside exported clips.
pub fn check_manifest(video_exists: bool, folder_exists: bool) -> (r: Result<(), String>)
    ensures
        match r {
            Ok(_) => manifest_refusal(video_exists, folder_exists) is None,
            Err(message) => manifest_refusal(video_exists, folder_exists) == Some(message@),
        },
{
    if !video_exists {
        return Err("The selected video no longer exists.".to_owned());
    }
    if !folder_exists {
        return Err("The export folder is no longer available.".to_owned());
    }
    Ok(())
}

/// Writes the files that stand beside exported clips.
pub fn write_export_manifest(
    video_path: &FilePath,
    markdown: &str,
    preset: &str,
    audio_description: &str,
    clips: &Vec<ExportManifestClip>,
) -> (r: ExportManifest)
    ensures
        r.clips@ == manifest(clips_of(clips@), clips@.len()),
        r.subtitles@ == cue_table(
            clips_of(clips@),
            transcript::subtitles(markdown@),
            clips@.len(),
        ),
        r.instructions@ == instructions(
            video_path.name_or("video"@),
            preset@,
            audio_description@,
        ),
{
    let cues = transcript::subtitle_cues_from_markdown(markdown);
    let mut notes: String = "FrameNote rough-cut export\n\nSource: ".to_owned();
    notes.append(video_path.name_text("video").as_str());
    notes.append("\nPreset: ");
    notes.append(preset);
    notes.append("\nAudio: ");
    notes.append(audio_description);
    notes.append(
        "\n\nEach completed mark is exported as a separate media clip. Every matching .srt file uses clip-relative timestamps and prefixes distinguishable speakers. Import the media files into DaVinci Resolve's Media Pool, then import the matching SRT files as subtitles. framenote_manifest.csv retains source in/out points; framenote_subtitles.csv retains source and relative timestamps, speaker labels, language codes, and verbatim text.\n",
    );
    ExportManifest {
        clips: write_manifest(clips),
        subtitles: write_cue_table(clips, &cues),
        instructions: notes,
    }
}

// ---------------------------------------------------------------------------
// Clips
// ---------------------------------------------------------------------------

/// A request for a clip.
pub struct ExportClipRequest {
    pub clip_index: usize,
    pub start_seconds: Binary64,
    pub end_seconds: Binary64,
    pub label: String,
    pub preset: String,
    pub audio_stream_indexes: Option<Vec<u32>>,
}

/// The ending of the files of a preset.
pub open spec fn extension(preset: Seq<char>) -> Result<Seq<char>, Seq<char>> {
    if preset == "resolve"@ {
        Ok("mov"@)
    } else if preset == "mp4"@ {
        Ok("mp4"@)
    } else if preset == "source"@ {
        Ok("mkv"@)
    } else {
        Err("Choose a supported export format."@)
    }
}

/// Tells the ending of the files of a preset.
pub fn export_extension(preset: &str) -> (r: Result<&'static str, String>)
    ensures
        match r {
            Ok(ending) => extension(preset@) == Ok::<Seq<char>, Seq<char>>(ending@),
            Err(message) => extension(preset@) == Err::<Seq<char>, Seq<char>>(message@),
        },
{
    if text::same(preset, "resolve") {
        Ok("mov")
    } else if text::same(preset, "mp4") {
        Ok("mp4")
    } else if text::same(preset, "source") {
        Ok("mkv")
    } else {
        Err("Choose a supported export format.".to_owned())
    }
}

/// Why a clip is not exported, where it is not.
pub open spec fn clip_refusal(
    job: JobState,
    video_exists: bool,
    folder_exists: bool,
    start: Binary64,
    end: Binary64,
    has_ffmpeg: bool,
    preset: Seq<char>,
) -> Option<Seq<char>> {
    if job == JobState::Missing {
        Some("The export job is no longer active."@)
    } else if job == JobState::Cancelled {
        Some(jobs::CANCELLED@)
    } else if !video_exists {
        Some("The selected video no longer exists."@)
    } else if !folder_exists {
        Some("The export folder is no longer available."@)
    } else if !start.finite() || !end.finite() || end.le(start) {
        Some("This mark does not have a valid start and end time."@)
    } else if !has_ffmpeg {
        Some("FFmpeg was not found. Install FFmpeg before exporting clips."@)
    } else {
        match extension(preset) {
            Ok(_) => None,
            Err(message) => Some(message),
        }
    }
}

/// Checks whether a clip can be exported.
pub fn check_clip(
    job: JobState,
    video_exists: bool,
    folder_exists: bool,
    has_ffmpeg: bool,
    request: &ExportClipRequest,
) -> (r: Result<(), String>)
    ensures
        match r {
            Ok(_) => clip_refusal(
                job,
                video_exists,
                folder_exists,
                request.start_seconds,
                request.end_seconds,
                has_ffmpeg,
                request.preset@,
            ) is None,
            Err(message) => clip_refusal(
                job,
                video_exists,
                folder_exists,
                request.start_seconds,
                request.end_seconds,
                has_ffmpeg,
                request.preset@,
            ) == Some(message@),
        },
{
    if job == JobState::Missing {
        return Err("The export job is no longer active.".to_owned());
    }
    if job == JobState::Cancelled {
        return Err(jobs::CANCELLED.to_owned());
    }
    if !video_exists {
        return Err("The selected video no longer exists.".to_owned());
    }
    if !folder_exists {
        return Err("The export folder is no longer available.".to_owned());
    }
    if !request.start_seconds.is_finite() || !request.end_seconds.is_finite()
        || request.end_seconds.at_most(request.start_seconds) {
        return Err("This mark does not have a valid start and end time.".to_owned());
    }
    if !has_ffmpeg {
        return Err("FFmpeg was not found. Install FFmpeg before exporting clips.".to_owned());
    }
    match export_extension(request.preset.as_str()) {
        Ok(_) => Ok(()),
        Err(message) => Err(message),
    }
}

/// The name of the files of a clip, without their ending.
pub open spec fn clip_stem(video: FilePath, index: int, label: Seq<char>) -> Seq<char> {
    file_component(video.stem_or("video"@), 48) + "_"@ + digits::padded(
        digits::decimal((index + 1) as nat),
        3,
    ) + "_"@ + file_component(label, 56)
}

/// The arguments that choose the first `n` audio streams.
pub open spec fn stream_maps(indexes: Seq<u32>, n: nat) -> Seq<Seq<char>>
    decreases n,
{
    if n == 0 {
        Seq::empty()
    } else {
        stream_maps(indexes, (n - 1) as nat) + seq![
            "-map"@,
            "0:"@ + digits::decimal(indexes[n - 1] as nat) + "?"@,
        ]
    }
}

/// The arguments that choose the audio of a clip.
pub open spec fn audio_maps(indexes: Option<Vec<u32>>) -> Seq<Seq<char>> {
    match indexes {
        Some(indexes) if indexes@.len() > 0 => stream_maps(indexes@, indexes@.len()),
        _ => seq!["-map"@, "0:a?"@],
    }
}

/// The arguments of a preset.
pub open spec fn preset_arguments(preset: Seq<char>) -> Seq<Seq<char>> {
    if preset == "resolve"@ {
        seq![
            "-c:v"@,
            "prores_ks"@,
            "-profile:v"@,
            "2"@,
            "-pix_fmt"@,
            "yuv422p10le"@,
            "-c:a"@,
            "pcm_s24le"@,
        ]
    } else if preset == "mp4"@ {
        seq![
            "-c:v"@,
            "libx264"@,
            "-preset"@,
            "medium"@,
            "-crf"@,
            "18"@,
            "-c:a"@,
            "aac"@,
            "-b:a"@,
            "192k"@,
            "-movflags"@,
            "+faststart"@,
        ]
    } else {
        seq!["-c"@, "copy"@, "-avoid_negative_ts"@, "make_zero"@]
    }
}

/// The arguments with which a clip is cut from a video.
pub open spec fn clip_arguments(
    video: Seq<char>,
    request: ExportClipRequest,
    output: Seq<char>,
) -> Seq<Seq<char>> {
    seq![
        "-hide_banner"@,
        "-loglevel"@,
        "error"@,
        "-ss"@,
        clock::from_start(request.start_seconds).fixed(),
        "-i"@,
        video,
        "-t"@,
        request.end_seconds.difference(request.start_seconds).fixed(),
        "-map"@,
        "0:v:0"@,
    ] + audio_maps(request.audio_stream_indexes) + seq![
        "-map_metadata"@,
        "0"@,
        "-map_chapters"@,
        "-1"@,
        "-sn"@,
        "-dn"@,
    ] + preset_arguments(request.preset@) + seq!["-y"@, output]
}

fn add_streams(args: &mut Vec<String>, indexes: &Vec<u32>)
    ensures
        text::views(final(args)@) == text::views(old(args)@) + stream_maps(
            indexes@,
            indexes@.len(),
        ),
{
    let ghost before = text::views(args@);
    let mut i: usize = 0;
    assert(before == before + stream_maps(indexes@, 0));
    while i < indexes.len()
        invariant
            i <= indexes@.len(),
            text::views(args@) == before + stream_maps(indexes@, i as nat),
        decreases indexes@.len() - i,
    {
        let mut stream: String = "0:".to_owned();
        stream.append(digits::decimal_text(indexes[i] as u64).as_str());
        stream.append("?");
        arguments::add_all(args, &["-map", stream.as_str()]);
        i += 1;
        assert(text::views(args@) == before + stream_maps(indexes@, i as nat));
    }
}

fn add_preset(args: &mut Vec<String>, preset: &str)
    ensures
        text::views(final(args)@) == text::views(old(args)@) + preset_arguments(preset@),
{
    if text::same(preset, "resolve") {
        arguments::add_all(
            args,
            &[
                "-c:v",
                "prores_ks",
                "-profile:v",
                "2",
                "-pix_fmt",
                "yuv422p10le",
                "-c:a",
                "pcm_s24le",
            ],
        );
    } else if text::same(preset, "mp4") {
        arguments::add_all(
            args,
            &[
                "-c:v",
                "libx264",
                "-preset",
                "medium",
                "-crf",
                "18",
                "-c:a",
                "aac",
                "-b:a",
                "192k",
                "-movflags",
                "+faststart",
            ],
        );
    } else {
        arguments::add_all(args, &["-c", "copy", "-avoid_negative_ts", "make_zero"]);
    }
}

fn write_clip_arguments(video: &str, request: &ExportClipRequest, output: &str) -> (r: Vec<String>)
    ensures
        text::views(r@) == clip_arguments(video@, *request, output@),
{
    let mut args: Vec<String> = Vec::new();
    let from = clock::at_start_or_later(request.start_seconds).fixed_text();
    let length = request.end_seconds.sub(request.start_seconds).fixed_text();
    arguments::add_all(
        &mut args,
        &[
            "-hide_banner",
            "-loglevel",
            "error",
            "-ss",
            from.as_str(),
            "-i",
            video,
            "-t",
            length.as_str(),
            "-map",
            "0:v:0",
        ],
    );
    match &request.audio_stream_indexes {
        Some(indexes) => if indexes.len() > 0 {
            add_streams(&mut args, indexes);
        } else {
            arguments::add_all(&mut args, &["-map", "0:a?"]);
        },
        None => {
            arguments::add_all(&mut args, &["-map", "0:a?"]);
        },
    }
    arguments::add_all(
        &mut args,
        &["-map_metadata", "0", "-map_chapters", "-1", "-sn", "-dn"],
    );
    add_preset(&mut args, request.preset.as_str());
    arguments::add_all(&mut args, &["-y", output]);
    args
}

/// What is done to export a clip.
pub struct ClipPlan {
    pub file_name: String,
    pub subtitle_file_name: String,
    pub video_path: String,
    pub subtitle_path: String,
    /// The text of the file with the subtitles.
    pub subtitles: String,
    /// The arguments for FFmpeg.
    pub arguments: Vec<String>,
}

/// Plans the export of a clip. `folder` is the path of the folder for the
/// clip, with a separator at its end.
pub fn export_mark_clip(
    video: &FilePath,
    folder: &str,
    markdown: &str,
    request: &ExportClipRequest,
) -> (r: Result<ClipPlan, String>)
    requires
        request.clip_index < usize::MAX,
    ensures
        match r {
            Ok(plan) => {
                let stem = clip_stem(*video, request.clip_index as int, request.label@);
                &&& extension(request.preset@) matches Ok(ending)
                &&& plan.file_name@ == stem + "."@ + ending
                &&& plan.subtitle_file_name@ == stem + ".srt"@
                &&& plan.video_path@ == folder@ + plan.file_name@
                &&& plan.subtitle_path@ == folder@ + plan.subtitle_file_name@
                &&& plan.subtitles@ == srt(
                    transcript::subtitles(markdown@),
                    request.start_seconds,
                    request.end_seconds,
                    transcript::subtitles(markdown@).len(),
                )
                &&& text::views(plan.arguments@) == clip_arguments(
                    video.text(),
                    *request,
                    plan.video_path@,
                )
            },
            Err(message) => extension(request.preset@) == Err::<Seq<char>, Seq<char>>(message@),
        },
{
    let ending: &'static str = match export_extension(request.preset.as_str()) {
        Ok(ending) => ending,
        Err(message) => {
            return Err(message);
        },
    };
    let mut stem: String = safe_file_component(video.stem_text("video").as_str(), 48);
    stem.append("_");
    stem.append(digits::padded_decimal(request.clip_index as u64 + 1, 3).as_str());
    stem.append("_");
    stem.append(safe_file_component(request.label.as_str(), 56).as_str());
    let mut file_name: String = stem.clone();
    file_name.append(".");
    file_name.append(ending);
    let mut subtitle_file_name: String = stem;
    subtitle_file_name.append(".srt");
    let mut video_path: String = folder.to_owned();
    video_path.append(file_name.as_str());
    let mut subtitle_path: String = folder.to_owned();
    subtitle_path.append(subtitle_file_name.as_str());
    let cues = transcript::subtitle_cues_from_markdown(markdown);
    assert(transcript::cues_of(cues@).len() == cues@.len());
    let subtitles = clip_srt(&cues, request.start_seconds, request.end_seconds);
    let arguments = write_clip_arguments(video.full().as_str(), request, video_path.as_str());
    Ok(
        ClipPlan {
            file_name,
            subtitle_file_name,
            video_path,
            subtitle_path,
            subtitles,
            arguments,
        },
    )
}

/// What is reported of a clip that FFmpeg could not export.
pub fn export_failure(clip_index: usize, report: &str) -> (r: String)
    requires
        clip_index < usize::MAX,
    ensures
        r@ == "FFmpeg could not export mark "@ + digits::decimal((clip_index + 1) as nat) + ": "@
            + arguments::tail(report@, 8),
{
    let mut out: String = "FFmpeg could not export mark ".to_owned();
    out.append(digits::decimal_text(clip_index as u64 + 1).as_str());
    out.append(": ");
    out.append(arguments::last_lines(report, 8).as_str());
    out
}

/// The name of the folder for the clips of a video: the first time without a
/// number, from the second try on with one.
pub open spec fn folder_name(video: FilePath, tries: nat) -> Seq<char> {
    let base = "FrameNote - "@ + file_component(video.stem_or("Video"@), 70);
    if tries < 2 {
        base
    } else {
        base + " "@ + digits::decimal(tries)
    }
}

/// Why the folder for clips cannot be prepared, where it cannot.
pub open spec fn folder_refusal(video_exists: bool, parent_exists: bool) -> Option<Seq<char>> {
    if !video_exists {
        Some("The selected video no longer exists."@)
    } else if !parent_exists {
        Some("Choose an existing export folder."@)
    } else {
        None
    }
}

/// The name to try for the folder of the clips of a video. The first free name
/// counts, from the first try on.
pub fn prepare_export_directory(
    video: &FilePath,
    video_exists: bool,
    parent_exists: bool,
    tries: u64,
) -> (r: Result<String, String>)
    ensures
        match r {
            Ok(name) => folder_refusal(video_exists, parent_exists) is None && name@ == folder_name(
                *video,
                tries as nat,
            ),
            Err(message) => folder_refusal(video_exists, parent_exists) == Some(message@),
        },
{
    if !video_exists {
        return Err("The selected video no longer exists.".to_owned());
    }
    if !parent_exists {
        return Err("Choose an existing export folder.".to_owned());
    }
    Ok(write_folder_name(video, tries))
}

fn write_folder_name(video: &FilePath, tries: u64) -> (r: String)
    ensures
        r@ == folder_name(*video, tries as nat),
{
    let mut out: String = "FrameNote - ".to_owned();
    out.append(safe_file_component(video.stem_text("Video").as_str(), 70).as_str());
    if tries >= 2 {
        out.append(" ");
        out.append(digits::decimal_text(tries).as_str());
    }
    out
}

/// What follows on a try to find a folder for the clips of a video.
pub enum FolderStep {
    /// The folder is made under this name.
    Use(String),
    /// The name of this try is looked at next.
    Try(u64),
}

/// Decides what follows on a try, given whether its name is taken.
pub fn next_export_directory(video: &FilePath, tries: u64, taken: bool) -> (r: FolderStep)
    requires
        tries < u64::MAX,
    ensures
        match r {
            FolderStep::Use(name) => !taken && name@ == folder_name(*video, tries as nat),
            FolderStep::Try(next) => taken && next == tries + 1,
        },
{
    if taken {
        return FolderStep::Try(tries + 1);
    }
    FolderStep::Use(write_folder_name(video, tries))
}

/// The folder that is found within some steps from a try on, among names of
/// which some are taken.
pub open spec fn folder_found(
    video: FilePath,
    taken: Set<Seq<char>>,
    tries: nat,
    steps: nat,
) -> Option<Seq<char>>
    decreases steps,
{
    if steps == 0 {
        None
    } else if taken.contains(folder_name(video, tries)) {
        folder_found(video, taken, tries + 1, (steps - 1) as nat)
    } else {
        Some(folder_name(video, tries))
    }
}

} // verus!
