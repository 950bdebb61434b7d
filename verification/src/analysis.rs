//! The analysis of a piece of a video: what is sampled, what is asked, and
//! what is made of the answer.

use vstd::prelude::*;

use crate::address;
use crate::arguments;
use crate::clock;
use crate::digits;
use crate::gemini;
use crate::gemini::GeminiAnalysis;
use crate::jobs;
use crate::jobs::JobState;
use crate::json;
use crate::json::Fields;
use crate::json::Json;
use crate::json::Tree;
use crate::markdown;
use crate::mix;
use crate::number;
use crate::number::Binary64;
use crate::paths::FilePath;
use crate::providers;
use crate::text;
use crate::transcript;
use crate::transcript::Cue;
use crate::transcript::TranscriptCue;

verus! {

// ---------------------------------------------------------------------------
// Whether a piece is analysed
// ---------------------------------------------------------------------------

/// Why a piece is not analysed, where it is not.
pub open spec fn chunk_refusal(
    job: JobState,
    model: Seq<char>,
    video_exists: bool,
    has_ffmpeg: bool,
) -> Option<Seq<char>> {
    if job == JobState::Missing {
        Some("The analysis job is no longer active."@)
    } else if job == JobState::Cancelled {
        Some(jobs::CANCELLED@)
    } else if text::trimmed(model).len() == 0 {
        Some("Choose an Ollama model before starting analysis."@)
    } else if !video_exists {
        Some("The selected video no longer exists."@)
    } else if !has_ffmpeg {
        Some(
            "FFmpeg was not found. Install FFmpeg to enable frame and audio sampling; playback and notes still work."@,
        )
    } else {
        None
    }
}

/// Checks whether a piece can be analysed.
pub fn check_chunk(job: JobState, model: &str, video_exists: bool, has_ffmpeg: bool) -> (r: Result<
    (),
    String,
>)
    ensures
        match r {
            Ok(_) => chunk_refusal(job, model@, video_exists, has_ffmpeg) is None,
            Err(message) => chunk_refusal(job, model@, video_exists, has_ffmpeg) == Some(message@),
        },
{
    if job == JobState::Missing {
        return Err("The analysis job is no longer active.".to_owned());
    }
    if job == JobState::Cancelled {
        return Err(jobs::CANCELLED.to_owned());
    }
    if text::trim(model).as_str().is_empty() {
        return Err("Choose an Ollama model before starting analysis.".to_owned());
    }
    if !video_exists {
        return Err("The selected video no longer exists.".to_owned());
    }
    if !has_ffmpeg {
        return Err(
            "FFmpeg was not found. Install FFmpeg to enable frame and audio sampling; playback and notes still work.".to_owned(),
        );
    }
    Ok(())
}

/// The end of a piece: one second behind its start at least.
pub open spec fn piece_end(start: Binary64, end: Binary64) -> Binary64 {
    end.upper(start.sum(number::natural(1)))
}

/// Tells the end of a piece.
pub fn chunk_end(start_seconds: Binary64, end_seconds: Binary64) -> (r: Binary64)
    ensures
        r == piece_end(start_seconds, end_seconds),
{
    end_seconds.max(start_seconds.add(Binary64::from_u64(1)))
}

/// The length of a piece, one second at least.
pub open spec fn span(start: Binary64, end: Binary64) -> Binary64 {
    end.difference(start).upper(number::natural(1))
}

/// Tells the length of a piece.
pub fn chunk_length(start: Binary64, end: Binary64) -> (r: Binary64)
    ensures
        r == span(start, end),
{
    end.sub(start).max(Binary64::from_u64(1))
}

// ---------------------------------------------------------------------------
// Samples
// ---------------------------------------------------------------------------

/// How many frames are sampled: two to eight.
pub open spec fn frames(wanted: int) -> int {
    if wanted < 2 {
        2
    } else if wanted > 8 {
        8
    } else {
        wanted
    }
}

/// Tells how many frames are sampled.
pub fn frame_total(wanted: usize) -> (r: usize)
    ensures
        r == frames(wanted as int),
{
    if wanted < 2 {
        2
    } else if wanted > 8 {
        8
    } else {
        wanted
    }
}

/// The value nearest to ninety-two hundredths.
pub open spec fn reach() -> Binary64 {
    Binary64 { bits: 0x3fed_70a3_d70a_3d71 }
}

/// The time of a frame: the frames stand at equal distances from the start of
/// a piece on, the last one at ninety-two hundredths of its length.
pub open spec fn frame_time(start: Binary64, end: Binary64, total: int, index: int) -> Binary64 {
    let ratio = number::natural(index as nat).quotient(number::natural((total - 1) as nat)).product(
        reach(),
    );
    start.sum(span(start, end).product(ratio))
}

/// The arguments with which a frame is taken.
pub open spec fn frame_arguments(at: Binary64, video: Seq<char>, output: Seq<char>) -> Seq<
    Seq<char>,
> {
    seq![
        "-hide_banner"@,
        "-loglevel"@,
        "error"@,
        "-ss"@,
        at.fixed(),
        "-i"@,
        video,
        "-frames:v"@,
        "1"@,
        "-vf"@,
        "scale='min(1024,iw)':-2"@,
        "-q:v"@,
        "4"@,
        "-y"@,
        output,
    ]
}

/// Plans the sampling of a frame: the arguments for FFmpeg.
pub fn extract_frame(
    video: &str,
    start: Binary64,
    end: Binary64,
    frame_count: usize,
    index: usize,
    output: &str,
) -> (r: Vec<String>)
    ensures
        text::views(r@) == frame_arguments(
            frame_time(start, end, frames(frame_count as int), index as int),
            video@,
            output@,
        ),
{
    let total: usize = frame_total(frame_count);
    let ratio: Binary64 = Binary64::from_u64(index as u64).div(
        Binary64::from_u64(total as u64 - 1),
    ).mul(Binary64 { bits: 0x3fed_70a3_d70a_3d71 });
    let at = start.add(chunk_length(start, end).mul(ratio)).fixed_text();
    let mut args: Vec<String> = Vec::new();
    arguments::add_all(
        &mut args,
        &[
            "-hide_banner",
            "-loglevel",
            "error",
            "-ss",
            at.as_str(),
            "-i",
            video,
            "-frames:v",
            "1",
            "-vf",
            "scale='min(1024,iw)':-2",
            "-q:v",
            "4",
            "-y",
            output,
        ],
    );
    args
}

/// The name of the file of a frame.
pub fn frame_file(index: usize) -> (r: String)
    ensures
        r@ == "frame-"@ + digits::decimal(index as nat) + ".jpg"@,
{
    let mut out: String = "frame-".to_owned();
    out.append(digits::decimal_text(index as u64).as_str());
    out.append(".jpg");
    out
}

/// The names of the first `n` streams.
pub open spec fn stream_pads(streams: Seq<u32>, n: nat) -> Seq<char>
    decreases n,
{
    if n == 0 {
        Seq::empty()
    } else {
        stream_pads(streams, (n - 1) as nat) + ("[0:"@ + mix::decimal_of(streams[n - 1]) + "]"@)
    }
}

/// The arguments that choose the sound of a piece: the one stream, or the mix
/// of all.
pub open spec fn sound_maps(streams: Seq<u32>) -> Seq<Seq<char>> {
    if streams.len() == 1 {
        seq!["-map"@, "0:"@ + mix::decimal_of(streams[0])]
    } else {
        seq![
            "-filter_complex"@,
            mix::gather(stream_pads(streams, streams.len()), streams.len(), "chunk_audio"@),
            "-map"@,
            "[chunk_audio]"@,
        ]
    }
}

/// The arguments that cut a piece from a video.
pub open spec fn cut_arguments(video: Seq<char>, start: Binary64, end: Binary64) -> Seq<Seq<char>> {
    seq![
        "-hide_banner"@,
        "-loglevel"@,
        "error"@,
        "-ss"@,
        start.fixed(),
        "-t"@,
        span(start, end).fixed(),
        "-i"@,
        video,
    ]
}

/// The arguments with which the sound of a piece is taken.
pub open spec fn audio_arguments(
    video: Seq<char>,
    start: Binary64,
    end: Binary64,
    streams: Seq<u32>,
    output: Seq<char>,
) -> Seq<Seq<char>> {
    cut_arguments(video, start, end) + sound_maps(streams) + seq![
        "-vn"@,
        "-ac"@,
        "1"@,
        "-ar"@,
        "16000"@,
        "-c:a"@,
        "aac"@,
        "-b:a"@,
        "64k"@,
        "-f"@,
        "adts"@,
        "-y"@,
        output,
    ]
}

fn add_cut(args: &mut Vec<String>, video: &str, start: Binary64, end: Binary64)
    ensures
        text::views(final(args)@) == text::views(old(args)@) + cut_arguments(video@, start, end),
{
    let from = start.fixed_text();
    let length = chunk_length(start, end).fixed_text();
    arguments::add_all(
        args,
        &[
            "-hide_banner",
            "-loglevel",
            "error",
            "-ss",
            from.as_str(),
            "-t",
            length.as_str(),
            "-i",
            video,
        ],
    );
}

fn add_sound(args: &mut Vec<String>, streams: &Vec<u32>)
    ensures
        text::views(final(args)@) == text::views(old(args)@) + sound_maps(streams@),
{
    if streams.len() == 1 {
        let mut stream: String = "0:".to_owned();
        stream.append(digits::decimal_text(streams[0] as u64).as_str());
        arguments::add_all(args, &["-map", stream.as_str()]);
        return;
    }
    let mut inputs: String = String::new();
    let mut i: usize = 0;
    while i < streams.len()
        invariant
            i <= streams@.len(),
            inputs@ == stream_pads(streams@, i as nat),
        decreases streams@.len() - i,
    {
        let mut pad: String = "[0:".to_owned();
        pad.append(digits::decimal_text(streams[i] as u64).as_str());
        pad.append("]");
        inputs.append(pad.as_str());
        i += 1;
    }
    let filter = mix::write_gather(inputs.as_str(), streams.len(), "chunk_audio");
    arguments::add_all(args, &["-filter_complex", filter.as_str(), "-map", "[chunk_audio]"]);
}

/// Plans the sampling of sound: the arguments for FFmpeg; `None` for a video
/// without audio streams.
pub fn extract_audio(
    video: &str,
    start: Binary64,
    end: Binary64,
    streams: &Vec<u32>,
    output: &str,
) -> (r: Option<Vec<String>>)
    ensures
        match r {
            Some(args) => streams@.len() > 0 && text::views(args@) == audio_arguments(
                video@,
                start,
                end,
                streams@,
                output@,
            ),
            None => streams@.len() == 0,
        },
{
    if streams.len() == 0 {
        return None;
    }
    let mut args: Vec<String> = Vec::new();
    add_cut(&mut args, video, start, end);
    add_sound(&mut args, streams);
    arguments::add_all(
        &mut args,
        &[
            "-vn",
            "-ac",
            "1",
            "-ar",
            "16000",
            "-c:a",
            "aac",
            "-b:a",
            "64k",
            "-f",
            "adts",
            "-y",
            output,
        ],
    );
    Some(args)
}

/// The arguments with which the sound of a piece is taken for Whisper.
pub fn whisper_audio_arguments(video: &str, start: Binary64, end: Binary64, output: &str) -> (r:
    Vec<String>)
    ensures
        text::views(r@) == cut_arguments(video@, start, end) + seq![
            "-vn"@,
            "-ac"@,
            "1"@,
            "-ar"@,
            "16000"@,
            "-c:a"@,
            "pcm_s16le"@,
            "-y"@,
            output@,
        ],
{
    let mut args: Vec<String> = Vec::new();
    add_cut(&mut args, video, start, end);
    arguments::add_all(
        &mut args,
        &["-vn", "-ac", "1", "-ar", "16000", "-c:a", "pcm_s16le", "-y", output],
    );
    args
}

/// The arguments for Whisper.
pub fn whisper_arguments(model: &str, audio: &str) -> (r: Vec<String>)
    ensures
        text::views(r@) == seq![
            "-m"@,
            model@,
            "-f"@,
            audio@,
            "-l"@,
            "auto"@,
            "-nt"@,
            "-np"@,
            "-t"@,
            "4"@,
        ],
{
    let mut args: Vec<String> = Vec::new();
    arguments::add_all(
        &mut args,
        &["-m", model, "-f", audio, "-l", "auto", "-nt", "-np", "-t", "4"],
    );
    args
}

/// Reads the transcript that Whisper printed, where it printed any.
pub fn whisper_transcript(stdout: &str) -> (r: Option<String>)
    ensures
        text::opt(r) == if text::collapsed(stdout@).len() > 0 {
            Some(text::collapsed(stdout@))
        } else {
            None
        },
{
    let words = text::collapse(stdout);
    if words.as_str().is_empty() {
        None
    } else {
        Some(words)
    }
}

// ---------------------------------------------------------------------------
// Subtitles beside a video
// ---------------------------------------------------------------------------

/// The words of a block of subtitles, where it is shown between two times.
pub open spec fn block_words(block: Seq<char>, start: Binary64, end: Binary64) -> Option<Seq<char>> {
    let lines = text::lines_of(block);
    match markdown::first(lines, markdown::LineTest::Contains("-->"@)) {
        None => None,
        Some(i) => {
            let times = text::pieces(lines[i], "-->"@);
            if times.len() != 2 {
                None
            } else {
                let last = text::words(times[1]);
                let until = if last.len() > 0 {
                    last[0]
                } else {
                    Seq::empty()
                };
                match (clock::stamp_value(times[0]), clock::stamp_value(until)) {
                    (Some(from), Some(to)) if start.le(to) && from.le(end) => {
                        let words = text::joined(lines.skip(i + 1), " "@);
                        if text::trimmed(words).len() > 0 {
                            Some(words)
                        } else {
                            None
                        }
                    },
                    _ => None,
                }
            }
        },
    }
}

/// The words of the first `n` blocks that are shown between two times.
pub open spec fn excerpts(blocks: Seq<Seq<char>>, start: Binary64, end: Binary64, n: nat) -> Seq<
    Seq<char>,
>
    decreases n,
{
    if n == 0 {
        Seq::empty()
    } else {
        let before = excerpts(blocks, start, end, (n - 1) as nat);
        match block_words(blocks[n - 1], start, end) {
            Some(words) => before.push(words),
            None => before,
        }
    }
}

/// The words of a file of subtitles between two times, where there are any.
pub open spec fn excerpt(source: Seq<char>, start: Binary64, end: Binary64) -> Option<Seq<char>> {
    let blocks = text::pieces(text::replaced(source, "\r\n"@, "\n"@), "\n\n"@);
    let found = excerpts(blocks, start, end, blocks.len());
    if found.len() > 0 {
        Some(text::joined(found, " "@))
    } else {
        None
    }
}

/// The words of the files of subtitles beside a video: those of the first file
/// that has any between two times.
pub open spec fn companion(
    srt: Option<Seq<char>>,
    vtt: Option<Seq<char>>,
    start: Binary64,
    end: Binary64,
) -> Option<Seq<char>> {
    let first = match srt {
        Some(source) => excerpt(source, start, end),
        None => None,
    };
    match (first, vtt) {
        (Some(words), _) => Some(words),
        (None, Some(source)) => excerpt(source, start, end),
        (None, None) => None,
    }
}

fn join_from(lines: &Vec<String>, from: usize) -> (r: String)
    requires
        from <= lines@.len(),
    ensures
        r@ == text::joined(text::views(lines@).skip(from as int), " "@),
{
    let ghost views = text::views(lines@);
    let mut rest: Vec<String> = Vec::new();
    let mut i: usize = from;
    assert(text::views(rest@) =~= views.subrange(from as int, from as int));
    while i < lines.len()
        invariant
            from <= i <= lines@.len(),
            views == text::views(lines@),
            text::views(rest@) == views.subrange(from as int, i as int),
        decreases lines@.len() - i,
    {
        markdown::push_line(&mut rest, lines[i].as_str());
        i += 1;
        assert(text::views(rest@) =~= views.subrange(from as int, i as int));
    }
    assert(views.subrange(from as int, lines@.len() as int) =~= views.skip(from as int));
    text::join(&rest, " ")
}

fn read_block(block: &str, start: Binary64, end: Binary64) -> (r: Option<String>)
    ensures
        text::opt(r) == block_words(block@, start, end),
{
    proof {
        reveal_strlit("-->");
    }
    let lines = text::lines(block);
    let i: usize = match markdown::find_line(&lines, &markdown::Probe::Contains("-->"), 0) {
        Some(i) => i,
        None => {
            return None;
        },
    };
    assert(text::views(lines@)[i as int] == lines@[i as int]@);
    let times = text::split(lines[i].as_str(), "-->");
    assert(text::views(times@).len() == times@.len());
    if times.len() != 2 {
        return None;
    }
    assert(text::views(times@)[0] == times@[0]@);
    assert(text::views(times@)[1] == times@[1]@);
    let last = text::split_whitespace(times[1].as_str());
    assert(text::views(last@).len() == last@.len());
    let until: String = if last.len() > 0 {
        assert(text::views(last@)[0] == last@[0]@);
        last[0].clone()
    } else {
        String::new()
    };
    match (
        clock::parse_subtitle_timestamp(times[0].as_str()),
        clock::parse_subtitle_timestamp(until.as_str()),
    ) {
        (Some(from), Some(to)) => {
            if !start.at_most(to) || !from.at_most(end) {
                return None;
            }
            let words = join_from(&lines, i + 1);
            if text::trim(words.as_str()).as_str().is_empty() {
                None
            } else {
                Some(words)
            }
        },
        _ => None,
    }
}

/// Reads the words of a file of subtitles between two times.
pub fn subtitle_excerpt(source: &str, start: Binary64, end: Binary64) -> (r: Option<String>)
    ensures
        text::opt(r) == excerpt(source@, start, end),
{
    proof {
        reveal_strlit("\r\n");
        reveal_strlit("\n\n");
    }
    let normalized = text::replace(source, "\r\n", "\n");
    let blocks = text::split(normalized.as_str(), "\n\n");
    let ghost views = text::views(blocks@);
    let mut found: Vec<String> = Vec::new();
    let mut i: usize = 0;
    assert(text::views(found@) =~= excerpts(views, start, end, 0));
    while i < blocks.len()
        invariant
            i <= blocks@.len(),
            views == text::views(blocks@),
            text::views(found@) == excerpts(views, start, end, i as nat),
        decreases blocks@.len() - i,
    {
        assert(views[i as int] == blocks@[i as int]@);
        match read_block(blocks[i].as_str(), start, end) {
            Some(words) => {
                markdown::push_line(&mut found, words.as_str());
            },
            None => {},
        }
        i += 1;
    }
    assert(text::views(found@).len() == found@.len());
    if found.len() == 0 {
        None
    } else {
        Some(text::join(&found, " "))
    }
}

/// Reads the words of the files of subtitles beside a video between two times.
pub fn companion_transcript(
    srt: Option<&str>,
    vtt: Option<&str>,
    start: Binary64,
    end: Binary64,
) -> (r: Option<String>)
    ensures
        text::opt(r) == companion(text::opt_str(srt), text::opt_str(vtt), start, end),
{
    match srt {
        Some(source) => match subtitle_excerpt(source, start, end) {
            Some(words) => {
                return Some(words);
            },
            None => {},
        },
        None => {},
    }
    match vtt {
        Some(source) => subtitle_excerpt(source, start, end),
        None => None,
    }
}

// ---------------------------------------------------------------------------
// Questions
// ---------------------------------------------------------------------------

/// What Gemini is asked.
pub const GEMINI_QUESTION: &'static str = "Analyze the actual audio and chronological frames together. The first image is the exact frame at the selected chunk start; the remaining images sample what follows. Produce both fields required by the response schema.\n\nSUMMARY FIELD:\nCreate a dense, searchable English timeline note focused on what specifically changed. Prioritize the concrete topic, question, decision, instruction, joke, disagreement, or outcome in speech; then exact actions, people/player names, game/app/screen, selected option, setting, amount, item, result, and visible text. Use 1–3 compact sentences and 35–75 words with 2–4 facts in chronological order. Never use filler such as ‘the video shows,’ ‘a user navigates,’ ‘gameplay continues,’ ‘players chat/talk,’ or ‘in this chunk.’\n\nTRANSCRIPT FIELD:\nTranscribe every intelligible spoken word verbatim in the original language, including Slovak/English code-switching. Do not translate, paraphrase, grammar-correct, censor, or omit audible filler words, repetitions, and false starts. Split speech into readable cues of roughly 1–8 seconds and normally no more than 16 words. Use decimal start/end seconds relative to the beginning of the supplied audio, not the original video. Timestamps must follow the audio closely, stay chronological, and may overlap for simultaneous speakers. Keep stable speaker labels only when voices are distinguishable; otherwise use Unknown. Use language codes such as sk, en, or mixed. Do not put music, sound effects, descriptions, or uncertain invented words in transcript text. Return an empty transcript array when no intelligible speech is audible.\n\nIf any evidence is unclear, remain conservative rather than inventing it.";

/// What Ollama is asked.
pub const OLLAMA_QUESTION: &'static str = "Create a dense, searchable timeline note using only the chronological frames and transcript supplied for this private video chunk. The first image is the exact frame at the selected chunk start; the remaining images sample what follows. Focus on what specifically changed.\n\nPriority order:\n1. Speech: state the concrete topic, question, decision, instruction, joke, disagreement, or outcome. Do not merely say that people talk or name the language.\n2. Actions and state changes: name the person/player when known, the exact game/app/screen, selected option, setting, amount, item, result, or visible on-screen text.\n3. Sounds only when they explain an event; omit routine music and generic gameplay sounds.\n\nUse 1–3 compact sentences and 35–75 words when the evidence supports it. Include 2–4 specific facts in chronological order. Never use filler such as ‘the video shows,’ ‘a user navigates,’ ‘gameplay continues,’ ‘players chat/talk,’ or ‘in this chunk.’ Do not invent unclear transcript content or visual events; explicitly mark only the uncertain detail. Return only the note—no timestamp, heading, bullet, preamble, or Markdown.";

/// What a question says of a piece.
pub open spec fn piece_words(name: Seq<char>, start: Binary64, end: Binary64) -> Seq<char> {
    "\n\nVideo: "@ + name + "\nChunk: "@ + clock::timestamp(start) + " to "@ + clock::timestamp(end)
}

fn write_piece_words(name: &str, start: Binary64, end: Binary64) -> (r: String)
    ensures
        r@ == piece_words(name@, start, end),
{
    let mut out: String = "\n\nVideo: ".to_owned();
    out.append(name);
    out.append("\nChunk: ");
    out.append(clock::format_timestamp(start).as_str());
    out.append(" to ");
    out.append(clock::format_timestamp(end).as_str());
    out
}

/// Writes the question for Gemini.
pub fn gemini_prompt(video: &FilePath, start: Binary64, end: Binary64) -> (r: String)
    ensures
        r@ == GEMINI_QUESTION@ + piece_words(video.name_or("video"@), start, end),
{
    let mut out: String = GEMINI_QUESTION.to_owned();
    out.append(write_piece_words(video.name_text("video").as_str(), start, end).as_str());
    out
}

/// The words that stand for a transcript in a question.
pub open spec fn quoted_transcript(transcript: Option<Seq<char>>) -> Seq<char> {
    text::head(
        match transcript {
            Some(words) => words,
            None => "No transcript was available for this chunk."@,
        },
        8000,
    )
}

/// Writes the question for Ollama.
pub fn ollama_prompt(
    video: &FilePath,
    start: Binary64,
    end: Binary64,
    transcript: Option<&str>,
) -> (r: String)
    ensures
        r@ == OLLAMA_QUESTION@ + piece_words(video.name_or("video"@), start, end)
            + "\nTranscript (may be unavailable): "@ + quoted_transcript(
            text::opt_str(transcript),
        ),
{
    let words: String = match transcript {
        Some(words) => text::take(words, 8000),
        None => text::take("No transcript was available for this chunk.", 8000),
    };
    let mut out: String = OLLAMA_QUESTION.to_owned();
    out.append(write_piece_words(video.name_text("video").as_str(), start, end).as_str());
    out.append("\nTranscript (may be unavailable): ");
    out.append(words.as_str());
    out
}

// ---------------------------------------------------------------------------
// Answers
// ---------------------------------------------------------------------------

/// How a service answered a question.
pub enum ModelReply {
    /// The job was stopped before.
    Cancelled,
    /// The service could not be reached.
    Unreachable,
    /// The answer took too long.
    TimedOut,
    /// With a status that is no success, and a text.
    Refused { status: String, detail: String },
    /// With a document, or with one that could not be read.
    Answer(Result<Json, String>),
}

/// The result of an analysis of a piece.
pub struct AnalysisChunkResult {
    pub summary: String,
    pub frame_count: usize,
    pub transcript_source: String,
    pub transcript_cues: Vec<TranscriptCue>,
    pub transcript_complete: bool,
}

/// Whether there is anything to ask of Gemini.
pub fn check_gemini_samples(frames: usize, has_audio: bool) -> (r: Result<(), String>)
    ensures
        match r {
            Ok(_) => frames > 0 || has_audio,
            Err(message) => frames == 0 && !has_audio && message@
                == "FFmpeg could not extract audio or representative frames from this chunk."@,
        },
{
    if frames == 0 && !has_audio {
        return Err(
            "FFmpeg could not extract audio or representative frames from this chunk.".to_owned(),
        );
    }
    Ok(())
}

/// The text that Gemini answered, or why there is none.
pub open spec fn gemini_answer(reply: ModelReply) -> Result<Seq<char>, Seq<char>> {
    match reply {
        ModelReply::Cancelled => Err(jobs::CANCELLED@),
        ModelReply::Unreachable => Err(
            "Could not reach Gemini. Check the network and API key, then resume."@,
        ),
        ModelReply::TimedOut => Err(
            "Gemini took too long to answer. Saved chunks remain ready to resume."@,
        ),
        ModelReply::Refused { status, detail } => Err(
            "Gemini returned HTTP "@ + status@ + ": "@ + gemini::error_text(
                json::document(crate::fingerprint::utf8(detail@)),
                detail@,
            ),
        ),
        ModelReply::Answer(Err(error)) => Err(
            "Gemini returned an unreadable response: "@ + error@,
        ),
        ModelReply::Answer(Ok(body)) => gemini::answer_text(body.tree()),
    }
}

/// Reads the text that Gemini answered.
pub fn read_gemini_reply(reply: &ModelReply) -> (r: Result<String, String>)
    ensures
        text::told(r) == gemini_answer(*reply),
{
    match reply {
        ModelReply::Cancelled => Err(jobs::CANCELLED.to_owned()),
        ModelReply::Unreachable => Err(
            "Could not reach Gemini. Check the network and API key, then resume.".to_owned(),
        ),
        ModelReply::TimedOut => Err(
            "Gemini took too long to answer. Saved chunks remain ready to resume.".to_owned(),
        ),
        ModelReply::Refused { status, detail } => Err(
            gemini::gemini_failure(status.as_str(), detail.as_str()),
        ),
        ModelReply::Answer(Err(error)) => {
            let mut message: String = "Gemini returned an unreadable response: ".to_owned();
            message.append(error.as_str());
            Err(message)
        },
        ModelReply::Answer(Ok(body)) => gemini::gemini_text(body),
    }
}

/// A passage of a piece, from the start of the video.
pub open spec fn shifted(cue: Cue, start: Binary64) -> Cue {
    Cue {
        start: clock::from_start(start).sum(cue.start),
        end: clock::from_start(start).sum(cue.end),
        ..cue
    }
}

/// The passages of a piece, from the start of the video.
pub open spec fn all_shifted(cues: Seq<Cue>, start: Binary64) -> Seq<Cue> {
    Seq::new(cues.len(), |i: int| shifted(cues[i], start))
}

/// What is said of the source of a transcript of Gemini.
pub open spec fn gemini_source(has_audio: bool, cues: nat) -> Seq<char> {
    if has_audio {
        "Native AAC audio + vision · Gemini · "@ + digits::decimal(cues) + " subtitle cues"@
    } else {
        "Vision only · no audio stream"@
    }
}

fn shift_cues(cues: &Vec<TranscriptCue>, start: Binary64) -> (r: Vec<TranscriptCue>)
    ensures
        transcript::cues_of(r@) == all_shifted(transcript::cues_of(cues@), start),
{
    let ghost all = transcript::cues_of(cues@);
    let origin: Binary64 = clock::at_start_or_later(start);
    let mut out: Vec<TranscriptCue> = Vec::new();
    let mut i: usize = 0;
    assert(transcript::cues_of(out@) =~= all_shifted(all, start).take(0));
    while i < cues.len()
        invariant
            i <= cues@.len(),
            all == transcript::cues_of(cues@),
            origin == clock::from_start(start),
            transcript::cues_of(out@) == all_shifted(all, start).take(i as int),
        decreases cues@.len() - i,
    {
        assert(all[i as int] == cues@[i as int]@);
        let cue = TranscriptCue {
            start_seconds: origin.add(cues[i].start_seconds),
            end_seconds: origin.add(cues[i].end_seconds),
            text: cues[i].text.clone(),
            speaker: cues[i].speaker.clone(),
            language: cues[i].language.clone(),
        };
        let ghost before = transcript::cues_of(out@);
        let ghost added = cue@;
        out.push(cue);
        assert(transcript::cues_of(out@) =~= before.push(added));
        i += 1;
        assert(transcript::cues_of(out@) =~= all_shifted(all, start).take(i as int));
    }
    assert(all_shifted(all, start).take(i as int) =~= all_shifted(all, start));
    out
}

/// Makes the result of an analysis with Gemini. Without sound no transcript
/// counts.
pub fn gemini_chunk_result(
    analysis: &GeminiAnalysis,
    start_seconds: Binary64,
    frames: usize,
    has_audio: bool,
) -> (r: AnalysisChunkResult)
    ensures
        r.summary@ == analysis.summary@,
        r.frame_count == frames,
        r.transcript_complete,
        transcript::cues_of(r.transcript_cues@) == if has_audio {
            all_shifted(transcript::cues_of(analysis.transcript_cues@), start_seconds)
        } else {
            Seq::empty()
        },
        r.transcript_source@ == gemini_source(has_audio, r.transcript_cues@.len()),
{
    if !has_audio {
        let none: Vec<TranscriptCue> = Vec::new();
        assert(transcript::cues_of(none@) =~= Seq::<Cue>::empty());
        return AnalysisChunkResult {
            summary: analysis.summary.clone(),
            frame_count: frames,
            transcript_source: "Vision only · no audio stream".to_owned(),
            transcript_cues: none,
            transcript_complete: true,
        };
    }
    let cues = shift_cues(&analysis.transcript_cues, start_seconds);
    let mut source: String = "Native AAC audio + vision · Gemini · ".to_owned();
    source.append(digits::decimal_text(cues.len() as u64).as_str());
    source.append(" subtitle cues");
    AnalysisChunkResult {
        summary: analysis.summary.clone(),
        frame_count: frames,
        transcript_source: source,
        transcript_cues: cues,
        transcript_complete: true,
    }
}

// ---------------------------------------------------------------------------
// Ollama
// ---------------------------------------------------------------------------

/// Whether Whisper is asked for a transcript: there is no file of subtitles
/// beside the video, and a model is named.
pub fn wants_whisper(has_companion: bool, model_path: Option<&str>) -> (r: bool)
    ensures
        r == (!has_companion && (model_path matches Some(path) && text::trimmed(path@).len() > 0)),
{
    if has_companion {
        return false;
    }
    match model_path {
        Some(path) => !text::trim(path).as_str().is_empty(),
        None => false,
    }
}

/// The transcript of a piece and the words for its source.
pub open spec fn chosen_transcript(
    companion: Option<Seq<char>>,
    whisper: Option<Seq<char>>,
) -> (Option<Seq<char>>, Seq<char>) {
    match (companion, whisper) {
        (Some(words), _) => (Some(words), "Companion subtitles"@),
        (None, Some(words)) => (Some(words), "Local Whisper transcript"@),
        (None, None) => (None, "Visual frames only"@),
    }
}

/// Chooses the transcript of a piece.
pub fn choose_transcript(companion: Option<String>, whisper: Option<String>) -> (r: (
    Option<String>,
    String,
))
    ensures
        (text::opt(r.0), r.1@) == chosen_transcript(text::opt(companion), text::opt(whisper)),
{
    match companion {
        Some(words) => (Some(words), "Companion subtitles".to_owned()),
        None => match whisper {
            Some(words) => (Some(words), "Local Whisper transcript".to_owned()),
            None => (None, "Visual frames only".to_owned()),
        },
    }
}

/// Whether there is anything to ask of Ollama.
pub fn check_ollama_samples(frames: usize, has_transcript: bool) -> (r: Result<(), String>)
    ensures
        match r {
            Ok(_) => frames > 0 || has_transcript,
            Err(message) => frames == 0 && !has_transcript && message@
                == "FFmpeg could not extract representative frames from this chunk."@,
        },
{
    if frames == 0 && !has_transcript {
        return Err("FFmpeg could not extract representative frames from this chunk.".to_owned());
    }
    Ok(())
}

/// A question to Ollama.
pub open spec fn ollama_request(
    model: Seq<char>,
    prompt: Seq<char>,
    images: Seq<Seq<char>>,
) -> Tree {
    Tree::Object(
        seq![
            ("model"@, Tree::Text(model)),
            ("prompt"@, Tree::Text(prompt)),
            ("images"@, Tree::List(json::texts(images))),
            ("stream"@, Tree::Bool(false)),
            ("options"@, Tree::Object(seq![("temperature"@, Tree::Number("0.15"@))])),
        ],
    )
}

/// Writes a question to Ollama. The images are given in Base64.
pub fn write_ollama_request(model: &str, prompt: &str, images: &Vec<String>) -> (r: Json)
    ensures
        r.tree() == ollama_request(model@, prompt@, text::views(images@)),
{
    let options = Fields::new().with("temperature", json::number_value("0.15")).object();
    let fields = Fields::new().with("model", json::text_value(model)).with(
        "prompt",
        json::text_value(prompt),
    ).with("images", json::text_list(images)).with("stream", Json::Bool(false)).with(
        "options",
        options,
    );
    assert(fields.content() =~= ollama_request(model@, prompt@, text::views(images@))->Object_0);
    fields.object()
}

/// A call of Ollama.
pub struct OllamaCall {
    pub endpoint: String,
    pub key: Option<String>,
    pub body: Json,
}

/// Prepares a question to Ollama.
pub fn prepare_ollama_call(
    ollama_url: &str,
    model: &str,
    api_key: Option<&str>,
    prompt: &str,
    images: &Vec<String>,
) -> (r: Result<OllamaCall, String>)
    requires
        ollama_url@.len() <= address::ADDRESS_LIMIT,
    ensures
        match r {
            Ok(call) => {
                &&& address::ollama_address(ollama_url@) matches Ok(base)
                &&& address::endpoint(base, "generate"@) == Ok::<Seq<char>, Seq<char>>(
                    call.endpoint@,
                )
                &&& text::opt(call.key) == providers::bearer(text::opt_str(api_key))
                &&& call.body.tree() == ollama_request(
                    address::model_name(base.host, model@),
                    prompt@,
                    text::views(images@),
                )
            },
            Err(message) => match address::ollama_address(ollama_url@) {
                Err(error) => message@ == error,
                Ok(base) => address::endpoint(base, "generate"@) == Err::<Seq<char>, Seq<char>>(
                    message@,
                ),
            },
        },
{
    match address::normalize_ollama_url(ollama_url) {
        Ok(base) => match address::ollama_endpoint(&base, "generate") {
            Ok(endpoint) => {
                let name = address::model_for_endpoint(&base, model);
                Ok(
                    OllamaCall {
                        endpoint,
                        key: providers::bearer_key(api_key),
                        body: write_ollama_request(name.as_str(), prompt, images),
                    },
                )
            },
            Err(message) => Err(message),
        },
        Err(message) => Err(message),
    }
}

/// The summary that Ollama answered, or why there is none.
pub open spec fn ollama_answer(reply: ModelReply, ollama_url: Seq<char>) -> Result<
    Seq<char>,
    Seq<char>,
> {
    match reply {
        ModelReply::Cancelled => Err(jobs::CANCELLED@),
        ModelReply::Unreachable => Err(
            "Could not reach Ollama at "@ + text::trimmed(ollama_url)
                + ". Check the endpoint, network access, and API key, then resume."@,
        ),
        ModelReply::TimedOut => Err(
            "Ollama took too long to answer. The completed timeline remains saved; you can resume later."@,
        ),
        ModelReply::Refused { status, detail } => Err(
            "Ollama returned HTTP "@ + status@ + ": "@ + text::head(detail@, 240),
        ),
        ModelReply::Answer(Err(error)) => Err(
            "Ollama returned an unreadable response: "@ + error@,
        ),
        ModelReply::Answer(Ok(body)) => match json::string(
            json::field(Some(body.tree()), "response"@),
        ) {
            Some(summary) => Ok(gemini::plain_summary(summary)),
            None => Err("Ollama returned no summary."@),
        },
    }
}

fn read_ollama_reply(reply: &ModelReply, ollama_url: &str) -> (r: Result<String, String>)
    ensures
        text::told(r) == ollama_answer(*reply, ollama_url@),
{
    match reply {
        ModelReply::Cancelled => Err(jobs::CANCELLED.to_owned()),
        ModelReply::Unreachable => {
            let mut message: String = "Could not reach Ollama at ".to_owned();
            message.append(text::trim(ollama_url).as_str());
            message.append(". Check the endpoint, network access, and API key, then resume.");
            Err(message)
        },
        ModelReply::TimedOut => Err(
            "Ollama took too long to answer. The completed timeline remains saved; you can resume later.".to_owned(),
        ),
        ModelReply::Refused { status, detail } => {
            let mut message: String = "Ollama returned HTTP ".to_owned();
            message.append(status.as_str());
            message.append(": ");
            message.append(text::take(detail.as_str(), 240).as_str());
            Err(message)
        },
        ModelReply::Answer(Err(error)) => {
            let mut message: String = "Ollama returned an unreadable response: ".to_owned();
            message.append(error.as_str());
            Err(message)
        },
        ModelReply::Answer(Ok(body)) => match json::as_text(json::get(Some(body), "response")) {
            Some(summary) => Ok(gemini::clean_summary(summary.as_str())),
            None => Err("Ollama returned no summary.".to_owned()),
        },
    }
}

/// Makes the result of an analysis with Ollama.
pub fn ollama_chunk_result(
    reply: &ModelReply,
    ollama_url: &str,
    frames: usize,
    transcript_source: &str,
) -> (r: Result<AnalysisChunkResult, String>)
    ensures
        match r {
            Ok(result) => {
                &&& ollama_answer(*reply, ollama_url@) == Ok::<Seq<char>, Seq<char>>(
                    result.summary@,
                )
                &&& result.frame_count == frames
                &&& result.transcript_source@ == transcript_source@
                &&& result.transcript_cues@.len() == 0
                &&& !result.transcript_complete
            },
            Err(message) => ollama_answer(*reply, ollama_url@) == Err::<Seq<char>, Seq<char>>(
                message@,
            ),
        },
{
    match read_ollama_reply(reply, ollama_url) {
        Ok(summary) => Ok(
            AnalysisChunkResult {
                summary,
                frame_count: frames,
                transcript_source: transcript_source.to_owned(),
                transcript_cues: Vec::new(),
                transcript_complete: false,
            },
        ),
        Err(message) => Err(message),
    }
}

/// The services that can analyse a piece.
#[derive(Clone, Copy, Debug, PartialEq, Eq, Structural)]
pub enum Provider {
    Gemini,
    Ollama,
}

/// Tells which service analyses a piece.
pub fn provider_of(name: &str) -> (r: Provider)
    ensures
        r == if text::lower(name@) == text::lower("gemini"@) {
            Provider::Gemini
        } else {
            Provider::Ollama
        },
{
    if text::same_ignoring_case(name, "gemini") {
        Provider::Gemini
    } else {
        Provider::Ollama
    }
}

} // verus!
