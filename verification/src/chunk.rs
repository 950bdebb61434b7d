//! The course of an analysis of a piece of a video: what is done next, given
//! what was done and what came of it.

use vstd::prelude::*;

use crate::address;
use crate::analysis;
use crate::analysis::AnalysisChunkResult;
use crate::analysis::ModelReply;
use crate::analysis::OllamaCall;
use crate::analysis::Provider;
use crate::clock;
use crate::gemini;
use crate::gemini::GeminiCall;
use crate::gemini::GeminiPayload;
use crate::jobs;
use crate::jobs::JobState;
use crate::json::Tree;
use crate::number::Binary64;
use crate::paths::FilePath;
use crate::providers;
use crate::text;
use crate::transcript;
use crate::transcript::Cue;

verus! {

/// The representative frames per piece, where a request names no other number.
pub const FRAME_COUNT: usize = 3;

/// A piece of a video that is to be analysed, and how.
pub struct AnalysisChunkRequest {
    pub video: FilePath,
    pub start_seconds: Binary64,
    pub end_seconds: Binary64,
    pub provider: String,
    pub ollama_url: String,
    pub model: String,
    pub api_key: Option<String>,
    pub whisper_model_path: Option<String>,
    pub frame_count: Option<usize>,
}

impl AnalysisChunkRequest {
    /// The end of the piece.
    pub open spec fn end(&self) -> Binary64 {
        analysis::piece_end(self.start_seconds, self.end_seconds)
    }

    /// The key for Gemini; empty where none was given.
    pub open spec fn key(&self) -> Seq<char> {
        match text::opt(self.api_key) {
            Some(key) => key,
            None => ""@,
        }
    }
}

/// How far an analysis has come.
pub enum ChunkStage {
    Opening,
    Sampling,
    /// The frames are there; the sound is not.
    Hearing { images: Vec<String> },
    AskingGemini { frames: usize, has_audio: bool },
    Parsing { frames: usize, has_audio: bool },
    /// The frames are there; subtitles are looked for beside the video.
    Reading { images: Vec<String> },
    Transcribing { images: Vec<String> },
    AskingOllama { frames: usize, transcript_source: String },
    Closed,
}

/// The content of a stage.
pub enum Stage {
    Opening,
    Sampling,
    Hearing { images: Seq<Seq<char>> },
    AskingGemini { frames: nat, has_audio: bool },
    Parsing { frames: nat, has_audio: bool },
    Reading { images: Seq<Seq<char>> },
    Transcribing { images: Seq<Seq<char>> },
    AskingOllama { frames: nat, source: Seq<char> },
    Closed,
}

impl View for ChunkStage {
    type V = Stage;

    open spec fn view(&self) -> Stage {
        match *self {
            ChunkStage::Opening => Stage::Opening,
            ChunkStage::Sampling => Stage::Sampling,
            ChunkStage::Hearing { images } => Stage::Hearing { images: text::views(images@) },
            ChunkStage::AskingGemini { frames, has_audio } => Stage::AskingGemini {
                frames: frames as nat,
                has_audio,
            },
            ChunkStage::Parsing { frames, has_audio } => Stage::Parsing {
                frames: frames as nat,
                has_audio,
            },
            ChunkStage::Reading { images } => Stage::Reading { images: text::views(images@) },
            ChunkStage::Transcribing { images } => Stage::Transcribing {
                images: text::views(images@),
            },
            ChunkStage::AskingOllama { frames, transcript_source } => Stage::AskingOllama {
                frames: frames as nat,
                source: transcript_source@,
            },
            ChunkStage::Closed => Stage::Closed,
        }
    }
}

/// What came of the last action.
pub enum ChunkEvent {
    /// What is known before anything is done, with a folder for samples or why
    /// there is none.
    Opened {
        job: JobState,
        video_exists: bool,
        has_ffmpeg: bool,
        workspace: Result<(), String>,
    },
    /// Frames, as text, and whether the job was stopped meanwhile.
    Sampled { images: Vec<String>, cancelled: bool },
    /// The sound, as text, where there is any.
    Heard(Option<String>),
    Replied(ModelReply),
    /// What the text of an answer holds, or why it cannot be read.
    Parsed(Result<GeminiPayload, String>),
    /// The files of subtitles beside the video; one that cannot be read counts as
    /// an empty one.
    Companions { srt: Option<String>, vtt: Option<String> },
    /// What Whisper heard.
    Transcribed(Option<String>),
}

/// What is done next.
pub enum ChunkAction {
    Sample { start: Binary64, end: Binary64, count: usize },
    Hear { start: Binary64, end: Binary64 },
    AskGemini(GeminiCall),
    Parse(String),
    ReadCompanions,
    Transcribe { model_path: String, start: Binary64, end: Binary64 },
    AskOllama(OllamaCall),
    Finish(Result<AnalysisChunkResult, String>),
}

/// The content of a result.
pub struct Outcome {
    pub summary: Seq<char>,
    pub frames: nat,
    pub source: Seq<char>,
    pub cues: Seq<Cue>,
    pub complete: bool,
}

/// The content of an action.
pub enum Action {
    Sample { start: Binary64, end: Binary64, count: nat },
    Hear { start: Binary64, end: Binary64 },
    AskGemini { endpoint: Seq<char>, key: Seq<char>, body: Tree },
    Parse(Seq<char>),
    ReadCompanions,
    Transcribe { model: Seq<char>, start: Binary64, end: Binary64 },
    AskOllama { endpoint: Seq<char>, bearer: Option<Seq<char>>, body: Tree },
    Finish(Result<Outcome, Seq<char>>),
}

impl View for ChunkAction {
    type V = Action;

    open spec fn view(&self) -> Action {
        match *self {
            ChunkAction::Sample { start, end, count } => Action::Sample {
                start,
                end,
                count: count as nat,
            },
            ChunkAction::Hear { start, end } => Action::Hear { start, end },
            ChunkAction::AskGemini(call) => Action::AskGemini {
                endpoint: call.endpoint@,
                key: call.key@,
                body: call.body.tree(),
            },
            ChunkAction::Parse(words) => Action::Parse(words@),
            ChunkAction::ReadCompanions => Action::ReadCompanions,
            ChunkAction::Transcribe { model_path, start, end } => Action::Transcribe {
                model: model_path@,
                start,
                end,
            },
            ChunkAction::AskOllama(call) => Action::AskOllama {
                endpoint: call.endpoint@,
                bearer: text::opt(call.key),
                body: call.body.tree(),
            },
            ChunkAction::Finish(result) => Action::Finish(
                match result {
                    Ok(result) => Ok(
                        Outcome {
                            summary: result.summary@,
                            frames: result.frame_count as nat,
                            source: result.transcript_source@,
                            cues: transcript::cues_of(result.transcript_cues@),
                            complete: result.transcript_complete,
                        },
                    ),
                    Err(message) => Err(message@),
                },
            ),
        }
    }
}

// ---------------------------------------------------------------------------
// The course
// ---------------------------------------------------------------------------

/// The end of an analysis that failed.
pub open spec fn failed(message: Seq<char>) -> (Stage, Action) {
    (Stage::Closed, Action::Finish(Err(message)))
}

/// What follows on the first look.
pub open spec fn opened(
    request: AnalysisChunkRequest,
    job: JobState,
    video_exists: bool,
    has_ffmpeg: bool,
    workspace: Result<(), Seq<char>>,
) -> (Stage, Action) {
    match analysis::chunk_refusal(job, request.model@, video_exists, has_ffmpeg) {
        Some(message) => failed(message),
        None => match workspace {
            Err(error) => failed("Could not create analysis workspace: "@ + error),
            Ok(_) => (
                Stage::Sampling,
                Action::Sample {
                    start: clock::from_start(request.start_seconds),
                    end: request.end(),
                    count: match request.frame_count {
                        Some(count) => count as nat,
                        None => FRAME_COUNT as nat,
                    },
                },
            ),
        },
    }
}

/// What follows on the frames.
pub open spec fn sampled(
    request: AnalysisChunkRequest,
    images: Seq<Seq<char>>,
    cancelled: bool,
) -> (Stage, Action) {
    if cancelled {
        failed(jobs::CANCELLED@)
    } else if text::lower(request.provider@) == text::lower("gemini"@) {
        (
            Stage::Hearing { images },
            Action::Hear { start: clock::from_start(request.start_seconds), end: request.end() },
        )
    } else {
        (Stage::Reading { images }, Action::ReadCompanions)
    }
}

/// What follows on the sound.
pub open spec fn heard(
    request: AnalysisChunkRequest,
    images: Seq<Seq<char>>,
    audio: Option<Seq<char>>,
) -> (Stage, Action) {
    if images.len() == 0 && audio is None {
        failed("FFmpeg could not extract audio or representative frames from this chunk."@)
    } else {
        match gemini::call_refusal(request.model@, request.key()) {
            Some(message) => failed(message),
            None => (
                Stage::AskingGemini { frames: images.len(), has_audio: audio is Some },
                Action::AskGemini {
                    endpoint: gemini::model_address(gemini::entered_model(request.model@))
                        + ":generateContent"@,
                    key: text::trimmed(request.key()),
                    body: gemini::request(
                        audio,
                        images,
                        analysis::GEMINI_QUESTION@ + analysis::piece_words(
                            request.video.name_or("video"@),
                            request.start_seconds,
                            request.end(),
                        ),
                    ),
                },
            ),
        }
    }
}

/// The result of an analysis with Gemini.
pub open spec fn gemini_outcome(
    request: AnalysisChunkRequest,
    payload: GeminiPayload,
    frames: nat,
    has_audio: bool,
) -> Outcome {
    let cues = if has_audio {
        analysis::all_shifted(
            gemini::held_cues(
                gemini::answered(payload.transcript@),
                gemini::piece_length(analysis::span(request.start_seconds, request.end())),
                transcript::read_count(payload.transcript@.len()),
            ),
            request.start_seconds,
        )
    } else {
        Seq::empty()
    };
    Outcome {
        summary: gemini::plain_summary(payload.summary@),
        frames,
        source: analysis::gemini_source(has_audio, cues.len()),
        cues,
        complete: true,
    }
}

/// What follows where the transcript is settled: Ollama is asked.
pub open spec fn settled(
    request: AnalysisChunkRequest,
    images: Seq<Seq<char>>,
    companion: Option<Seq<char>>,
    whisper: Option<Seq<char>>,
) -> (Stage, Action) {
    let (words, source) = analysis::chosen_transcript(companion, whisper);
    if images.len() == 0 && words is None {
        failed("FFmpeg could not extract representative frames from this chunk."@)
    } else {
        match address::ollama_address(request.ollama_url@) {
            Err(message) => failed(message),
            Ok(base) => match address::endpoint(base, "generate"@) {
                Err(message) => failed(message),
                Ok(endpoint) => (
                    Stage::AskingOllama { frames: images.len(), source },
                    Action::AskOllama {
                        endpoint,
                        bearer: providers::bearer(text::opt(request.api_key)),
                        body: analysis::ollama_request(
                            address::model_name(base.host, request.model@),
                            analysis::OLLAMA_QUESTION@ + analysis::piece_words(
                                request.video.name_or("video"@),
                                request.start_seconds,
                                request.end(),
                            ) + "\nTranscript (may be unavailable): "@
                                + analysis::quoted_transcript(words),
                            images,
                        ),
                    },
                ),
            },
        }
    }
}

/// What follows on the files beside the video. Where there is one, no other
/// transcript is made, also where nothing of it is shown within the piece.
pub open spec fn looked(
    request: AnalysisChunkRequest,
    images: Seq<Seq<char>>,
    srt: Option<Seq<char>>,
    vtt: Option<Seq<char>>,
) -> (Stage, Action) {
    let found = analysis::companion(srt, vtt, request.start_seconds, request.end());
    match text::opt(request.whisper_model_path) {
        Some(model) if srt is None && vtt is None && text::trimmed(model).len() > 0 => (
            Stage::Transcribing { images },
            Action::Transcribe { model, start: request.start_seconds, end: request.end() },
        ),
        _ => settled(request, images, found, None),
    }
}

/// Whether an event can come at a stage.
pub open spec fn fits(stage: Stage, event: ChunkEvent) -> bool {
    match stage {
        Stage::Opening => event is Opened,
        Stage::Sampling => event is Sampled,
        Stage::Hearing { .. } => event is Heard,
        Stage::AskingGemini { .. } => event is Replied,
        Stage::Parsing { .. } => event is Parsed,
        Stage::Reading { .. } => event is Companions,
        Stage::Transcribing { .. } => event is Transcribed,
        Stage::AskingOllama { .. } => event is Replied,
        Stage::Closed => false,
    }
}

/// Whether the address of Ollama is read at a stage.
pub open spec fn reads_address(stage: Stage) -> bool {
    stage is Reading || stage is Transcribing
}

/// What follows on an event.
pub open spec fn course(request: AnalysisChunkRequest, stage: Stage, event: ChunkEvent) -> (
    Stage,
    Action,
) {
    match (stage, event) {
        (
            Stage::Opening,
            ChunkEvent::Opened { job, video_exists, has_ffmpeg, workspace },
        ) => opened(request, job, video_exists, has_ffmpeg, clock::said(workspace)),
        (Stage::Sampling, ChunkEvent::Sampled { images, cancelled }) => sampled(
            request,
            text::views(images@),
            cancelled,
        ),
        (Stage::Hearing { images }, ChunkEvent::Heard(audio)) => heard(
            request,
            images,
            text::opt(audio),
        ),
        (Stage::AskingGemini { frames, has_audio }, ChunkEvent::Replied(reply)) => {
            match analysis::gemini_answer(reply) {
                Ok(words) => (Stage::Parsing { frames, has_audio }, Action::Parse(words)),
                Err(message) => failed(message),
            }
        },
        (Stage::Parsing { frames, has_audio }, ChunkEvent::Parsed(payload)) => match payload {
            Ok(payload) => (
                Stage::Closed,
                Action::Finish(Ok(gemini_outcome(request, payload, frames, has_audio))),
            ),
            Err(error) => failed("Gemini returned invalid transcript JSON: "@ + error@),
        },
        (Stage::Reading { images }, ChunkEvent::Companions { srt, vtt }) => looked(
            request,
            images,
            text::opt(srt),
            text::opt(vtt),
        ),
        (Stage::Transcribing { images }, ChunkEvent::Transcribed(words)) => settled(
            request,
            images,
            None,
            text::opt(words),
        ),
        (Stage::AskingOllama { frames, source }, ChunkEvent::Replied(reply)) => {
            match analysis::ollama_answer(reply, request.ollama_url@) {
                Ok(summary) => (
                    Stage::Closed,
                    Action::Finish(
                        Ok(Outcome { summary, frames, source, cues: Seq::empty(), complete: false }),
                    ),
                ),
                Err(message) => failed(message),
            }
        },
        _ => (Stage::Closed, Action::ReadCompanions),
    }
}

fn fail(message: String) -> (r: (ChunkStage, ChunkAction))
    ensures
        (r.0@, r.1@) == failed(message@),
{
    (ChunkStage::Closed, ChunkAction::Finish(Err(message)))
}

fn part_of<'a>(s: &'a Option<String>) -> (r: Option<&'a str>)
    ensures
        text::opt_str(r) == text::opt(*s),
{
    match s {
        Some(s) => Some(s.as_str()),
        None => None,
    }
}

fn begin(
    request: &AnalysisChunkRequest,
    job: JobState,
    video_exists: bool,
    has_ffmpeg: bool,
    workspace: Result<(), String>,
) -> (r: (ChunkStage, ChunkAction))
    ensures
        (r.0@, r.1@) == opened(*request, job, video_exists, has_ffmpeg, clock::said(workspace)),
{
    match analysis::check_chunk(job, request.model.as_str(), video_exists, has_ffmpeg) {
        Ok(_) => {},
        Err(message) => {
            return fail(message);
        },
    }
    match workspace {
        Ok(_) => {},
        Err(error) => {
            let mut message: String = "Could not create analysis workspace: ".to_owned();
            message.append(error.as_str());
            return fail(message);
        },
    }
    let count: usize = match request.frame_count {
        Some(count) => count,
        None => FRAME_COUNT,
    };
    (
        ChunkStage::Sampling,
        ChunkAction::Sample {
            start: clock::at_start_or_later(request.start_seconds),
            end: analysis::chunk_end(request.start_seconds, request.end_seconds),
            count,
        },
    )
}

fn ask_gemini(request: &AnalysisChunkRequest, images: Vec<String>, audio: Option<String>) -> (r: (
    ChunkStage,
    ChunkAction,
))
    ensures
        (r.0@, r.1@) == heard(*request, text::views(images@), text::opt(audio)),
{
    let frames: usize = images.len();
    assert(text::views(images@).len() == frames);
    let has_audio: bool = audio.is_some();
    match analysis::check_gemini_samples(frames, has_audio) {
        Ok(_) => {},
        Err(message) => {
            return fail(message);
        },
    }
    let end: Binary64 = analysis::chunk_end(request.start_seconds, request.end_seconds);
    let prompt = analysis::gemini_prompt(&request.video, request.start_seconds, end);
    let key: &str = match &request.api_key {
        Some(key) => key.as_str(),
        None => "",
    };
    match gemini::analyze_with_gemini(
        request.model.as_str(),
        key,
        prompt.as_str(),
        &images,
        part_of(&audio),
    ) {
        Ok(call) => (
            ChunkStage::AskingGemini { frames, has_audio },
            ChunkAction::AskGemini(call),
        ),
        Err(message) => fail(message),
    }
}

fn ask_ollama(
    request: &AnalysisChunkRequest,
    images: Vec<String>,
    companion: Option<String>,
    whisper: Option<String>,
) -> (r: (ChunkStage, ChunkAction))
    requires
        request.ollama_url@.len() <= address::ADDRESS_LIMIT,
    ensures
        (r.0@, r.1@) == settled(
            *request,
            text::views(images@),
            text::opt(companion),
            text::opt(whisper),
        ),
{
    let frames: usize = images.len();
    assert(text::views(images@).len() == frames);
    let (words, transcript_source) = analysis::choose_transcript(companion, whisper);
    match analysis::check_ollama_samples(frames, words.is_some()) {
        Ok(_) => {},
        Err(message) => {
            return fail(message);
        },
    }
    let end: Binary64 = analysis::chunk_end(request.start_seconds, request.end_seconds);
    let prompt = analysis::ollama_prompt(
        &request.video,
        request.start_seconds,
        end,
        part_of(&words),
    );
    match analysis::prepare_ollama_call(
        request.ollama_url.as_str(),
        request.model.as_str(),
        part_of(&request.api_key),
        prompt.as_str(),
        &images,
    ) {
        Ok(call) => (
            ChunkStage::AskingOllama { frames, transcript_source },
            ChunkAction::AskOllama(call),
        ),
        Err(message) => fail(message),
    }
}

fn look(
    request: &AnalysisChunkRequest,
    images: Vec<String>,
    srt: Option<String>,
    vtt: Option<String>,
) -> (r: (ChunkStage, ChunkAction))
    requires
        request.ollama_url@.len() <= address::ADDRESS_LIMIT,
    ensures
        (r.0@, r.1@) == looked(*request, text::views(images@), text::opt(srt), text::opt(vtt)),
{
    let end: Binary64 = analysis::chunk_end(request.start_seconds, request.end_seconds);
    let found = analysis::companion_transcript(
        part_of(&srt),
        part_of(&vtt),
        request.start_seconds,
        end,
    );
    if analysis::wants_whisper(
        srt.is_some() || vtt.is_some(),
        part_of(&request.whisper_model_path),
    ) {
        match &request.whisper_model_path {
            Some(path) => {
                return (
                    ChunkStage::Transcribing { images },
                    ChunkAction::Transcribe {
                        model_path: path.clone(),
                        start: request.start_seconds,
                        end,
                    },
                );
            },
            None => {},
        }
    }
    ask_ollama(request, images, found, None)
}

fn finish_gemini(
    request: &AnalysisChunkRequest,
    payload: &GeminiPayload,
    frames: usize,
    has_audio: bool,
) -> (r: (ChunkStage, ChunkAction))
    ensures
        (r.0@, r.1@) == (
            Stage::Closed,
            Action::Finish(Ok(gemini_outcome(*request, *payload, frames as nat, has_audio))),
        ),
{
    let end: Binary64 = analysis::chunk_end(request.start_seconds, request.end_seconds);
    let found = gemini::gemini_analysis(
        payload,
        analysis::chunk_length(request.start_seconds, end),
    );
    let result = analysis::gemini_chunk_result(
        &found,
        request.start_seconds,
        frames,
        has_audio,
    );
    assert(transcript::cues_of(result.transcript_cues@).len() == result.transcript_cues@.len());
    (ChunkStage::Closed, ChunkAction::Finish(Ok(result)))
}

/// Tells what follows in the analysis of a piece, given how far it has come
/// and what came of the last action.
pub fn analyze_chunk(request: &AnalysisChunkRequest, stage: ChunkStage, event: ChunkEvent) -> (r: (
    ChunkStage,
    ChunkAction,
))
    requires
        fits(stage@, event),
        reads_address(stage@) ==> request.ollama_url@.len() <= address::ADDRESS_LIMIT,
    ensures
        (r.0@, r.1@) == course(*request, stage@, event),
{
    match (stage, event) {
        (
            ChunkStage::Opening,
            ChunkEvent::Opened { job, video_exists, has_ffmpeg, workspace },
        ) => begin(request, job, video_exists, has_ffmpeg, workspace),
        (ChunkStage::Sampling, ChunkEvent::Sampled { images, cancelled }) => {
            if cancelled {
                return fail(jobs::CANCELLED.to_owned());
            }
            match analysis::provider_of(request.provider.as_str()) {
                Provider::Gemini => (
                    ChunkStage::Hearing { images },
                    ChunkAction::Hear {
                        start: clock::at_start_or_later(request.start_seconds),
                        end: analysis::chunk_end(request.start_seconds, request.end_seconds),
                    },
                ),
                Provider::Ollama => (ChunkStage::Reading { images }, ChunkAction::ReadCompanions),
            }
        },
        (ChunkStage::Hearing { images }, ChunkEvent::Heard(audio)) => ask_gemini(
            request,
            images,
            audio,
        ),
        (ChunkStage::AskingGemini { frames, has_audio }, ChunkEvent::Replied(reply)) => {
            match analysis::read_gemini_reply(&reply) {
                Ok(words) => (
                    ChunkStage::Parsing { frames, has_audio },
                    ChunkAction::Parse(words),
                ),
                Err(message) => fail(message),
            }
        },
        (ChunkStage::Parsing { frames, has_audio }, ChunkEvent::Parsed(payload)) => {
            match payload {
                Ok(payload) => finish_gemini(request, &payload, frames, has_audio),
                Err(error) => {
                    let mut message: String = "Gemini returned invalid transcript JSON: ".to_owned();
                    message.append(error.as_str());
                    fail(message)
                },
            }
        },
        (ChunkStage::Reading { images }, ChunkEvent::Companions { srt, vtt }) => look(
            request,
            images,
            srt,
            vtt,
        ),
        (ChunkStage::Transcribing { images }, ChunkEvent::Transcribed(words)) => ask_ollama(
            request,
            images,
            None,
            words,
        ),
        (
            ChunkStage::AskingOllama { frames, transcript_source },
            ChunkEvent::Replied(reply),
        ) => {
            let result = analysis::ollama_chunk_result(
                &reply,
                request.ollama_url.as_str(),
                frames,
                transcript_source.as_str(),
            );
            assert(result matches Ok(done) ==> transcript::cues_of(done.transcript_cues@)
                =~= Seq::<Cue>::empty());
            (ChunkStage::Closed, ChunkAction::Finish(result))
        },
        _ => (ChunkStage::Closed, ChunkAction::ReadCompanions),
    }
}

/// Where a file of subtitles stands beside the video, Whisper is not asked.
pub proof fn law_subtitles_rule_out_whisper(
    request: AnalysisChunkRequest,
    stage: Stage,
    event: ChunkEvent,
)
    requires
        fits(stage, event),
        event matches ChunkEvent::Companions { srt, vtt } && (srt is Some || vtt is Some),
    ensures
        course(request, stage, event).1 !is Transcribe,
        course(request, stage, event).0 !is Transcribing,
{
}

/// An analysis comes to its end: every event leads to a later stage, and an
/// analysis is closed exactly when its result is told.
pub proof fn law_analysis_ends(request: AnalysisChunkRequest, stage: Stage, event: ChunkEvent)
    requires
        fits(stage, event),
    ensures
        ({
            let (next, action) = course(request, stage, event);
            &&& progress(next) > progress(stage)
            &&& next is Closed <==> action is Finish
        }),
{
}

/// How late a stage is.
pub open spec fn progress(stage: Stage) -> int {
    match stage {
        Stage::Opening => 0,
        Stage::Sampling => 1,
        Stage::Hearing { .. } => 2,
        Stage::Reading { .. } => 2,
        Stage::AskingGemini { .. } => 3,
        Stage::Transcribing { .. } => 3,
        Stage::Parsing { .. } => 4,
        Stage::AskingOllama { .. } => 4,
        Stage::Closed => 5,
    }
}

} // verus!
