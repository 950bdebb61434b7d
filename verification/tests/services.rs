use framenote::address;
use framenote::analysis;
use framenote::analysis::ModelReply;
use framenote::chunk;
use framenote::chunk::AnalysisChunkRequest;
use framenote::chunk::ChunkAction;
use framenote::chunk::ChunkEvent;
use framenote::chunk::ChunkStage;
use framenote::encoding;
use framenote::gemini;
use framenote::gemini::GeminiPayload;
use framenote::gemini::GeminiTranscriptCue;
use framenote::jobs::JobState;
use framenote::json;
use framenote::json::Json;
use framenote::number::Binary64;
use framenote::paths::FilePath;
use framenote::probe;
use framenote::providers;
use framenote::providers::GeminiCheck;
use framenote::providers::Reply;

fn at(value: f64) -> Binary64 {
    Binary64 { bits: value.to_bits() }
}

fn float(value: Binary64) -> f64 {
    f64::from_bits(value.bits)
}

fn tree(value: &serde_json::Value) -> Json {
    match value {
        serde_json::Value::Null => Json::Null,
        serde_json::Value::Bool(b) => Json::Bool(*b),
        serde_json::Value::Number(n) => Json::Number(n.to_string()),
        serde_json::Value::String(s) => Json::Text(s.clone()),
        serde_json::Value::Array(list) => Json::List(list.iter().map(tree).collect()),
        serde_json::Value::Object(map) => {
            Json::Object(map.iter().map(|(k, v)| (k.clone(), tree(v))).collect())
        }
    }
}

fn read(text: &str) -> Json {
    tree(&serde_json::from_str::<serde_json::Value>(text).unwrap())
}

fn text_at(json: &Json, path: &[&str]) -> Option<String> {
    let mut place = Some(json);
    for name in path {
        place = json::get(place, name);
    }
    json::as_text(place)
}

// Keys and addresses

#[test]
fn api_keys_use_separate_provider_accounts() {
    assert_eq!(
        providers::api_key_account("cloud").expect("cloud account"),
        "ollama-cloud"
    );
    assert_eq!(
        providers::api_key_account(" GEMINI ").expect("Gemini account"),
        "gemini"
    );
    assert!(providers::api_key_account("local").is_err());
    assert!(providers::api_key_account("unknown").is_err());
}

#[test]
fn blank_keys_are_none() {
    assert_eq!(providers::key_to_save(" k "), Some("k".to_string()));
    assert_eq!(providers::key_to_save("  "), None);
    assert_eq!(providers::bearer_key(None), None);
    assert_eq!(providers::bearer_key(Some(" k ")), Some("k".to_string()));
}

#[test]
fn direct_cloud_model_aliases_map_without_changing_local_names() {
    let cloud = address::normalize_ollama_url("https://ollama.com/api").expect("cloud URL");
    let local = address::normalize_ollama_url("http://127.0.0.1:11434").expect("local URL");

    assert_eq!(address::model_for_endpoint(&cloud, "gemma4:31b-cloud"), "gemma4:31b");
    assert_eq!(address::model_for_endpoint(&cloud, "glm-4.7:cloud"), "glm-4.7");
    assert_eq!(
        address::model_for_endpoint(&cloud, "glm-4.7-cloud"),
        address::model_for_endpoint(&cloud, "glm-4.7:cloud")
    );
    assert_eq!(
        address::model_for_endpoint(&local, "gemma4:31b-cloud"),
        "gemma4:31b-cloud"
    );
}

#[test]
fn ollama_addresses_are_checked() {
    assert!(address::normalize_ollama_url("not a url").is_err());
    assert!(address::normalize_ollama_url("ftp://example.com").is_err());
    let base = match address::normalize_ollama_url(" http://localhost:11434 ") {
        Ok(base) => base,
        Err(message) => panic!("{message}"),
    };
    assert_eq!(base.host, Some("localhost".to_string()));
    assert_eq!(
        address::ollama_endpoint(&base, "tags").unwrap(),
        "http://localhost:11434/api/tags"
    );
}

#[test]
fn ollama_lists_its_models() {
    let check = match providers::prepare_ollama_check("http://localhost:11434", Some(" key ")) {
        Ok(check) => check,
        Err(message) => panic!("{message}"),
    };
    assert_eq!(check.endpoint, "http://localhost:11434/api/tags");
    assert_eq!(check.key, Some("key".to_string()));
    let listed = Reply::Answer(Ok(read(r#"{"models":[{"name":"b:latest"},{"model":"a"}]}"#)));
    let status = match providers::check_ollama(Some("localhost"), "b", &listed) {
        Ok(status) => status,
        Err(message) => panic!("{message}"),
    };
    assert!(status.available && status.model_available);
    assert_eq!(status.models, vec!["a", "b:latest"]);
    assert_eq!(status.message, "Connected · b is ready");
    let status = match providers::check_ollama(Some("localhost"), "c", &listed) {
        Ok(status) => status,
        Err(message) => panic!("{message}"),
    };
    assert!(status.available && !status.model_available);
    assert_eq!(status.message, "Connected, but c is not available at this endpoint");
    let status = match providers::check_ollama(Some("localhost"), "c", &Reply::Offline) {
        Ok(status) => status,
        Err(message) => panic!("{message}"),
    };
    assert!(!status.available);
}

#[test]
fn gemini_needs_a_key() {
    match providers::prepare_gemini_check("gemini-3.6-flash", "  ") {
        Ok(GeminiCheck::Known(status)) => {
            assert_eq!(status.message, "Enter a Gemini API key to connect.")
        }
        _ => panic!("a blank key was used"),
    }
    match providers::prepare_gemini_check("gemini-3.6-flash", " k ") {
        Ok(GeminiCheck::Ask { model, endpoint, key }) => {
            assert_eq!(model, "gemini-3.6-flash");
            assert!(endpoint.ends_with("/gemini-3.6-flash"));
            assert_eq!(key, "k");
        }
        _ => panic!("no question was prepared"),
    }
    let refused = Reply::Refused {
        code: 400,
        status: "400 Bad Request".to_string(),
        detail: r#"{"error":{"message":"API key not valid."}}"#.to_string(),
    };
    let status = providers::check_gemini("gemini-3.6-flash", &refused);
    assert!(!status.available);
    assert_eq!(status.message, "API key not valid.");
    let broken = Reply::Refused {
        code: 503,
        status: "503 Service Unavailable".to_string(),
        detail: "nothing".to_string(),
    };
    let status = providers::check_gemini("gemini-3.6-flash", &broken);
    assert!(status.available);
    assert_eq!(status.message, "Gemini returned HTTP 503 Service Unavailable.");
}

// Gemini

#[test]
fn validates_gemini_model_names() {
    assert_eq!(
        gemini::gemini_model_name("models/gemini-3.6-flash").expect("model name"),
        "gemini-3.6-flash"
    );
    assert!(gemini::gemini_model_name("gemini-3.6-flash?key=secret").is_err());
}

#[test]
fn uses_generate_content_schema_wire_types() {
    let config = gemini::gemini_generation_config();
    let format = ["responseFormat", "text"];
    assert_eq!(
        text_at(&config, &[format[0], format[1], "mimeType"]),
        Some("APPLICATION_JSON".to_string())
    );
    assert_eq!(
        text_at(&config, &[format[0], format[1], "schema", "type"]),
        Some("object".to_string())
    );
    assert_eq!(
        text_at(
            &config,
            &[
                format[0],
                format[1],
                "schema",
                "properties",
                "transcript",
                "items",
                "properties",
                "start",
                "type",
            ]
        ),
        Some("number".to_string())
    );
    assert!(json::get(Some(&config), "responseMimeType").is_none());
    assert!(json::get(Some(&config), "responseSchema").is_none());
}

#[test]
fn includes_gemini_field_violations_in_errors() {
    let detail = r#"{
        "error": {
            "message": "Request contains an invalid argument.",
            "details": [{
                "fieldViolations": [{
                    "field": "generation_config.response_format.text.mime_type",
                    "description": "Invalid enum value"
                }]
            }]
        }
    }"#;
    let message = gemini::gemini_error_message(detail);
    assert!(message.contains("generation_config.response_format.text.mime_type"));
    assert!(message.contains("Invalid enum value"));
    let plain: serde_json::Value = serde_json::from_str(detail).unwrap();
    assert_eq!(gemini::describe_error(&Ok(tree(&plain)), detail), message);
}

#[test]
fn errors_that_are_no_documents_are_quoted() {
    assert_eq!(gemini::gemini_error_message("plain words"), "plain words");
    assert_eq!(
        gemini::gemini_failure("500 Internal Server Error", "plain"),
        "Gemini returned HTTP 500 Internal Server Error: plain"
    );
}

#[test]
fn parses_structured_gemini_summary_and_transcript() {
    let truncated = read(
        r#"{
            "candidates": [{
                "finishReason": "MAX_TOKENS",
                "content": { "parts": [{ "text": "While players chat in Slovak and" }] }
            }]
        }"#,
    );
    assert!(gemini::gemini_text(&truncated)
        .expect_err("truncated response")
        .contains("output budget"));

    let payload = r#"{"summary":"The host asks the group to join the lobby.","transcript":[{"start":2.25,"end":5.5,"text":"Poďte už do lobby.","speaker":"Speaker 1","language":"sk"}]}"#;
    let complete = Json::Object(vec![(
        "candidates".to_string(),
        Json::List(vec![Json::Object(vec![
            ("finishReason".to_string(), Json::Text("STOP".to_string())),
            (
                "content".to_string(),
                Json::Object(vec![(
                    "parts".to_string(),
                    Json::List(vec![Json::Object(vec![(
                        "text".to_string(),
                        Json::Text(payload.to_string()),
                    )])]),
                )]),
            ),
        ])]),
    )]);
    let words = gemini::gemini_text(&complete).expect("complete response");
    let parsed: serde_json::Value = serde_json::from_str(&words).expect("payload");
    let cue = &parsed["transcript"][0];
    let analysis = gemini::gemini_analysis(
        &GeminiPayload {
            summary: parsed["summary"].as_str().unwrap().to_string(),
            transcript: vec![GeminiTranscriptCue {
                start: at(cue["start"].as_f64().unwrap()),
                end: at(cue["end"].as_f64().unwrap()),
                text: cue["text"].as_str().unwrap().to_string(),
                speaker: cue["speaker"].as_str().unwrap().to_string(),
                language: cue["language"].as_str().unwrap().to_string(),
            }],
        },
        at(60.0),
    );
    assert_eq!(analysis.summary, "The host asks the group to join the lobby.");
    assert_eq!(analysis.transcript_cues.len(), 1);
    assert_eq!(float(analysis.transcript_cues[0].start_seconds), 2.25);
    assert_eq!(analysis.transcript_cues[0].text, "Poďte už do lobby.");
}

// The analysis of a piece

fn request(provider: &str) -> AnalysisChunkRequest {
    AnalysisChunkRequest {
        video: FilePath { directory: "/films/".to_string(), file_name: Some("clip.mp4".to_string()) },
        start_seconds: at(60.0),
        end_seconds: at(120.0),
        provider: provider.to_string(),
        ollama_url: "http://localhost:11434".to_string(),
        model: "gemma4".to_string(),
        api_key: Some(" key ".to_string()),
        whisper_model_path: Some("/models/base.bin".to_string()),
        frame_count: None,
    }
}

fn opened(job: JobState) -> ChunkEvent {
    ChunkEvent::Opened { job, video_exists: true, has_ffmpeg: true, workspace: Ok(()) }
}

#[test]
fn pieces_are_analysed_with_ollama_step_by_step() {
    let request = request("cloud");
    let (stage, action) =
        chunk::analyze_chunk(&request, ChunkStage::Opening, opened(JobState::Active));
    match action {
        ChunkAction::Sample { start, end, count } => {
            assert_eq!((float(start), float(end), count), (60.0, 120.0, 3))
        }
        _ => panic!("no frames were asked for"),
    }
    let sampled = ChunkEvent::Sampled { images: vec!["AAAA".to_string()], cancelled: false };
    let (stage, action) = chunk::analyze_chunk(&request, stage, sampled);
    assert!(matches!(action, ChunkAction::ReadCompanions));
    let companions = ChunkEvent::Companions { srt: None, vtt: None };
    let (stage, action) = chunk::analyze_chunk(&request, stage, companions);
    match action {
        ChunkAction::Transcribe { model_path, .. } => assert_eq!(model_path, "/models/base.bin"),
        _ => panic!("Whisper was not asked"),
    }
    let heard = ChunkEvent::Transcribed(Some("hello".to_string()));
    let (stage, action) = chunk::analyze_chunk(&request, stage, heard);
    match action {
        ChunkAction::AskOllama(call) => {
            assert_eq!(call.endpoint, "http://localhost:11434/api/generate");
            assert_eq!(call.key, Some("key".to_string()));
            assert_eq!(text_at(&call.body, &["model"]), Some("gemma4".to_string()));
            let prompt = text_at(&call.body, &["prompt"]).unwrap();
            assert!(prompt.ends_with(
                "\n\nVideo: clip.mp4\nChunk: 00:01:00 to 00:02:00\nTranscript (may be unavailable): hello"
            ));
        }
        _ => panic!("Ollama was not asked"),
    }
    let reply = ChunkEvent::Replied(ModelReply::Answer(Ok(read(r#"{"response":" - A note. "}"#))));
    let (stage, action) = chunk::analyze_chunk(&request, stage, reply);
    assert!(matches!(stage, ChunkStage::Closed));
    match action {
        ChunkAction::Finish(Ok(result)) => {
            assert_eq!(result.summary, "A note.");
            assert_eq!(result.frame_count, 1);
            assert_eq!(result.transcript_source, "Local Whisper transcript");
            assert!(!result.transcript_complete);
        }
        _ => panic!("no result was told"),
    }
}

#[test]
fn subtitle_files_rule_out_whisper() {
    let late = "1\n00:10:00,000 --> 00:10:05,000\nMuch later\n";
    for (srt, vtt) in [
        (Some(late.to_string()), None),
        (None, Some(late.to_string())),
        (Some(String::new()), None),
    ] {
        let request = request("cloud");
        let reading = ChunkStage::Reading { images: vec!["AAAA".to_string()] };
        let (stage, action) =
            chunk::analyze_chunk(&request, reading, ChunkEvent::Companions { srt, vtt });
        match action {
            ChunkAction::AskOllama(call) => assert!(text_at(&call.body, &["prompt"])
                .unwrap()
                .ends_with("No transcript was available for this chunk.")),
            _ => panic!("Ollama was not asked"),
        }
        let reply = ChunkEvent::Replied(ModelReply::Answer(Ok(read(r#"{"response":"A note."}"#))));
        match chunk::analyze_chunk(&request, stage, reply).1 {
            ChunkAction::Finish(Ok(result)) => {
                assert_eq!(result.transcript_source, "Visual frames only")
            }
            _ => panic!("no result was told"),
        }
    }
}

#[test]
fn pieces_are_analysed_with_gemini_step_by_step() {
    let request = request("Gemini");
    let (stage, _) = chunk::analyze_chunk(&request, ChunkStage::Opening, opened(JobState::Active));
    let sampled = ChunkEvent::Sampled { images: vec!["AAAA".to_string()], cancelled: false };
    let (stage, action) = chunk::analyze_chunk(&request, stage, sampled);
    assert!(matches!(action, ChunkAction::Hear { .. }));
    let (stage, action) =
        chunk::analyze_chunk(&request, stage, ChunkEvent::Heard(Some("BBBB".to_string())));
    match action {
        ChunkAction::AskGemini(call) => {
            assert!(call.endpoint.ends_with("/gemma4:generateContent"));
            assert_eq!(call.key, "key");
        }
        _ => panic!("Gemini was not asked"),
    }
    let reply = ChunkEvent::Replied(ModelReply::Answer(Ok(read(
        r#"{"candidates":[{"finishReason":"STOP","content":{"parts":[{"text":" {} "}]}}]}"#,
    ))));
    let (stage, action) = chunk::analyze_chunk(&request, stage, reply);
    match action {
        ChunkAction::Parse(words) => assert_eq!(words.trim(), "{}"),
        _ => panic!("the answer was not read"),
    }
    let payload = GeminiPayload {
        summary: "S".to_string(),
        transcript: vec![GeminiTranscriptCue {
            start: at(1.0),
            end: at(2.0),
            text: "hi".to_string(),
            speaker: "A".to_string(),
            language: "en".to_string(),
        }],
    };
    let (_, action) = chunk::analyze_chunk(&request, stage, ChunkEvent::Parsed(Ok(payload)));
    match action {
        ChunkAction::Finish(Ok(result)) => {
            assert_eq!(float(result.transcript_cues[0].start_seconds), 61.0);
            assert_eq!(
                result.transcript_source,
                "Native AAC audio + vision · Gemini · 1 subtitle cues"
            );
            assert!(result.transcript_complete);
        }
        _ => panic!("no result was told"),
    }
}

fn message_of(action: ChunkAction) -> String {
    match action {
        ChunkAction::Finish(Err(message)) => message,
        _ => panic!("the analysis goes on"),
    }
}

#[test]
fn analyses_that_cannot_go_on_say_why() {
    let request = request("gemini");
    let (_, action) =
        chunk::analyze_chunk(&request, ChunkStage::Opening, opened(JobState::Missing));
    assert_eq!(message_of(action), "The analysis job is no longer active.");
    let full = ChunkEvent::Opened {
        job: JobState::Active,
        video_exists: true,
        has_ffmpeg: true,
        workspace: Err("disk full".to_string()),
    };
    let (_, action) = chunk::analyze_chunk(&request, ChunkStage::Opening, full);
    assert_eq!(message_of(action), "Could not create analysis workspace: disk full");
    let stopped = ChunkEvent::Sampled { images: Vec::new(), cancelled: true };
    let (_, action) = chunk::analyze_chunk(&request, ChunkStage::Sampling, stopped);
    assert_eq!(message_of(action), framenote::jobs::CANCELLED);
    let (_, action) = chunk::analyze_chunk(
        &request,
        ChunkStage::Hearing { images: Vec::new() },
        ChunkEvent::Heard(None),
    );
    assert_eq!(
        message_of(action),
        "FFmpeg could not extract audio or representative frames from this chunk."
    );
    let (_, action) = chunk::analyze_chunk(
        &request,
        ChunkStage::Parsing { frames: 1, has_audio: true },
        ChunkEvent::Parsed(Err("expected value".to_string())),
    );
    assert_eq!(message_of(action), "Gemini returned invalid transcript JSON: expected value");
    let (_, action) = chunk::analyze_chunk(
        &request,
        ChunkStage::Transcribing { images: Vec::new() },
        ChunkEvent::Transcribed(None),
    );
    assert_eq!(
        message_of(action),
        "FFmpeg could not extract representative frames from this chunk."
    );
    let (_, action) = chunk::analyze_chunk(
        &request,
        ChunkStage::AskingOllama { frames: 1, transcript_source: String::new() },
        ChunkEvent::Replied(ModelReply::Refused {
            status: "500 Internal Server Error".to_string(),
            detail: "x".repeat(300),
        }),
    );
    assert_eq!(
        message_of(action),
        format!("Ollama returned HTTP 500 Internal Server Error: {}", "x".repeat(240))
    );
}

#[test]
fn frames_are_spread_over_a_piece() {
    assert_eq!(analysis::frame_total(0), 2);
    assert_eq!(analysis::frame_total(20), 8);
    let first = analysis::extract_frame("v", at(10.0), at(20.0), 4, 0, "o");
    assert_eq!(first[4], "10.000");
    let last = analysis::extract_frame("v", at(10.0), at(20.0), 4, 3, "o");
    assert_eq!(last[4], "19.200");
    assert_eq!(analysis::frame_file(2), "frame-2.jpg");
    assert_eq!(float(analysis::chunk_end(at(5.0), at(2.0))), 6.0);
    assert_eq!(float(analysis::chunk_length(at(5.0), at(5.25))), 1.0);
}

#[test]
fn all_tracks_are_mixed_for_an_analysis() {
    assert!(analysis::extract_audio("v", at(0.0), at(1.0), &Vec::new(), "o").is_none());
    let mixed = analysis::extract_audio("v", at(0.0), at(1.0), &vec![1, 2], "o").unwrap();
    assert!(mixed.join(" ").contains("amix=inputs=2"));
    assert_eq!(analysis::whisper_arguments("m", "a")[1], "m");
    assert_eq!(analysis::whisper_transcript(" a \n b "), Some("a b".to_string()));
    assert_eq!(analysis::whisper_transcript(" \n"), None);
}

#[test]
fn subtitles_beside_a_video_are_used_first() {
    let srt = "1\r\n00:00:01,000 --> 00:00:02,000\r\nFirst\r\n\r\n2\r\n00:00:05,000 --> 00:00:06,000\r\nSecond\r\n";
    assert_eq!(
        analysis::companion_transcript(Some(srt), None, at(0.0), at(3.0)),
        Some("First".to_string())
    );
    assert_eq!(
        analysis::companion_transcript(None, Some(srt), at(4.0), at(9.0)),
        Some("Second".to_string())
    );
    assert_eq!(analysis::companion_transcript(Some(srt), None, at(8.0), at(9.0)), None);
}

#[test]
fn samples_are_written_as_text() {
    assert_eq!(encoding::encode_sample(b"FrameNote"), "RnJhbWVOb3Rl");
    assert_eq!(encoding::encode_sample(b""), "");
}

// What FFprobe tells

#[test]
fn frame_rates_are_read() {
    assert_eq!(probe::parse_frame_rate("30000/1001").map(float), Some(30000.0 / 1001.0));
    assert!(probe::parse_frame_rate("0/0").is_none());
    assert_eq!(
        probe::probe_frame_rate(br#"{"streams":[{"avg_frame_rate":"25/1","r_frame_rate":"50/1"}]}"#)
            .map(float),
        Some(25.0)
    );
    assert!(probe::probe_frame_rate(b"nothing").is_none());
}

#[test]
fn audio_tracks_are_described() {
    let tracks = probe::probe_audio_tracks(
        br#"{"streams":[{"index":1,"codec_name":"aac","channels":2,"tags":{"language":"eng","title":"Mic"}},{"index":2,"codec_name":"opus","tags":{"language":"slk"}}]}"#,
    );
    assert_eq!(tracks.len(), 2);
    assert_eq!(tracks[0].label, "Mic");
    assert_eq!(tracks[0].stream_index, 1);
    assert_eq!(tracks[0].channels, Some(2));
    assert_eq!(tracks[1].codec, "opus");
    assert_eq!(tracks[1].language, Some("slk".to_string()));
    assert_eq!(tracks[1].label, "Track 2 · SLK");
    assert_eq!(probe::fallback_label(0, None), "Track 1");
    assert_eq!(probe::stream_indexes(&tracks), vec![1, 2]);
}
