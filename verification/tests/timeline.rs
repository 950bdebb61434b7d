use framenote::chapters;
use framenote::chapters::EmbeddedChapter;
use framenote::clock;
use framenote::entries;
use framenote::fingerprint;
use framenote::fingerprint::FileStamp;
use framenote::json::Json;
use framenote::markdown;
use framenote::number::Binary64;
use framenote::paths;
use framenote::paths::FilePath;
use framenote::sidecar;
use framenote::sidecar::FoundChapters;
use framenote::transcript;
use framenote::transcript::TranscriptCue;

fn seconds(value: f64) -> Binary64 {
    Binary64 { bits: value.to_bits() }
}

fn value(seconds: Binary64) -> f64 {
    f64::from_bits(seconds.bits)
}

fn video(directory: &str, name: &str) -> FilePath {
    FilePath { directory: directory.to_string(), file_name: Some(name.to_string()) }
}

fn cue(start: f64, end: f64, text: &str, speaker: &str, language: &str) -> TranscriptCue {
    TranscriptCue {
        start_seconds: seconds(start),
        end_seconds: seconds(end),
        text: text.to_string(),
        speaker: speaker.to_string(),
        language: language.to_string(),
    }
}

fn json_of(value: &serde_json::Value) -> Json {
    match value {
        serde_json::Value::Null => Json::Null,
        serde_json::Value::Bool(b) => Json::Bool(*b),
        serde_json::Value::Number(n) => Json::Number(n.to_string()),
        serde_json::Value::String(s) => Json::Text(s.clone()),
        serde_json::Value::Array(list) => Json::List(list.iter().map(json_of).collect()),
        serde_json::Value::Object(map) => {
            Json::Object(map.iter().map(|(k, v)| (k.clone(), json_of(v))).collect())
        }
    }
}

const ID: &str = "0f3b2a1c-9d8e-4f7a-8b6c-5d4e3f2a1b0c";
const OTHER_ID: &str = "1f3b2a1c-9d8e-4f7a-9b6c-5d4e3f2a1b0c";

// Time stamps

#[test]
fn formats_long_timestamps() {
    assert_eq!(clock::format_timestamp(seconds(3661.2)), "01:01:01");
}

#[test]
fn timestamps_round_to_the_nearest_unit() {
    assert_eq!(clock::format_timestamp(seconds(59.5)), "00:01:00");
    assert_eq!(clock::format_timestamp(seconds(-4.0)), "00:00:00");
    assert_eq!(clock::format_precise_timestamp(seconds(83.0004)), "00:01:23.000");
    assert_eq!(clock::format_precise_timestamp(seconds(83.0006)), "00:01:23.001");
    assert_eq!(clock::srt_timestamp(seconds(3600.25)), "01:00:00,250");
    assert_eq!(clock::format_timestamp(seconds(f64::NAN)), "00:00:00");
    assert_eq!(clock::format_timestamp(seconds(360_000.0)), "100:00:00");
}

#[test]
fn reads_overlapping_subtitle_cues() {
    assert_eq!(
        clock::parse_subtitle_timestamp("01:02:03,500").map(value),
        Some(3723.5)
    );
}

#[test]
fn stamps_with_other_forms_are_refused() {
    assert!(clock::parse_subtitle_timestamp("02:03,500").is_none());
    assert!(clock::parse_subtitle_timestamp("aa:02:03").is_none());
    assert_eq!(clock::parse_subtitle_timestamp(" 00:00:01.5 ").map(value), Some(1.5));
}

#[test]
fn subtitle_times_are_checked() {
    let (start, end) = clock::subtitle_timing(seconds(-1.0), seconds(2.0)).unwrap();
    assert_eq!(value(start), 0.0);
    assert_eq!(value(end), 2.0);
    assert_eq!(
        clock::subtitle_timing(seconds(3.0), seconds(3.0)).unwrap_err(),
        "Subtitle end time must be after its start time."
    );
    assert_eq!(
        clock::subtitle_timing(seconds(f64::INFINITY), seconds(3.0)).unwrap_err(),
        "Enter valid subtitle start and end times."
    );
}

// Sections and the position

#[test]
fn appends_inside_the_requested_section() {
    let source = "# clip\n\n## Bookmarks\n\n## AI timeline\n";
    let result =
        markdown::append_to_section(source, markdown::BOOKMARK_HEADING, "- [00:00:03] Note");
    assert!(result.contains("## Bookmarks\n\n- [00:00:03] Note\n\n## AI timeline"));
}

#[test]
fn preserves_unrecognized_markdown() {
    let source = "# clip\n\nA free-form paragraph.\n";
    let result =
        markdown::append_to_section(source, markdown::AI_HEADING, "- [00:00:00–00:01:00] Opening");
    assert!(result.starts_with(source));
    assert!(result.contains("## AI timeline"));
}

#[test]
fn sections_are_found_whatever_the_case_of_their_heading() {
    let source = "# clip\n  ## BOOKMARKS  \n- a\n\n\n## Other\n";
    let result = markdown::append_to_section(source, markdown::BOOKMARK_HEADING, "- b");
    assert_eq!(result, "# clip\n  ## BOOKMARKS  \n- a\n- b\n\n\n## Other\n");
}

#[test]
fn playback_position_round_trips_without_changing_human_content() {
    let source = "# clip.mp4\n\n<!-- framenote:v1 -->\n\nA human paragraph.\n";
    let first = markdown::with_playback_position(source, seconds(83.25));
    assert_eq!(value(markdown::playback_position(&first)), 83.25);
    assert!(first.contains("A human paragraph."));
    assert_eq!(first.matches("framenote:position").count(), 1);

    let second = markdown::with_playback_position(&first, seconds(912.5));
    assert_eq!(value(markdown::playback_position(&second)), 912.5);
    assert_eq!(second.matches("framenote:position").count(), 1);
}

#[test]
fn saved_positions_are_kept_in_thousandths() {
    let saved = sidecar::save_playback_position("# clip\n", seconds(1.23456));
    assert_eq!(saved, "# clip\n<!-- framenote:position seconds=1.235 -->\n");
    assert_eq!(value(markdown::playback_position(&saved)), 1.235);
    assert_eq!(value(markdown::playback_position("no marker")), 0.0);
    assert_eq!(
        value(markdown::playback_position("<!-- framenote:position seconds=-3.0 -->")),
        0.0
    );
}

#[test]
fn new_sidecars_have_all_sections() {
    assert_eq!(
        markdown::initial_markdown(&video("/films/", "clip.mp4")),
        "# clip.mp4\n\n<!-- framenote:v1 -->\n<!-- framenote:position seconds=0.000 -->\n\n## Bookmarks\n\n## AI timeline\n\n## Subtitles\n"
    );
    let fresh = markdown::initial_markdown(&video("/films/", "clip.mp4"));
    assert_eq!(value(markdown::playback_position(&fresh)), 0.0);
    assert!(!chapters::has_import_receipt(&fresh));
    assert!(transcript::subtitle_cues_from_markdown(&fresh).is_empty());
    assert_eq!(markdown::normalize("text"), "text\n");
    assert_eq!(markdown::normalize("text\n"), "text\n");
}

#[test]
fn markers_give_their_attributes() {
    let line = "- [00:00:01] x <!-- framenote:subtitle:a start=1.500 speaker=\"A B\" language=\"\" -->";
    assert_eq!(markdown::marker_number(line, "start").map(value), Some(1.5));
    assert!(markdown::marker_number(line, "end").is_none());
    assert_eq!(markdown::marker_text(line, "speaker"), Some("A B".to_string()));
    assert_eq!(markdown::marker_text(line, "language"), Some(String::new()));
    assert_eq!(markdown::marker_text(line, "voice"), None);
}

#[test]
fn entry_texts_are_cleaned() {
    assert_eq!(markdown::sanitize_entry_text(" a\r\nb <!-- c -->  d "), "a b c d");
    assert_eq!(markdown::sanitize_entry_text(" \n "), "Untitled note");
    assert_eq!(markdown::sanitize_entry_text(&"x".repeat(800)).len(), 700);
    assert_eq!(markdown::sanitize_metadata("\"Filip\"\n", "Unknown"), "Filip");
    assert_eq!(markdown::sanitize_metadata("  ", "Unknown"), "Unknown");
    assert_eq!(markdown::sanitize_metadata(&"ž".repeat(60), "Unknown").chars().count(), 48);
}

#[test]
fn cleaned_texts_stay_as_they_are() {
    let once = markdown::sanitize_entry_text("  Two   words\n");
    assert_eq!(once, "Two words");
    assert_eq!(markdown::sanitize_entry_text(&once), once);
}

// Paths

#[test]
fn sidecars_stand_beside_their_videos() {
    assert_eq!(
        paths::sidecar_path(&video("/films/", "recording.final.mp4")).unwrap(),
        "/films/recording.final.md"
    );
    assert!(paths::sidecar_path(&FilePath { directory: "/".to_string(), file_name: None }).is_err());
}

#[test]
fn videos_must_exist() {
    assert!(paths::validate_video_path(video("/films/", "clip.mp4"), true).is_ok());
    match paths::validate_video_path(video("/films/", "clip.mp4"), false) {
        Err(message) => assert_eq!(message, "The selected video no longer exists."),
        Ok(_) => panic!("a missing video was accepted"),
    }
}

#[test]
fn content_types_go_by_the_suffix() {
    assert_eq!(paths::media_content_type(&video("", "clip.MP4")), "video/mp4");
    assert_eq!(paths::media_content_type(&video("", "clip.webm")), "video/webm");
    assert_eq!(paths::media_content_type(&video("", "clip")), "application/octet-stream");
}

// Chapters

#[test]
fn embedded_chapters_import_once_and_respect_deleted_marks() {
    let markdown = markdown::initial_markdown(&video("", "recording.mp4"));
    let chapters = vec![
        EmbeddedChapter {
            source_index: 0,
            start_seconds: seconds(12.25),
            title: "Unnamed 1".into(),
        },
        EmbeddedChapter {
            source_index: 1,
            start_seconds: seconds(48.5),
            title: "Boss fight".into(),
        },
    ];
    let imported = chapters::merge_embedded_chapters(&markdown, &chapters, "source-one")
        .expect("first chapter import");
    assert!(imported.contains("[00:00:12.250] Unnamed 1"));
    assert!(imported.contains("[00:00:48.500] Boss fight"));
    assert!(imported.contains("source=embedded-chapter"));
    assert!(imported.contains("framenote:embedded-chapters fingerprint=source-one"));
    assert!(chapters::merge_embedded_chapters(&imported, &chapters, "source-one").is_none());

    let after_delete = imported
        .lines()
        .filter(|line| !line.contains("embedded-1-12250"))
        .collect::<Vec<_>>()
        .join("\n");
    assert!(chapters::merge_embedded_chapters(&after_delete, &chapters, "source-one").is_none());
    assert!(
        chapters::merge_embedded_chapters(&after_delete, &chapters, "changed-source").is_none()
    );
    assert!(entries::open_bookmark_start(
        "- [00:00:12.250] Unnamed 1 <!-- framenote:bookmark:embedded-1-12250 start=12.250 source=embedded-chapter -->"
    )
    .is_none());
}

#[test]
fn parses_ffprobe_chapter_titles_and_times() {
    let described: serde_json::Value = serde_json::from_str(
        r#"{
            "chapters": [
                { "start_time": "48.500000", "tags": { "title": "Boss fight" } },
                { "start_time": "12.250000", "tags": { "title": "Unnamed 1" } },
                { "start_time": "invalid", "tags": { "title": "Broken" } }
            ]
        }"#,
    )
    .unwrap();
    let found = chapters::parse_embedded_chapters(&json_of(&described));
    let plain: Vec<(usize, f64, String)> = found
        .iter()
        .map(|chapter| (chapter.source_index, value(chapter.start_seconds), chapter.title.clone()))
        .collect();
    assert_eq!(
        plain,
        vec![
            (1, 12.25, "Unnamed 1".to_string()),
            (0, 48.5, "Boss fight".to_string()),
        ]
    );
}

#[test]
fn ffprobe_reports_are_judged() {
    let found = chapters::probe_embedded_chapters(
        true,
        br#"{"chapters":[{"start_time":"0.75","tags":{"title":"OBS marker"}}]}"#,
        "",
    )
    .map(|list| list.into_iter().map(|chapter| chapter.title).collect::<Vec<_>>());
    assert_eq!(found, Ok(vec!["OBS marker".to_string()]));
    assert!(chapters::probe_embedded_chapters(true, b"not json", "").is_err());
    assert!(chapters::probe_embedded_chapters(false, b"", "broken file").is_err());
}

#[test]
fn marks_at_the_start_of_a_chapter_are_recognised() {
    let markdown = "## Bookmarks\n- [00:00:12.253] x <!-- framenote:bookmark:a start=12.253 -->\n";
    assert!(chapters::bookmark_start_exists(markdown, seconds(12.25)));
    assert!(!chapters::bookmark_start_exists(markdown, seconds(12.26)));
}

#[test]
fn source_fingerprints_follow_the_file() {
    let first = FileStamp { size: 10, seconds: 7, nanos: 1 };
    let same = FileStamp { size: 10, seconds: 7, nanos: 1 };
    let later = FileStamp { size: 10, seconds: 8, nanos: 1 };
    let print = fingerprint::embedded_chapter_fingerprint(&first);
    assert_eq!(print.len(), 16);
    assert_eq!(print, fingerprint::embedded_chapter_fingerprint(&same));
    assert_ne!(print, fingerprint::embedded_chapter_fingerprint(&later));
    assert_eq!(fingerprint::stable_fnv1a(""), 0xcbf2_9ce4_8422_2325);
    assert_eq!(fingerprint::stable_fnv1a("a"), 0xaf63_dc4c_8601_ec8c);
}

#[test]
fn videos_are_loaded_with_their_chapters() {
    let path = video("/films/", "clip.mp4");
    let markdown = markdown::initial_markdown(&path);
    assert!(sidecar::wants_chapters(&path, &markdown));
    let loaded = sidecar::load_video(
        &path,
        "/films/clip.md",
        &markdown,
        Some(FoundChapters {
            fingerprint: "abc".to_string(),
            chapters: vec![EmbeddedChapter {
                source_index: 0,
                start_seconds: seconds(2.0),
                title: "Opening".to_string(),
            }],
        }),
    );
    assert!(loaded.changed);
    assert!(loaded.document.markdown.contains("[00:00:02.000] Opening"));
    assert!(!sidecar::wants_chapters(&path, &loaded.document.markdown));
    assert_eq!(loaded.document.video_name, "clip.mp4");
}

// Entries

#[test]
fn sidecar_workflow_never_changes_the_video() {
    let path = video("/films/", "recording.final.mp4");
    let opened = sidecar::read_or_create_markdown(&path, None).expect("load video");
    assert!(opened.path.ends_with("recording.final.md"));
    assert!(opened.is_new);
    let loaded = sidecar::load_video(&path, &opened.path, &opened.markdown, None);
    assert!(loaded.document.sidecar_path.ends_with("recording.final.md"));

    let added = entries::add_bookmark(&loaded.document.markdown, seconds(83.0));
    let edited =
        entries::update_entry(&added.markdown, &added.entry_id, "A human-editable observation")
            .expect("edit bookmark");
    assert!(edited.contains("[00:01:23.000] A human-editable observation"));
    assert!(entries::can_end_bookmark(&edited, seconds(91.5)));
    let ended = entries::end_bookmark(&edited, seconds(91.5)).expect("end bookmark");
    assert_eq!(ended.entry_id, added.entry_id);
    assert!(ended
        .markdown
        .contains("[00:01:23.000–00:01:31.500] A human-editable observation"));

    let ranged = entries::add_bookmark_range(&ended.markdown, seconds(101.25), seconds(104.875))
        .expect("waveform range bookmark");
    assert!(ranged.markdown.contains("[00:01:41.250–00:01:44.875] New mark"));

    let subtitle = transcript::add_subtitle(&ranged.markdown, seconds(83.125), seconds(86.75))
        .expect("subtitle");
    let edited_subtitle = transcript::update_subtitle(
        &subtitle.markdown,
        &subtitle.entry_id,
        seconds(83.25),
        seconds(87.5),
        "Presný ručný prepis",
        "Filip",
        "sk",
    )
    .expect("edit subtitle timing");
    assert!(edited_subtitle.contains("[00:01:23.250–00:01:27.500] Presný ručný prepis"));
    assert!(edited_subtitle.contains("start=83.250 end=87.500 speaker=\"Filip\" language=\"sk\""));

    let analyzed = transcript::append_ai_entry(
        &edited_subtitle,
        seconds(60.0),
        seconds(120.0),
        "A concise generated summary",
    );
    assert!(analyzed
        .markdown
        .contains("[00:01:00–00:02:00] A concise generated summary"));

    let migrated = transcript::append_analysis_result(
        &analyzed.markdown,
        seconds(60.0),
        seconds(120.0),
        "This replacement must not overwrite the existing summary.",
        &vec![cue(62.0, 64.0, "Legacy range now has captions.", "Speaker 1", "en")],
        true,
    );
    assert!(migrated.contains("A concise generated summary"));
    assert!(!migrated.contains("This replacement must not overwrite"));
    assert!(migrated.contains("Legacy range now has captions."));

    let transcribed = transcript::append_analysis_result(
        &migrated,
        seconds(120.0),
        seconds(180.0),
        "The speaker invites the group into the lobby.",
        &vec![cue(122.25, 125.5, "Poďte už do lobby.", "Speaker 1", "sk")],
        true,
    );
    assert!(transcribed.contains("## Subtitles"));
    assert!(transcribed.contains("Poďte už do lobby."));
    assert!(transcribed.contains("speaker=\"Speaker 1\" language=\"sk\""));
    assert!(transcribed.contains("transcript=complete"));
    let document = sidecar::write_markdown(&path, &transcribed).expect("write sidecar");
    assert_eq!(document.video_path, "/films/recording.final.mp4");
    assert_eq!(document.sidecar_path, "/films/recording.final.md");
}

#[test]
fn new_identifiers_differ() {
    let first = entries::add_bookmark("", seconds(1.0));
    let second = entries::add_bookmark("", seconds(1.0));
    assert_eq!(first.entry_id.len(), 36);
    assert_eq!(first.entry_id.as_bytes()[14], b'4');
    assert_ne!(first.entry_id, second.entry_id);
}

#[test]
fn added_marks_are_open_until_they_are_ended() {
    let added = entries::add_bookmark_as("", seconds(12.5), ID);
    assert_eq!(
        added,
        format!("## Bookmarks\n\n- [00:00:12.500] New mark <!-- framenote:bookmark:{ID} start=12.500 -->\n")
    );
    let line = added.lines().last().unwrap();
    assert_eq!(entries::open_bookmark_start(line).map(value), Some(12.5));
    let ended = entries::end_bookmark(&added, seconds(20.0)).unwrap();
    assert_eq!(ended.entry_id, ID);
    let line = ended.markdown.lines().last().unwrap();
    assert_eq!(
        line,
        format!("- [00:00:12.500–00:00:20.000] New mark <!-- framenote:bookmark:{ID} start=12.500 end=20.000 -->")
    );
    assert!(entries::open_bookmark_start(line).is_none());
}

#[test]
fn ending_a_mark_needs_one_that_is_open() {
    match entries::end_bookmark("# clip\n", seconds(3.0)) {
        Err(message) => {
            assert_eq!(message, "No open mark starts before the current playback time.")
        }
        Ok(_) => panic!("a mark was ended"),
    }
    match entries::end_bookmark("# clip\n", seconds(f64::NAN)) {
        Err(message) => assert_eq!(message, "The current playback time is not valid."),
        Ok(_) => panic!("a mark was ended"),
    }
    let added = entries::add_bookmark_as("", seconds(3.0), ID);
    match entries::end_bookmark(&added, seconds(3.0)) {
        Err(message) => assert_eq!(message, "Move past the mark start before ending it."),
        Ok(_) => panic!("a mark was ended"),
    }
    let turned = "<!-- framenote:bookmark:a start=1.000 --> [00:00:01.000]\n";
    assert!(!entries::can_end_bookmark(turned, seconds(3.0)));
    assert!(entries::can_end_bookmark(turned, seconds(1.0)));
    match entries::end_bookmark(turned, seconds(1.0)) {
        Err(message) => assert_eq!(message, "Move past the mark start before ending it."),
        Ok(_) => panic!("a mark was ended"),
    }
    assert!(entries::can_end_bookmark(turned, seconds(f64::INFINITY)));
    match entries::end_bookmark(turned, seconds(f64::INFINITY)) {
        Err(message) => assert_eq!(message, "The current playback time is not valid."),
        Ok(_) => panic!("a mark was ended"),
    }
    let nameless = "- [00:00:01.000] x <!-- framenote:bookmark: start=1.000 -->\n";
    match entries::end_bookmark(nameless, seconds(3.0)) {
        Err(message) => assert_eq!(message, "The open mark has an invalid identifier."),
        Ok(_) => panic!("a mark was ended"),
    }
}

#[test]
fn the_mark_that_starts_last_is_ended() {
    let first = entries::add_bookmark_as("", seconds(10.0), ID);
    let both = entries::add_bookmark_as(&first, seconds(5.0), OTHER_ID);
    let ended = entries::end_bookmark(&both, seconds(30.0)).unwrap();
    assert_eq!(ended.entry_id, ID);
    let again = entries::end_bookmark(&ended.markdown, seconds(31.0)).unwrap();
    assert_eq!(again.entry_id, OTHER_ID);
}

#[test]
fn ranges_of_marks_are_checked() {
    match entries::add_bookmark_range_as("", seconds(5.0), seconds(5.0), ID) {
        Err(message) => {
            assert_eq!(message, "Drag across the waveform to select a mark range.")
        }
        Ok(_) => panic!("an empty range was accepted"),
    }
    match entries::add_bookmark_range_as("", seconds(f64::NAN), seconds(5.0), ID) {
        Err(message) => assert_eq!(message, "The selected mark range is not valid."),
        Ok(_) => panic!("an invalid range was accepted"),
    }
}

#[test]
fn rewording_changes_one_entry() {
    let first = entries::add_bookmark_as("", seconds(1.0), ID);
    let both = entries::add_bookmark_as(&first, seconds(2.0), OTHER_ID);
    let changed = entries::update_entry(&both, OTHER_ID, "Second <!-- note").unwrap();
    assert!(changed.contains(&format!("[00:00:01.000] New mark <!-- framenote:bookmark:{ID} ")));
    assert!(changed.contains(&format!("[00:00:02.000] Second note <!-- framenote:bookmark:{OTHER_ID} ")));
    assert_eq!(
        entries::update_entry(&both, "nobody", "x").unwrap_err(),
        "That entry was changed outside FrameNote. Reload the Markdown and try again."
    );
}

#[test]
fn deleted_entries_are_gone_and_the_rest_stays() {
    let source = "# clip\n\nA note.\n";
    let first = entries::add_bookmark_as(source, seconds(1.0), ID);
    let both = entries::add_bookmark_as(&first, seconds(2.0), OTHER_ID);
    let left = entries::delete_entry(&both, ID);
    assert!(!left.contains(ID));
    assert!(left.contains(OTHER_ID));
    assert!(left.starts_with(source));
    assert_eq!(entries::delete_entry(&left, ID), left);
}

// Subtitles

#[test]
fn subtitles_come_back_as_they_were_written() {
    let added = transcript::add_subtitle_as("", seconds(2.5), seconds(4.0), ID).unwrap();
    let cues = transcript::subtitle_cues_from_markdown(&added);
    assert_eq!(cues.len(), 1);
    assert_eq!(cues[0].text, "New subtitle");
    assert_eq!(cues[0].speaker, "Unknown");
    assert_eq!(cues[0].language, "unknown");
    assert_eq!(value(cues[0].start_seconds), 2.5);
    assert_eq!(value(cues[0].end_seconds), 4.0);
    let changed = transcript::update_subtitle(
        &added,
        ID,
        seconds(1.0),
        seconds(2.0004),
        "Ahoj  všetci",
        "\"Filip\"",
        "sk",
    )
    .unwrap();
    let cues = transcript::subtitle_cues_from_markdown(&changed);
    assert_eq!(cues.len(), 1);
    assert_eq!(cues[0].text, "Ahoj všetci");
    assert_eq!(cues[0].speaker, "Filip");
    assert_eq!(value(cues[0].end_seconds), 2.0);
}

#[test]
fn subtitles_are_read_in_the_order_of_their_starts() {
    let first = transcript::add_subtitle_as("", seconds(9.0), seconds(10.0), ID).unwrap();
    let both = transcript::add_subtitle_as(&first, seconds(2.0), seconds(4.0), OTHER_ID).unwrap();
    let starts: Vec<f64> = transcript::subtitle_cues_from_markdown(&both)
        .iter()
        .map(|cue| value(cue.start_seconds))
        .collect();
    assert_eq!(starts, vec![2.0, 9.0]);
}

#[test]
fn subtitles_that_are_gone_are_not_replaced() {
    assert_eq!(
        transcript::update_subtitle("", ID, seconds(1.0), seconds(2.0), "x", "y", "z").unwrap_err(),
        "That subtitle was changed outside FrameNote. Reload the Markdown and try again."
    );
}

// Summaries

#[test]
fn analysed_ranges_are_recognised() {
    let saved = transcript::append_analysis_result_as(
        "",
        seconds(60.0),
        seconds(120.0),
        "First",
        &Vec::new(),
        false,
        ID,
        &Vec::new(),
    );
    assert_eq!(
        saved,
        format!("## AI timeline\n\n- [00:01:00–00:02:00] First <!-- framenote:ai:{ID} start=60.000 end=120.000 -->\n")
    );
    let again = transcript::append_analysis_result_as(
        &saved,
        seconds(60.4),
        seconds(119.6),
        "Second",
        &Vec::new(),
        true,
        OTHER_ID,
        &Vec::new(),
    );
    assert_eq!(
        again,
        format!("## AI timeline\n\n- [00:01:00–00:02:00] First <!-- framenote:ai:{ID} start=60.000 end=120.000 transcript=complete -->\n")
    );
    let line = again.lines().last().unwrap();
    assert!(markdown::ai_range_matches(line, seconds(61.0), seconds(120.0)));
    assert!(!markdown::ai_range_matches(line, seconds(61.5), seconds(120.0)));
}

#[test]
fn analysed_ranges_stay_recognised() {
    let first = transcript::append_analysis_result(
        "# clip.mp4\r\n",
        seconds(0.0),
        seconds(60.0),
        "First",
        &vec![cue(1.0, 2.0, "Ahoj", "Speaker 1", "sk")],
        true,
    );
    let second = transcript::append_analysis_result(
        &first,
        seconds(60.0),
        seconds(120.0),
        "Second",
        &vec![cue(61.25, 62.5, "Hello", "Speaker 2", "en")],
        true,
    );
    let covers = |text: &str, start: f64, end: f64| {
        text.lines()
            .filter(|line| markdown::ai_range_matches(line, seconds(start), seconds(end)))
            .count()
    };
    assert_eq!(covers(&first, 0.0, 60.0), 1);
    assert_eq!(covers(&first, 60.0, 120.0), 0);
    assert_eq!(covers(&second, 0.0, 60.0), 1);
    assert_eq!(covers(&second, 60.0, 120.0), 1);
    let again = transcript::append_analysis_result(
        &second,
        seconds(60.0),
        seconds(120.0),
        "Third",
        &Vec::new(),
        true,
    );
    assert_eq!(again, second);
    let cues = transcript::subtitle_cues_from_markdown(&again);
    let read = cues
        .iter()
        .map(|cue| (value(cue.start_seconds), value(cue.end_seconds), cue.text.as_str(), cue.speaker.as_str(), cue.language.as_str()))
        .collect::<Vec<_>>();
    assert_eq!(
        read,
        vec![
            (1.0, 2.0, "Ahoj", "Speaker 1", "sk"),
            (61.25, 62.5, "Hello", "Speaker 2", "en"),
        ]
    );
}

#[test]
fn words_that_read_like_attributes_change_no_entry() {
    let odd = "at start=7 until end=9 said speaker=\"X\" framenote:ai: start=8";
    let saved = transcript::append_analysis_result(
        "",
        seconds(60.0),
        seconds(120.0),
        odd,
        &vec![cue(61.0, 62.0, odd, "A", "en")],
        false,
    );
    let line = saved.lines().find(|line| line.contains("framenote:ai:")).unwrap();
    assert!(line.contains("start=7"));
    assert!(markdown::ai_range_matches(line, seconds(60.0), seconds(120.0)));
    let again = transcript::append_analysis_result(
        &saved,
        seconds(60.0),
        seconds(120.0),
        "Again",
        &Vec::new(),
        false,
    );
    assert_eq!(again, saved);
    let cues = transcript::subtitle_cues_from_markdown(&saved);
    assert_eq!(cues.len(), 1);
    assert_eq!((value(cues[0].start_seconds), value(cues[0].end_seconds)), (61.0, 62.0));
    assert_eq!(cues[0].text, odd);
    assert_eq!(cues[0].speaker, "A");

    let marked = entries::add_bookmark_as("", seconds(3.0), ID);
    let reworded = entries::update_entry(&marked, ID, "the end=1 of it").unwrap();
    let line = reworded.lines().last().unwrap();
    assert_eq!(entries::open_bookmark_start(line).map(value), Some(3.0));
    assert!(chapters::bookmark_start_exists(&reworded, seconds(3.0)));
}

#[test]
fn edited_comments_still_carry_the_range() {
    let covers = |line: &str| markdown::ai_range_matches(line, seconds(60.0), seconds(120.0));
    assert!(covers("- [00:01:00] S <!-- start=60 end=120 framenote:ai:x -->"));
    assert!(covers("- [00:01:00] S <!-- framenote:ai:x start=60 end=120 --> see framenote:ai:"));
    assert!(covers("- [00:01:00] S <!--framenote:ai:x start=60 end=120 --> <!-- checked -->"));
    assert!(covers("- [00:01:00] S <!-- start=60 end=120 --> <!-- framenote:ai:x -->"));
    assert!(covers("- [00:01:00] S framenote:ai:x start=60 end=120"));
    assert!(covers("- [00:01:00] at start=7 <!-- framenote:ai:x start=60 end=120 -->"));
    assert!(!covers("- [00:01:00] start=60 end=120 <!-- framenote:ai:x start=7 end=9 -->"));
    assert!(!covers("- [00:01:00] S <!-- start=60 end=120 -->"));
    assert!(!covers("- [00:01:00] S <!-- framenote:ai:x start=60 -->"));
    // An empty comment opens nothing.
    assert!(!covers("- [00:01:00] start=7 <!--> framenote:ai:x start=60 end=120"));
    let note = "## AI timeline\n\n- [00:01:00] S <!-- start=60 end=120 framenote:ai:x -->\n";
    let again = transcript::append_analysis_result(
        note,
        seconds(60.0),
        seconds(120.0),
        "Again",
        &Vec::new(),
        true,
    );
    assert_eq!(
        again,
        "## AI timeline\n\n- [00:01:00] S <!-- start=60 end=120 framenote:ai:x transcript=complete -->\n"
    );
}

#[test]
fn plain_subtitles_read_back_whole() {
    let lines = [
        transcript::subtitle_line("a", seconds(0.1), seconds(0.1 + 0.002), "two", "A", "sk").unwrap(),
        transcript::subtitle_line("b", seconds(0.0), seconds(0.002), "one", "B", "en").unwrap(),
        transcript::subtitle_line("c", seconds(999999.997), seconds(999999.999), "last", "C", "de")
            .unwrap(),
    ];
    let cues = transcript::subtitle_cues_from_markdown(&lines.join("\n"));
    let read = cues
        .iter()
        .map(|cue| (value(cue.start_seconds), value(cue.end_seconds), cue.text.as_str(), cue.speaker.as_str(), cue.language.as_str()))
        .collect::<Vec<_>>();
    assert_eq!(
        read,
        vec![
            (0.0, 0.002, "one", "B", "en"),
            (0.1, 0.102, "two", "A", "sk"),
            (999999.997, 999999.999, "last", "C", "de"),
        ]
    );
}

#[test]
fn receipts_outlast_every_other_edit() {
    let chapters = vec![EmbeddedChapter {
        source_index: 0,
        start_seconds: seconds(3.0),
        title: "Intro".into(),
    }];
    for print in ["source", "", "a\nb", " \r\n"] {
        let imported = chapters::merge_embedded_chapters("# clip\n", &chapters, print).unwrap();
        let receipt = imported
            .lines()
            .find(|line| line.starts_with("<!-- framenote:embedded-chapters fingerprint="))
            .unwrap();
        let edited = format!("Other words\n  {receipt}\nand more");
        let later = vec![EmbeddedChapter {
            source_index: usize::MAX,
            start_seconds: seconds(9.0),
            title: "Later".into(),
        }];
        assert!(chapters::merge_embedded_chapters(&edited, &later, "other").is_none());
        let without = edited.replace(receipt, "");
        assert!(chapters::merge_embedded_chapters(&without, &chapters, "other").is_some());
    }
}

#[test]
fn subtitles_under_any_identifier_are_read_in_order() {
    let lines = [
        transcript::subtitle_line("b", seconds(5.0), seconds(6.5), "second", "", "").unwrap(),
        transcript::subtitle_line("c-1", seconds(1.2504), seconds(2.0), "first", "A", "sk").unwrap(),
        transcript::subtitle_line("a", seconds(5.0), seconds(6.0), "third", "B", "en").unwrap(),
    ];
    let cues = transcript::subtitle_cues_from_markdown(&lines.join("\n"));
    let read = cues
        .iter()
        .map(|cue| (value(cue.start_seconds), cue.text.as_str(), cue.speaker.as_str()))
        .collect::<Vec<_>>();
    assert_eq!(
        read,
        vec![(1.25, "first", "A"), (5.0, "second", "Unknown"), (5.0, "third", "B")]
    );
    assert!(cues.iter().all(|cue| value(cue.end_seconds) > value(cue.start_seconds)));
}

#[test]
fn transcripts_keep_to_the_analysed_range() {
    let saved = transcript::append_analysis_result_as(
        "",
        seconds(10.0),
        seconds(20.0),
        "S",
        &vec![
            cue(5.0, 12.0, "early", "A", "en"),
            cue(25.0, 30.0, "late", "A", "en"),
            cue(15.0, 16.0, " ", "A", "en"),
            cue(18.0, 40.0, "end", "", ""),
        ],
        true,
        ID,
        &vec!["a".to_string(), "b".to_string(), "c".to_string(), "d".to_string()],
    );
    assert!(saved.contains(
        "- [00:00:10–00:00:12] early <!-- framenote:subtitle:a start=10.000 end=12.000 speaker=\"A\" language=\"en\" -->"
    ));
    assert!(!saved.contains("late"));
    assert!(!saved.contains("framenote:subtitle:c"));
    assert!(saved.contains(
        "- [00:00:18–00:00:20] end <!-- framenote:subtitle:d start=18.000 end=20.000 speaker=\"Speaker\" language=\"unknown\" -->"
    ));
}
