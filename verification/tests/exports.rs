use framenote::arguments;
use framenote::export;
use framenote::export::ExportClipRequest;
use framenote::export::ExportManifestClip;
use framenote::export::FolderStep;
use framenote::jobs;
use framenote::jobs::JobState;
use framenote::number::Binary64;
use framenote::paths::FilePath;
use framenote::table::Table;
use framenote::transcript::TranscriptCue;

fn time(value: f64) -> Binary64 {
    Binary64 { bits: value.to_bits() }
}

fn film(name: &str) -> FilePath {
    FilePath { directory: "/films/".to_string(), file_name: Some(name.to_string()) }
}

fn clip_request(preset: &str, start: f64, end: f64) -> ExportClipRequest {
    ExportClipRequest {
        clip_index: 1,
        start_seconds: time(start),
        end_seconds: time(end),
        label: "Boss: fight?".to_string(),
        preset: preset.to_string(),
        audio_stream_indexes: Some(vec![1, 2]),
    }
}

const SIDECAR: &str = "## Subtitles\n- [00:00:11–00:00:13] Hi, \"you\" <!-- framenote:subtitle:a start=11.000 end=13.000 speaker=\"Filip\" language=\"en\" -->\n";

#[test]
fn exports_clip_relative_srt_with_speaker_labels() {
    let cues = vec![
        TranscriptCue {
            start_seconds: time(11.25),
            end_seconds: time(13.5),
            text: "Ahoj všetci.".into(),
            speaker: "Filip".into(),
            language: "sk".into(),
        },
        TranscriptCue {
            start_seconds: time(14.0),
            end_seconds: time(16.0),
            text: "Let's start.".into(),
            speaker: "Unknown".into(),
            language: "en".into(),
        },
    ];
    let srt = export::clip_srt(&cues, time(10.0), time(15.0));
    assert!(srt.contains("00:00:01,250 --> 00:00:03,500\nFilip: Ahoj všetci."));
    assert!(srt.contains("00:00:04,000 --> 00:00:05,000\nLet's start."));
    assert_eq!(export::safe_file_component("A/B: rough * cut", 40), "A B rough cut");
}

#[test]
fn parts_of_file_names_are_safe() {
    assert_eq!(export::safe_file_component(" ..hidden.. ", 40), "hidden");
    assert_eq!(export::safe_file_component("???", 40), "mark");
    assert_eq!(export::safe_file_component("abcdef", 3), "abc");
    assert_eq!(export::safe_file_component("a\u{7}b", 40), "a b");
}

#[test]
fn fields_of_tables_are_quoted() {
    assert_eq!(export::csv_field("plain"), "\"plain\"");
    assert_eq!(export::csv_field("say \"hi\", now"), "\"say \"\"hi\"\", now\"");
    assert_eq!(export::csv_field("\"\""), "\"\"\"\"\"\"");
}

#[test]
fn manifests_list_clips_and_their_subtitles() {
    let clips = vec![ExportManifestClip {
        file_name: "clip_001.mov".to_string(),
        subtitle_file_name: "clip_001.srt".to_string(),
        start_seconds: time(10.0),
        end_seconds: time(12.5),
        label: "Opening".to_string(),
    }];
    let manifest =
        export::write_export_manifest(&film("clip.mp4"), SIDECAR, "resolve", "All tracks", &clips);
    assert_eq!(
        manifest.clips,
        "clip,file,subtitles,source_start,source_end,duration,label\n1,\"clip_001.mov\",\"clip_001.srt\",10.000,12.500,2.500,\"Opening\"\n"
    );
    assert!(manifest.subtitles.ends_with(
        "\n1,\"clip_001.mov\",1.000,2.500,11.000,12.500,\"Filip\",\"en\",\"Hi, \"\"you\"\"\"\n"
    ));
    assert!(manifest.instructions.starts_with(
        "FrameNote rough-cut export\n\nSource: clip.mp4\nPreset: resolve\nAudio: All tracks\n"
    ));
    assert!(export::check_manifest(true, true).is_ok());
    assert!(export::check_manifest(false, true).is_err());
    assert!(export::check_manifest(true, false).is_err());
}

#[test]
fn presets_have_extensions() {
    assert_eq!(export::export_extension("resolve"), Ok("mov"));
    assert_eq!(export::export_extension("mp4"), Ok("mp4"));
    assert!(export::export_extension("gif").is_err());
}

#[test]
fn clips_are_planned() {
    let plan = match export::export_mark_clip(
        &film("My: film.mp4"),
        "/out/",
        SIDECAR,
        &clip_request("mp4", 10.0, 12.0),
    ) {
        Ok(plan) => plan,
        Err(message) => panic!("{message}"),
    };
    assert_eq!(plan.file_name, "My film_002_Boss fight.mp4");
    assert_eq!(plan.subtitle_file_name, "My film_002_Boss fight.srt");
    assert_eq!(plan.video_path, "/out/My film_002_Boss fight.mp4");
    assert_eq!(plan.subtitle_path, "/out/My film_002_Boss fight.srt");
    assert_eq!(plan.subtitles, "1\n00:00:01,000 --> 00:00:02,000\nFilip: Hi, \"you\"\n\n");
    let joined = plan.arguments.join(" ");
    assert!(joined.starts_with(
        "-hide_banner -loglevel error -ss 10.000 -i /films/My: film.mp4 -t 2.000 -map 0:v:0 -map 0:1? -map 0:2? -map_metadata 0"
    ));
    assert!(joined.ends_with("-y /out/My film_002_Boss fight.mp4"));
}

#[test]
fn clips_that_cannot_be_exported_are_refused() {
    let fine = clip_request("mp4", 10.0, 12.0);
    assert!(export::check_clip(JobState::Active, true, true, true, &fine).is_ok());
    assert_eq!(
        export::check_clip(JobState::Missing, true, true, true, &fine).unwrap_err(),
        "The export job is no longer active."
    );
    assert_eq!(
        export::check_clip(JobState::Cancelled, true, true, true, &fine).unwrap_err(),
        jobs::CANCELLED
    );
    assert_eq!(
        export::check_clip(JobState::Active, false, true, true, &fine).unwrap_err(),
        "The selected video no longer exists."
    );
    assert_eq!(
        export::check_clip(JobState::Active, true, false, true, &fine).unwrap_err(),
        "The export folder is no longer available."
    );
    assert_eq!(
        export::check_clip(JobState::Active, true, true, false, &fine).unwrap_err(),
        "FFmpeg was not found. Install FFmpeg before exporting clips."
    );
    assert_eq!(
        export::check_clip(JobState::Active, true, true, true, &clip_request("mp4", 12.0, 12.0))
            .unwrap_err(),
        "This mark does not have a valid start and end time."
    );
    assert!(
        export::check_clip(JobState::Active, true, true, true, &clip_request("gif", 1.0, 2.0))
            .is_err()
    );
}

#[test]
fn folders_for_clips_get_new_names() {
    let path = film("clip.mp4");
    assert_eq!(
        export::prepare_export_directory(&path, true, true, 1).unwrap(),
        "FrameNote - clip"
    );
    assert_eq!(
        export::prepare_export_directory(&path, true, true, 2).unwrap(),
        "FrameNote - clip 2"
    );
    assert_eq!(
        export::prepare_export_directory(&path, false, true, 1).unwrap_err(),
        "The selected video no longer exists."
    );
    assert_eq!(
        export::prepare_export_directory(&path, true, false, 1).unwrap_err(),
        "Choose an existing export folder."
    );
}

#[test]
fn the_first_free_folder_is_used() {
    let path = film("clip.mp4");
    let mut taken = vec!["FrameNote - clip 3".to_string()];
    let mut found = Vec::new();
    while found.len() < 4 {
        let mut tries = 1;
        let name = loop {
            let name = export::prepare_export_directory(&path, true, true, tries).unwrap();
            match export::next_export_directory(&path, tries, taken.contains(&name)) {
                FolderStep::Use(name) => break name,
                FolderStep::Try(next) => tries = next,
            }
        };
        taken.push(name.clone());
        found.push(name);
    }
    assert_eq!(
        found,
        vec![
            "FrameNote - clip",
            "FrameNote - clip 2",
            "FrameNote - clip 4",
            "FrameNote - clip 5"
        ]
    );
}

#[test]
fn reports_are_shortened() {
    assert_eq!(arguments::last_lines("a\nb\nc\nd\ne\n", 4), "b c d e");
    assert!(export::export_failure(2, "x\ny").contains("x y"));
    assert_eq!(
        arguments::find_executable("ffmpeg"),
        vec!["/opt/homebrew/bin/ffmpeg", "/usr/local/bin/ffmpeg", "/usr/bin/ffmpeg"]
    );
}

#[test]
fn jobs_are_known_while_they_run() {
    let mut jobs: Table<u32> = Table::new();
    jobs::begin_analysis(&mut jobs, "a", 1);
    jobs::begin_export(&mut jobs, "b", 2);
    assert_eq!(jobs::cancel_analysis(&jobs, "a"), Some(&1));
    assert_eq!(jobs::cancel_export(&jobs, "b"), Some(&2));
    jobs::finish_analysis(&mut jobs, "a");
    assert_eq!(jobs::cancel_analysis(&jobs, "a"), None);
    jobs::finish_export(&mut jobs, "b");
    assert_eq!(jobs.len(), 0);
}
