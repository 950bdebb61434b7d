use framenote::fingerprint::FileStamp;
use framenote::media;
use framenote::media::FileState;
use framenote::media::MediaReply;
use framenote::media::MediaSource;
use framenote::media::Method;
use framenote::media::MixTarget;
use framenote::media::RemoteMediaSource;
use framenote::media::Route;
use framenote::mix;
use framenote::mix::MixReply;
use framenote::names;
use framenote::number;
use framenote::number::Binary64;
use framenote::paths::FilePath;
use framenote::single;
use framenote::single::Binary32;
use framenote::table::Table;
use framenote::text;
use framenote::waveform;
use framenote::waveform::CacheVerdict;
use framenote::waveform::WaveformData;

fn double(value: f64) -> Binary64 {
    Binary64 { bits: value.to_bits() }
}

fn single_of(value: f32) -> Binary32 {
    Binary32 { bits: value.to_bits() }
}

fn local(name: &str) -> FilePath {
    FilePath { directory: "/films/".to_string(), file_name: Some(name.to_string()) }
}

fn header(headers: &[(String, String)], name: &str) -> Option<String> {
    headers.iter().find(|pair| pair.0 == name).map(|pair| pair.1.clone())
}

const DAY: i128 = 24 * 60 * 60 * 1_000_000_000;

// Media

#[test]
fn private_media_server_supports_byte_ranges() {
    let mut files: Table<MediaSource> = Table::new();
    files.insert("test-token", MediaSource::Local(local("range.mp4")));
    let content = b"0123456789";
    assert_eq!(media::respond_request("/media/test-token"), Route::Media);
    let path = match media::respond_media("/media/test-token", &files) {
        Some(MediaSource::Local(path)) => path,
        _ => panic!("the file was not found"),
    };
    let headers = vec![("Range".to_string(), "bytes=2-5".to_string())];
    let size = FileState::Size(content.len() as u64);
    match media::respond_local_media(Method::Get, &headers, size, path) {
        MediaReply::Part { status, headers, first, length } => {
            assert_eq!(status, 206);
            assert_eq!(header(&headers, "Content-Range"), Some("bytes 2-5/10".to_string()));
            let body = &content[first as usize..(first + length) as usize];
            assert_eq!(body, b"2345");
        }
        _ => panic!("no part was sent"),
    }
}

#[test]
fn ranges_are_read() {
    assert_eq!(media::requested_range(Some("bytes=2-5"), 10), Some((2, 5)));
    assert_eq!(media::requested_range(Some("bytes=2-"), 10), Some((2, 9)));
    assert_eq!(media::requested_range(Some("bytes=-3"), 10), Some((7, 9)));
    assert_eq!(media::requested_range(Some("bytes=4-99"), 10), Some((4, 9)));
    assert_eq!(media::requested_range(Some("bytes=12-14"), 10), None);
    assert_eq!(media::requested_range(Some("lines=1-2"), 10), None);
    assert_eq!(media::requested_range(None, 10), None);
}

#[test]
fn files_that_cannot_be_sent_are_refused() {
    let path = local("clip.mp4");
    let none = Vec::new();
    let reply = media::respond_local_media(Method::Post, &none, FileState::Size(5), &path);
    assert!(matches!(reply, MediaReply::Status(405)));
    let reply = media::respond_local_media(Method::Get, &none, FileState::Missing, &path);
    assert!(matches!(reply, MediaReply::Status(404)));
    let reply = media::respond_local_media(Method::Get, &none, FileState::Unreadable, &path);
    assert!(matches!(reply, MediaReply::Status(500)));
    let reply = media::respond_local_media(Method::Get, &none, FileState::Size(0), &path);
    assert!(matches!(reply, MediaReply::Status(416)));
    match media::respond_local_media(Method::Head, &none, FileState::Size(5), &path) {
        MediaReply::Head { status, headers, length } => {
            assert_eq!((status, length), (200, 5));
            assert_eq!(header(&headers, "Content-Type"), Some("video/mp4".to_string()));
        }
        _ => panic!("no headers were sent"),
    }
}

#[test]
fn unknown_tokens_give_nothing() {
    let files: Table<MediaSource> = Table::new();
    assert!(media::respond_media("/media/nobody", &files).is_none());
    assert_eq!(media::respond_request("/mix/a?tracks=1"), Route::Mix);
    assert_eq!(media::respond_request("/else"), Route::Unknown);
    assert!(matches!(media::respond_audio_mix("/mix/a?tracks=1", &files), MixTarget::Status(_)));
}

#[test]
fn remote_sources_are_passed_on() {
    let mut files: Table<MediaSource> = Table::new();
    files.insert(
        "t",
        MediaSource::Remote(RemoteMediaSource {
            media_url: "http://peer/session/x/media".to_string(),
            mix_url: "http://peer/session/x/mix".to_string(),
            content_type: "video/mp4".to_string(),
        }),
    );
    match media::respond_audio_mix("/mix/t?tracks=1,2&start=3", &files) {
        MixTarget::Remote(url) => {
            assert_eq!(url, "http://peer/session/x/mix?tracks=1,2&start=3")
        }
        _ => panic!("the request was not passed on"),
    }
    let headers = vec![("range".to_string(), "bytes=0-1".to_string())];
    let call = media::respond_remote_proxy(Method::Head, &headers).unwrap();
    assert!(call.head);
    assert_eq!(call.range, Some("bytes=0-1".to_string()));
    assert!(media::respond_remote_proxy(Method::Post, &headers).is_none());
    let sent = media::proxy_headers(None, Some("bytes 0-1/9"), "video/mp4");
    assert_eq!(header(&sent, "Content-Type"), Some("video/mp4".to_string()));
    assert_eq!(header(&sent, "Content-Range"), Some("bytes 0-1/9".to_string()));
}

#[test]
fn videos_are_registered_under_new_tokens() {
    let mut files: Table<MediaSource> = Table::new();
    let registered = match media::register_media_source(
        &mut files,
        "http://127.0.0.1:9",
        local("clip.mp4"),
        true,
        Vec::new(),
        Some(double(25.0)),
    ) {
        Ok(registered) => registered,
        Err(message) => panic!("{message}"),
    };
    assert_eq!(files.len(), 1);
    let token = files.key(0).to_string();
    assert_eq!(registered.url, format!("http://127.0.0.1:9/media/{token}"));
    assert!(media::register_media_source(
        &mut files,
        "http://127.0.0.1:9",
        local("clip.mp4"),
        false,
        Vec::new(),
        None,
    )
    .is_err());
}

#[test]
fn mixes_follow_the_request() {
    let url = "/mix/mix-test?tracks=0,1&volumes=1,0.5&start=0";
    match mix::respond_audio_mix_for_path(Method::Get, url, "/films/two.m4a", true) {
        MixReply::Stream(arguments) => {
            assert_eq!(arguments[4], "0.000");
            assert_eq!(arguments[6], "/films/two.m4a");
            assert!(arguments[8].contains("volume=1.000"));
            assert!(arguments[8].contains("volume=0.500"));
            assert!(arguments[8].ends_with("[mix]"));
        }
        _ => panic!("no mix was made"),
    }
    assert!(matches!(
        mix::respond_audio_mix_for_path(Method::Get, url, "v", false),
        MixReply::NoFfmpeg
    ));
    assert!(matches!(
        mix::respond_audio_mix_for_path(Method::Head, url, "v", false),
        MixReply::Head
    ));
    assert!(matches!(
        mix::respond_audio_mix_for_path(Method::Get, "/mix/a", "v", true),
        MixReply::Status(400)
    ));
    assert!(matches!(
        mix::respond_audio_mix_for_path(Method::Post, url, "v", true),
        MixReply::Status(405)
    ));
    assert_eq!(header(&mix::mix_headers(), "Content-Type"), Some("audio/aac".to_string()));
}

#[test]
fn levels_are_held() {
    let url = "/mix/a?tracks=1,2&volumes=-3,7";
    match mix::respond_audio_mix_for_path(Method::Get, url, "v", true) {
        MixReply::Stream(arguments) => {
            assert!(arguments[8].contains("volume=0.000"));
            assert!(arguments[8].contains("volume=2.000"));
        }
        _ => panic!("no mix was made"),
    }
}

// Waveforms

#[test]
fn waveform_cache_key_tracks_source_changes() {
    let first = waveform::waveform_cache_key(
        "/films/recording.mp4",
        &FileStamp { size: b"first".len() as u64, seconds: 7, nanos: 0 },
    );
    let second = waveform::waveform_cache_key(
        "/films/recording.mp4",
        &FileStamp { size: b"longer replacement".len() as u64, seconds: 7, nanos: 0 },
    );
    assert_ne!(first, second);
    assert!(first.ends_with(".json"));
    assert_eq!(first.len(), 21);
}

#[test]
fn one_changed_byte_changes_the_cache_key() {
    let key = |path: &str, size: u64, seconds: u64, nanos: u32| {
        waveform::waveform_cache_key(path, &FileStamp { size, seconds, nanos })
    };
    let first = key("/films/a.mp4", 512, 1_700_000_000, 250);
    assert_eq!(first, key("/films/a.mp4", 512, 1_700_000_000, 250));
    for other in [
        key("/films/b.mp4", 512, 1_700_000_000, 250),
        key("/films/a.mp4", 513, 1_700_000_000, 250),
        key("/films/a.mp4", 512, 1_700_000_001, 250),
        key("/films/a.mp4", 512, 1_700_000_000, 259),
    ] {
        assert_ne!(first, other);
    }
}

#[test]
fn waveform_cache_round_trips_and_rejects_invalid_data() {
    let data = WaveformData {
        samples_per_second: double(100.0),
        peaks: vec![single_of(0.1), single_of(0.5), single_of(1.0)],
    };
    match waveform::read_waveform_cache(0, DAY, Some(data)) {
        CacheVerdict::Use(loaded) => {
            assert_eq!(f64::from_bits(loaded.samples_per_second.bits), 100.0);
            let peaks: Vec<f32> =
                loaded.peaks.iter().map(|peak| f32::from_bits(peak.bits)).collect();
            assert_eq!(peaks, vec![0.1, 0.5, 1.0]);
        }
        _ => panic!("cached waveform"),
    }
    let invalid = WaveformData { samples_per_second: double(0.0), peaks: Vec::new() };
    assert!(matches!(
        waveform::read_waveform_cache(0, DAY, Some(invalid)),
        CacheVerdict::Remove
    ));
    assert!(matches!(waveform::read_waveform_cache(0, 8 * DAY, None), CacheVerdict::Remove));
}

#[test]
fn waveform_cache_expires_after_seven_days() {
    let now = 10 * DAY;
    assert!(waveform::waveform_cache_is_fresh(now - 6 * DAY, now));
    assert!(!waveform::waveform_cache_is_fresh(now - 8 * DAY, now));
}

#[test]
fn old_cache_files_are_pruned() {
    assert!(waveform::prune_waveform_cache(true, Some(0), 8 * DAY));
    assert!(!waveform::prune_waveform_cache(true, Some(0), 7 * DAY));
    assert!(waveform::prune_waveform_cache(true, None, DAY));
    assert!(!waveform::prune_waveform_cache(false, None, DAY));
    assert_eq!(waveform::write_waveform_cache(Some("a.json"), 42), ".a.json.42.tmp");
    assert_eq!(waveform::write_waveform_cache(None, 7), ".waveform.7.tmp");
}

#[test]
fn waveforms_are_drawn_from_decoded_sound() {
    let mut bytes: Vec<u8> = Vec::new();
    for sample in [0.1f32, -0.4, 0.2, 0.0, 0.8, 0.0, 0.0, 0.0, f32::NAN] {
        bytes.extend_from_slice(&sample.to_le_bytes());
    }
    let data = match waveform::extract_waveform(true, &bytes, "") {
        Ok(data) => data,
        Err(message) => panic!("{message}"),
    };
    assert_eq!(f64::from_bits(data.samples_per_second.bits), 100.0);
    let peaks: Vec<f32> = data.peaks.iter().map(|peak| f32::from_bits(peak.bits)).collect();
    assert_eq!(peaks, vec![0.5, 1.0, 0.0]);
    match waveform::extract_waveform(true, b"ab", "") {
        Err(message) => {
            assert_eq!(message, "The selected video has no decodable audio waveform.")
        }
        Ok(_) => panic!("there was no sound"),
    }
    match waveform::extract_waveform(false, &bytes, "a\nb") {
        Err(message) => assert_eq!(message, "Could not prepare the audio waveform: a b"),
        Ok(_) => panic!("FFmpeg failed"),
    }
}

#[test]
fn waveforms_need_sound() {
    assert!(waveform::plan_waveform("v", false, true, &vec![1]).is_err());
    assert_eq!(
        waveform::plan_waveform("v", true, false, &vec![1]).unwrap_err(),
        "FFmpeg is required to prepare the audio waveform."
    );
    assert_eq!(
        waveform::plan_waveform("v", true, true, &Vec::new()).unwrap_err(),
        "No audio track is available for the waveform."
    );
    let planned = waveform::plan_waveform("v", true, true, &vec![1, 2]).unwrap();
    assert!(planned[6].contains("[0:1]aresample=400"));
}

// Numbers

#[test]
fn arithmetic_is_that_of_the_machine() {
    let values = [
        0.0, -0.0, 1.0, -1.5, 0.1, 0.2, 3.0e-320, 1.7e308, -1.7e308, 12345.6789, 2.5e-16,
    ];
    for a in values {
        for b in values {
            let x = double(a);
            let y = double(b);
            assert_eq!(x.add(y).bits, (a + b).to_bits(), "{a} + {b}");
            assert_eq!(x.sub(y).bits, (a - b).to_bits(), "{a} - {b}");
            assert_eq!(x.mul(y).bits, (a * b).to_bits(), "{a} * {b}");
            if b != 0.0 {
                assert_eq!(x.div(y).bits, (a / b).to_bits(), "{a} / {b}");
            }
            assert_eq!(x.less(y), a < b);
            assert_eq!(x.at_most(y), a <= b);
        }
    }
}

#[test]
fn numbers_are_written_with_three_digits() {
    for value in [0.0, 0.0005, 0.0015, 1.0 / 3.0, 1234.5678, -2.25, 1.0e21] {
        assert_eq!(double(value).fixed_text(), format!("{value:.3}"));
    }
    for value in [0.0f32, 0.0005, 1.0 / 3.0, 0.7, 2.0] {
        assert_eq!(single_of(value).fixed_text(), format!("{value:.3}"));
    }
    assert_eq!(double(f64::INFINITY).fixed_text(), "inf");
    assert_eq!(double(f64::NAN).fixed_text(), "NaN");
}

#[test]
fn numbers_are_read_exactly() {
    for text in ["0", "1.5", "-2.25", "1e3", "4.35", "0.1", "1e-320", "+7", "inf", ".5", "5."] {
        let read = number::parse(text).map(|value| value.bits);
        assert_eq!(read, text.parse::<f64>().ok().map(|value| value.to_bits()), "{text}");
        let read = single::parse(text).map(|value| value.bits);
        assert_eq!(read, text.parse::<f32>().ok().map(|value| value.to_bits()), "{text}");
    }
    for text in ["", "-", ".", "1e", "0x1", "1 ", "--1"] {
        assert!(number::parse(text).is_none(), "{text}");
    }
}

#[test]
fn whole_numbers_are_rounded_from_the_middle_up() {
    assert_eq!(double(2.5).round_u64(), 3);
    assert_eq!(double(-1.0).round_u64(), 0);
    assert_eq!(double(1.0e30).round_u64(), u64::MAX);
    assert_eq!(Binary64::from_u64(u64::MAX).bits, (u64::MAX as f64).to_bits());
    assert_eq!(single_of(1.0).div(single_of(3.0)).bits, (1.0f32 / 3.0f32).to_bits());
}

// Texts

#[test]
fn texts_are_handled_as_strings_are() {
    let sample = "  ž a\tb\u{a0}\r\nline\n\nend \r\n";
    assert_eq!(text::trim(sample), sample.trim());
    assert_eq!(text::lines(sample), sample.lines().collect::<Vec<_>>());
    assert_eq!(text::split_whitespace(sample), sample.split_whitespace().collect::<Vec<_>>());
    assert_eq!(text::split(sample, "\n"), sample.split('\n').collect::<Vec<_>>());
    assert_eq!(text::replace("aaaa", "aa", "b"), "aaaa".replace("aa", "b"));
    assert_eq!(text::position("žab", "b"), Some(2));
    assert_eq!(text::take("žab", 2), "ža");
    assert_eq!(text::ascii_lower("ŽAb"), "ŽAb".to_ascii_lowercase());
}

#[test]
fn names_are_sorted_as_strings_are() {
    let names: Vec<String> =
        ["b", "a", "ž", "A", "", "ab"].iter().map(|name| name.to_string()).collect();
    let mut expected = names.clone();
    expected.sort();
    assert_eq!(names::sort_names(&names), expected);
    assert!(names::stands_before("a", "ab"));
    assert!(!names::stands_before("ab", "a"));
}
