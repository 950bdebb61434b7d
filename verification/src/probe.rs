//! What FFprobe tells of a video.

use vstd::prelude::*;

use crate::arguments;
use crate::digits;
use crate::json;
use crate::json::Json;
use crate::json::Tree;
use crate::media::AudioTrackInfo;
use crate::number;
use crate::number::Binary64;
use crate::text;

verus! {

// ---------------------------------------------------------------------------
// The frame rate
// ---------------------------------------------------------------------------

/// The rate that a fraction gives.
pub open spec fn rate(value: Seq<char>) -> Option<Binary64> {
    match text::cut(value, "/"@) {
        None => None,
        Some((above, below)) => match (number::parsed(above), number::parsed(below)) {
            (Some(above), Some(below)) => if below.le(number::zero()) && number::zero().le(below) {
                None
            } else {
                Some(above.quotient(below))
            },
            _ => None,
        },
    }
}

/// Reads the rate that a fraction gives.
pub fn parse_frame_rate(value: &str) -> (r: Option<Binary64>)
    ensures
        r == rate(value@),
{
    let zero: Binary64 = Binary64 { bits: 0 };
    match text::split_once(value, "/") {
        None => None,
        Some((above, below)) => match (number::parse(above.as_str()), number::parse(
            below.as_str(),
        )) {
            (Some(above), Some(below)) => if below.at_most(zero) && zero.at_most(below) {
                None
            } else {
                Some(above.div(below))
            },
            _ => None,
        },
    }
}

/// The rate in a field of a stream, where it can be played.
pub open spec fn usable_rate(stream: Option<Tree>, name: Seq<char>) -> Option<Binary64> {
    match json::string(json::field(stream, name)) {
        Some(value) => match rate(value) {
            Some(rate) if rate.finite() && number::zero().lt(rate) => Some(rate),
            _ => None,
        },
        None => None,
    }
}

/// The frame rate of a described video: the average one, else the least common
/// multiple of all.
pub open spec fn frame_rate(tree: Tree) -> Option<Binary64> {
    let stream = json::item(json::field(Some(tree), "streams"@), 0);
    match usable_rate(stream, "avg_frame_rate"@) {
        Some(rate) => Some(rate),
        None => usable_rate(stream, "r_frame_rate"@),
    }
}

fn read_rate(stream: Option<&Json>, name: &str) -> (r: Option<Binary64>)
    ensures
        r == usable_rate(json::seen(stream), name@),
{
    match json::as_text(json::get(stream, name)) {
        Some(value) => match parse_frame_rate(value.as_str()) {
            Some(rate) => if rate.is_finite() && (Binary64 { bits: 0 }).less(rate) {
                Some(rate)
            } else {
                None
            },
            None => None,
        },
        None => None,
    }
}

/// Reads the frame rate of a described video.
pub fn described_frame_rate(description: &Json) -> (r: Option<Binary64>)
    ensures
        r == frame_rate(description.tree()),
{
    let stream = json::nth(json::get(Some(description), "streams"), 0);
    match read_rate(stream, "avg_frame_rate") {
        Some(rate) => Some(rate),
        None => read_rate(stream, "r_frame_rate"),
    }
}

/// The arguments with which FFprobe tells the frame rate of a video.
pub fn frame_rate_arguments(video: &str) -> (r: Vec<String>)
    ensures
        text::views(r@) == seq![
            "-v"@,
            "error"@,
            "-select_streams"@,
            "v:0"@,
            "-show_entries"@,
            "stream=avg_frame_rate,r_frame_rate"@,
            "-of"@,
            "json"@,
            video@,
        ],
{
    let mut args: Vec<String> = Vec::new();
    arguments::add_all(
        &mut args,
        &[
            "-v",
            "error",
            "-select_streams",
            "v:0",
            "-show_entries",
            "stream=avg_frame_rate,r_frame_rate",
            "-of",
            "json",
            video,
        ],
    );
    args
}

/// Reads the frame rate from the output of FFprobe.
pub fn probe_frame_rate(stdout: &[u8]) -> (r: Option<Binary64>)
    ensures
        r == match json::document(stdout@) {
            Ok(tree) => frame_rate(tree),
            Err(_) => None,
        },
{
    match json::parse_json(stdout) {
        Ok(description) => described_frame_rate(&description),
        Err(_) => None,
    }
}

// ---------------------------------------------------------------------------
// Audio streams
// ---------------------------------------------------------------------------

/// What `str::to_uppercase` makes of a text.
pub uninterp spec fn uppercase(s: Seq<char>) -> Seq<char>;

/// Writes a text in upper case with `str::to_uppercase`. The result, which
/// goes by the Unicode tables of the standard library, is named.
#[verifier::external_body]
fn to_uppercase(s: &str) -> (r: String)
    ensures
        r@ == uppercase(s@),
{
    s.to_uppercase()
}

/// The content of what is told of an audio stream.
pub struct Track {
    pub index: u32,
    pub label: Seq<char>,
    pub language: Option<Seq<char>>,
    pub codec: Seq<char>,
    pub channels: Option<u32>,
}

impl View for AudioTrackInfo {
    type V = Track;

    open spec fn view(&self) -> Track {
        Track {
            index: self.stream_index,
            label: self.label@,
            language: text::opt(self.language),
            codec: self.codec@,
            channels: self.channels,
        }
    }
}

/// The content of what is told of audio streams.
pub open spec fn tracks_of(tracks: Seq<AudioTrackInfo>) -> Seq<Track> {
    Seq::new(tracks.len(), |i: int| tracks[i]@)
}

/// The low 32 bits of a number.
pub open spec fn low_bits(n: nat) -> u32 {
    (n % 0x1_0000_0000) as u32
}

/// The title that the tags of a stream give it, unless it is the one that
/// every stream has.
pub open spec fn given_title(tags: Option<Tree>) -> Option<Seq<char>> {
    let title = match json::string(json::field(tags, "title"@)) {
        Some(title) => Some(title),
        None => json::string(json::field(tags, "handler_name"@)),
    };
    match title {
        Some(title) if text::lower(title) != text::lower("soundhandler"@) => Some(title),
        _ => None,
    }
}

/// The title of a stream without one, given the name of its language in upper
/// case.
pub open spec fn plain_title(place: int, language: Option<Seq<char>>) -> Seq<char> {
    let track = "Track "@ + digits::decimal((place + 1) as nat);
    match language {
        Some(language) => track + " · "@ + language,
        None => track,
    }
}

/// The audio stream that an item describes, where it has an index.
pub open spec fn track(item: Tree, place: int) -> Option<Track> {
    let tags = json::field(Some(item), "tags"@);
    let language = json::string(json::field(tags, "language"@));
    match json::count(json::field(Some(item), "index"@)) {
        None => None,
        Some(index) => Some(
            Track {
                index: low_bits(index),
                label: match given_title(tags) {
                    Some(title) => title,
                    None => plain_title(
                        place,
                        match language {
                            Some(language) => Some(uppercase(language)),
                            None => None,
                        },
                    ),
                },
                language,
                codec: match json::string(json::field(Some(item), "codec_name"@)) {
                    Some(codec) => codec,
                    None => "audio"@,
                },
                channels: match json::count(json::field(Some(item), "channels"@)) {
                    Some(count) => Some(low_bits(count)),
                    None => None,
                },
            },
        ),
    }
}

/// The audio streams of the first `n` items.
pub open spec fn listed_tracks(items: Seq<Tree>, n: nat) -> Seq<Track>
    decreases n,
{
    if n == 0 {
        Seq::empty()
    } else {
        let before = listed_tracks(items, (n - 1) as nat);
        match track(items[n - 1], n - 1) {
            Some(track) => before.push(track),
            None => before,
        }
    }
}

/// The audio streams of a described video.
pub open spec fn audio_tracks(tree: Tree) -> Seq<Track> {
    let items = json::items(json::field(Some(tree), "streams"@));
    listed_tracks(items, items.len())
}

/// Writes the title of a stream without one, given the name of its language in
/// upper case.
pub fn fallback_label(place: usize, language: Option<&str>) -> (r: String)
    requires
        place < usize::MAX,
    ensures
        r@ == plain_title(place as int, text::opt_str(language)),
{
    let mut out: String = "Track ".to_owned();
    out.append(digits::decimal_text(place as u64 + 1).as_str());
    match language {
        Some(language) => {
            out.append(" · ");
            out.append(language);
        },
        None => {},
    }
    out
}

fn read_title(tags: Option<&Json>) -> (r: Option<String>)
    ensures
        text::opt(r) == given_title(json::seen(tags)),
{
    let title: Option<String> = match json::as_text(json::get(tags, "title")) {
        Some(title) => Some(title),
        None => json::as_text(json::get(tags, "handler_name")),
    };
    match title {
        Some(title) => if text::same_ignoring_case(title.as_str(), "soundhandler") {
            None
        } else {
            Some(title)
        },
        None => None,
    }
}

fn read_track(item: &Json, place: usize) -> (r: Option<AudioTrackInfo>)
    requires
        place < usize::MAX,
    ensures
        match r {
            Some(found) => track(item.tree(), place as int) == Some(found@),
            None => track(item.tree(), place as int) is None,
        },
{
    let index: u64 = match json::as_count(json::get(Some(item), "index")) {
        Some(index) => index,
        None => {
            return None;
        },
    };
    let tags = json::get(Some(item), "tags");
    let language = json::as_text(json::get(tags, "language"));
    let label: String = match read_title(tags) {
        Some(title) => title,
        None => match &language {
            Some(name) => {
                let upper = to_uppercase(name.as_str());
                fallback_label(place, Some(upper.as_str()))
            },
            None => fallback_label(place, None),
        },
    };
    let codec: String = match json::as_text(json::get(Some(item), "codec_name")) {
        Some(codec) => codec,
        None => "audio".to_owned(),
    };
    let channels: Option<u32> = match json::as_count(json::get(Some(item), "channels")) {
        Some(count) => Some((count % 0x1_0000_0000) as u32),
        None => None,
    };
    Some(
        AudioTrackInfo {
            stream_index: (index % 0x1_0000_0000) as u32,
            label,
            language,
            codec,
            channels,
        },
    )
}

/// Reads the audio streams of a described video.
pub fn described_audio_tracks(description: &Json) -> (r: Vec<AudioTrackInfo>)
    ensures
        tracks_of(r@) == audio_tracks(description.tree()),
{
    let list = json::get(Some(description), "streams");
    let n: usize = json::list_len(list);
    let ghost items = json::items(json::seen(list));
    let mut out: Vec<AudioTrackInfo> = Vec::new();
    let mut i: usize = 0;
    assert(tracks_of(out@) == listed_tracks(items, 0));
    while i < n
        invariant
            i <= n,
            n == items.len(),
            items == json::items(json::seen(list)),
            tracks_of(out@) == listed_tracks(items, i as nat),
        decreases n - i,
    {
        match json::nth(list, i) {
            Some(item) => {
                assert(item.tree() == items[i as int]);
                match read_track(item, i) {
                    Some(found) => {
                        let ghost before = tracks_of(out@);
                        let ghost added = found@;
                        out.push(found);
                        assert(tracks_of(out@) == before.push(added));
                    },
                    None => {},
                }
            },
            None => {
                assert(false);
            },
        }
        i += 1;
    }
    out
}

/// The arguments with which FFprobe tells the audio streams of a video.
pub fn audio_track_arguments(video: &str) -> (r: Vec<String>)
    ensures
        text::views(r@) == seq![
            "-v"@,
            "error"@,
            "-select_streams"@,
            "a"@,
            "-show_entries"@,
            "stream=index,codec_name,channels:stream_tags=title,language,handler_name"@,
            "-of"@,
            "json"@,
            video@,
        ],
{
    let mut args: Vec<String> = Vec::new();
    arguments::add_all(
        &mut args,
        &[
            "-v",
            "error",
            "-select_streams",
            "a",
            "-show_entries",
            "stream=index,codec_name,channels:stream_tags=title,language,handler_name",
            "-of",
            "json",
            video,
        ],
    );
    args
}

/// Reads the audio streams from the output of FFprobe; none where it cannot be
/// read.
pub fn probe_audio_tracks(stdout: &[u8]) -> (r: Vec<AudioTrackInfo>)
    ensures
        tracks_of(r@) == match json::document(stdout@) {
            Ok(tree) => audio_tracks(tree),
            Err(_) => Seq::empty(),
        },
{
    match json::parse_json(stdout) {
        Ok(description) => described_audio_tracks(&description),
        Err(_) => {
            let none: Vec<AudioTrackInfo> = Vec::new();
            assert(tracks_of(none@) =~= Seq::<Track>::empty());
            none
        },
    }
}

/// The indexes of audio streams.
pub open spec fn indexes(tracks: Seq<Track>) -> Seq<u32> {
    Seq::new(tracks.len(), |i: int| tracks[i].index)
}

/// Lists the indexes of audio streams.
pub fn stream_indexes(tracks: &Vec<AudioTrackInfo>) -> (r: Vec<u32>)
    ensures
        r@ == indexes(tracks_of(tracks@)),
{
    let mut out: Vec<u32> = Vec::new();
    let mut i: usize = 0;
    while i < tracks.len()
        invariant
            i <= tracks@.len(),
            out@ == indexes(tracks_of(tracks@)).take(i as int),
        decreases tracks@.len() - i,
    {
        out.push(tracks[i].stream_index);
        i += 1;
        assert(out@ =~= indexes(tracks_of(tracks@)).take(i as int));
    }
    assert(out@ =~= indexes(tracks_of(tracks@)));
    out
}

} // verus!
