//! Mixing the audio streams of a video.

use vstd::prelude::*;

use crate::address;
use crate::address::Address;
use crate::arguments;
use crate::clock;
use crate::digits;
use crate::markdown;
use crate::media;
use crate::media::Method;
use crate::number;
use crate::number::Binary64;
use crate::single;
use crate::single::Binary32;
use crate::text;

verus! {

/// The decimal text of a stream's index.
pub open spec fn decimal_of(index: u32) -> Seq<char> {
    digits::decimal(index as nat)
}

// ---------------------------------------------------------------------------
// Filters
// ---------------------------------------------------------------------------

/// The names of the first `n` prepared streams.
pub open spec fn pads(n: nat) -> Seq<char>
    decreases n,
{
    if n == 0 {
        Seq::empty()
    } else {
        pads((n - 1) as nat) + ("[a"@ + digits::decimal((n - 1) as nat) + "]"@)
    }
}

/// The filter that mixes inputs to one output.
pub open spec fn gather(inputs: Seq<char>, n: nat, output: Seq<char>) -> Seq<char> {
    inputs + "amix=inputs="@ + digits::decimal(n)
        + ":duration=longest:normalize=1:dropout_transition=0["@ + output + "]"@
}

/// The filter that brings `n` prepared streams to one output.
pub open spec fn mixer(n: nat, output: Seq<char>) -> Seq<char> {
    if n == 1 {
        "[a0]anull["@ + output + "]"@
    } else {
        gather(pads(n), n, output)
    }
}

pub(crate) fn write_gather(inputs: &str, n: usize, output: &str) -> (r: String)
    ensures
        r@ == gather(inputs@, n as nat, output@),
{
    let mut out: String = inputs.to_owned();
    out.append("amix=inputs=");
    out.append(digits::decimal_text(n as u64).as_str());
    out.append(":duration=longest:normalize=1:dropout_transition=0[");
    out.append(output);
    out.append("]");
    out
}

pub(crate) fn write_mixer(n: usize, output: &str) -> (r: String)
    ensures
        r@ == mixer(n as nat, output@),
{
    if n == 1 {
        let mut out: String = "[a0]anull[".to_owned();
        out.append(output);
        out.append("]");
        return out;
    }
    let mut inputs: String = String::new();
    let mut i: usize = 0;
    while i < n
        invariant
            i <= n,
            inputs@ == pads(i as nat),
        decreases n - i,
    {
        let mut pad: String = "[a".to_owned();
        pad.append(digits::decimal_text(i as u64).as_str());
        pad.append("]");
        inputs.append(pad.as_str());
        i += 1;
    }
    write_gather(inputs.as_str(), n, output)
}

// ---------------------------------------------------------------------------
// The request
// ---------------------------------------------------------------------------

/// The last value of a name among the first `n` pairs of a query.
pub open spec fn last_value(
    pairs: Seq<(Seq<char>, Seq<char>)>,
    name: Seq<char>,
    n: nat,
) -> Option<Seq<char>>
    decreases n,
{
    if n == 0 {
        None
    } else if pairs[n - 1].0 == name {
        Some(pairs[n - 1].1)
    } else {
        last_value(pairs, name, (n - 1) as nat)
    }
}

/// The value of a name in a query; the last one counts.
pub open spec fn query_value(pairs: Seq<(Seq<char>, Seq<char>)>, name: Seq<char>) -> Option<
    Seq<char>,
> {
    last_value(pairs, name, pairs.len())
}

/// Reads a value of a query.
pub fn query_text(pairs: &Vec<(String, String)>, name: &str) -> (r: Option<String>)
    ensures
        text::opt(r) == query_value(address::pairs_of(pairs@), name@),
{
    let ghost all = address::pairs_of(pairs@);
    let mut n: usize = pairs.len();
    while n > 0
        invariant
            n <= pairs@.len(),
            all == address::pairs_of(pairs@),
            last_value(all, name@, n as nat) == last_value(all, name@, all.len()),
        decreases n,
    {
        assert(all[n - 1] == (pairs@[n - 1].0@, pairs@[n - 1].1@));
        if text::same(pairs[n - 1].0.as_str(), name) {
            return Some(pairs[n - 1].1.clone());
        }
        n -= 1;
    }
    None
}

/// How many streams are mixed at most.
pub const STREAM_LIMIT: usize = 16;

/// The stream indexes among the first `n` parts of a list, up to the limit.
pub open spec fn listed_streams(parts: Seq<Seq<char>>, n: nat) -> Seq<u32>
    decreases n,
{
    if n == 0 {
        Seq::empty()
    } else {
        let before = listed_streams(parts, (n - 1) as nat);
        match digits::unsigned(parts[n - 1], u32::MAX as nat) {
            Some(index) if before.len() < STREAM_LIMIT => before.push(index as u32),
            _ => before,
        }
    }
}

/// The streams that a request names.
pub open spec fn streams_of(pairs: Seq<(Seq<char>, Seq<char>)>) -> Seq<u32> {
    match query_value(pairs, "tracks"@) {
        Some(value) => listed_streams(text::pieces(value, ","@), text::pieces(value, ","@).len()),
        None => Seq::empty(),
    }
}

/// The level of a stream, held between silence and twice its own.
pub open spec fn level(value: Binary32) -> Binary32 {
    value.held(Binary32 { bits: 0 }, Binary32 { bits: 0x4000_0000 })
}

/// The levels among the first `n` parts of a list, up to `limit` of them.
pub open spec fn listed_levels(parts: Seq<Seq<char>>, limit: nat, n: nat) -> Seq<Binary32>
    decreases n,
{
    if n == 0 {
        Seq::empty()
    } else {
        let before = listed_levels(parts, limit, (n - 1) as nat);
        match single::parsed(parts[n - 1]) {
            Some(value) if before.len() < limit => before.push(level(value)),
            _ => before,
        }
    }
}

/// The levels of `count` streams that a request names; its own level for each
/// that is not named.
pub open spec fn levels_of(pairs: Seq<(Seq<char>, Seq<char>)>, count: nat) -> Seq<Binary32> {
    let named = match query_value(pairs, "volumes"@) {
        Some(value) => listed_levels(
            text::pieces(value, ","@),
            count,
            text::pieces(value, ","@).len(),
        ),
        None => Seq::empty(),
    };
    Seq::new(
        count,
        |i: int|
            if i < named.len() {
                named[i]
            } else {
                Binary32 { bits: 0x3f80_0000 }
            },
    )
}

/// Where a mix starts.
pub open spec fn mix_start(pairs: Seq<(Seq<char>, Seq<char>)>) -> Binary64 {
    clock::from_start(
        match query_value(pairs, "start"@) {
            Some(value) => match number::parsed(value) {
                Some(start) => start,
                None => number::zero(),
            },
            None => number::zero(),
        },
    )
}

/// The filters that set the levels of the first `n` streams.
pub open spec fn level_filters(streams: Seq<u32>, levels: Seq<Binary32>, n: nat) -> Seq<Seq<char>>
    decreases n,
{
    if n == 0 {
        Seq::empty()
    } else {
        level_filters(streams, levels, (n - 1) as nat).push(
            "[0:"@ + decimal_of(streams[n - 1]) + "]volume="@ + levels[n - 1].fixed() + "[a"@
                + digits::decimal((n - 1) as nat) + "]"@,
        )
    }
}

/// The filter graph of a mix.
pub open spec fn mix_graph(streams: Seq<u32>, levels: Seq<Binary32>) -> Seq<char> {
    text::joined(
        level_filters(streams, levels, streams.len()).push(mixer(streams.len(), "mix"@)),
        ";"@,
    )
}

/// The arguments with which a mix is made.
pub open spec fn mix_arguments(video: Seq<char>, pairs: Seq<(Seq<char>, Seq<char>)>) -> Seq<
    Seq<char>,
> {
    let streams = streams_of(pairs);
    seq![
        "-hide_banner"@,
        "-loglevel"@,
        "error"@,
        "-ss"@,
        mix_start(pairs).fixed(),
        "-i"@,
        video,
        "-filter_complex"@,
        mix_graph(streams, levels_of(pairs, streams.len())),
        "-map"@,
        "[mix]"@,
        "-vn"@,
        "-c:a"@,
        "aac"@,
        "-b:a"@,
        "192k"@,
        "-f"@,
        "adts"@,
        "-flush_packets"@,
        "1"@,
        "pipe:1"@,
    ]
}

fn read_streams(pairs: &Vec<(String, String)>) -> (r: Vec<u32>)
    ensures
        r@ == streams_of(address::pairs_of(pairs@)),
{
    let mut out: Vec<u32> = Vec::new();
    match query_text(pairs, "tracks") {
        Some(value) => {
            proof {
                reveal_strlit(",");
            }
            let parts = text::split(value.as_str(), ",");
            let ghost views = text::views(parts@);
            let mut i: usize = 0;
            while i < parts.len()
                invariant
                    i <= parts@.len(),
                    views == text::views(parts@),
                    out@ == listed_streams(views, i as nat),
                decreases parts@.len() - i,
            {
                assert(views[i as int] == parts@[i as int]@);
                match digits::parse_u32(parts[i].as_str()) {
                    Some(index) => {
                        if out.len() < STREAM_LIMIT {
                            out.push(index);
                        }
                    },
                    None => {},
                }
                i += 1;
            }
        },
        None => {},
    }
    out
}

fn read_level(value: Binary32) -> (r: Binary32)
    ensures
        r == level(value),
{
    proof {
        number::lemma_steps_grow(number::single(), 0, 0x4000_0000);
    }
    value.clamp(Binary32 { bits: 0 }, Binary32 { bits: 0x4000_0000 })
}

fn read_levels(pairs: &Vec<(String, String)>, count: usize) -> (r: Vec<Binary32>)
    ensures
        r@ == levels_of(address::pairs_of(pairs@), count as nat),
{
    let mut out: Vec<Binary32> = Vec::new();
    match query_text(pairs, "volumes") {
        Some(value) => {
            proof {
                reveal_strlit(",");
            }
            let parts = text::split(value.as_str(), ",");
            let ghost views = text::views(parts@);
            let mut i: usize = 0;
            while i < parts.len()
                invariant
                    i <= parts@.len(),
                    views == text::views(parts@),
                    out@.len() <= count,
                    out@ == listed_levels(views, count as nat, i as nat),
                decreases parts@.len() - i,
            {
                assert(views[i as int] == parts@[i as int]@);
                match single::parse(parts[i].as_str()) {
                    Some(value) => {
                        if out.len() < count {
                            out.push(read_level(value));
                        }
                    },
                    None => {},
                }
                i += 1;
            }
        },
        None => {},
    }
    let ghost named = out@;
    while out.len() < count
        invariant
            named.len() <= out@.len() <= count,
            forall|k: int|
                0 <= k < out@.len() ==> #[trigger] out@[k] == if k < named.len() {
                    named[k]
                } else {
                    Binary32 { bits: 0x3f80_0000 }
                },
        decreases count - out@.len(),
    {
        out.push(Binary32 { bits: 0x3f80_0000 });
    }
    assert(out@ =~= levels_of(address::pairs_of(pairs@), count as nat));
    out
}

fn read_start(pairs: &Vec<(String, String)>) -> (r: Binary64)
    ensures
        r == mix_start(address::pairs_of(pairs@)),
{
    let start: Binary64 = match query_text(pairs, "start") {
        Some(value) => match number::parse(value.as_str()) {
            Some(start) => start,
            None => Binary64 { bits: 0 },
        },
        None => Binary64 { bits: 0 },
    };
    clock::at_start_or_later(start)
}

fn write_graph(streams: &Vec<u32>, levels: &Vec<Binary32>) -> (r: String)
    requires
        streams@.len() == levels@.len(),
    ensures
        r@ == mix_graph(streams@, levels@),
{
    let mut filters: Vec<String> = Vec::new();
    let mut i: usize = 0;
    assert(text::views(filters@) == level_filters(streams@, levels@, 0));
    while i < streams.len()
        invariant
            i <= streams@.len(),
            streams@.len() == levels@.len(),
            text::views(filters@) == level_filters(streams@, levels@, i as nat),
        decreases streams@.len() - i,
    {
        let mut filter: String = "[0:".to_owned();
        filter.append(digits::decimal_text(streams[i] as u64).as_str());
        filter.append("]volume=");
        filter.append(levels[i].fixed_text().as_str());
        filter.append("[a");
        filter.append(digits::decimal_text(i as u64).as_str());
        filter.append("]");
        markdown::push_line(&mut filters, filter.as_str());
        i += 1;
    }
    let last = write_mixer(streams.len(), "mix");
    markdown::push_line(&mut filters, last.as_str());
    text::join(&filters, ";")
}

/// The reply to a request for a mix.
pub enum MixReply {
    /// A status and nothing else.
    Status(u16),
    /// The headers of the reply and no body.
    Head,
    /// The status 503, with the words that FFmpeg is missing.
    NoFfmpeg,
    /// What FFmpeg makes of the arguments, with the status 200.
    Stream(Vec<String>),
}

/// The content of a reply to a request for a mix.
pub enum MixAnswer {
    Status(int),
    Head,
    NoFfmpeg,
    Stream(Seq<Seq<char>>),
}

impl View for MixReply {
    type V = MixAnswer;

    open spec fn view(&self) -> MixAnswer {
        match *self {
            MixReply::Status(status) => MixAnswer::Status(status as int),
            MixReply::Head => MixAnswer::Head,
            MixReply::NoFfmpeg => MixAnswer::NoFfmpeg,
            MixReply::Stream(args) => MixAnswer::Stream(text::views(args@)),
        }
    }
}

/// The reply to a request for a mix, given what was read from its address.
pub open spec fn mix_answer(
    method: Method,
    read: Option<address::Parts>,
    video: Seq<char>,
    has_ffmpeg: bool,
) -> MixAnswer {
    if method != Method::Get && method != Method::Head {
        MixAnswer::Status(405)
    } else {
        match read {
            None => MixAnswer::Status(400),
            Some(parts) => if streams_of(parts.pairs).len() == 0 {
                MixAnswer::Status(400)
            } else if method == Method::Head {
                MixAnswer::Head
            } else if !has_ffmpeg {
                MixAnswer::NoFfmpeg
            } else {
                MixAnswer::Stream(mix_arguments(video, parts.pairs))
            },
        }
    }
}

/// Decides the reply to a request for a mix, given what was read from its
/// address.
pub fn plan_mix(method: Method, read: Option<Address>, video: &str, has_ffmpeg: bool) -> (r:
    MixReply)
    ensures
        r@ == mix_answer(method, address::found(read), video@, has_ffmpeg),
{
    if method != Method::Get && method != Method::Head {
        return MixReply::Status(405);
    }
    let pairs: Vec<(String, String)> = match read {
        Some(address) => address.pairs,
        None => {
            return MixReply::Status(400);
        },
    };
    let streams = read_streams(&pairs);
    if streams.len() == 0 {
        return MixReply::Status(400);
    }
    if method == Method::Head {
        return MixReply::Head;
    }
    if !has_ffmpeg {
        return MixReply::NoFfmpeg;
    }
    let levels = read_levels(&pairs, streams.len());
    let start = read_start(&pairs).fixed_text();
    let graph = write_graph(&streams, &levels);
    let mut args: Vec<String> = Vec::new();
    arguments::add_all(
        &mut args,
        &[
            "-hide_banner",
            "-loglevel",
            "error",
            "-ss",
            start.as_str(),
            "-i",
            video,
            "-filter_complex",
            graph.as_str(),
            "-map",
            "[mix]",
            "-vn",
            "-c:a",
            "aac",
            "-b:a",
            "192k",
            "-f",
            "adts",
            "-flush_packets",
            "1",
            "pipe:1",
        ],
    );
    assert(text::views(args@) == mix_arguments(video@, address::pairs_of(pairs@)));
    MixReply::Stream(args)
}

/// Decides the reply to a request for a mix of a file.
pub fn respond_audio_mix_for_path(method: Method, url: &str, video: &str, has_ffmpeg: bool) -> (r:
    MixReply)
    ensures
        r@ == mix_answer(
            method,
            address::url_of(media::local_address(url@)),
            video@,
            has_ffmpeg,
        ),
{
    plan_mix(method, media::read_request_address(url), video, has_ffmpeg)
}

/// The headers of a mix.
pub open spec fn mix_fields() -> Seq<(Seq<char>, Seq<char>)> {
    seq![
        ("Content-Type"@, "audio/aac"@),
        ("Cache-Control"@, "no-store"@),
        ("Access-Control-Allow-Origin"@, "*"@),
    ]
}

/// Writes the headers of a mix.
pub fn mix_headers() -> (r: Vec<(String, String)>)
    ensures
        address::pairs_of(r@) == mix_fields(),
{
    let mut fields: Vec<(String, String)> = Vec::new();
    media::add_header(&mut fields, "Content-Type", "audio/aac");
    media::add_header(&mut fields, "Cache-Control", "no-store");
    media::add_header(&mut fields, "Access-Control-Allow-Origin", "*");
    fields
}

/// A level lies between silence and twice its own, whatever is asked for, but
/// where what is asked for is not a number.
pub proof fn law_levels_are_held(value: Binary32)
    requires
        !value.is_nan(),
    ensures
        !level(value).lt(Binary32 { bits: 0 }),
        !(Binary32 { bits: 0x4000_0000 }).lt(level(value)),
{
    let silence = Binary32 { bits: 0 };
    let double = Binary32 { bits: 0x4000_0000 };
    number::lemma_steps_grow(number::single(), silence.magnitude(), double.magnitude());
}

} // verus!
