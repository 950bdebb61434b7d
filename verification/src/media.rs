//! Serving a video to the player: byte ranges, proxies and the registry of
//! what may be played.

use vstd::prelude::*;

use crate::address;
use crate::address::Address;
use crate::digits;
use crate::ids;
use crate::number::Binary64;
use crate::paths;
use crate::paths::FilePath;
use crate::table::Table;
use crate::text;

verus! {

// ---------------------------------------------------------------------------
// Requests and replies
// ---------------------------------------------------------------------------

/// The method of a request.
#[derive(Clone, Copy, Debug, PartialEq, Eq, Structural)]
pub enum Method {
    Get,
    Head,
    Post,
    Other,
}

/// The value of the first header of a name from `from` on, whatever the case
/// of its letters.
pub open spec fn header_from(
    headers: Seq<(Seq<char>, Seq<char>)>,
    name: Seq<char>,
    from: int,
) -> Option<Seq<char>>
    decreases headers.len() - from,
{
    if from < 0 || from >= headers.len() {
        None
    } else if text::lower(headers[from].0) == text::lower(name) {
        Some(headers[from].1)
    } else {
        header_from(headers, name, from + 1)
    }
}

/// Reads a header.
pub fn header_value(headers: &Vec<(String, String)>, name: &str) -> (r: Option<String>)
    ensures
        text::opt(r) == header_from(address::pairs_of(headers@), name@, 0),
{
    let ghost all = address::pairs_of(headers@);
    let mut i: usize = 0;
    while i < headers.len()
        invariant
            i <= headers@.len(),
            all == address::pairs_of(headers@),
            header_from(all, name@, i as int) == header_from(all, name@, 0),
        decreases headers@.len() - i,
    {
        assert(all[i as int] == (headers@[i as int].0@, headers@[i as int].1@));
        if text::same_ignoring_case(headers[i].0.as_str(), name) {
            return Some(headers[i].1.clone());
        }
        i += 1;
    }
    None
}

/// Adds a header.
pub(crate) fn add_header(headers: &mut Vec<(String, String)>, name: &str, value: &str)
    ensures
        address::pairs_of(final(headers)@) == address::pairs_of(old(headers)@).push(
            (name@, value@),
        ),
{
    headers.push((name.to_owned(), value.to_owned()));
    assert(address::pairs_of(headers@) == address::pairs_of(old(headers)@).push((name@, value@)));
}

// ---------------------------------------------------------------------------
// Byte ranges
// ---------------------------------------------------------------------------

/// The lesser of two numbers.
pub open spec fn least(a: int, b: int) -> int {
    if a < b {
        a
    } else {
        b
    }
}

/// The last byte of `size` bytes.
pub open spec fn last_byte(size: nat) -> int {
    if size == 0 {
        0
    } else {
        size - 1
    }
}

/// The first and last byte that a part of a range names, of `size` bytes.
pub open spec fn range_part(part: Seq<char>, size: nat) -> Option<(int, int)> {
    match text::cut(part, "-"@) {
        None => None,
        Some((first, last)) => if first.len() == 0 {
            match digits::unsigned(last, u64::MAX as nat) {
                Some(count) => Some((size - least(count as int, size as int), last_byte(size))),
                None => None,
            }
        } else {
            match (
                digits::unsigned(first, u64::MAX as nat),
                if last.len() == 0 {
                    Some(last_byte(size) as nat)
                } else {
                    digits::unsigned(last, u64::MAX as nat)
                },
            ) {
                (Some(start), Some(end)) => {
                    let end = least(end as int, last_byte(size));
                    if start < size && start <= end {
                        Some((start as int, end))
                    } else {
                        None
                    }
                },
                _ => None,
            }
        },
    }
}

/// The first and last byte that a request asks for, of `size` bytes; of
/// several ranges the first one. An end before the start stands for no bytes.
pub open spec fn range_of(value: Option<Seq<char>>, size: nat) -> Option<(int, int)> {
    match value {
        None => None,
        Some(value) => match text::without_prefix(text::trimmed(value), "bytes="@) {
            None => None,
            Some(ranges) => range_part(text::pieces(ranges, ","@)[0], size),
        },
    }
}

fn read_range_part(part: &str, size: u64) -> (r: Option<(u64, u64)>)
    ensures
        match r {
            Some((start, end)) => range_part(part@, size as nat) == Some((start as int, end as int))
                && (size > 0 ==> end < size && start <= end + 1),
            None => range_part(part@, size as nat) is None,
        },
{
    let last_of_all: u64 = if size == 0 {
        0
    } else {
        size - 1
    };
    match text::split_once(part, "-") {
        None => None,
        Some((first, last)) => {
            if first.as_str().is_empty() {
                match digits::parse_u64(last.as_str()) {
                    Some(count) => {
                        let suffix: u64 = if count < size {
                            count
                        } else {
                            size
                        };
                        Some((size - suffix, last_of_all))
                    },
                    None => None,
                }
            } else {
                let start: u64 = match digits::parse_u64(first.as_str()) {
                    Some(n) => n,
                    None => {
                        return None;
                    },
                };
                let end: u64 = if last.as_str().is_empty() {
                    last_of_all
                } else {
                    match digits::parse_u64(last.as_str()) {
                        Some(n) => if n < last_of_all {
                            n
                        } else {
                            last_of_all
                        },
                        None => {
                            return None;
                        },
                    }
                };
                if start < size && start <= end {
                    Some((start, end))
                } else {
                    None
                }
            }
        },
    }
}

/// Reads the range that a request asks for, given its header.
pub fn requested_range(value: Option<&str>, size: u64) -> (r: Option<(u64, u64)>)
    ensures
        match r {
            Some((start, end)) => range_of(text::opt_str(value), size as nat) == Some(
                (start as int, end as int),
            ) && (size > 0 ==> end < size && start <= end + 1),
            None => range_of(text::opt_str(value), size as nat) is None,
        },
{
    match value {
        None => None,
        Some(value) => match text::strip_prefix(text::trim(value).as_str(), "bytes=") {
            None => None,
            Some(ranges) => {
                proof {
                    reveal_strlit(",");
                }
                let parts = text::split(ranges.as_str(), ",");
                assert(text::views(parts@)[0] == parts@[0]@);
                read_range_part(parts[0].as_str(), size)
            },
        },
    }
}

proof fn lemma_range_part(part: Seq<char>, size: nat)
    requires
        size > 0,
    ensures
        range_part(part, size) matches Some((start, end)) ==> 0 <= start <= end + 1 && end < size,
{
}

/// Every range lies within the file.
pub proof fn law_range_lies_within(value: Option<Seq<char>>, size: nat)
    requires
        size > 0,
    ensures
        range_of(value, size) matches Some((start, end)) ==> 0 <= start <= end + 1 && end < size,
{
    if let Some(value) = value {
        if let Some(ranges) = text::without_prefix(text::trimmed(value), "bytes="@) {
            lemma_range_part(text::pieces(ranges, ","@)[0], size);
        }
    }
}

// ---------------------------------------------------------------------------
// Local files
// ---------------------------------------------------------------------------

/// What is known of a file.
#[derive(Clone, Copy, Debug, PartialEq, Eq, Structural)]
pub enum FileState {
    Missing,
    Unreadable,
    Size(u64),
}

/// The reply to a request for a file.
pub enum MediaReply {
    /// A status and nothing else.
    Status(u16),
    /// The headers of the reply; its body, of a length, is not sent.
    Head { status: u16, headers: Vec<(String, String)>, length: u64 },
    /// A part of the file.
    Part { status: u16, headers: Vec<(String, String)>, first: u64, length: u64 },
}

/// The content of a reply to a request for a file.
pub enum Answer {
    Status(int),
    Head { status: int, headers: Seq<(Seq<char>, Seq<char>)>, length: int },
    Part { status: int, headers: Seq<(Seq<char>, Seq<char>)>, first: int, length: int },
}

impl View for MediaReply {
    type V = Answer;

    open spec fn view(&self) -> Answer {
        match *self {
            MediaReply::Status(status) => Answer::Status(status as int),
            MediaReply::Head { status, headers, length } => Answer::Head {
                status: status as int,
                headers: address::pairs_of(headers@),
                length: length as int,
            },
            MediaReply::Part { status, headers, first, length } => Answer::Part {
                status: status as int,
                headers: address::pairs_of(headers@),
                first: first as int,
                length: length as int,
            },
        }
    }
}

/// The headers of a reply that sends a file, or a part of it.
pub open spec fn media_headers(kind: Seq<char>, part: Option<(int, int)>, size: nat) -> Seq<
    (Seq<char>, Seq<char>),
> {
    let plain = seq![
        ("Accept-Ranges"@, "bytes"@),
        ("Content-Type"@, paths::media_type(kind)),
        ("Cache-Control"@, "no-store"@),
        ("Access-Control-Allow-Origin"@, "*"@),
    ];
    match part {
        Some((start, end)) => plain.push(
            (
                "Content-Range"@,
                "bytes "@ + digits::decimal(start as nat) + "-"@ + digits::decimal(end as nat)
                    + "/"@ + digits::decimal(size),
            ),
        ),
        None => plain,
    }
}

/// The reply to a request for a file.
pub open spec fn local_answer(
    method: Method,
    range: Option<Seq<char>>,
    file: FileState,
    kind: Seq<char>,
) -> Answer {
    if method != Method::Get && method != Method::Head {
        Answer::Status(405)
    } else {
        match file {
            FileState::Missing => Answer::Status(404),
            FileState::Unreadable => Answer::Status(500),
            FileState::Size(size) => if size == 0 {
                Answer::Status(416)
            } else {
                let part = range_of(range, size as nat);
                let (start, end, status) = match part {
                    Some((start, end)) => (start, end, 206int),
                    None => (0int, size - 1, 200int),
                };
                let headers = media_headers(kind, part, size as nat);
                if method == Method::Head {
                    Answer::Head { status, headers, length: end + 1 - start }
                } else {
                    Answer::Part { status, headers, first: start, length: end + 1 - start }
                }
            },
        }
    }
}

/// Decides the reply to a request for a file.
pub fn respond_local_media(
    method: Method,
    headers: &Vec<(String, String)>,
    file: FileState,
    path: &FilePath,
) -> (r: MediaReply)
    ensures
        r@ == local_answer(
            method,
            header_from(address::pairs_of(headers@), "Range"@, 0),
            file,
            path.kind(),
        ),
{
    if method != Method::Get && method != Method::Head {
        return MediaReply::Status(405);
    }
    let size: u64 = match file {
        FileState::Missing => {
            return MediaReply::Status(404);
        },
        FileState::Unreadable => {
            return MediaReply::Status(500);
        },
        FileState::Size(size) => size,
    };
    if size == 0 {
        return MediaReply::Status(416);
    }
    let value = header_value(headers, "Range");
    let range: Option<&str> = match &value {
        Some(s) => Some(s.as_str()),
        None => None,
    };
    let part: Option<(u64, u64)> = requested_range(range, size);
    let (start, end, status): (u64, u64, u16) = match part {
        Some((start, end)) => (start, end, 206),
        None => (0, size - 1, 200),
    };
    let length: u64 = (end + 1) - start;
    let mut fields: Vec<(String, String)> = Vec::new();
    add_header(&mut fields, "Accept-Ranges", "bytes");
    add_header(&mut fields, "Content-Type", paths::media_content_type(path));
    add_header(&mut fields, "Cache-Control", "no-store");
    add_header(&mut fields, "Access-Control-Allow-Origin", "*");
    if status == 206 {
        let mut span: String = "bytes ".to_owned();
        span.append(digits::decimal_text(start).as_str());
        span.append("-");
        span.append(digits::decimal_text(end).as_str());
        span.append("/");
        span.append(digits::decimal_text(size).as_str());
        add_header(&mut fields, "Content-Range", span.as_str());
    }
    proof {
        let p = range_of(header_from(address::pairs_of(headers@), "Range"@, 0), size as nat);
        assert(address::pairs_of(fields@) == media_headers(path.kind(), p, size as nat));
    }
    if method == Method::Head {
        MediaReply::Head { status, headers: fields, length }
    } else {
        MediaReply::Part { status, headers: fields, first: start, length }
    }
}

// ---------------------------------------------------------------------------
// Files of a peer
// ---------------------------------------------------------------------------

/// The request that is made of a peer on behalf of the player.
pub struct ProxyCall {
    pub head: bool,
    pub range: Option<String>,
}

/// Decides the request to make of a peer; `None` where the method is refused
/// with the status 405.
pub fn respond_remote_proxy(method: Method, headers: &Vec<(String, String)>) -> (r: Option<
    ProxyCall,
>)
    ensures
        match r {
            Some(call) => (method == Method::Get || method == Method::Head) && call.head == (method
                == Method::Head) && text::opt(call.range) == header_from(
                address::pairs_of(headers@),
                "Range"@,
                0,
            ),
            None => method != Method::Get && method != Method::Head,
        },
{
    if method != Method::Get && method != Method::Head {
        return None;
    }
    Some(ProxyCall { head: method == Method::Head, range: header_value(headers, "Range") })
}

/// The headers of a reply that passes on what a peer sent.
pub open spec fn proxy_fields(
    content_type: Option<Seq<char>>,
    content_range: Option<Seq<char>>,
    fallback: Seq<char>,
) -> Seq<(Seq<char>, Seq<char>)> {
    let plain = seq![
        ("Accept-Ranges"@, "bytes"@),
        ("Cache-Control"@, "no-store"@),
        ("Access-Control-Allow-Origin"@, "*"@),
        (
            "Content-Type"@,
            match content_type {
                Some(kind) => kind,
                None => fallback,
            },
        ),
    ];
    match content_range {
        Some(range) => plain.push(("Content-Range"@, range)),
        None => plain,
    }
}

/// Writes the headers of a reply that passes on what a peer sent.
pub fn proxy_headers(
    content_type: Option<&str>,
    content_range: Option<&str>,
    fallback_content_type: &str,
) -> (r: Vec<(String, String)>)
    ensures
        address::pairs_of(r@) == proxy_fields(
            text::opt_str(content_type),
            text::opt_str(content_range),
            fallback_content_type@,
        ),
{
    let mut fields: Vec<(String, String)> = Vec::new();
    add_header(&mut fields, "Accept-Ranges", "bytes");
    add_header(&mut fields, "Cache-Control", "no-store");
    add_header(&mut fields, "Access-Control-Allow-Origin", "*");
    match content_type {
        Some(kind) => {
            add_header(&mut fields, "Content-Type", kind);
        },
        None => {
            add_header(&mut fields, "Content-Type", fallback_content_type);
        },
    }
    match content_range {
        Some(range) => {
            add_header(&mut fields, "Content-Range", range);
        },
        None => {},
    }
    fields
}

// ---------------------------------------------------------------------------
// The registry
// ---------------------------------------------------------------------------

/// Where something that may be played comes from.
pub enum MediaSource {
    Local(FilePath),
    Remote(RemoteMediaSource),
}

/// Something that a peer plays out.
pub struct RemoteMediaSource {
    pub media_url: String,
    pub mix_url: String,
    pub content_type: String,
}

/// The kinds of requests that the player makes.
#[derive(Clone, Copy, Debug, PartialEq, Eq, Structural)]
pub enum Route {
    Media,
    Mix,
    Unknown,
}

/// The kind of a request.
pub open spec fn route(url: Seq<char>) -> Route {
    if text::has_prefix(url, "/media/"@) {
        Route::Media
    } else if text::has_prefix(url, "/mix/"@) {
        Route::Mix
    } else {
        Route::Unknown
    }
}

/// Tells the kind of a request. One of an unknown kind is answered with the
/// status 404.
pub fn respond_request(url: &str) -> (r: Route)
    ensures
        r == route(url@),
{
    if text::starts_with(url, "/media/") {
        Route::Media
    } else if text::starts_with(url, "/mix/") {
        Route::Mix
    } else {
        Route::Unknown
    }
}

/// The token behind a prefix, empty where the prefix is missing.
pub open spec fn token_behind(path: Seq<char>, prefix: Seq<char>) -> Seq<char> {
    match text::without_prefix(path, prefix) {
        Some(token) => token,
        None => Seq::empty(),
    }
}

/// The token of a request for media.
pub open spec fn media_token(url: Seq<char>) -> Seq<char> {
    token_behind(text::pieces(url, "?"@)[0], "/media/"@)
}

fn token_after(path: &str, prefix: &str) -> (r: String)
    ensures
        r@ == token_behind(path@, prefix@),
{
    match text::strip_prefix(path, prefix) {
        Some(token) => token,
        None => String::new(),
    }
}

/// The source that a registry holds under a token.
pub open spec fn source(files: Table<MediaSource>, token: Seq<char>) -> Option<MediaSource> {
    if files.content().dom().contains(token) {
        Some(files.content()[token])
    } else {
        None
    }
}

/// Finds what a request for media asks for; `None` is answered with the
/// status 404.
pub fn respond_media<'a>(url: &str, files: &'a Table<MediaSource>) -> (r: Option<&'a MediaSource>)
    requires
        files.wf(),
    ensures
        match r {
            Some(found) => source(*files, media_token(url@)) == Some(*found),
            None => source(*files, media_token(url@)) is None,
        },
{
    proof {
        reveal_strlit("?");
    }
    let parts = text::split(url, "?");
    assert(text::views(parts@)[0] == parts@[0]@);
    let token = token_after(parts[0].as_str(), "/media/");
    files.get(token.as_str())
}

/// What is done with a request for a mix.
pub enum MixTarget<'a> {
    /// A status and nothing else.
    Status(u16),
    /// The mix of a file of this computer.
    Local(&'a FilePath),
    /// The mix that a peer makes, by its address.
    Remote(String),
}

/// The address of the mix that a peer makes.
pub open spec fn remote_mix(mix_url: Seq<char>, query: Option<Seq<char>>) -> Seq<char> {
    match query {
        Some(query) => mix_url + "?"@ + query,
        None => mix_url,
    }
}

/// Whether a target is that of a request, given what was read from its
/// address.
pub open spec fn aims_at(
    target: MixTarget,
    files: Table<MediaSource>,
    read: Option<address::Parts>,
) -> bool {
    match read {
        None => target matches MixTarget::Status(status) && status == 400,
        Some(parts) => match source(files, token_behind(parts.path, "/mix/"@)) {
            None => target matches MixTarget::Status(status) && status == 404,
            Some(MediaSource::Local(path)) => target matches MixTarget::Local(found) && *found
                == path,
            Some(MediaSource::Remote(remote)) => target matches MixTarget::Remote(full) && full@
                == remote_mix(remote.mix_url@, parts.query),
        },
    }
}

/// Decides what to do with a request for a mix, given what was read from its
/// address.
pub fn mix_target<'a>(read: Option<&Address>, files: &'a Table<MediaSource>) -> (r: MixTarget<'a>)
    requires
        files.wf(),
    ensures
        aims_at(
            r,
            *files,
            match read {
                Some(address) => Some(address@),
                None => None,
            },
        ),
{
    match read {
        None => MixTarget::Status(400),
        Some(address) => {
            let token = token_after(address.path.as_str(), "/mix/");
            match files.get(token.as_str()) {
                None => MixTarget::Status(404),
                Some(MediaSource::Local(path)) => MixTarget::Local(path),
                Some(MediaSource::Remote(remote)) => {
                    let mut full: String = remote.mix_url.clone();
                    match &address.query {
                        Some(query) => {
                            full.append("?");
                            full.append(query.as_str());
                        },
                        None => {},
                    }
                    MixTarget::Remote(full)
                },
            }
        },
    }
}

/// The address of a request to a server of this computer.
pub open spec fn local_address(url: Seq<char>) -> Seq<char> {
    "http://localhost"@ + url
}

/// Reads the address of a request to a server of this computer.
pub fn read_request_address(url: &str) -> (r: Option<Address>)
    ensures
        address::found(r) == address::url_of(local_address(url@)),
{
    let mut full: String = "http://localhost".to_owned();
    full.append(url);
    address::parse_url(full.as_str())
}

/// Decides what to do with a request for a mix.
pub fn respond_audio_mix<'a>(url: &str, files: &'a Table<MediaSource>) -> (r: MixTarget<'a>)
    requires
        files.wf(),
    ensures
        aims_at(r, *files, address::url_of(local_address(url@))),
{
    let read = read_request_address(url);
    match &read {
        Some(address) => mix_target(Some(address), files),
        None => mix_target(None, files),
    }
}

/// An audio stream of a video.
pub struct AudioTrackInfo {
    pub stream_index: u32,
    pub label: String,
    pub language: Option<String>,
    pub codec: String,
    pub channels: Option<u32>,
}

/// What the player is told of something that it may play.
pub struct MediaRegistration {
    pub url: String,
    pub mix_base_url: String,
    pub audio_tracks: Vec<AudioTrackInfo>,
    pub frame_rate: Option<Binary64>,
}

impl MediaRegistration {
    /// Whether the addresses are those of a token at a server.
    pub open spec fn names(&self, base_url: Seq<char>, token: Seq<char>) -> bool {
        &&& self.url@ == base_url + "/media/"@ + token
        &&& self.mix_base_url@ == base_url + "/mix/"@ + token
    }
}

/// Describes something that may be played under a token.
pub fn registration(
    base_url: &str,
    token: &str,
    audio_tracks: Vec<AudioTrackInfo>,
    frame_rate: Option<Binary64>,
) -> (r: MediaRegistration)
    ensures
        r.names(base_url@, token@),
        r.audio_tracks == audio_tracks,
        r.frame_rate == frame_rate,
{
    let mut url: String = base_url.to_owned();
    url.append("/media/");
    url.append(token);
    let mut mix_base_url: String = base_url.to_owned();
    mix_base_url.append("/mix/");
    mix_base_url.append(token);
    MediaRegistration { url, mix_base_url, audio_tracks, frame_rate }
}

/// Registers a source under a new token.
pub fn register(files: &mut Table<MediaSource>, source: MediaSource) -> (token: String)
    requires
        old(files).wf(),
    ensures
        ids::is_uuid(token@),
        final(files).wf(),
        final(files).content() == old(files).content().insert(token@, source),
{
    let token = ids::new_uuid();
    files.insert(token.as_str(), source);
    token
}

/// Registers a video of this computer, where it is one, under a new token.
pub fn register_media_source(
    files: &mut Table<MediaSource>,
    base_url: &str,
    video: FilePath,
    video_exists: bool,
    audio_tracks: Vec<AudioTrackInfo>,
    frame_rate: Option<Binary64>,
) -> (r: Result<MediaRegistration, String>)
    requires
        old(files).wf(),
    ensures
        final(files).wf(),
        match r {
            Ok(registered) => {
                &&& video_exists
                &&& paths::is_video_kind(video.kind())
                &&& registered.audio_tracks == audio_tracks
                &&& registered.frame_rate == frame_rate
                &&& exists|token: Seq<char>|
                    ids::is_uuid(token) && #[trigger] registered.names(base_url@, token)
                        && final(files).content() == old(files).content().insert(
                        token,
                        MediaSource::Local(video),
                    )
            },
            Err(message) => {
                &&& *final(files) == *old(files)
                &&& if !video_exists {
                    message@ == "The selected video no longer exists."@
                } else {
                    !paths::is_video_kind(video.kind()) && message@
                        == "Choose a supported local video file."@
                }
            },
        },
{
    let video = match paths::validate_video_path(video, video_exists) {
        Ok(video) => video,
        Err(message) => {
            return Err(message);
        },
    };
    match paths::sidecar_path(&video) {
        Ok(_) => {},
        Err(message) => {
            return Err(message);
        },
    }
    let token = register(files, MediaSource::Local(video));
    Ok(registration(base_url, token.as_str(), audio_tracks, frame_rate))
}

} // verus!
