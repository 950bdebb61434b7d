//! The protocol between the computer that hosts a session and its guests, on
//! the side of the host.

use vstd::prelude::*;

use crate::address;
use crate::address::Address;
use crate::digits;
use crate::ids;
use crate::json;
use crate::json::Fields;
use crate::json::Json;
use crate::json::Tree;
use crate::markdown;
use crate::media;
use crate::media::AudioTrackInfo;
use crate::media::Method;
use crate::mix;
use crate::number::Binary64;
use crate::paths::FilePath;
use crate::probe;
use crate::session;
use crate::session::CollaborationTransport;
use crate::session::HostedSessionRuntime;
use crate::session::Peer;
use crate::session::Shared;
use crate::text;

verus! {

pub const COLLABORATION_SERVICE_TYPE: &'static str = "_framenote._tcp.local.";

// ---------------------------------------------------------------------------
// The session
// ---------------------------------------------------------------------------

/// What does not change in a session.
pub struct HostedSession {
    pub code: String,
    pub token: String,
    pub service_fullname: String,
    pub video_path: FilePath,
    pub sidecar_path: String,
    pub video_name: String,
    pub audio_tracks: Vec<AudioTrackInfo>,
    pub frame_rate: Option<Binary64>,
    pub host_name: String,
}

/// Why a session is not hosted, where it is not.
pub open spec fn host_refusal(joined: bool, hosted: bool) -> Option<Seq<char>> {
    if joined {
        Some("Leave the current shared session before hosting another one."@)
    } else if hosted {
        Some("This project is already being shared."@)
    } else {
        None
    }
}

/// Checks whether a session can be hosted.
pub fn check_host(joined: bool, hosted: bool) -> (r: Result<(), String>)
    ensures
        match r {
            Ok(_) => host_refusal(joined, hosted) is None,
            Err(message) => host_refusal(joined, hosted) == Some(message@),
        },
{
    if joined {
        return Err("Leave the current shared session before hosting another one.".to_owned());
    }
    if hosted {
        return Err("This project is already being shared.".to_owned());
    }
    Ok(())
}

/// How a session is announced on the local network.
pub struct Announcement {
    pub instance_name: String,
    pub host_name: String,
    /// The properties `code` and `version`.
    pub code: String,
    pub version: String,
}

/// Writes how a session is announced on the local network.
pub fn announce(code: &str, token: &str) -> (r: Announcement)
    requires
        ids::is_uuid(token@),
    ensures
        r.instance_name@ == "FrameNote "@ + code@ + " "@ + token@.take(6),
        r.host_name@ == "framenote-"@ + token@.take(8) + ".local."@,
        r.code@ == code@,
        r.version@ == "1"@,
{
    let mut instance_name: String = "FrameNote ".to_owned();
    instance_name.append(code);
    instance_name.append(" ");
    let short = text::part(token, 0, 6);
    assert(short@ =~= token@.take(6));
    instance_name.append(short.as_str());
    let mut host_name: String = "framenote-".to_owned();
    let long = text::part(token, 0, 8);
    assert(long@ =~= token@.take(8));
    host_name.append(long.as_str());
    host_name.append(".local.");
    Announcement { instance_name, host_name, code: code.to_owned(), version: "1".to_owned() }
}

/// The code and the token of a session.
pub struct SessionKeys {
    pub code: String,
    pub token: String,
}

/// Draws the code and the token of a new session.
pub fn draw_session_keys() -> (r: SessionKeys)
    ensures
        ids::is_code(r.code@),
        ids::is_uuid(r.token@),
{
    SessionKeys { code: ids::six_digit_session_code(), token: ids::new_uuid() }
}

/// Makes a session of a video and its sidecar.
pub fn host_collaboration(
    video: FilePath,
    sidecar: &str,
    markdown: &str,
    display_name: &str,
    audio_tracks: Vec<AudioTrackInfo>,
    frame_rate: Option<Binary64>,
    code: &str,
    token: &str,
    service_fullname: &str,
) -> (r: (HostedSession, HostedSessionRuntime))
    ensures
        r.0.code@ == code@,
        r.0.token@ == token@,
        r.0.service_fullname@ == service_fullname@,
        r.0.video_path == video,
        r.0.sidecar_path@ == sidecar@,
        r.0.video_name@ == video.name_or("Shared video"@),
        r.0.audio_tracks == audio_tracks,
        r.0.frame_rate == frame_rate,
        r.0.host_name@ == markdown::metadata(display_name@, "Host"@),
        r.1.wf(),
        r.1@ == opened(markdown@),
{
    let runtime = HostedSessionRuntime::new(markdown);
    let hosted = HostedSession {
        code: code.to_owned(),
        token: token.to_owned(),
        service_fullname: service_fullname.to_owned(),
        video_name: video.name_text("Shared video"),
        video_path: video,
        sidecar_path: sidecar.to_owned(),
        audio_tracks,
        frame_rate,
        host_name: markdown::sanitize_metadata(display_name, "Host"),
    };
    (hosted, runtime)
}

/// The state at the start of a session: nothing has happened, nobody takes
/// part, and the playback stands where the sidecar says.
pub open spec fn opened(markdown: Seq<char>) -> Shared {
    Shared {
        sequence: 0,
        revision: 0,
        markdown,
        transport: CollaborationTransport {
            position: markdown::position_of(markdown),
            playing: false,
            playback_rate: crate::number::natural(1),
        },
        events: Seq::empty(),
        peers: Map::empty(),
    }
}

/// What is told of a session.
pub struct CollaborationSessionInfo {
    pub mode: String,
    pub code: String,
    pub participant_count: usize,
    pub video_name: String,
    pub display_name: String,
    pub client_id: String,
    pub participants: Vec<String>,
}

/// Tells the host of its session.
pub fn hosted_session_info(
    client_id: &str,
    hosted: &HostedSession,
    runtime: &mut HostedSessionRuntime,
    now: u64,
) -> (r: CollaborationSessionInfo)
    requires
        old(runtime).wf(),
    ensures
        final(runtime).wf(),
        final(runtime)@ == (Shared {
            peers: session::present(old(runtime)@.peers, now as nat),
            ..old(runtime)@
        }),
        r.mode@ == "host"@,
        r.code@ == hosted.code@,
        r.video_name@ == hosted.video_name@,
        r.display_name@ == hosted.host_name@,
        r.client_id@ == client_id@,
        final(runtime)@.peers.dom().finite(),
        r.participant_count == 1 + final(runtime)@.peers.dom().len(),
        session::is_roster(
            text::views(r.participants@),
            hosted.host_name@,
            final(runtime)@.peers,
        ),
{
    let participant_count: usize = session::participant_count(runtime, now);
    let ghost once = runtime@.peers;
    let participants = session::participant_names(runtime, hosted.host_name.as_str(), now);
    assert(runtime@.peers =~= once);
    CollaborationSessionInfo {
        mode: "host".to_owned(),
        code: hosted.code.clone(),
        participant_count,
        video_name: hosted.video_name.clone(),
        display_name: hosted.host_name.clone(),
        client_id: client_id.to_owned(),
        participants,
    }
}

// ---------------------------------------------------------------------------
// Requests of guests
// ---------------------------------------------------------------------------

/// What a guest asks for.
pub enum PeerRoute {
    /// Nothing that is given; a status answers it.
    Status(u16),
    Join,
    Media,
    Mix,
    /// What happened after a number.
    Events { after: u64, peer_id: Option<String> },
    Event,
    Leave,
}

/// The content of what a guest asks for.
pub enum Asked {
    Status(int),
    Join,
    Media,
    Mix,
    Events { after: nat, peer: Option<Seq<char>> },
    Event,
    Leave,
}

impl View for PeerRoute {
    type V = Asked;

    open spec fn view(&self) -> Asked {
        match *self {
            PeerRoute::Status(status) => Asked::Status(status as int),
            PeerRoute::Join => Asked::Join,
            PeerRoute::Media => Asked::Media,
            PeerRoute::Mix => Asked::Mix,
            PeerRoute::Events { after, peer_id } => Asked::Events {
                after: after as nat,
                peer: text::opt(peer_id),
            },
            PeerRoute::Event => Asked::Event,
            PeerRoute::Leave => Asked::Leave,
        }
    }
}

/// The number after which a guest asks for events; zero where it gives none.
pub open spec fn asked_after(pairs: Seq<(Seq<char>, Seq<char>)>) -> nat {
    match mix::query_value(pairs, "after"@) {
        Some(value) => match digits::unsigned(value, u64::MAX as nat) {
            Some(after) => after,
            None => 0,
        },
        None => 0,
    }
}

/// What a guest asks of a session that it knows.
pub open spec fn asked_of_session(
    method: Method,
    what: Seq<char>,
    pairs: Seq<(Seq<char>, Seq<char>)>,
) -> Asked {
    if what == "media"@ {
        Asked::Media
    } else if what == "mix"@ {
        Asked::Mix
    } else if what == "events"@ && method == Method::Get {
        Asked::Events { after: asked_after(pairs), peer: mix::query_value(pairs, "peerId"@) }
    } else if what == "event"@ && method == Method::Post {
        Asked::Event
    } else if what == "leave"@ && method == Method::Post {
        Asked::Leave
    } else {
        Asked::Status(404)
    }
}

/// `s` without slashes at either end.
pub open spec fn unslashed(s: Seq<char>) -> Seq<char> {
    text::drop_trailing(text::drop_leading(s, text::among("/"@)), text::among("/"@))
}

/// What a guest asks for, given what was read from its address. `token` is
/// that of the session, where one is hosted.
pub open spec fn asked(
    method: Method,
    read: Option<address::Parts>,
    token: Option<Seq<char>>,
) -> Asked {
    match read {
        None => Asked::Status(400),
        Some(parts) => if parts.path == "/join"@ {
            if method == Method::Post {
                Asked::Join
            } else {
                Asked::Status(405)
            }
        } else {
            let segments = text::pieces(unslashed(parts.path), "/"@);
            if segments.len() != 3 || segments[0] != "session"@ || token != Some(segments[1]) {
                Asked::Status(404)
            } else {
                asked_of_session(method, segments[2], parts.pairs)
            }
        },
    }
}

fn read_after(pairs: &Vec<(String, String)>) -> (r: u64)
    ensures
        r == asked_after(address::pairs_of(pairs@)),
{
    match mix::query_text(pairs, "after") {
        Some(value) => match digits::parse_u64(value.as_str()) {
            Some(after) => after,
            None => 0,
        },
        None => 0,
    }
}

fn route_in_session(method: Method, what: &str, pairs: &Vec<(String, String)>) -> (r: PeerRoute)
    ensures
        r@ == asked_of_session(method, what@, address::pairs_of(pairs@)),
{
    if text::same(what, "media") {
        PeerRoute::Media
    } else if text::same(what, "mix") {
        PeerRoute::Mix
    } else if text::same(what, "events") && method == Method::Get {
        PeerRoute::Events { after: read_after(pairs), peer_id: mix::query_text(pairs, "peerId") }
    } else if text::same(what, "event") && method == Method::Post {
        PeerRoute::Event
    } else if text::same(what, "leave") && method == Method::Post {
        PeerRoute::Leave
    } else {
        PeerRoute::Status(404)
    }
}

/// Whether a session has a token.
pub fn collaboration_session_for_token(hosted: Option<&str>, token: &str) -> (r: bool)
    ensures
        r == (text::opt_str(hosted) == Some(token@)),
{
    match hosted {
        Some(own) => text::same(own, token),
        None => false,
    }
}

/// Decides what a guest asks for, given what was read from its address.
pub fn route_peer_request(method: Method, read: Option<&Address>, token: Option<&str>) -> (r:
    PeerRoute)
    ensures
        r@ == asked(
            method,
            match read {
                Some(address) => Some(address@),
                None => None,
            },
            text::opt_str(token),
        ),
{
    let address = match read {
        Some(address) => address,
        None => {
            return PeerRoute::Status(400);
        },
    };
    if text::same(address.path.as_str(), "/join") {
        return if method == Method::Post {
            PeerRoute::Join
        } else {
            PeerRoute::Status(405)
        };
    }
    proof {
        reveal_strlit("/");
    }
    let plain = text::trim_end_matches(
        text::trim_start_matches(address.path.as_str(), "/").as_str(),
        "/",
    );
    let segments = text::split(plain.as_str(), "/");
    let ghost views = text::views(segments@);
    assert(views.len() == segments@.len());
    if segments.len() != 3 {
        return PeerRoute::Status(404);
    }
    assert(views[0] == segments@[0]@ && views[1] == segments@[1]@ && views[2] == segments@[2]@);
    if !text::same(segments[0].as_str(), "session") || !collaboration_session_for_token(
        token,
        segments[1].as_str(),
    ) {
        return PeerRoute::Status(404);
    }
    route_in_session(method, segments[2].as_str(), &address.pairs)
}

/// Decides what a guest asks for.
pub fn respond_collaboration_request(method: Method, url: &str, token: Option<&str>) -> (r:
    PeerRoute)
    ensures
        r@ == asked(
            method,
            address::url_of(media::local_address(url@)),
            text::opt_str(token),
        ),
{
    let read = media::read_request_address(url);
    match &read {
        Some(address) => route_peer_request(method, Some(address), token),
        None => route_peer_request(method, None, token),
    }
}

/// A request to join.
pub struct NetworkJoinRequest {
    pub code: String,
    pub peer_id: String,
    pub display_name: String,
}

/// What a guest learns when it joins.
pub struct NetworkJoinResponse {
    pub token: String,
    pub video_name: String,
    pub markdown: String,
    pub playback_position: Binary64,
    pub audio_tracks: Vec<AudioTrackInfo>,
    pub frame_rate: Option<Binary64>,
    pub transport: CollaborationTransport,
    pub sequence: u64,
    pub host_name: String,
}

impl NetworkJoinResponse {
    /// Whether a guest learns of a session in a state.
    pub open spec fn introduces(&self, hosted: HostedSession, shared: Shared) -> bool {
        &&& self.token@ == hosted.token@
        &&& self.video_name@ == hosted.video_name@
        &&& self.markdown@ == shared.markdown
        &&& self.playback_position == shared.transport.position
        &&& probe::tracks_of(self.audio_tracks@) == probe::tracks_of(hosted.audio_tracks@)
        &&& self.frame_rate == hosted.frame_rate
        &&& self.transport == shared.transport
        &&& self.sequence == shared.sequence
        &&& self.host_name@ == hosted.host_name@
    }
}

fn copy_text(s: &Option<String>) -> (r: Option<String>)
    ensures
        text::opt(r) == text::opt(*s),
{
    match s {
        Some(s) => Some(s.clone()),
        None => None,
    }
}

pub(crate) fn copy_tracks(tracks: &Vec<AudioTrackInfo>) -> (r: Vec<AudioTrackInfo>)
    ensures
        probe::tracks_of(r@) == probe::tracks_of(tracks@),
{
    let ghost all = probe::tracks_of(tracks@);
    let mut out: Vec<AudioTrackInfo> = Vec::new();
    let mut i: usize = 0;
    assert(probe::tracks_of(out@) =~= all.take(0));
    while i < tracks.len()
        invariant
            i <= tracks@.len(),
            all == probe::tracks_of(tracks@),
            probe::tracks_of(out@) == all.take(i as int),
        decreases tracks@.len() - i,
    {
        assert(all[i as int] == tracks@[i as int]@);
        let track = AudioTrackInfo {
            stream_index: tracks[i].stream_index,
            label: tracks[i].label.clone(),
            language: copy_text(&tracks[i].language),
            codec: tracks[i].codec.clone(),
            channels: tracks[i].channels,
        };
        let ghost before = probe::tracks_of(out@);
        let ghost added = track@;
        out.push(track);
        assert(probe::tracks_of(out@) =~= before.push(added));
        i += 1;
        assert(probe::tracks_of(out@) =~= all.take(i as int));
    }
    assert(all.take(i as int) =~= all);
    out
}

/// How a refused request is answered.
pub struct Refusal {
    pub status: u16,
    pub body: Json,
}

/// The answer to a refused request.
pub open spec fn error_tree(message: Seq<char>) -> Tree {
    Tree::Object(seq![("error"@, Tree::Text(message))])
}

/// How a request to join is refused, where it is: with the status 400 where it
/// could not be read, with 403 where no session with its code is hosted.
pub open spec fn join_refusal(hosted: Option<Seq<char>>, read: Result<Seq<char>, Seq<char>>) -> Option<
    (int, Tree),
> {
    match read {
        Err(message) => Some((400, error_tree(message))),
        Ok(code) => if hosted == Some(code) {
            None
        } else {
            Some((403, error_tree("Session code not found."@)))
        },
    }
}

/// Judges a request to join, given the session that is hosted and what was
/// read from the request. One that is not refused is left to `join_peer`.
pub fn judge_join(hosted: Option<&HostedSession>, read: &Result<NetworkJoinRequest, String>) -> (r:
    Option<Refusal>)
    ensures
        ({
            let code = match hosted {
                Some(hosted) => Some(hosted.code@),
                None => None,
            };
            let asked = match *read {
                Ok(join) => Ok(join.code@),
                Err(message) => Err(message@),
            };
            match r {
                Some(refusal) => join_refusal(code, asked) == Some(
                    (refusal.status as int, refusal.body.tree()),
                ),
                None => join_refusal(code, asked) is None,
            }
        }),
{
    match read {
        Err(message) => Some(Refusal { status: 400, body: error_body(message.as_str()) }),
        Ok(join) => {
            let known: bool = match hosted {
                Some(hosted) => text::same(hosted.code.as_str(), join.code.as_str()),
                None => false,
            };
            if known {
                None
            } else {
                Some(Refusal { status: 403, body: error_body("Session code not found.") })
            }
        },
    }
}

/// Lets a guest join a session whose code it knows; `None` where the code is
/// another, which the status 403 answers.
pub fn join_peer(
    hosted: &HostedSession,
    runtime: &mut HostedSessionRuntime,
    join: &NetworkJoinRequest,
    now: u64,
) -> (r: Option<NetworkJoinResponse>)
    requires
        old(runtime).wf(),
    ensures
        final(runtime).wf(),
        match r {
            Some(response) => {
                &&& hosted.code@ == join.code@
                &&& final(runtime)@ == (Shared {
                    peers: old(runtime)@.peers.insert(
                        join.peer_id@,
                        Peer {
                            name: markdown::metadata(join.display_name@, "Guest"@),
                            last_seen: now as nat,
                        },
                    ),
                    ..old(runtime)@
                })
                &&& response.introduces(*hosted, final(runtime)@)
            },
            None => hosted.code@ != join.code@ && *final(runtime) == *old(runtime),
        },
{
    if !text::same(hosted.code.as_str(), join.code.as_str()) {
        return None;
    }
    session::admit_peer(runtime, join.peer_id.as_str(), join.display_name.as_str(), now);
    Some(
        NetworkJoinResponse {
            token: hosted.token.clone(),
            video_name: hosted.video_name.clone(),
            markdown: runtime.markdown.clone(),
            playback_position: runtime.transport.position,
            audio_tracks: copy_tracks(&hosted.audio_tracks),
            frame_rate: hosted.frame_rate,
            transport: runtime.transport,
            sequence: runtime.sequence,
            host_name: hosted.host_name.clone(),
        },
    )
}

/// Writes the answer to a refused request.
pub fn error_body(message: &str) -> (r: Json)
    ensures
        r.tree() == error_tree(message@),
{
    Fields::new().with("error", json::text_value(message)).object()
}

/// Writes the answer to a request that was carried out, by what came of it.
pub fn flag_body(name: &str) -> (r: Json)
    ensures
        r.tree() == Tree::Object(seq![(name@, Tree::Bool(true))]),
{
    Fields::new().with(name, Json::Bool(true)).object()
}

} // verus!
