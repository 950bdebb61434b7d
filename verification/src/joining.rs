//! A shared session on the computer of a guest.

use vstd::prelude::*;

use crate::digits;
use crate::export;
use crate::fingerprint;
use crate::ids;
use crate::json;
use crate::json::Fields;
use crate::json::Json;
use crate::json::Tree;
use crate::markdown;
use crate::media;
use crate::media::MediaRegistration;
use crate::media::RemoteMediaSource;
use crate::paths;
use crate::paths::FilePath;
use crate::protocol::CollaborationSessionInfo;
use crate::protocol::NetworkJoinResponse;
use crate::session;
use crate::session::CollaborationEvent;
use crate::session::CollaborationTransport;
use crate::session::Event;
use crate::sidecar::SidecarDocument;
use crate::text;

verus! {

// ---------------------------------------------------------------------------
// Whether a session can be joined
// ---------------------------------------------------------------------------

/// Why a session is not joined, where it is not.
pub open spec fn join_refusal(code: Seq<char>, hosted: bool, joined: bool) -> Option<Seq<char>> {
    if !ids::is_code(text::trimmed(code)) {
        Some("Enter the six-digit session code."@)
    } else if hosted {
        Some("Stop hosting before joining another session."@)
    } else if joined {
        Some("Leave the current session before joining another one."@)
    } else {
        None
    }
}

/// Checks whether a session can be joined, and tells its code.
pub fn check_join(code: &str, hosted: bool, joined: bool) -> (r: Result<String, String>)
    ensures
        match r {
            Ok(clean) => join_refusal(code@, hosted, joined) is None && clean@ == text::trimmed(
                code@,
            ),
            Err(message) => join_refusal(code@, hosted, joined) == Some(message@),
        },
{
    let clean = text::trim(code);
    if !ids::is_session_code(clean.as_str()) {
        return Err("Enter the six-digit session code.".to_owned());
    }
    if hosted {
        return Err("Stop hosting before joining another session.".to_owned());
    }
    if joined {
        return Err("Leave the current session before joining another one.".to_owned());
    }
    Ok(clean)
}

/// The name under which a guest takes part.
pub fn guest_name(display_name: &str) -> (r: String)
    ensures
        r@ == markdown::metadata(display_name@, "Guest"@),
{
    markdown::sanitize_metadata(display_name, "Guest")
}

/// A request to join.
pub open spec fn join_request(code: Seq<char>, peer: Seq<char>, name: Seq<char>) -> Tree {
    Tree::Object(
        seq![
            ("code"@, Tree::Text(code)),
            ("peerId"@, Tree::Text(peer)),
            ("displayName"@, Tree::Text(name)),
        ],
    )
}

/// Writes a request to join.
pub fn write_join_request(code: &str, peer_id: &str, display_name: &str) -> (r: Json)
    ensures
        r.tree() == join_request(code@, peer_id@, display_name@),
{
    let fields = Fields::new().with("code", json::text_value(code)).with(
        "peerId",
        json::text_value(peer_id),
    ).with("displayName", json::text_value(display_name));
    assert(fields.content() =~= join_request(code@, peer_id@, display_name@)->Object_0);
    fields.object()
}

// ---------------------------------------------------------------------------
// Looking for a session
// ---------------------------------------------------------------------------

/// Whether an announced session has a code.
pub fn is_sought(announced: Option<&str>, code: &str) -> (r: bool)
    ensures
        r == (text::opt_str(announced) == Some(code@)),
{
    match announced {
        Some(found) => text::same(found, code),
        None => false,
    }
}

/// The address of a computer that announced a session.
pub fn peer_base_url(host: &str, port: u16) -> (r: String)
    ensures
        r@ == "http://"@ + host@ + ":"@ + digits::decimal(port as nat),
{
    let mut out: String = "http://".to_owned();
    out.append(host);
    out.append(":");
    out.append(digits::decimal_text(port as u64).as_str());
    out
}

/// How an attempt to join failed.
pub enum FailedAttempt {
    /// With a status, by its name.
    Rejected(String),
    /// With an error.
    Unreachable(String),
}

/// What is said of an attempt that failed.
pub open spec fn attempt_words(attempt: FailedAttempt) -> Seq<char> {
    match attempt {
        FailedAttempt::Rejected(status) => "The sharing peer rejected the connection ("@ + status@
            + ")"@,
        FailedAttempt::Unreachable(error) => "Could not connect to the sharing peer: "@ + error@,
    }
}

/// Tells why no session was joined: by the last attempt, where there was one.
pub fn search_failure(last: Option<FailedAttempt>) -> (r: String)
    ensures
        r@ == match last {
            Some(attempt) => attempt_words(attempt),
            None => "No FrameNote session with that code was found on this local network."@,
        },
{
    match last {
        Some(FailedAttempt::Rejected(status)) => {
            let mut out: String = "The sharing peer rejected the connection (".to_owned();
            out.append(status.as_str());
            out.append(")");
            out
        },
        Some(FailedAttempt::Unreachable(error)) => {
            let mut out: String = "Could not connect to the sharing peer: ".to_owned();
            out.append(error.as_str());
            out
        },
        None => "No FrameNote session with that code was found on this local network.".to_owned(),
    }
}

// ---------------------------------------------------------------------------
// A joined session
// ---------------------------------------------------------------------------

/// The first characters of `s`, from `k` of them on, that have `n` bytes.
pub open spec fn bytes_from(s: Seq<char>, n: nat, k: nat) -> Option<Seq<char>>
    decreases n + 1 - k,
{
    if k > n || k > s.len() {
        None
    } else if fingerprint::utf8(s.take(k as int)).len() == n {
        Some(s.take(k as int))
    } else {
        bytes_from(s, n, k + 1)
    }
}

/// The first `n` bytes of a text; `None` where they are no whole characters.
pub fn first_bytes(s: &str, n: usize) -> (r: Option<String>)
    ensures
        text::opt(r) == bytes_from(s@, n as nat, 0),
{
    let total: usize = text::length(s);
    let mut k: usize = 0;
    while k <= n && k <= total
        invariant
            total == s@.len(),
            k <= n + 1,
            bytes_from(s@, n as nat, k as nat) == bytes_from(s@, n as nat, 0),
        decreases n + 1 - k,
    {
        let front = text::part(s, 0, k);
        assert(front@ =~= s@.take(k as int));
        if front.as_str().as_bytes().len() == n {
            return Some(front);
        }
        if k == n {
            assert(bytes_from(s@, n as nat, (k + 1) as nat) is None);
            return None;
        }
        k += 1;
    }
    None
}

/// The name of the folder in which a shared project is cached: the first
/// twelve bytes of its token. `None` where they are no whole characters.
pub fn cache_folder(token: &str) -> (r: Option<String>)
    ensures
        text::opt(r) == bytes_from(token@, 12, 0),
{
    first_bytes(token, 12)
}

/// A session that a guest takes part in.
pub struct JoinedSession {
    pub code: String,
    pub token: String,
    pub host_base_url: String,
    pub video_name: String,
    pub shadow_sidecar_path: String,
    pub peer_id: String,
    pub display_name: String,
    /// The number of the last event that was read.
    pub cursor: u64,
}

/// The address of a part of a session.
pub open spec fn session_url(base: Seq<char>, token: Seq<char>, part: Seq<char>) -> Seq<char> {
    base + "/session/"@ + token + "/"@ + part
}

fn write_session_url(base: &str, token: &str, part: &str) -> (r: String)
    ensures
        r@ == session_url(base@, token@, part@),
{
    let mut out: String = base.to_owned();
    out.append("/session/");
    out.append(token);
    out.append("/");
    out.append(part);
    out
}

/// The stand-in for the video of a shared project, in the folder in which the
/// project is cached.
pub open spec fn is_shadow(shadow: FilePath, folder: Seq<char>, video_name: Seq<char>) -> bool {
    &&& shadow.directory@ == folder
    &&& shadow.name() == Some(export::file_component(video_name, 120))
}

/// Names the stand-in for the video of a shared project. `folder` is the path
/// of the folder in which the project is cached, with a separator at its end.
pub fn shadow_video(folder: &str, video_name: &str) -> (r: FilePath)
    ensures
        is_shadow(r, folder@, video_name@),
{
    FilePath {
        directory: folder.to_owned(),
        file_name: Some(export::safe_file_component(video_name, 120)),
    }
}

/// What becomes of a session that was joined.
pub struct AcceptedJoin {
    pub session: JoinedSession,
    pub source: RemoteMediaSource,
    pub document: SidecarDocument,
    pub media_registration: MediaRegistration,
    pub info: CollaborationSessionInfo,
    pub transport: CollaborationTransport,
}

impl AcceptedJoin {
    /// Whether the guest takes part in the session.
    pub open spec fn takes_part(
        &self,
        network: NetworkJoinResponse,
        code: Seq<char>,
        base: Seq<char>,
        peer: Seq<char>,
        name: Seq<char>,
        shadow: FilePath,
    ) -> bool {
        &&& self.session.code@ == code
        &&& self.session.token@ == network.token@
        &&& self.session.host_base_url@ == base
        &&& self.session.video_name@ == network.video_name@
        &&& self.session.shadow_sidecar_path@ == shadow.with_suffix("md"@)
        &&& self.session.peer_id@ == peer
        &&& self.session.display_name@ == name
        &&& self.session.cursor == network.sequence
    }

    /// Whether the video is that of the session, under a token of this
    /// computer.
    pub open spec fn plays(
        &self,
        network: NetworkJoinResponse,
        base: Seq<char>,
        video_kind: Seq<char>,
        media_base: Seq<char>,
        media_token: Seq<char>,
    ) -> bool {
        &&& self.source.media_url@ == session_url(base, network.token@, "media"@)
        &&& self.source.mix_url@ == session_url(base, network.token@, "mix"@)
        &&& self.source.content_type@ == paths::media_type(video_kind)
        &&& self.media_registration.names(media_base, media_token)
        &&& self.media_registration.audio_tracks == network.audio_tracks
        &&& self.media_registration.frame_rate == network.frame_rate
        &&& self.transport == network.transport
    }

    /// Whether the sidecar is that of the session.
    pub open spec fn shows(&self, network: NetworkJoinResponse, shadow: FilePath) -> bool {
        &&& self.document.video_path@ == shadow.text()
        &&& self.document.video_name@ == network.video_name@
        &&& self.document.sidecar_path@ == shadow.with_suffix("md"@)
        &&& self.document.markdown@ == network.markdown@
        &&& self.document.playback_position == network.transport.position
    }

    /// Whether the session is told of as one of a guest and the host.
    pub open spec fn tells(
        &self,
        network: NetworkJoinResponse,
        code: Seq<char>,
        peer: Seq<char>,
        name: Seq<char>,
    ) -> bool {
        &&& self.info.mode@ == "guest"@
        &&& self.info.code@ == code
        &&& self.info.participant_count == 2
        &&& self.info.video_name@ == network.video_name@
        &&& self.info.display_name@ == name
        &&& self.info.client_id@ == peer
        &&& text::views(self.info.participants@) == seq![network.host_name@, name]
    }
}

/// Takes part in a session that was joined. `video` is the name of its video,
/// as a path.
pub fn join_collaboration(
    network: NetworkJoinResponse,
    code: &str,
    display_name: &str,
    client_id: &str,
    host_base_url: &str,
    shadow: &FilePath,
    video: &FilePath,
    media_base_url: &str,
    media_token: &str,
) -> (r: AcceptedJoin)
    ensures
        r.takes_part(network, code@, host_base_url@, client_id@, display_name@, *shadow),
        r.plays(network, host_base_url@, video.kind(), media_base_url@, media_token@),
        r.shows(network, *shadow),
        r.tells(network, code@, client_id@, display_name@),
{
    let sidecar = shadow.replace_suffix("md");
    let session = JoinedSession {
        code: code.to_owned(),
        token: network.token.clone(),
        host_base_url: host_base_url.to_owned(),
        video_name: network.video_name.clone(),
        shadow_sidecar_path: sidecar.clone(),
        peer_id: client_id.to_owned(),
        display_name: display_name.to_owned(),
        cursor: network.sequence,
    };
    let source = RemoteMediaSource {
        media_url: write_session_url(host_base_url, network.token.as_str(), "media"),
        mix_url: write_session_url(host_base_url, network.token.as_str(), "mix"),
        content_type: paths::media_content_type(video).to_owned(),
    };
    let mut participants: Vec<String> = Vec::new();
    markdown::push_line(&mut participants, network.host_name.as_str());
    markdown::push_line(&mut participants, display_name);
    assert(text::views(participants@) =~= seq![network.host_name@, display_name@]);
    let info = CollaborationSessionInfo {
        mode: "guest".to_owned(),
        code: code.to_owned(),
        participant_count: 2,
        video_name: network.video_name.clone(),
        display_name: display_name.to_owned(),
        client_id: client_id.to_owned(),
        participants,
    };
    let document = SidecarDocument {
        video_path: shadow.full(),
        video_name: network.video_name,
        sidecar_path: sidecar,
        markdown: network.markdown,
        playback_position: network.transport.position,
    };
    AcceptedJoin {
        session,
        source,
        document,
        media_registration: media::registration(
            media_base_url,
            media_token,
            network.audio_tracks,
            network.frame_rate,
        ),
        info,
        transport: network.transport,
    }
}

/// Tells a guest of its session.
pub fn collaboration_status(joined: &JoinedSession, client_id: &str) -> (r:
    CollaborationSessionInfo)
    ensures
        r.mode@ == "guest"@,
        r.code@ == joined.code@,
        r.participant_count == 1,
        r.video_name@ == joined.video_name@,
        r.display_name@ == joined.display_name@,
        r.client_id@ == client_id@,
        text::views(r.participants@) == seq![joined.display_name@],
{
    let mut participants: Vec<String> = Vec::new();
    markdown::push_line(&mut participants, joined.display_name.as_str());
    assert(text::views(participants@) =~= seq![joined.display_name@]);
    CollaborationSessionInfo {
        mode: "guest".to_owned(),
        code: joined.code.clone(),
        participant_count: 1,
        video_name: joined.video_name.clone(),
        display_name: joined.display_name.clone(),
        client_id: client_id.to_owned(),
        participants,
    }
}

// ---------------------------------------------------------------------------
// News
// ---------------------------------------------------------------------------

/// The address at which a guest asks for news.
pub open spec fn poll_url(joined: JoinedSession) -> Seq<char> {
    session_url(joined.host_base_url@, joined.token@, "events?after="@) + digits::decimal(
        joined.cursor as nat,
    ) + "&peerId="@ + joined.peer_id@
}

/// Writes the address at which a guest asks for news.
pub fn write_poll_url(joined: &JoinedSession) -> (r: String)
    ensures
        r@ == poll_url(*joined),
{
    let mut out: String = write_session_url(
        joined.host_base_url.as_str(),
        joined.token.as_str(),
        "events?after=",
    );
    out.append(digits::decimal_text(joined.cursor).as_str());
    out.append("&peerId=");
    out.append(joined.peer_id.as_str());
    out
}

/// Tells whether a guest got news, given how the host answered: `None` for not
/// at all.
pub fn check_poll(success: Option<bool>) -> (r: Result<(), String>)
    ensures
        match r {
            Ok(_) => success == Some(true),
            Err(message) => match success {
                None => message@ == "The sharing peer is unavailable on the local network."@,
                Some(success) => !success && message@ == "The sharing peer ended this session."@,
            },
        },
{
    match success {
        None => Err("The sharing peer is unavailable on the local network.".to_owned()),
        Some(true) => Ok(()),
        Some(false) => Err("The sharing peer ended this session.".to_owned()),
    }
}

/// Notes which events a guest has read, where it still takes part in the
/// session that they came from.
pub fn note_events(current: &mut Option<JoinedSession>, token: &str, events: &Vec<
    CollaborationEvent,
>)
    ensures
        match *old(current) {
            Some(joined) if joined.token@ == token@ => *final(current) matches Some(after)
                && after.cursor as nat == session::cursor_after(
                joined.cursor as nat,
                session::events_of(events@),
            ) && after.code == joined.code && after.token == joined.token && after.host_base_url
                == joined.host_base_url && after.video_name == joined.video_name
                && after.shadow_sidecar_path == joined.shadow_sidecar_path && after.peer_id
                == joined.peer_id && after.display_name == joined.display_name,
            _ => *final(current) == *old(current),
        },
{
    let n: usize = events.len();
    match current.take() {
        Some(joined) => {
            let mut joined = joined;
            if n > 0 && text::same(joined.token.as_str(), token) {
                assert(session::events_of(events@).last() == events@[n - 1]@);
                joined.cursor = events[n - 1].sequence;
            }
            *current = Some(joined);
        },
        None => {},
    }
}

/// The sidecars that the first `n` events share, in order.
pub open spec fn shared_texts(events: Seq<Event>, n: nat) -> Seq<Seq<char>>
    decreases n,
{
    if n == 0 {
        Seq::empty()
    } else {
        let before = shared_texts(events, (n - 1) as nat);
        let event = events[n - 1];
        match json::string(json::field(Some(event.payload), "markdown"@)) {
            Some(markdown) if event.kind == "document"@ => before.push(markdown),
            _ => before,
        }
    }
}

/// Lists the sidecars that events share, in the order in which they are
/// written.
pub fn document_updates(events: &Vec<CollaborationEvent>) -> (r: Vec<String>)
    ensures
        text::views(r@) == shared_texts(session::events_of(events@), events@.len()),
{
    let ghost all = session::events_of(events@);
    let mut out: Vec<String> = Vec::new();
    let mut i: usize = 0;
    assert(text::views(out@) =~= shared_texts(all, 0));
    while i < events.len()
        invariant
            i <= events@.len(),
            all == session::events_of(events@),
            text::views(out@) == shared_texts(all, i as nat),
        decreases events@.len() - i,
    {
        assert(all[i as int] == events@[i as int]@);
        if text::same(events[i].kind.as_str(), "document") {
            match json::as_text(json::get(Some(&events[i].payload), "markdown")) {
                Some(markdown) => {
                    markdown::push_line(&mut out, markdown.as_str());
                },
                None => {},
            }
        }
        i += 1;
    }
    out
}

/// The address at which a guest shares an event.
pub fn publish_url(joined: &JoinedSession) -> (r: String)
    ensures
        r@ == session_url(joined.host_base_url@, joined.token@, "event"@),
{
    write_session_url(joined.host_base_url.as_str(), joined.token.as_str(), "event")
}

/// An event that a guest shares.
pub open spec fn event_request(peer: Seq<char>, kind: Seq<char>, payload: Tree) -> Tree {
    Tree::Object(
        seq![
            ("peerId"@, Tree::Text(peer)),
            ("kind"@, Tree::Text(kind)),
            ("payload"@, payload),
        ],
    )
}

/// Writes an event that a guest shares.
pub fn write_event_request(peer_id: &str, kind: &str, payload: Json) -> (r: Json)
    ensures
        r.tree() == event_request(peer_id@, kind@, payload.tree()),
{
    let ghost content = payload.tree();
    let fields = Fields::new().with("peerId", json::text_value(peer_id)).with(
        "kind",
        json::text_value(kind),
    ).with("payload", payload);
    assert(fields.content() =~= event_request(peer_id@, kind@, content)->Object_0);
    fields.object()
}

/// Tells whether an event was shared, given how the host answered: `None` for
/// not at all.
pub fn check_publish(success: Option<bool>) -> (r: Result<(), String>)
    ensures
        match r {
            Ok(_) => success == Some(true),
            Err(message) => match success {
                None => message@ == "The sharing peer is unavailable on the local network."@,
                Some(success) => !success && message@ == "The sharing peer rejected this update."@,
            },
        },
{
    match success {
        None => Err("The sharing peer is unavailable on the local network.".to_owned()),
        Some(true) => Ok(()),
        Some(false) => Err("The sharing peer rejected this update.".to_owned()),
    }
}

/// The address at which a guest leaves.
pub fn leave_url(joined: &JoinedSession) -> (r: String)
    ensures
        r@ == session_url(joined.host_base_url@, joined.token@, "leave"@),
{
    write_session_url(joined.host_base_url.as_str(), joined.token.as_str(), "leave")
}

/// Writes the request with which a guest leaves.
pub fn write_leave_request(peer_id: &str) -> (r: Json)
    ensures
        r.tree() == Tree::Object(seq![("peerId"@, Tree::Text(peer_id@))]),
{
    Fields::new().with("peerId", json::text_value(peer_id)).object()
}

// ---------------------------------------------------------------------------
// Whom to turn to
// ---------------------------------------------------------------------------

/// Where news come from.
pub enum PollSource {
    /// From the session that is hosted here.
    Own,
    /// From the host, at an address.
    Host(String),
}

/// Decides where news come from, given whether a session is hosted here and
/// which one was joined.
pub fn poll_collaboration_service(hosts: bool, joined: Option<&JoinedSession>) -> (r: Result<
    PollSource,
    String,
>)
    ensures
        match r {
            Ok(PollSource::Own) => hosts,
            Ok(PollSource::Host(url)) => !hosts && (joined matches Some(session) && url@
                == poll_url(*session)),
            Err(message) => !hosts && joined is None && message@ == "No shared session is active."@,
        },
{
    if hosts {
        return Ok(PollSource::Own);
    }
    match joined {
        Some(session) => Ok(PollSource::Host(write_poll_url(session))),
        None => Err("No shared session is active.".to_owned()),
    }
}

/// Where an event goes.
pub enum EventTarget {
    /// To the session that is hosted here.
    Own(Json),
    /// To the host: an address and what is sent to it.
    Host { url: String, body: Json },
}

/// Decides where an event goes.
pub fn publish_collaboration_event_service(
    hosts: bool,
    joined: Option<&JoinedSession>,
    kind: &str,
    payload: Json,
) -> (r: Result<EventTarget, String>)
    ensures
        match r {
            Ok(EventTarget::Own(content)) => hosts && content.tree() == payload.tree(),
            Ok(EventTarget::Host { url, body }) => !hosts && (joined matches Some(session) && url@
                == session_url(session.host_base_url@, session.token@, "event"@) && body.tree()
                == event_request(session.peer_id@, kind@, payload.tree())),
            Err(message) => !hosts && joined is None && message@ == "No shared session is active."@,
        },
{
    if hosts {
        return Ok(EventTarget::Own(payload));
    }
    match joined {
        Some(session) => Ok(
            EventTarget::Host {
                url: publish_url(session),
                body: write_event_request(session.peer_id.as_str(), kind, payload),
            },
        ),
        None => Err("No shared session is active.".to_owned()),
    }
}

/// Decides whom to tell that this computer leaves: the host of a session that
/// was joined, at an address and with a request.
pub fn stop_collaboration(joined: Option<&JoinedSession>) -> (r: Option<(String, Json)>)
    ensures
        match r {
            Some(call) => joined matches Some(session) && call.0@ == session_url(
                session.host_base_url@,
                session.token@,
                "leave"@,
            ) && call.1.tree() == Tree::Object(seq![("peerId"@, Tree::Text(session.peer_id@))]),
            None => joined is None,
        },
{
    match joined {
        Some(session) => Some(
            (leave_url(session), write_leave_request(session.peer_id.as_str())),
        ),
        None => None,
    }
}

/// What is heard while a session is looked for.
pub enum SearchEvent {
    /// A session is announced, with its code, by a computer with addresses.
    Announced { code: Option<String>, hosts: Vec<String>, port: u16 },
    /// Nothing of use.
    Silence,
    /// The time for the search is over, after attempts that failed.
    TimeUp { last: Option<FailedAttempt> },
}

/// What the search does next.
pub enum SearchAction {
    Wait,
    /// Tries to join at each of these addresses, in order.
    Attempt(Vec<String>),
    GiveUp(String),
}

/// What came of an attempt to join.
pub enum Attempt {
    /// The session that was joined.
    Accepted(NetworkJoinResponse),
    /// An answer that was no session, with the error that reading it gave.
    Unreadable(String),
    Failed(FailedAttempt),
}

/// What follows an attempt to join.
pub enum AttemptStep {
    /// The session is joined at this address.
    Joined(NetworkJoinResponse),
    /// The next address is tried; after the last one the search goes on.
    TryNext,
    GiveUp(String),
}

/// Decides what follows an attempt to join: the first that succeeds is the
/// last, one that fails is remembered, and an answer that cannot be read ends
/// the search.
pub fn after_attempt(last: &mut Option<FailedAttempt>, attempt: Attempt) -> (r: AttemptStep)
    ensures
        match attempt {
            Attempt::Accepted(network) => r == AttemptStep::Joined(network) && *final(last) == *old(
                last,
            ),
            Attempt::Unreadable(error) => {
                &&& r is GiveUp
                &&& r->GiveUp_0@ == "The sharing peer returned invalid session data: "@ + error@
                &&& *final(last) == *old(last)
            },
            Attempt::Failed(failed) => r == AttemptStep::TryNext && *final(last) == Some(failed),
        },
{
    match attempt {
        Attempt::Accepted(network) => AttemptStep::Joined(network),
        Attempt::Unreadable(error) => {
            let mut out: String = "The sharing peer returned invalid session data: ".to_owned();
            out.append(error.as_str());
            AttemptStep::GiveUp(out)
        },
        Attempt::Failed(failed) => {
            *last = Some(failed);
            AttemptStep::TryNext
        },
    }
}

/// The addresses of the first `n` hosts.
pub open spec fn base_urls(hosts: Seq<Seq<char>>, port: nat, n: nat) -> Seq<Seq<char>>
    decreases n,
{
    if n == 0 {
        Seq::empty()
    } else {
        base_urls(hosts, port, (n - 1) as nat).push(
            "http://"@ + hosts[n - 1] + ":"@ + digits::decimal(port),
        )
    }
}

/// Decides what the search for a session does next.
pub fn join_discovered_session(code: &str, event: SearchEvent) -> (r: SearchAction)
    ensures
        match event {
            SearchEvent::Announced { code: found, hosts, port } => if text::opt(found) == Some(
                code@,
            ) {
                r matches SearchAction::Attempt(urls) && text::views(urls@) == base_urls(
                    text::views(hosts@),
                    port as nat,
                    hosts@.len(),
                )
            } else {
                r is Wait
            },
            SearchEvent::Silence => r is Wait,
            SearchEvent::TimeUp { last } => r matches SearchAction::GiveUp(message) && message@
                == match last {
                Some(attempt) => attempt_words(attempt),
                None => "No FrameNote session with that code was found on this local network."@,
            },
        },
{
    match event {
        SearchEvent::Announced { code: found, hosts, port } => {
            let sought: bool = match &found {
                Some(found) => is_sought(Some(found.as_str()), code),
                None => false,
            };
            if !sought {
                return SearchAction::Wait;
            }
            let ghost all = text::views(hosts@);
            let mut urls: Vec<String> = Vec::new();
            let mut i: usize = 0;
            assert(text::views(urls@) =~= base_urls(all, port as nat, 0));
            while i < hosts.len()
                invariant
                    i <= hosts@.len(),
                    all == text::views(hosts@),
                    text::views(urls@) == base_urls(all, port as nat, i as nat),
                decreases hosts@.len() - i,
            {
                assert(all[i as int] == hosts@[i as int]@);
                let url = peer_base_url(hosts[i].as_str(), port);
                let ghost before = text::views(urls@);
                let ghost added = url@;
                urls.push(url);
                assert(text::views(urls@) =~= before.push(added));
                i += 1;
            }
            SearchAction::Attempt(urls)
        },
        SearchEvent::Silence => SearchAction::Wait,
        SearchEvent::TimeUp { last } => SearchAction::GiveUp(search_failure(last)),
    }
}

} // verus!
