use framenote::ids;
use framenote::joining;
use framenote::joining::Attempt;
use framenote::joining::AttemptStep;
use framenote::joining::EventTarget;
use framenote::joining::FailedAttempt;
use framenote::joining::JoinedSession;
use framenote::joining::PollSource;
use framenote::joining::SearchAction;
use framenote::joining::SearchEvent;
use framenote::json;
use framenote::json::Json;
use framenote::markdown;
use framenote::media;
use framenote::media::FileState;
use framenote::media::MediaReply;
use framenote::media::Method;
use framenote::number::Binary64;
use framenote::paths::FilePath;
use framenote::protocol;
use framenote::protocol::HostedSession;
use framenote::protocol::NetworkJoinRequest;
use framenote::protocol::PeerRoute;
use framenote::relay;
use framenote::relay::RelayAction;
use framenote::relay::RelayEvent;
use framenote::session;
use framenote::session::Change;
use framenote::session::CollaborationTransport;
use framenote::session::HostedSessionRuntime;

fn moment(value: f64) -> Binary64 {
    Binary64 { bits: value.to_bits() }
}

fn plain(value: Binary64) -> f64 {
    f64::from_bits(value.bits)
}

fn object(fields: &[(&str, Json)]) -> Json {
    Json::Object(fields.iter().map(|(name, value)| (name.to_string(), json::copy(value))).collect())
}

fn words(value: &str) -> Json {
    Json::Text(value.to_string())
}

const TOKEN: &str = "0f3b2a1c-9d8e-4f7a-8b6c-5d4e3f2a1b0c";
const SECOND: u64 = 1_000_000_000;

fn fixture(code: &str) -> (HostedSession, HostedSessionRuntime) {
    let video = FilePath {
        directory: "/films/".to_string(),
        file_name: Some("shared.mp4".to_string()),
    };
    let text = markdown::initial_markdown(&video);
    let (mut hosted, mut runtime) = protocol::host_collaboration(
        video,
        "/films/shared.md",
        &text,
        "Host",
        Vec::new(),
        Some(moment(30.0)),
        code,
        TOKEN,
        "service",
    );
    hosted.video_name = "shared.mp4".to_string();
    runtime.transport = CollaborationTransport {
        position: moment(3.5),
        playing: false,
        playback_rate: moment(1.0),
    };
    (hosted, runtime)
}

fn join(code: &str, peer: &str, name: &str) -> NetworkJoinRequest {
    NetworkJoinRequest {
        code: code.to_string(),
        peer_id: peer.to_string(),
        display_name: name.to_string(),
    }
}

fn joined_session() -> JoinedSession {
    JoinedSession {
        code: "420731".to_string(),
        token: TOKEN.to_string(),
        host_base_url: "http://10.0.0.2:4000".to_string(),
        video_name: "shared.mp4".to_string(),
        shadow_sidecar_path: "/cache/shared.md".to_string(),
        peer_id: "guest-one".to_string(),
        display_name: "Editor One".to_string(),
        cursor: 4,
    }
}

#[test]
fn peer_protocol_joins_streams_ranges_and_syncs_markdown_and_transport() {
    let (hosted, mut runtime) = fixture("420731");
    let route = protocol::respond_collaboration_request(Method::Post, "/join", Some(TOKEN));
    assert!(matches!(route, PeerRoute::Join));
    let joined = protocol::join_peer(
        &hosted,
        &mut runtime,
        &join("420731", "guest-one", "Editor One"),
        SECOND,
    )
    .expect("join response");
    assert_eq!(joined.video_name, "shared.mp4");
    assert_eq!(plain(joined.playback_position), 3.5);

    let url = format!("/session/{TOKEN}/media");
    let route = protocol::respond_collaboration_request(Method::Get, &url, Some(TOKEN));
    assert!(matches!(route, PeerRoute::Media));
    let content = b"0123456789abcdef";
    let headers = vec![("Range".to_string(), "bytes=4-8".to_string())];
    match media::respond_local_media(Method::Get, &headers, FileState::Size(16), &hosted.video_path)
    {
        MediaReply::Part { status, first, length, .. } => {
            assert_eq!(status, 206);
            assert_eq!(&content[first as usize..(first + length) as usize], b"45678");
        }
        _ => panic!("peer media range"),
    }

    let url = format!("/session/{TOKEN}/event");
    let route = protocol::respond_collaboration_request(Method::Post, &url, Some(TOKEN));
    assert!(matches!(route, PeerRoute::Event));
    let transport = CollaborationTransport {
        position: moment(8.25),
        playing: true,
        playback_rate: moment(1.25),
    };
    let payload = object(&[
        ("position", Json::Number("8.25".to_string())),
        ("playing", Json::Bool(true)),
        ("playbackRate", Json::Number("1.25".to_string())),
    ]);
    let change = match session::check_host_event(&runtime, "transport", Some(transport), &payload) {
        Ok(change) => change,
        Err(message) => panic!("{message}"),
    };
    session::publish_host_event(&mut runtime, change, "guest-one", "transport", &payload);

    let shared_markdown = format!(
        "{}\n- [00:00:08.250] Shared mark <!-- framenote:bookmark:shared start=8.250 -->\n",
        joined.markdown.trim_end()
    );
    let payload = object(&[("markdown", words(&shared_markdown))]);
    let change = match session::check_host_event(&runtime, "document", None, &payload) {
        Ok(change) => change,
        Err(message) => panic!("{message}"),
    };
    match &change {
        Change::Document(text) => assert!(text.contains("Shared mark")),
        _ => panic!("canonical sidecar"),
    }
    session::publish_host_event(&mut runtime, change, "guest-one", "document", &payload);

    let url = format!("/session/{TOKEN}/events?after=0&peerId=guest-one");
    let (after, peer) =
        match protocol::respond_collaboration_request(Method::Get, &url, Some(TOKEN)) {
            PeerRoute::Events { after, peer_id } => (after, peer_id),
            _ => panic!("poll peer"),
        };
    let poll =
        session::poll_events(&mut runtime, "Host", after, peer.as_deref(), 2 * SECOND);
    assert_eq!(poll.participant_count, 2);
    assert_eq!(poll.participants, vec!["Editor One", "Host"]);
    assert_eq!(poll.events.len(), 2);
    assert_eq!(poll.events[0].kind, "transport");
    assert_eq!(poll.events[1].kind, "document");
    assert!(joining::document_updates(&poll.events)[0].contains("Shared mark"));
    assert_eq!(plain(runtime.transport.position), 8.25);
    assert!(runtime.transport.playing);
    assert!(runtime.markdown.contains("Shared mark"));
}

#[test]
fn six_digit_mdns_discovery_connects_two_app_instances() {
    let code = ids::six_digit_session_code();
    assert_eq!(code.len(), 6);
    assert!(code.chars().all(|character| character.is_ascii_digit()));
    let (hosted, mut runtime) = fixture(&code);
    let announced = protocol::announce(&code, TOKEN);
    assert_eq!(announced.host_name, "framenote-0f3b2a1c.local.");
    assert_eq!(announced.instance_name, format!("FrameNote {code} 0f3b2a"));

    let heard = SearchEvent::Announced {
        code: Some(announced.code),
        hosts: vec!["10.0.0.2".to_string()],
        port: 4000,
    };
    match joining::join_discovered_session(&code, heard) {
        SearchAction::Attempt(urls) => assert_eq!(urls, vec!["http://10.0.0.2:4000"]),
        _ => panic!("discover and join host"),
    }
    let joined = protocol::join_peer(
        &hosted,
        &mut runtime,
        &join(&code, "generated-id", "Second editor"),
        SECOND,
    )
    .expect("discover and join host");
    assert_eq!(joined.token, hosted.token);
    assert_eq!(joined.host_name, "Host");
    assert!(
        runtime.peers.get("Second editor").is_none(),
        "peer IDs are generated by each app, not display names"
    );
    assert_eq!(
        runtime.peers.get("generated-id").map(|peer| peer.name.as_str()),
        Some("Second editor")
    );
}

#[test]
fn searches_wait_for_the_right_code() {
    let other = SearchEvent::Announced { code: Some("1".to_string()), hosts: Vec::new(), port: 1 };
    assert!(matches!(joining::join_discovered_session("2", other), SearchAction::Wait));
    assert!(matches!(
        joining::join_discovered_session("2", SearchEvent::Silence),
        SearchAction::Wait
    ));
    match joining::join_discovered_session("2", SearchEvent::TimeUp { last: None }) {
        SearchAction::GiveUp(message) => assert_eq!(
            message,
            "No FrameNote session with that code was found on this local network."
        ),
        _ => panic!("the search goes on"),
    }
    let last = Some(FailedAttempt::Rejected("403 Forbidden".to_string()));
    match joining::join_discovered_session("2", SearchEvent::TimeUp { last }) {
        SearchAction::GiveUp(message) => {
            assert_eq!(message, "The sharing peer rejected the connection (403 Forbidden)")
        }
        _ => panic!("the search goes on"),
    }
}

#[test]
fn attempts_to_join_end_at_the_first_success() {
    let mut last = None;
    for status in ["403 Forbidden", "500 Internal Server Error"] {
        let failed = Attempt::Failed(FailedAttempt::Rejected(status.to_string()));
        assert!(matches!(joining::after_attempt(&mut last, failed), AttemptStep::TryNext));
    }
    match joining::after_attempt(&mut last, Attempt::Unreadable("EOF".to_string())) {
        AttemptStep::GiveUp(message) => {
            assert_eq!(message, "The sharing peer returned invalid session data: EOF")
        }
        _ => panic!("the search goes on"),
    }
    let (hosted, mut runtime) = fixture("420731");
    let network =
        protocol::join_peer(&hosted, &mut runtime, &join("420731", "x", "X"), 0).unwrap();
    match joining::after_attempt(&mut last, Attempt::Accepted(network)) {
        AttemptStep::Joined(network) => assert_eq!(network.token, hosted.token),
        _ => panic!("the session was not joined"),
    }
    match joining::join_discovered_session("420731", SearchEvent::TimeUp { last }) {
        SearchAction::GiveUp(message) => assert_eq!(
            message,
            "The sharing peer rejected the connection (500 Internal Server Error)"
        ),
        _ => panic!("the search goes on"),
    }
}

#[test]
fn answers_name_what_was_done() {
    for name in ["accepted", "left"] {
        let body = protocol::flag_body(name);
        assert_eq!(json::as_bool(json::get(Some(&body), name)), Some(true));
        match body {
            Json::Object(fields) => assert_eq!(fields.len(), 1),
            _ => panic!("no object was written"),
        }
    }
    assert_eq!(ids::draw_id().len(), 36);
    assert_ne!(ids::draw_id(), ids::draw_id());
}

#[test]
fn strangers_are_refused() {
    for (method, url, status) in [
        (Method::Get, "/join", 405),
        (Method::Get, "/session/other/media", 404),
        (Method::Get, "/session/other/events?after=0", 404),
        (Method::Post, "/session/other/event", 404),
        (Method::Get, "/", 404),
    ] {
        match protocol::respond_collaboration_request(method, url, Some(TOKEN)) {
            PeerRoute::Status(found) => assert_eq!(found, status, "{url}"),
            _ => panic!("{url} was served"),
        }
    }
    assert!(matches!(
        protocol::respond_collaboration_request(Method::Get, "/session//media", None),
        PeerRoute::Status(404)
    ));
    let (hosted, mut runtime) = fixture("420731");
    assert!(protocol::join_peer(&hosted, &mut runtime, &join("000000", "x", "X"), 0).is_none());
    let status = |hosted, read| protocol::judge_join(hosted, &read).map(|refusal| refusal.status);
    assert_eq!(status(None, Ok(join("420731", "x", "X"))), Some(403));
    assert_eq!(status(Some(&hosted), Ok(join("000000", "x", "X"))), Some(403));
    assert_eq!(status(Some(&hosted), Ok(join("420731", "x", "X"))), None);
    assert_eq!(status(Some(&hosted), Err("Invalid peer request: x".to_string())), Some(400));
}

#[test]
fn participants_are_forgotten_after_a_while() {
    let (hosted, mut runtime) = fixture("420731");
    let request = join("420731", "a", "Zoe");
    assert!(protocol::join_peer(&hosted, &mut runtime, &request, SECOND).is_some());
    let request = join("420731", "b", " Adam ");
    assert!(protocol::join_peer(&hosted, &mut runtime, &request, 5 * SECOND).is_some());
    assert_eq!(
        session::participant_names(&mut runtime, "Host", 6 * SECOND),
        vec!["Adam", "Host", "Zoe"]
    );
    assert_eq!(session::participant_count(&mut runtime, 14 * SECOND), 2);
    session::leave_peer(&mut runtime, &object(&[("peerId", words("b"))]));
    assert_eq!(session::participant_count(&mut runtime, 14 * SECOND), 1);
}

#[test]
fn events_are_judged() {
    let (_, runtime) = fixture("420731");
    let nothing = object(&[]);
    for (kind, message) in [
        ("transport", "The synchronized playback state is invalid."),
        ("document", "The shared Markdown update is invalid."),
        ("other", "Unsupported collaboration event."),
    ] {
        match session::check_host_event(&runtime, kind, None, &nothing) {
            Err(found) => assert_eq!(found, message),
            Ok(_) => panic!("{kind} was accepted"),
        }
    }
    let large = object(&[("markdown", words(&"x".repeat(session::MARKDOWN_LIMIT + 1)))]);
    match session::check_host_event(&runtime, "document", None, &large) {
        Err(found) => assert_eq!(found, "The shared Markdown update is too large."),
        Ok(_) => panic!("a large document was accepted"),
    }
    let same = object(&[("markdown", words(&runtime.markdown))]);
    assert!(matches!(
        session::check_host_event(&runtime, "document", None, &same),
        Ok(Change::Nothing)
    ));
    let fast = CollaborationTransport {
        position: moment(0.0),
        playing: true,
        playback_rate: moment(5.0),
    };
    assert!(!fast.valid());
}

#[test]
fn news_come_once_and_the_latest_are_kept() {
    let (_, mut runtime) = fixture("420731");
    let total = session::COLLABORATION_EVENT_LIMIT + 3;
    for i in 0..total {
        let payload = object(&[("markdown", words(&format!("text {i}")))]);
        let change = match session::check_host_event(&runtime, "document", None, &payload) {
            Ok(change) => change,
            Err(message) => panic!("{message}"),
        };
        let event = session::publish_host_event(&mut runtime, change, "a", "document", &payload);
        assert_eq!(event.unwrap().sequence, i as u64 + 1);
    }
    assert_eq!(runtime.events.len(), session::COLLABORATION_EVENT_LIMIT);
    assert_eq!(runtime.document_revision, total as u64);
    let mut cursor = total as u64 - 2;
    let first = session::poll_host(&mut runtime, "Host", &mut cursor, 0);
    assert_eq!(
        joining::document_updates(&first.events),
        vec![format!("text {}", total - 2), format!("text {}", total - 1)]
    );
    assert_eq!(cursor, total as u64);
    assert_eq!(session::poll_host(&mut runtime, "Host", &mut cursor, 0).events.len(), 0);
}

#[test]
fn sessions_are_joined_one_at_a_time() {
    assert_eq!(joining::check_join(" 420731 ", false, false).unwrap(), "420731");
    assert_eq!(
        joining::check_join("42", false, false).unwrap_err(),
        "Enter the six-digit session code."
    );
    assert_eq!(
        joining::check_join("420731", true, false).unwrap_err(),
        "Stop hosting before joining another session."
    );
    assert_eq!(
        joining::check_join("420731", false, true).unwrap_err(),
        "Leave the current session before joining another one."
    );
    assert!(protocol::check_host(false, false).is_ok());
    assert_eq!(
        protocol::check_host(true, false).unwrap_err(),
        "Leave the current shared session before hosting another one."
    );
    assert_eq!(
        protocol::check_host(false, true).unwrap_err(),
        "This project is already being shared."
    );
}

#[test]
fn guests_turn_to_their_host() {
    let session = joined_session();
    match joining::poll_collaboration_service(false, Some(&session)) {
        Ok(PollSource::Host(url)) => assert_eq!(
            url,
            format!("http://10.0.0.2:4000/session/{TOKEN}/events?after=4&peerId=guest-one")
        ),
        _ => panic!("the host was not asked"),
    }
    assert!(matches!(
        joining::poll_collaboration_service(true, Some(&session)),
        Ok(PollSource::Own)
    ));
    match joining::poll_collaboration_service(false, None) {
        Err(message) => assert_eq!(message, "No shared session is active."),
        Ok(_) => panic!("there is no session"),
    }
    match joining::publish_collaboration_event_service(
        false,
        Some(&session),
        "document",
        words("x"),
    ) {
        Ok(EventTarget::Host { url, body }) => {
            assert_eq!(url, format!("http://10.0.0.2:4000/session/{TOKEN}/event"));
            assert_eq!(
                json::as_text(json::get(Some(&body), "peerId")),
                Some("guest-one".to_string())
            );
        }
        _ => panic!("the host was not told"),
    }
    let (url, _) = joining::stop_collaboration(Some(&session)).unwrap();
    assert_eq!(url, format!("http://10.0.0.2:4000/session/{TOKEN}/leave"));
    assert!(joining::stop_collaboration(None).is_none());
    assert!(joining::check_poll(Some(true)).is_ok());
    assert_eq!(
        joining::check_poll(Some(false)).unwrap_err(),
        "The sharing peer ended this session."
    );
    assert_eq!(
        joining::check_publish(None).unwrap_err(),
        "The sharing peer is unavailable on the local network."
    );
    assert_eq!(joining::cache_folder(TOKEN), Some("0f3b2a1c-9d8".to_string()));
}

#[test]
fn codes_are_drawn_from_identifiers() {
    assert_eq!(ids::code_from("00000001-9d8e-4f7a-8b6c-5d4e3f2a1b0c"), "000001");
    assert_eq!(ids::code_from("000f4241-9d8e-4f7a-8b6c-5d4e3f2a1b0c"), "000001");
    let keys = protocol::draw_session_keys();
    assert_eq!(keys.code.len(), 6);
    assert_eq!(keys.token.len(), 36);
}

// Relays

#[test]
fn relays_are_named() {
    assert_eq!(
        relay::host_relay_session(" relay.example.com/ ", false, false, false).unwrap(),
        "relay.example.com"
    );
    assert_eq!(
        relay::host_relay_session(" / ", false, false, false).unwrap_err(),
        "Enter the relay server address."
    );
    assert_eq!(
        relay::host_relay_session("r", false, false, true).unwrap_err(),
        "An internet session is already active."
    );
    match relay::join_relay_session("relay.example.com/", "420731", false, false) {
        Ok(join) => assert_eq!(join.base_url, "https://relay.example.com"),
        Err(message) => panic!("{message}"),
    }
    assert_eq!(relay::relay_socket_url("r"), "wss://r/ws");
    assert_eq!(relay::relay_refusal("404 Not Found", "x"), "The relay returned 404 Not Found: x");
}

#[test]
fn registrations_are_judged() {
    assert!(relay::check_registration(Some(r#"{"type":"registered"}"#)).is_ok());
    assert_eq!(
        relay::check_registration(Some(r#"{"type":"error","message":"full"}"#)).unwrap_err(),
        "full"
    );
    assert_eq!(
        relay::check_registration(Some("{}")).unwrap_err(),
        "relay rejected registration"
    );
    assert_eq!(
        relay::check_registration(Some("nothing")).unwrap_err(),
        "Relay sent invalid response."
    );
    assert_eq!(relay::check_registration(None).unwrap_err(), "Relay sent unexpected response.");
    let sent = relay::write_register_message("420731", TOKEN, "Host", "clip.mp4");
    assert_eq!(json::as_text(json::get(Some(&sent), "type")), Some("register".to_string()));
}

#[test]
fn requests_of_guests_are_passed_on() {
    let message = r#"{"type":"http-request","id":"7","method":"POST","path":"/join","headers":{"HOST":"x","Range":"bytes=0-1"},"body":"RnJhbWVOb3Rl"}"#;
    match relay::react(RelayEvent::Text(message.to_string()), 4000) {
        RelayAction::Forward(request) => {
            assert_eq!(request.id, "7");
            assert_eq!(request.method, "POST");
            assert_eq!(request.url, "http://127.0.0.1:4000/join");
            assert_eq!(request.headers, vec![("Range".to_string(), "bytes=0-1".to_string())]);
            assert_eq!(request.body, Some(b"FrameNote".to_vec()));
        }
        _ => panic!("the request was not passed on"),
    }
    assert!(matches!(
        relay::react(RelayEvent::Text("nothing".to_string()), 1),
        RelayAction::Wait
    ));
    assert!(matches!(relay::react(RelayEvent::Disconnect, 1), RelayAction::CloseAndEnd));
    assert!(matches!(relay::react(RelayEvent::Broken, 1), RelayAction::End));
    match relay::react(RelayEvent::Ping(vec![1, 2]), 1) {
        RelayAction::Pong(bytes) => assert_eq!(bytes, vec![1, 2]),
        _ => panic!("the ping was not answered"),
    }
}

#[test]
fn answers_to_guests_are_framed() {
    let headers = vec![
        ("a".to_string(), "1".to_string()),
        ("b".to_string(), "2".to_string()),
        ("a".to_string(), "3".to_string()),
    ];
    let small = relay::relay_answer("7", 200, &headers, b"FrameNote");
    assert!(!small.body_follows);
    assert_eq!(
        json::as_text(json::get(Some(&small.message), "body")),
        Some("RnJhbWVOb3Rl".to_string())
    );
    let sent = json::get(Some(&small.message), "headers");
    assert_eq!(json::as_text(json::get(sent, "a")), Some("3".to_string()));
    assert_eq!(json::as_count(json::get(Some(&small.message), "status")), Some(200));
    let large = relay::relay_answer("7", 200, &headers, &vec![0u8; relay::INLINE_LIMIT + 1]);
    assert!(large.body_follows);
    assert_eq!(
        json::as_count(json::get(Some(&large.message), "bodyLength")),
        Some(relay::INLINE_LIMIT as u64 + 1)
    );
    let failed = relay::relay_failure("7", "gone");
    assert_eq!(json::as_count(json::get(Some(&failed), "status")), Some(502));
}
