//! Sessions over the internet: a relay passes the requests of guests on to the
//! computer that hosts.

use vstd::prelude::*;

use crate::address;
use crate::digits;
use crate::encoding;
use crate::fingerprint;
use crate::ids;
use crate::joining;
use crate::json;
use crate::json::Fields;
use crate::json::Json;
use crate::json::Tree;
use crate::protocol;
use crate::text;

verus! {

// ---------------------------------------------------------------------------
// Whether a relay can be used
// ---------------------------------------------------------------------------

/// The name of a relay in what was entered for it.
pub open spec fn relay_name(entered: Seq<char>) -> Seq<char> {
    text::drop_trailing(text::trimmed(entered), text::among("/"@))
}

fn read_relay_name(entered: &str) -> (r: String)
    ensures
        r@ == relay_name(entered@),
{
    text::trim_end_matches(text::trim(entered).as_str(), "/")
}

/// Why no session is hosted over a relay, where none is.
pub open spec fn relay_host_refusal(
    relay: Seq<char>,
    joined: bool,
    hosted: bool,
    active: bool,
) -> Option<Seq<char>> {
    if relay_name(relay).len() == 0 {
        Some("Enter the relay server address."@)
    } else {
        match protocol::host_refusal(joined, hosted) {
            Some(message) => Some(message),
            None => if active {
                Some("An internet session is already active."@)
            } else {
                None
            },
        }
    }
}

/// Checks whether a session can be hosted over a relay, and tells the name of
/// the relay.
pub fn host_relay_session(relay_url: &str, joined: bool, hosted: bool, relay_active: bool) -> (r:
    Result<String, String>)
    ensures
        match r {
            Ok(name) => relay_host_refusal(relay_url@, joined, hosted, relay_active) is None
                && name@ == relay_name(relay_url@),
            Err(message) => relay_host_refusal(relay_url@, joined, hosted, relay_active) == Some(
                message@,
            ),
        },
{
    let name = read_relay_name(relay_url);
    if name.as_str().is_empty() {
        return Err("Enter the relay server address.".to_owned());
    }
    match protocol::check_host(joined, hosted) {
        Ok(_) => {},
        Err(message) => {
            return Err(message);
        },
    }
    if relay_active {
        return Err("An internet session is already active.".to_owned());
    }
    Ok(name)
}

/// Why no session is joined over a relay, where none is.
pub open spec fn relay_join_refusal(
    relay: Seq<char>,
    code: Seq<char>,
    hosted: bool,
    joined: bool,
) -> Option<Seq<char>> {
    if !ids::is_code(text::trimmed(code)) {
        Some("Enter the six-digit session code."@)
    } else if relay_name(relay).len() == 0 {
        Some("Enter the relay server address."@)
    } else {
        joining::join_refusal(code, hosted, joined)
    }
}

/// The address of a relay, and a code for it.
pub struct RelayJoin {
    pub base_url: String,
    pub code: String,
}

/// Checks whether a session can be joined over a relay.
pub fn join_relay_session(relay_url: &str, code: &str, hosted: bool, joined: bool) -> (r: Result<
    RelayJoin,
    String,
>)
    ensures
        match r {
            Ok(join) => relay_join_refusal(relay_url@, code@, hosted, joined) is None
                && join.base_url@ == "https://"@ + relay_name(relay_url@) && join.code@
                == text::trimmed(code@),
            Err(message) => relay_join_refusal(relay_url@, code@, hosted, joined) == Some(
                message@,
            ),
        },
{
    let name = read_relay_name(relay_url);
    if ids::is_session_code(text::trim(code).as_str()) && name.as_str().is_empty() {
        return Err("Enter the relay server address.".to_owned());
    }
    match joining::check_join(code, hosted, joined) {
        Ok(code) => {
            let mut base_url: String = "https://".to_owned();
            base_url.append(name.as_str());
            Ok(RelayJoin { base_url, code })
        },
        Err(message) => Err(message),
    }
}

/// Tells that a relay refused to let a guest join.
pub fn relay_refusal(status: &str, body: &str) -> (r: String)
    ensures
        r@ == "The relay returned "@ + status@ + ": "@ + body@,
{
    let mut out: String = "The relay returned ".to_owned();
    out.append(status);
    out.append(": ");
    out.append(body);
    out
}

// ---------------------------------------------------------------------------
// Registering a session
// ---------------------------------------------------------------------------

/// The address at which a host connects to a relay.
pub fn relay_socket_url(relay: &str) -> (r: String)
    ensures
        r@ == "wss://"@ + relay@ + "/ws"@,
{
    let mut out: String = "wss://".to_owned();
    out.append(relay);
    out.append("/ws");
    out
}

/// The message that registers a session.
pub open spec fn register_message(
    code: Seq<char>,
    token: Seq<char>,
    host: Seq<char>,
    video: Seq<char>,
) -> Tree {
    Tree::Object(
        seq![
            ("type"@, Tree::Text("register"@)),
            ("code"@, Tree::Text(code)),
            ("token"@, Tree::Text(token)),
            ("hostName"@, Tree::Text(host)),
            ("videoName"@, Tree::Text(video)),
        ],
    )
}

/// Writes the message that registers a session.
pub fn write_register_message(code: &str, token: &str, host_name: &str, video_name: &str) -> (r:
    Json)
    ensures
        r.tree() == register_message(code@, token@, host_name@, video_name@),
{
    let fields = Fields::new().with("type", json::text_value("register")).with(
        "code",
        json::text_value(code),
    ).with("token", json::text_value(token)).with("hostName", json::text_value(host_name)).with(
        "videoName",
        json::text_value(video_name),
    );
    assert(fields.content() =~= register_message(
        code@,
        token@,
        host_name@,
        video_name@,
    )->Object_0);
    fields.object()
}

/// Why a relay did not register a session, where it did not, given what was
/// read from its answer.
pub open spec fn registration_refusal(read: Result<Tree, Seq<char>>) -> Option<Seq<char>> {
    match read {
        Err(_) => Some("Relay sent invalid response."@),
        Ok(data) => if json::string(json::field(Some(data), "type"@)) == Some("registered"@) {
            None
        } else {
            match json::string(json::field(Some(data), "message"@)) {
                Some(message) => Some(message),
                None => Some("relay rejected registration"@),
            }
        },
    }
}

/// Judges the answer of a relay to a registration, given what was read from
/// it.
pub fn judge_registration(read: &Result<Json, String>) -> (r: Result<(), String>)
    ensures
        match r {
            Ok(_) => registration_refusal(json::read(*read)) is None,
            Err(message) => registration_refusal(json::read(*read)) == Some(message@),
        },
{
    match read {
        Err(_) => Err("Relay sent invalid response.".to_owned()),
        Ok(data) => {
            match json::as_text(json::get(Some(data), "type")) {
                Some(kind) => if text::same(kind.as_str(), "registered") {
                    return Ok(());
                },
                None => {},
            }
            match json::as_text(json::get(Some(data), "message")) {
                Some(message) => Err(message),
                None => Err("relay rejected registration".to_owned()),
            }
        },
    }
}

/// Judges the first message of a relay after a registration: `None` for one
/// that is no text.
pub fn check_registration(message: Option<&str>) -> (r: Result<(), String>)
    ensures
        match message {
            None => r matches Err(error) && error@ == "Relay sent unexpected response."@,
            Some(message) => match r {
                Ok(_) => registration_refusal(
                    json::document(fingerprint::utf8(message@)),
                ) is None,
                Err(error) => registration_refusal(
                    json::document(fingerprint::utf8(message@)),
                ) == Some(error@),
            },
        },
{
    match message {
        None => Err("Relay sent unexpected response.".to_owned()),
        Some(message) => {
            let read = json::parse_json(message.as_bytes());
            judge_registration(&read)
        },
    }
}

// ---------------------------------------------------------------------------
// Requests that a relay passes on
// ---------------------------------------------------------------------------

/// A request that is made of this computer for a guest.
pub struct RelayedRequest {
    pub id: String,
    pub method: String,
    pub url: String,
    pub headers: Vec<(String, String)>,
    pub body: Option<Vec<u8>>,
}

/// The content of a request for a guest.
pub struct Relayed {
    pub id: Seq<char>,
    pub method: Seq<char>,
    pub url: Seq<char>,
    pub headers: Seq<(Seq<char>, Seq<char>)>,
    pub body: Option<Seq<u8>>,
}

impl View for RelayedRequest {
    type V = Relayed;

    open spec fn view(&self) -> Relayed {
        Relayed {
            id: self.id@,
            method: self.method@,
            url: self.url@,
            headers: address::pairs_of(self.headers@),
            body: encoding::bytes_of(self.body),
        }
    }
}

/// Whether a header is passed on, given its name in lower case.
pub open spec fn is_passed_on(lower: Seq<char>) -> bool {
    lower != "host"@ && lower != "connection"@ && lower != "upgrade"@
}

/// Whether a header is passed on, given its name in lower case.
pub fn passes_on(lower: &str) -> (r: bool)
    ensures
        r == is_passed_on(lower@),
{
    !text::same(lower, "host") && !text::same(lower, "connection") && !text::same(
        lower,
        "upgrade",
    )
}

/// The headers among the first `n` fields that are passed on.
pub open spec fn passed_headers(fields: Seq<(Seq<char>, Tree)>, n: nat) -> Seq<
    (Seq<char>, Seq<char>),
>
    decreases n,
{
    if n == 0 {
        Seq::empty()
    } else {
        let before = passed_headers(fields, (n - 1) as nat);
        match fields[n - 1].1 {
            Tree::Text(value) if is_passed_on(encoding::lowercase(fields[n - 1].0)) => before.push(
                (fields[n - 1].0, value),
            ),
            _ => before,
        }
    }
}

/// The fields of an object; none where the value is not one.
pub open spec fn fields(tree: Option<Tree>) -> Seq<(Seq<char>, Tree)> {
    match tree {
        Some(Tree::Object(fields)) => fields,
        _ => Seq::empty(),
    }
}

/// The text of a field, or another.
pub open spec fn field_or(data: Tree, name: Seq<char>, other: Seq<char>) -> Seq<char> {
    match json::string(json::field(Some(data), name)) {
        Some(value) => value,
        None => other,
    }
}

/// The request that a message of a relay asks for, where it asks for one.
/// `port` is that of the server of this computer.
pub open spec fn relayed(data: Tree, port: nat) -> Option<Relayed> {
    let headers = fields(json::field(Some(data), "headers"@));
    if json::string(json::field(Some(data), "type"@)) != Some("http-request"@) {
        None
    } else {
        match json::string(json::field(Some(data), "id"@)) {
            None => None,
            Some(id) => Some(
                Relayed {
                    id,
                    method: field_or(data, "method"@, "GET"@),
                    url: "http://127.0.0.1:"@ + digits::decimal(port) + field_or(
                        data,
                        "path"@,
                        "/"@,
                    ),
                    headers: passed_headers(headers, headers.len()),
                    body: match json::string(json::field(Some(data), "body"@)) {
                        Some(body) => encoding::base64_bytes(body),
                        None => None,
                    },
                },
            ),
        }
    }
}

fn text_or(data: &Json, name: &str, other: &str) -> (r: String)
    ensures
        r@ == field_or(data.tree(), name@, other@),
{
    match json::as_text(json::get(Some(data), name)) {
        Some(value) => value,
        None => other.to_owned(),
    }
}

fn read_headers(data: &Json) -> (r: Vec<(String, String)>)
    ensures
        address::pairs_of(r@) == passed_headers(
            fields(json::field(Some(data.tree()), "headers"@)),
            fields(json::field(Some(data.tree()), "headers"@)).len(),
        ),
{
    let ghost all = fields(json::field(Some(data.tree()), "headers"@));
    let mut out: Vec<(String, String)> = Vec::new();
    assert(address::pairs_of(out@) =~= passed_headers(all, 0));
    match json::get(Some(data), "headers") {
        Some(Json::Object(entries)) => {
            let mut i: usize = 0;
            while i < entries.len()
                invariant
                    i <= entries@.len(),
                    all.len() == entries@.len(),
                    forall|k: int|
                        0 <= k < all.len() ==> #[trigger] all[k] == (
                            entries@[k].0@,
                            entries@[k].1.tree(),
                        ),
                    address::pairs_of(out@) == passed_headers(all, i as nat),
                decreases entries@.len() - i,
            {
                assert(all[i as int] == (entries@[i as int].0@, entries@[i as int].1.tree()));
                match &entries[i].1 {
                    Json::Text(value) => {
                        let lower = encoding::to_lowercase(entries[i].0.as_str());
                        if passes_on(lower.as_str()) {
                            crate::media::add_header(
                                &mut out,
                                entries[i].0.as_str(),
                                value.as_str(),
                            );
                        }
                    },
                    _ => {},
                }
                i += 1;
            }
        },
        _ => {},
    }
    out
}

/// Reads the request that a message of a relay asks for.
pub fn relayed_request(data: &Json, port: u16) -> (r: Option<RelayedRequest>)
    ensures
        match r {
            Some(request) => relayed(data.tree(), port as nat) == Some(request@),
            None => relayed(data.tree(), port as nat) is None,
        },
{
    match json::as_text(json::get(Some(data), "type")) {
        Some(kind) => if !text::same(kind.as_str(), "http-request") {
            return None;
        },
        None => {
            return None;
        },
    }
    let id: String = match json::as_text(json::get(Some(data), "id")) {
        Some(id) => id,
        None => {
            return None;
        },
    };
    let mut url: String = "http://127.0.0.1:".to_owned();
    url.append(digits::decimal_text(port as u64).as_str());
    url.append(text_or(data, "path", "/").as_str());
    let body: Option<Vec<u8>> = match json::as_text(json::get(Some(data), "body")) {
        Some(body) => encoding::decode(body.as_str()),
        None => None,
    };
    Some(
        RelayedRequest {
            id,
            method: text_or(data, "method", "GET"),
            url,
            headers: read_headers(data),
            body,
        },
    )
}

/// What the connection to a relay brings.
pub enum RelayEvent {
    /// The session is to be stopped.
    Disconnect,
    /// The connection is broken.
    Broken,
    Text(String),
    Ping(Vec<u8>),
    Close,
    Other,
}

/// What is done on the connection to a relay.
pub enum RelayAction {
    /// The connection is closed, and the listener ends.
    CloseAndEnd,
    /// The listener ends.
    End,
    /// Nothing.
    Wait,
    /// The bytes are sent back.
    Pong(Vec<u8>),
    /// A request is made and its answer sent.
    Forward(RelayedRequest),
}

/// Whether an action is the one for an event.
pub open spec fn is_reaction(event: RelayEvent, action: RelayAction, port: nat) -> bool {
    match event {
        RelayEvent::Disconnect => action is CloseAndEnd,
        RelayEvent::Broken => action is End,
        RelayEvent::Close => action is End,
        RelayEvent::Other => action is Wait,
        RelayEvent::Ping(data) => action == RelayAction::Pong(data),
        RelayEvent::Text(message) => match json::document(fingerprint::utf8(message@)) {
            Err(_) => action is Wait,
            Ok(data) => match relayed(data, port) {
                Some(request) => action matches RelayAction::Forward(made) && made@ == request,
                None => action is Wait,
            },
        },
    }
}

/// Decides what to do on the connection to a relay.
pub fn react(event: RelayEvent, port: u16) -> (r: RelayAction)
    ensures
        is_reaction(event, r, port as nat),
{
    match event {
        RelayEvent::Disconnect => RelayAction::CloseAndEnd,
        RelayEvent::Broken => RelayAction::End,
        RelayEvent::Close => RelayAction::End,
        RelayEvent::Other => RelayAction::Wait,
        RelayEvent::Ping(data) => RelayAction::Pong(data),
        RelayEvent::Text(message) => match json::parse_json(message.as_str().as_bytes()) {
            Err(_) => RelayAction::Wait,
            Ok(data) => match relayed_request(&data, port) {
                Some(request) => RelayAction::Forward(request),
                None => RelayAction::Wait,
            },
        },
    }
}

// ---------------------------------------------------------------------------
// Answers that a relay passes on
// ---------------------------------------------------------------------------

/// How many bytes of an answer are sent within its message.
pub const INLINE_LIMIT: usize = 262_144;

/// The fields with one set: in its place where it is there, else at the end.
pub open spec fn set_from(
    fields: Seq<(Seq<char>, Tree)>,
    name: Seq<char>,
    value: Tree,
    from: int,
) -> Seq<(Seq<char>, Tree)>
    decreases fields.len() - from,
{
    if from < 0 || from >= fields.len() {
        fields.push((name, value))
    } else if fields[from].0 == name {
        fields.update(from, (name, value))
    } else {
        set_from(fields, name, value, from + 1)
    }
}

/// The first `n` headers of an answer, each name once, with its last value.
pub open spec fn header_fields(headers: Seq<(Seq<char>, Seq<char>)>, n: nat) -> Seq<
    (Seq<char>, Tree),
>
    decreases n,
{
    if n == 0 {
        Seq::empty()
    } else {
        set_from(
            header_fields(headers, (n - 1) as nat),
            headers[n - 1].0,
            Tree::Text(headers[n - 1].1),
            0,
        )
    }
}

/// The message with an answer, which ends with a field for its body.
pub open spec fn answer_message(
    id: Seq<char>,
    status: nat,
    headers: Seq<(Seq<char>, Tree)>,
    last: (Seq<char>, Tree),
) -> Tree {
    Tree::Object(
        seq![
            ("type"@, Tree::Text("http-response"@)),
            ("id"@, Tree::Text(id)),
            ("status"@, Tree::Number(digits::decimal(status))),
            ("headers"@, Tree::Object(headers)),
            last,
        ],
    )
}

/// The message with an answer: with the body in Base64, or with the length of
/// a body that follows by itself.
pub open spec fn answer(
    id: Seq<char>,
    status: nat,
    headers: Seq<(Seq<char>, Seq<char>)>,
    body: Seq<u8>,
) -> Tree {
    answer_message(
        id,
        status,
        header_fields(headers, headers.len()),
        if body.len() > INLINE_LIMIT {
            ("bodyLength"@, Tree::Number(digits::decimal(body.len())))
        } else {
            ("body"@, Tree::Text(encoding::base64_text(body)))
        },
    )
}

fn set_field(fields: &mut Vec<(String, Json)>, name: &str, value: &str)
    ensures
        content_of(final(fields)@) == set_from(
            content_of(old(fields)@),
            name@,
            Tree::Text(value@),
            0,
        ),
{
    let ghost before = content_of(fields@);
    let mut i: usize = 0;
    while i < fields.len()
        invariant
            i <= fields@.len(),
            before == content_of(fields@),
            *fields == *old(fields),
            set_from(before, name@, Tree::Text(value@), i as int) == set_from(
                before,
                name@,
                Tree::Text(value@),
                0,
            ),
        decreases fields@.len() - i,
    {
        assert(before[i as int] == (fields@[i as int].0@, fields@[i as int].1.tree()));
        if text::same(fields[i].0.as_str(), name) {
            fields.set(i, (name.to_owned(), json::text_value(value)));
            assert(content_of(fields@) =~= before.update(i as int, (name@, Tree::Text(value@))));
            return;
        }
        i += 1;
    }
    fields.push((name.to_owned(), json::text_value(value)));
    assert(content_of(fields@) =~= before.push((name@, Tree::Text(value@))));
}

/// The content of fields.
pub open spec fn content_of(fields: Seq<(String, Json)>) -> Seq<(Seq<char>, Tree)> {
    Seq::new(fields.len(), |i: int| (fields[i].0@, fields[i].1.tree()))
}

fn write_headers(headers: &Vec<(String, String)>) -> (r: Json)
    ensures
        r.tree() == Tree::Object(
            header_fields(address::pairs_of(headers@), headers@.len()),
        ),
{
    let ghost all = address::pairs_of(headers@);
    let mut out: Vec<(String, Json)> = Vec::new();
    let mut i: usize = 0;
    assert(content_of(out@) =~= header_fields(all, 0));
    while i < headers.len()
        invariant
            i <= headers@.len(),
            all == address::pairs_of(headers@),
            content_of(out@) == header_fields(all, i as nat),
        decreases headers@.len() - i,
    {
        assert(all[i as int] == (headers@[i as int].0@, headers@[i as int].1@));
        set_field(&mut out, headers[i].0.as_str(), headers[i].1.as_str());
        i += 1;
    }
    let ghost content = content_of(out@);
    let r = Json::Object(out);
    assert(r.tree()->Object_0 =~= content);
    r
}

fn write_answer(id: &str, status: u16, headers: Json, name: &str, last: Json) -> (r: Json)
    requires
        headers.tree() is Object,
    ensures
        r.tree() == answer_message(
            id@,
            status as nat,
            headers.tree()->Object_0,
            (name@, last.tree()),
        ),
{
    let ghost whole = answer_message(
        id@,
        status as nat,
        headers.tree()->Object_0,
        (name@, last.tree()),
    );
    let code = digits::decimal_text(status as u64);
    let fields = Fields::new().with("type", json::text_value("http-response")).with(
        "id",
        json::text_value(id),
    ).with("status", json::number_value(code.as_str())).with("headers", headers).with(name, last);
    assert(fields.content() =~= whole->Object_0);
    fields.object()
}

/// An answer as it is sent to a relay.
pub struct RelayAnswer {
    pub message: Json,
    /// Whether the body follows by itself.
    pub body_follows: bool,
}

/// Writes the answer to a request for a guest.
pub fn relay_answer(id: &str, status: u16, headers: &Vec<(String, String)>, body: &[u8]) -> (r:
    RelayAnswer)
    ensures
        r.message.tree() == answer(id@, status as nat, address::pairs_of(headers@), body@),
        r.body_follows == (body@.len() > INLINE_LIMIT),
        !r.body_follows ==> encoding::base64_bytes(encoding::base64_text(body@)) == Some(body@),
{
    let fields = write_headers(headers);
    if body.len() > INLINE_LIMIT {
        let length = digits::decimal_text(body.len() as u64);
        return RelayAnswer {
            message: write_answer(
                id,
                status,
                fields,
                "bodyLength",
                json::number_value(length.as_str()),
            ),
            body_follows: true,
        };
    }
    let encoded = encoding::encode(body);
    RelayAnswer {
        message: write_answer(id, status, fields, "body", json::text_value(encoded.as_str())),
        body_follows: false,
    }
}

/// The words of an answer to a request that could not be made.
pub open spec fn proxy_error(error: Seq<char>) -> Seq<char> {
    "Proxy error: "@ + error
}

/// Writes the answer to a request that could not be made.
pub fn relay_failure(id: &str, error: &str) -> (r: Json)
    requires
        encoding::is_encodable(fingerprint::utf8(proxy_error(error@))),
    ensures
        r.tree() == answer_message(
            id@,
            502,
            Seq::empty(),
            ("body"@, Tree::Text(encoding::base64_text(fingerprint::utf8(proxy_error(error@))))),
        ),
{
    let mut words: String = "Proxy error: ".to_owned();
    words.append(error);
    let encoded = encoding::encode(words.as_str().as_bytes());
    write_answer(
        id,
        502,
        Fields::new().object(),
        "body",
        json::text_value(encoded.as_str()),
    )
}

} // verus!
