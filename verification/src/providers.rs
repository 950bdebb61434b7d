//! The services that analyse videos: their keys and whether they can be used.

use vstd::prelude::*;

use crate::address;
use crate::address::Address;
use crate::gemini;
use crate::json;
use crate::json::Json;
use crate::json::Tree;
use crate::markdown;
use crate::names;
use crate::text;

verus! {

// ---------------------------------------------------------------------------
// Keys
// ---------------------------------------------------------------------------

pub const KEYRING_SERVICE: &'static str = "com.framenote.desktop.ai";

/// The account under which the key of a provider is kept.
pub open spec fn account(provider: Seq<char>) -> Result<Seq<char>, Seq<char>> {
    let name = text::lower(text::trimmed(provider));
    if name == "cloud"@ {
        Ok("ollama-cloud"@)
    } else if name == "gemini"@ {
        Ok("gemini"@)
    } else {
        Err("API keys can only be stored for Ollama Cloud or Gemini."@)
    }
}

/// Tells the account under which the key of a provider is kept.
pub fn api_key_account(provider: &str) -> (r: Result<&'static str, String>)
    ensures
        match r {
            Ok(name) => account(provider@) == Ok::<Seq<char>, Seq<char>>(name@),
            Err(message) => account(provider@) == Err::<Seq<char>, Seq<char>>(message@),
        },
{
    let name = text::ascii_lower(text::trim(provider).as_str());
    if text::same(name.as_str(), "cloud") {
        Ok("ollama-cloud")
    } else if text::same(name.as_str(), "gemini") {
        Ok("gemini")
    } else {
        Err("API keys can only be stored for Ollama Cloud or Gemini.".to_owned())
    }
}

/// The key that a store holds; a blank one counts as none.
pub fn loaded_key(stored: Option<String>) -> (r: Option<String>)
    ensures
        r == match stored {
            Some(key) if text::trimmed(key@).len() > 0 => Some(key),
            _ => None,
        },
{
    match stored {
        Some(key) => if text::trim(key.as_str()).as_str().is_empty() {
            None
        } else {
            Some(key)
        },
        None => None,
    }
}

/// The key to store; `None` where the stored one is to be deleted.
pub fn key_to_save(api_key: &str) -> (r: Option<String>)
    ensures
        match r {
            Some(key) => text::trimmed(api_key@).len() > 0 && key@ == text::trimmed(api_key@),
            None => text::trimmed(api_key@).len() == 0,
        },
{
    let key = text::trim(api_key);
    if key.as_str().is_empty() {
        None
    } else {
        Some(key)
    }
}

/// The key to send with a request, where there is one.
pub open spec fn bearer(api_key: Option<Seq<char>>) -> Option<Seq<char>> {
    match api_key {
        Some(key) if text::trimmed(key).len() > 0 => Some(text::trimmed(key)),
        _ => None,
    }
}

/// Tells the key to send with a request.
pub fn bearer_key(api_key: Option<&str>) -> (r: Option<String>)
    ensures
        text::opt(r) == bearer(text::opt_str(api_key)),
{
    match api_key {
        Some(key) => key_to_save(key),
        None => None,
    }
}

// ---------------------------------------------------------------------------
// Whether a service can be used
// ---------------------------------------------------------------------------

/// Whether a service can be used.
pub struct OllamaStatus {
    pub available: bool,
    pub model_available: bool,
    pub message: String,
    pub models: Vec<String>,
}

impl OllamaStatus {
    /// Whether the status says that the service cannot be used, and why.
    pub open spec fn is_closed(&self, available: bool, message: Seq<char>) -> bool {
        &&& self.available == available
        &&& !self.model_available
        &&& self.message@ == message
        &&& self.models@.len() == 0
    }
}

fn closed(available: bool, message: &str) -> (r: OllamaStatus)
    ensures
        r.is_closed(available, message@),
{
    OllamaStatus {
        available,
        model_available: false,
        message: message.to_owned(),
        models: Vec::new(),
    }
}

/// How a service answered.
pub enum Reply {
    /// Not at all.
    Offline,
    /// With a status that is no success, its name, and a text.
    Refused { code: u16, status: String, detail: String },
    /// With a document, or with one that could not be read.
    Answer(Result<Json, String>),
}

/// Where the models of Ollama are listed, and the key to send.
pub struct OllamaCheck {
    pub base: Address,
    pub endpoint: String,
    pub key: Option<String>,
}

/// Prepares the question whether Ollama can be used.
pub fn prepare_ollama_check(ollama_url: &str, api_key: Option<&str>) -> (r: Result<
    OllamaCheck,
    String,
>)
    requires
        ollama_url@.len() <= address::ADDRESS_LIMIT,
    ensures
        match r {
            Ok(check) => {
                &&& address::ollama_address(ollama_url@) == Ok::<address::Parts, Seq<char>>(
                    check.base@,
                )
                &&& address::endpoint(check.base@, "tags"@) == Ok::<Seq<char>, Seq<char>>(
                    check.endpoint@,
                )
                &&& text::opt(check.key) == bearer(text::opt_str(api_key))
            },
            Err(message) => match address::ollama_address(ollama_url@) {
                Err(error) => message@ == error,
                Ok(base) => address::endpoint(base, "tags"@) == Err::<Seq<char>, Seq<char>>(
                    message@,
                ),
            },
        },
{
    match address::normalize_ollama_url(ollama_url) {
        Ok(base) => match address::ollama_endpoint(&base, "tags") {
            Ok(endpoint) => Ok(OllamaCheck { base, endpoint, key: bearer_key(api_key) }),
            Err(message) => Err(message),
        },
        Err(message) => Err(message),
    }
}

/// The name of a listed model.
pub open spec fn listed_name(item: Tree) -> Option<Seq<char>> {
    match json::string(json::field(Some(item), "name"@)) {
        Some(name) => Some(name),
        None => json::string(json::field(Some(item), "model"@)),
    }
}

/// The names of the first `n` listed models.
pub open spec fn listed_names(items: Seq<Tree>, n: nat) -> Seq<Seq<char>>
    decreases n,
{
    if n == 0 {
        Seq::empty()
    } else {
        let before = listed_names(items, (n - 1) as nat);
        match listed_name(items[n - 1]) {
            Some(name) => before.push(name),
            None => before,
        }
    }
}

/// The models of a list, by name.
pub open spec fn models(body: Tree) -> Seq<Seq<char>> {
    let items = json::items(json::field(Some(body), "models"@));
    names::sorted(listed_names(items, items.len()))
}

/// `s` without every repetition of `suffix` at its end.
pub open spec fn without_all(s: Seq<char>, suffix: Seq<char>) -> Seq<char>
    decreases s.len(),
{
    if suffix.len() > 0 && text::has_suffix(s, suffix) {
        without_all(s.take(s.len() - suffix.len()), suffix)
    } else {
        s
    }
}

/// Whether a model is among those of a list. The mark of the latest version
/// makes no difference.
pub open spec fn is_listed(names: Seq<Seq<char>>, model: Seq<char>) -> bool {
    exists|i: int|
        0 <= i < names.len() && without_all(#[trigger] names[i], ":latest"@) == without_all(
            model,
            ":latest"@,
        )
}

/// What is said of a model at an address.
pub open spec fn model_message(requested: Seq<char>, model: Seq<char>, listed: bool) -> Seq<char> {
    if !listed {
        "Connected, but "@ + model + " is not available at this endpoint"@
    } else if requested == model {
        "Connected · "@ + requested + " is ready"@
    } else {
        "Connected · "@ + requested + " maps to "@ + model + " for direct Cloud"@
    }
}

fn strip_all(s: &str, suffix: &str) -> (r: String)
    requires
        suffix@.len() > 0,
    ensures
        r@ == without_all(s@, suffix@),
    decreases s@.len(),
{
    match text::strip_suffix(s, suffix) {
        Some(rest) => strip_all(rest.as_str(), suffix),
        None => s.to_owned(),
    }
}

fn read_models(body: &Json) -> (r: Vec<String>)
    ensures
        text::views(r@) == models(body.tree()),
{
    let list = json::get(Some(body), "models");
    let n: usize = json::list_len(list);
    let ghost items = json::items(json::seen(list));
    let mut found: Vec<String> = Vec::new();
    let mut i: usize = 0;
    assert(text::views(found@) =~= listed_names(items, 0));
    while i < n
        invariant
            i <= n,
            n == items.len(),
            items == json::items(json::seen(list)),
            text::views(found@) == listed_names(items, i as nat),
        decreases n - i,
    {
        let item = json::nth(list, i);
        let name: Option<String> = match json::as_text(json::get(item, "name")) {
            Some(name) => Some(name),
            None => json::as_text(json::get(item, "model")),
        };
        match name {
            Some(name) => {
                markdown::push_line(&mut found, name.as_str());
            },
            None => {},
        }
        i += 1;
    }
    names::sort_names(&found)
}

fn lists(names: &Vec<String>, model: &str) -> (r: bool)
    ensures
        r == is_listed(text::views(names@), model@),
{
    proof {
        reveal_strlit(":latest");
    }
    let ghost views = text::views(names@);
    let wanted = strip_all(model, ":latest");
    let mut i: usize = 0;
    while i < names.len()
        invariant
            i <= names@.len(),
            views == text::views(names@),
            ":latest"@.len() > 0,
            wanted@ == without_all(model@, ":latest"@),
            forall|j: int|
                0 <= j < i ==> without_all(#[trigger] views[j], ":latest"@) != without_all(
                    model@,
                    ":latest"@,
                ),
        decreases names@.len() - i,
    {
        assert(views[i as int] == names@[i as int]@);
        let name = strip_all(names[i].as_str(), ":latest");
        if text::same(name.as_str(), wanted.as_str()) {
            return true;
        }
        i += 1;
    }
    false
}

/// Tells whether a model can be used, given the list of models at an address.
pub fn ollama_models(host: Option<&str>, model: &str, body: &Json) -> (r: OllamaStatus)
    ensures
        r.available,
        text::views(r.models@) == models(body.tree()),
        r.model_available == is_listed(
            models(body.tree()),
            address::model_name(text::opt_str(host), text::trimmed(model@)),
        ),
        r.message@ == model_message(
            text::trimmed(model@),
            address::model_name(text::opt_str(host), text::trimmed(model@)),
            r.model_available,
        ),
{
    let requested = text::trim(model);
    let api_model = address::model_at(host, requested.as_str());
    let found = read_models(body);
    let listed: bool = lists(&found, api_model.as_str());
    let mut message: String = "Connected".to_owned();
    if !listed {
        message = "Connected, but ".to_owned();
        message.append(api_model.as_str());
        message.append(" is not available at this endpoint");
    } else if text::same(requested.as_str(), api_model.as_str()) {
        message = "Connected · ".to_owned();
        message.append(requested.as_str());
        message.append(" is ready");
    } else {
        message = "Connected · ".to_owned();
        message.append(requested.as_str());
        message.append(" maps to ");
        message.append(api_model.as_str());
        message.append(" for direct Cloud");
    }
    OllamaStatus { available: true, model_available: listed, message, models: found }
}

/// Whether a result is the one for an answer of Ollama.
pub open spec fn is_ollama_status(
    r: Result<OllamaStatus, String>,
    host: Option<Seq<char>>,
    model: Seq<char>,
    reply: Reply,
) -> bool {
    match reply {
        Reply::Offline => r matches Ok(status) && status.is_closed(
            false,
            "Ollama is offline. Playback and notes still work normally."@,
        ),
        Reply::Refused { code, status: name, .. } => r matches Ok(status) && status.is_closed(
            false,
            if code == 401 {
                "Ollama rejected the API key. Create or replace it in ollama.com settings."@
            } else {
                "Ollama returned HTTP "@ + name@ + "."@
            },
        ),
        Reply::Answer(Err(error)) => r matches Err(message) && message@
            == "Ollama returned an unreadable response: "@ + error@,
        Reply::Answer(Ok(body)) => {
            let found = models(body.tree());
            let name = address::model_name(host, text::trimmed(model));
            &&& r matches Ok(status)
            &&& status.available
            &&& text::views(status.models@) == found
            &&& status.model_available == is_listed(found, name)
            &&& status.message@ == model_message(text::trimmed(model), name, status.model_available)
        },
    }
}

/// Tells whether Ollama can be used, given how it answered.
pub fn check_ollama(host: Option<&str>, model: &str, reply: &Reply) -> (r: Result<
    OllamaStatus,
    String,
>)
    ensures
        is_ollama_status(r, text::opt_str(host), model@, *reply),
{
    match reply {
        Reply::Offline => Ok(
            closed(false, "Ollama is offline. Playback and notes still work normally."),
        ),
        Reply::Refused { code, status, detail: _ } => {
            if *code == 401 {
                return Ok(
                    closed(
                        false,
                        "Ollama rejected the API key. Create or replace it in ollama.com settings.",
                    ),
                );
            }
            let mut message: String = "Ollama returned HTTP ".to_owned();
            message.append(status.as_str());
            message.append(".");
            Ok(closed(false, message.as_str()))
        },
        Reply::Answer(Err(error)) => {
            let mut message: String = "Ollama returned an unreadable response: ".to_owned();
            message.append(error.as_str());
            Err(message)
        },
        Reply::Answer(Ok(body)) => Ok(ollama_models(host, model, body)),
    }
}

// ---------------------------------------------------------------------------
// Gemini
// ---------------------------------------------------------------------------

/// What is asked of Gemini to learn whether it can be used.
pub enum GeminiCheck {
    /// Nothing; the answer is known.
    Known(OllamaStatus),
    /// An address, with a key.
    Ask { model: String, endpoint: String, key: String },
}

/// Prepares the question whether Gemini can be used.
pub fn prepare_gemini_check(model: &str, api_key: &str) -> (r: Result<GeminiCheck, String>)
    ensures
        if text::trimmed(api_key@).len() == 0 {
            r matches Ok(GeminiCheck::Known(status)) && status.is_closed(
                false,
                "Enter a Gemini API key to connect."@,
            )
        } else {
            match gemini::model(model@) {
                Err(error) => r matches Err(message) && message@ == error,
                Ok(name) => r matches Ok(GeminiCheck::Ask { model: asked, endpoint, key })
                    && asked@ == name && endpoint@ == gemini::model_address(name) && key@
                    == text::trimmed(api_key@),
            }
        },
{
    let key = text::trim(api_key);
    if key.as_str().is_empty() {
        return Ok(GeminiCheck::Known(closed(false, "Enter a Gemini API key to connect.")));
    }
    match gemini::gemini_model_name(model) {
        Ok(name) => {
            let endpoint = gemini::write_model_address(name.as_str());
            Ok(GeminiCheck::Ask { model: name, endpoint, key })
        },
        Err(message) => Err(message),
    }
}

/// What is said where Gemini refused, given what was read from its answer.
pub open spec fn gemini_refusal(read: Result<Tree, Seq<char>>, status: Seq<char>) -> Seq<char> {
    let said = match read {
        Ok(body) => json::string(json::field(json::field(Some(body), "error"@), "message"@)),
        Err(_) => None,
    };
    match said {
        Some(message) => message,
        None => "Gemini returned HTTP "@ + status + "."@,
    }
}

/// Tells what is said where Gemini refused, given what was read from its
/// answer.
pub fn refusal_message(read: &Result<Json, String>, status: &str) -> (r: String)
    ensures
        r@ == gemini_refusal(json::read(*read), status@),
{
    match read {
        Ok(body) => match json::as_text(json::get(json::get(Some(body), "error"), "message")) {
            Some(message) => {
                return message;
            },
            None => {},
        },
        Err(_) => {},
    }
    let mut out: String = "Gemini returned HTTP ".to_owned();
    out.append(status);
    out.append(".");
    out
}

/// Whether a status is the one for an answer of Gemini.
pub open spec fn is_gemini_status(status: OllamaStatus, model: Seq<char>, reply: Reply) -> bool {
    match reply {
        Reply::Offline => status.is_closed(
            false,
            "Could not reach the Gemini API. Playback and notes still work normally."@,
        ),
        Reply::Refused { code, status: name, detail } => status.is_closed(
            500 <= code < 600,
            gemini_refusal(json::document(crate::fingerprint::utf8(detail@)), name@),
        ),
        Reply::Answer(_) => {
            &&& status.available
            &&& status.model_available
            &&& status.message@ == "Connected · "@ + model + " accepts native audio and vision"@
            &&& text::views(status.models@) == seq![model]
        },
    }
}

/// Tells whether Gemini can be used, given how it answered.
pub fn check_gemini(model: &str, reply: &Reply) -> (r: OllamaStatus)
    ensures
        is_gemini_status(r, model@, *reply),
{
    match reply {
        Reply::Offline => closed(
            false,
            "Could not reach the Gemini API. Playback and notes still work normally.",
        ),
        Reply::Refused { code, status, detail } => {
            let read = json::parse_json(detail.as_str().as_bytes());
            let message = refusal_message(&read, status.as_str());
            closed(500 <= *code && *code < 600, message.as_str())
        },
        Reply::Answer(_) => {
            let mut message: String = "Connected · ".to_owned();
            message.append(model);
            message.append(" accepts native audio and vision");
            let mut models: Vec<String> = Vec::new();
            markdown::push_line(&mut models, model);
            assert(text::views(models@) =~= seq![model@]);
            OllamaStatus { available: true, model_available: true, message, models }
        },
    }
}

} // verus!
