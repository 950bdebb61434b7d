//! Native audio and vision analysis with Gemini.

use vstd::prelude::*;

use crate::json;
use crate::json::Fields;
use crate::json::Items;
use crate::json::Json;
use crate::json::Tree;
use crate::markdown;
use crate::number;
use crate::number::Binary64;
use crate::text;
use crate::transcript;
use crate::transcript::Cue;
use crate::transcript::TranscriptCue;

verus! {

// ---------------------------------------------------------------------------
// Names of models
// ---------------------------------------------------------------------------

/// Whether a character may stand in the name of a model.
pub open spec fn is_model_char(c: char) -> bool {
    text::is_alphanumeric(c) || c == '-' || c == '_' || c == '.'
}

/// Whether a text is the name of a model.
pub open spec fn is_model(s: Seq<char>) -> bool {
    s.len() > 0 && forall|i: int| 0 <= i < s.len() ==> is_model_char(#[trigger] s[i])
}

/// The name in what was entered for a model.
pub open spec fn entered_model(value: Seq<char>) -> Seq<char> {
    match text::without_prefix(text::trimmed(value), "models/"@) {
        Some(name) => name,
        None => text::trimmed(value),
    }
}

/// The name of a model, or why there is none.
pub open spec fn model(value: Seq<char>) -> Result<Seq<char>, Seq<char>> {
    if is_model(entered_model(value)) {
        Ok(entered_model(value))
    } else {
        Err("Enter a valid Gemini model name, for example gemini-3.6-flash."@)
    }
}

fn all_model_chars(s: &str) -> (r: bool)
    ensures
        r == forall|i: int| 0 <= i < s@.len() ==> is_model_char(#[trigger] s@[i]),
{
    let chars = text::chars_of(s);
    let mut i: usize = 0;
    while i < chars.len()
        invariant
            i <= chars@.len(),
            chars@ == s@,
            forall|j: int| 0 <= j < i ==> is_model_char(#[trigger] s@[j]),
        decreases chars@.len() - i,
    {
        let c: char = chars[i];
        if !(text::alphanumeric(c) || c == '-' || c == '_' || c == '.') {
            assert(!is_model_char(s@[i as int]));
            return false;
        }
        i += 1;
    }
    true
}

/// Reads the name of a model.
pub fn gemini_model_name(value: &str) -> (r: Result<String, String>)
    ensures
        text::told(r) == model(value@),
{
    let plain = text::trim(value);
    let name: String = match text::strip_prefix(plain.as_str(), "models/") {
        Some(name) => name,
        None => plain,
    };
    if name.as_str().is_empty() || !all_model_chars(name.as_str()) {
        return Err("Enter a valid Gemini model name, for example gemini-3.6-flash.".to_owned());
    }
    Ok(name)
}

// ---------------------------------------------------------------------------
// The request
// ---------------------------------------------------------------------------

/// An object with one field.
pub open spec fn wrapped(name: Seq<char>, value: Tree) -> Tree {
    Tree::Object(seq![(name, value)])
}

/// The description of a value: its type and its meaning.
pub open spec fn described(kind: Seq<char>, meaning: Seq<char>) -> Tree {
    Tree::Object(
        seq![("type"@, Tree::Text(kind)), ("description"@, Tree::Text(meaning))],
    )
}

/// The description of a time: a number from zero on.
pub open spec fn described_time(meaning: Seq<char>) -> Tree {
    Tree::Object(
        seq![
            ("type"@, Tree::Text("number"@)),
            ("minimum"@, Tree::Number("0"@)),
            ("description"@, Tree::Text(meaning)),
        ],
    )
}

/// The description of a passage of speech.
pub open spec fn cue_schema() -> Tree {
    Tree::Object(
        seq![
            ("type"@, Tree::Text("object"@)),
            (
                "properties"@,
                Tree::Object(
                    seq![
                        (
                            "start"@,
                            described_time(
                                "Cue start in seconds relative to the beginning of this audio chunk."@,
                            ),
                        ),
                        (
                            "end"@,
                            described_time(
                                "Cue end in seconds relative to the beginning of this audio chunk."@,
                            ),
                        ),
                        (
                            "text"@,
                            described(
                                "string"@,
                                "Exact words as spoken, kept in the original language without translation or cleanup."@,
                            ),
                        ),
                        (
                            "speaker"@,
                            described(
                                "string"@,
                                "Stable speaker label such as Speaker 1, or Unknown when indistinguishable."@,
                            ),
                        ),
                        (
                            "language"@,
                            described(
                                "string"@,
                                "BCP-47 language code such as sk or en; use mixed for a code-switched cue."@,
                            ),
                        ),
                    ],
                ),
            ),
            (
                "required"@,
                Tree::List(
                    seq![
                        Tree::Text("start"@),
                        Tree::Text("end"@),
                        Tree::Text("text"@),
                        Tree::Text("speaker"@),
                        Tree::Text("language"@),
                    ],
                ),
            ),
        ],
    )
}

/// The description of the answer that is asked for.
pub open spec fn answer_schema() -> Tree {
    Tree::Object(
        seq![
            ("type"@, Tree::Text("object"@)),
            (
                "properties"@,
                Tree::Object(
                    seq![
                        (
                            "summary"@,
                            described(
                                "string"@,
                                "A concrete English timeline summary of the chunk."@,
                            ),
                        ),
                        (
                            "transcript"@,
                            Tree::Object(
                                seq![
                                    ("type"@, Tree::Text("array"@)),
                                    (
                                        "description"@,
                                        Tree::Text(
                                            "Verbatim spoken-language subtitle cues. Empty when no intelligible speech is audible."@,
                                        ),
                                    ),
                                    ("items"@, cue_schema()),
                                ],
                            ),
                        ),
                    ],
                ),
            ),
            ("required"@, Tree::List(seq![Tree::Text("summary"@), Tree::Text("transcript"@)])),
        ],
    )
}

/// How an answer is to be generated.
pub open spec fn generation_config() -> Tree {
    Tree::Object(
        seq![
            ("maxOutputTokens"@, Tree::Number("8192"@)),
            ("thinkingConfig"@, wrapped("thinkingLevel"@, Tree::Text("minimal"@))),
            (
                "responseFormat"@,
                wrapped(
                    "text"@,
                    Tree::Object(
                        seq![
                            ("mimeType"@, Tree::Text("APPLICATION_JSON"@)),
                            ("schema"@, answer_schema()),
                        ],
                    ),
                ),
            ),
        ],
    )
}

fn wrap(name: &str, value: Json) -> (r: Json)
    ensures
        r.tree() == wrapped(name@, value.tree()),
{
    Fields::new().with(name, value).object()
}

fn describe(kind: &str, meaning: &str) -> (r: Json)
    ensures
        r.tree() == described(kind@, meaning@),
{
    let fields = Fields::new().with("type", json::text_value(kind)).with(
        "description",
        json::text_value(meaning),
    );
    assert(fields.content() =~= described(kind@, meaning@)->Object_0);
    fields.object()
}

fn describe_time(meaning: &str) -> (r: Json)
    ensures
        r.tree() == described_time(meaning@),
{
    let fields = Fields::new().with("type", json::text_value("number")).with(
        "minimum",
        json::number_value("0"),
    ).with("description", json::text_value(meaning));
    assert(fields.content() =~= described_time(meaning@)->Object_0);
    fields.object()
}

fn write_cue_schema() -> (r: Json)
    ensures
        r.tree() == cue_schema(),
{
    let properties = Fields::new().with(
        "start",
        describe_time("Cue start in seconds relative to the beginning of this audio chunk."),
    ).with(
        "end",
        describe_time("Cue end in seconds relative to the beginning of this audio chunk."),
    ).with(
        "text",
        describe(
            "string",
            "Exact words as spoken, kept in the original language without translation or cleanup.",
        ),
    ).with(
        "speaker",
        describe(
            "string",
            "Stable speaker label such as Speaker 1, or Unknown when indistinguishable.",
        ),
    ).with(
        "language",
        describe(
            "string",
            "BCP-47 language code such as sk or en; use mixed for a code-switched cue.",
        ),
    );
    let required = Items::new().with(json::text_value("start")).with(json::text_value("end")).with(
        json::text_value("text"),
    ).with(json::text_value("speaker")).with(json::text_value("language"));
    let ghost schema = cue_schema()->Object_0;
    assert(properties.content() =~= schema[1].1->Object_0);
    assert(required.content() =~= schema[2].1->List_0);
    let fields = Fields::new().with("type", json::text_value("object")).with(
        "properties",
        properties.object(),
    ).with("required", required.list());
    assert(fields.content() =~= schema);
    fields.object()
}

fn write_answer_schema() -> (r: Json)
    ensures
        r.tree() == answer_schema(),
{
    let transcript = Fields::new().with("type", json::text_value("array")).with(
        "description",
        json::text_value(
            "Verbatim spoken-language subtitle cues. Empty when no intelligible speech is audible.",
        ),
    ).with("items", write_cue_schema());
    let ghost schema = answer_schema()->Object_0;
    assert(transcript.content() =~= schema[1].1->Object_0[1].1->Object_0);
    let properties = Fields::new().with(
        "summary",
        describe("string", "A concrete English timeline summary of the chunk."),
    ).with("transcript", transcript.object());
    let required = Items::new().with(json::text_value("summary")).with(
        json::text_value("transcript"),
    );
    assert(properties.content() =~= schema[1].1->Object_0);
    assert(required.content() =~= schema[2].1->List_0);
    let fields = Fields::new().with("type", json::text_value("object")).with(
        "properties",
        properties.object(),
    ).with("required", required.list());
    assert(fields.content() =~= schema);
    fields.object()
}

/// Writes how an answer is to be generated.
pub fn gemini_generation_config() -> (r: Json)
    ensures
        r.tree() == generation_config(),
{
    let format = Fields::new().with("mimeType", json::text_value("APPLICATION_JSON")).with(
        "schema",
        write_answer_schema(),
    );
    let ghost config = generation_config()->Object_0;
    assert(format.content() =~= config[2].1->Object_0[0].1->Object_0);
    let fields = Fields::new().with("maxOutputTokens", json::number_value("8192")).with(
        "thinkingConfig",
        wrap("thinkingLevel", json::text_value("minimal")),
    ).with("responseFormat", wrap("text", format.object()));
    assert(fields.content() =~= config);
    fields.object()
}

/// A part of a request that holds data of a kind.
pub open spec fn inline_part(kind: Seq<char>, data: Seq<char>) -> Tree {
    wrapped(
        "inline_data"@,
        Tree::Object(seq![("mime_type"@, Tree::Text(kind)), ("data"@, Tree::Text(data))]),
    )
}

/// The parts of the first `n` images.
pub open spec fn image_parts(images: Seq<Seq<char>>, n: nat) -> Seq<Tree>
    decreases n,
{
    if n == 0 {
        Seq::empty()
    } else {
        image_parts(images, (n - 1) as nat).push(inline_part("image/jpeg"@, images[n - 1]))
    }
}

/// The parts of a request: the sound, the images and the words.
pub open spec fn parts(
    audio: Option<Seq<char>>,
    images: Seq<Seq<char>>,
    prompt: Seq<char>,
) -> Seq<Tree> {
    (match audio {
        Some(audio) => seq![inline_part("audio/aac"@, audio)],
        None => Seq::empty(),
    }) + image_parts(images, images.len()) + seq![wrapped("text"@, Tree::Text(prompt))]
}

/// A request for an analysis.
pub open spec fn request(
    audio: Option<Seq<char>>,
    images: Seq<Seq<char>>,
    prompt: Seq<char>,
) -> Tree {
    Tree::Object(
        seq![
            (
                "contents"@,
                Tree::List(
                    seq![
                        Tree::Object(
                            seq![
                                ("role"@, Tree::Text("user"@)),
                                ("parts"@, Tree::List(parts(audio, images, prompt))),
                            ],
                        ),
                    ],
                ),
            ),
            ("generationConfig"@, generation_config()),
        ],
    )
}

fn write_inline(kind: &str, data: &str) -> (r: Json)
    ensures
        r.tree() == inline_part(kind@, data@),
{
    let inner = Fields::new().with("mime_type", json::text_value(kind)).with(
        "data",
        json::text_value(data),
    );
    assert(inner.content() =~= inline_part(kind@, data@)->Object_0[0].1->Object_0);
    wrap("inline_data", inner.object())
}

fn write_parts(audio: Option<&str>, images: &Vec<String>, prompt: &str) -> (r: Json)
    ensures
        r.tree() == Tree::List(parts(text::opt_str(audio), text::views(images@), prompt@)),
{
    let ghost views = text::views(images@);
    let mut out = Items::new();
    match audio {
        Some(audio) => {
            out = out.with(write_inline("audio/aac", audio));
        },
        None => {},
    }
    let ghost front = out.content();
    let mut i: usize = 0;
    assert(front =~= front + image_parts(views, 0));
    while i < images.len()
        invariant
            i <= images@.len(),
            views == text::views(images@),
            out.content() == front + image_parts(views, i as nat),
        decreases images@.len() - i,
    {
        assert(views[i as int] == images@[i as int]@);
        out = out.with(write_inline("image/jpeg", images[i].as_str()));
        i += 1;
        assert(out.content() =~= front + image_parts(views, i as nat));
    }
    out = out.with(wrap("text", json::text_value(prompt)));
    assert(out.content() =~= parts(text::opt_str(audio), views, prompt@));
    out.list()
}

/// Writes a request for an analysis. Sound and images are given in Base64.
pub fn write_request(audio: Option<&str>, images: &Vec<String>, prompt: &str) -> (r: Json)
    ensures
        r.tree() == request(text::opt_str(audio), text::views(images@), prompt@),
{
    let content = Fields::new().with("role", json::text_value("user")).with(
        "parts",
        write_parts(audio, images, prompt),
    );
    let ghost whole = request(text::opt_str(audio), text::views(images@), prompt@)->Object_0;
    assert(content.content() =~= whole[0].1->List_0[0]->Object_0);
    let list = Items::new().with(content.object());
    assert(list.content() =~= whole[0].1->List_0);
    let fields = Fields::new().with("contents", list.list()).with(
        "generationConfig",
        gemini_generation_config(),
    );
    assert(fields.content() =~= whole);
    fields.object()
}

/// The address of a model.
pub open spec fn model_address(model: Seq<char>) -> Seq<char> {
    "https://generativelanguage.googleapis.com/v1beta/models/"@ + model
}

pub(crate) fn write_model_address(model: &str) -> (r: String)
    ensures
        r@ == model_address(model@),
{
    let mut out: String = "https://generativelanguage.googleapis.com/v1beta/models/".to_owned();
    out.append(model);
    out
}

/// A call of Gemini.
pub struct GeminiCall {
    pub endpoint: String,
    pub key: String,
    pub body: Json,
}

/// Why Gemini is not called, where it is not.
pub open spec fn call_refusal(model: Seq<char>, key: Seq<char>) -> Option<Seq<char>> {
    if text::trimmed(key).len() == 0 {
        Some("Enter a Gemini API key before starting native audio analysis."@)
    } else {
        match self::model(model) {
            Ok(_) => None,
            Err(message) => Some(message),
        }
    }
}

/// Prepares an analysis with Gemini.
pub fn analyze_with_gemini(
    model: &str,
    api_key: &str,
    prompt: &str,
    images: &Vec<String>,
    audio: Option<&str>,
) -> (r: Result<GeminiCall, String>)
    ensures
        match r {
            Ok(call) => {
                &&& call_refusal(model@, api_key@) is None
                &&& call.endpoint@ == model_address(entered_model(model@)) + ":generateContent"@
                &&& call.key@ == text::trimmed(api_key@)
                &&& call.body.tree() == request(
                    text::opt_str(audio),
                    text::views(images@),
                    prompt@,
                )
            },
            Err(message) => call_refusal(model@, api_key@) == Some(message@),
        },
{
    let key = text::trim(api_key);
    if key.as_str().is_empty() {
        return Err("Enter a Gemini API key before starting native audio analysis.".to_owned());
    }
    match gemini_model_name(model) {
        Ok(name) => {
            let mut endpoint: String = write_model_address(name.as_str());
            endpoint.append(":generateContent");
            Ok(GeminiCall { endpoint, key, body: write_request(audio, images, prompt) })
        },
        Err(message) => Err(message),
    }
}

// ---------------------------------------------------------------------------
// Errors
// ---------------------------------------------------------------------------

/// What is said of a field that was refused.
pub open spec fn violation(tree: Tree) -> Seq<char> {
    let field = match json::string(json::field(Some(tree), "field"@)) {
        Some(name) => name,
        None => "request"@,
    };
    let reason = match json::string(json::field(Some(tree), "description"@)) {
        Some(reason) => reason,
        None => match json::string(json::field(Some(tree), "reason"@)) {
            Some(reason) => reason,
            None => "invalid value"@,
        },
    };
    field + ": "@ + reason
}

/// What is said of the first `n` fields that were refused.
pub open spec fn violations(list: Seq<Tree>, n: nat) -> Seq<Seq<char>>
    decreases n,
{
    if n == 0 {
        Seq::empty()
    } else {
        violations(list, (n - 1) as nat).push(violation(list[n - 1]))
    }
}

/// The refused fields of a detail.
pub open spec fn refused(detail: Tree) -> Seq<Tree> {
    json::items(json::field(Some(detail), "fieldViolations"@))
}

/// What the first `n` details say.
pub open spec fn all_violations(details: Seq<Tree>, n: nat) -> Seq<Seq<char>>
    decreases n,
{
    if n == 0 {
        Seq::empty()
    } else {
        all_violations(details, (n - 1) as nat) + violations(
            refused(details[n - 1]),
            refused(details[n - 1]).len(),
        )
    }
}

/// What the body of an error says.
pub open spec fn messages(body: Tree) -> Seq<Seq<char>> {
    let error = json::field(Some(body), "error"@);
    let details = json::items(json::field(error, "details"@));
    (match json::string(json::field(error, "message"@)) {
        Some(message) => seq![message],
        None => Seq::empty(),
    }) + all_violations(details, details.len())
}

/// What is told of an error, given what was read from its text.
pub open spec fn error_text(read: Result<Tree, Seq<char>>, detail: Seq<char>) -> Seq<char> {
    match read {
        Ok(body) if messages(body).len() > 0 => text::joined(messages(body), " · "@),
        _ => text::head(detail, 1200),
    }
}

fn write_violation(item: &Json) -> (r: String)
    ensures
        r@ == violation(item.tree()),
{
    let mut out: String = match json::as_text(json::get(Some(item), "field")) {
        Some(name) => name,
        None => "request".to_owned(),
    };
    out.append(": ");
    match json::as_text(json::get(Some(item), "description")) {
        Some(reason) => {
            out.append(reason.as_str());
        },
        None => match json::as_text(json::get(Some(item), "reason")) {
            Some(reason) => {
                out.append(reason.as_str());
            },
            None => {
                out.append("invalid value");
            },
        },
    }
    out
}

fn add_violations(messages: &mut Vec<String>, detail: &Json)
    ensures
        text::views(final(messages)@) == text::views(old(messages)@) + violations(
            refused(detail.tree()),
            refused(detail.tree()).len(),
        ),
{
    let list = json::get(Some(detail), "fieldViolations");
    let n: usize = json::list_len(list);
    let ghost items = refused(detail.tree());
    let ghost before = text::views(messages@);
    let mut i: usize = 0;
    assert(before =~= before + violations(items, 0));
    while i < n
        invariant
            i <= n,
            n == items.len(),
            items == json::items(json::seen(list)),
            text::views(messages@) == before + violations(items, i as nat),
        decreases n - i,
    {
        match json::nth(list, i) {
            Some(item) => {
                assert(item.tree() == items[i as int]);
                let line = write_violation(item);
                markdown::push_line(messages, line.as_str());
            },
            None => {
                assert(false);
            },
        }
        i += 1;
        assert(text::views(messages@) =~= before + violations(items, i as nat));
    }
}

fn read_messages(body: &Json) -> (r: Vec<String>)
    ensures
        text::views(r@) == messages(body.tree()),
{
    let error = json::get(Some(body), "error");
    let details = json::get(error, "details");
    let n: usize = json::list_len(details);
    let ghost list = json::items(json::seen(details));
    let mut out: Vec<String> = Vec::new();
    match json::as_text(json::get(error, "message")) {
        Some(message) => {
            markdown::push_line(&mut out, message.as_str());
        },
        None => {},
    }
    let ghost front = text::views(out@);
    let mut i: usize = 0;
    assert(front =~= front + all_violations(list, 0));
    while i < n
        invariant
            i <= n,
            n == list.len(),
            list == json::items(json::seen(details)),
            text::views(out@) == front + all_violations(list, i as nat),
        decreases n - i,
    {
        match json::nth(details, i) {
            Some(detail) => {
                assert(detail.tree() == list[i as int]);
                add_violations(&mut out, detail);
            },
            None => {
                assert(false);
            },
        }
        i += 1;
        assert(text::views(out@) =~= front + all_violations(list, i as nat));
    }
    assert(text::views(out@) =~= messages(body.tree()));
    out
}

/// Tells what an error says, given what was read from its text.
pub fn describe_error(read: &Result<Json, String>, detail: &str) -> (r: String)
    ensures
        r@ == error_text(json::read(*read), detail@),
{
    match read {
        Ok(body) => {
            let found = read_messages(body);
            assert(text::views(found@).len() == found@.len());
            if found.len() > 0 {
                return text::join(&found, " · ");
            }
        },
        Err(_) => {},
    }
    text::take(detail, 1200)
}

/// Tells what the text of an error says.
pub fn gemini_error_message(detail: &str) -> (r: String)
    ensures
        r@ == error_text(json::document(crate::fingerprint::utf8(detail@)), detail@),
{
    let read = json::parse_json(detail.as_bytes());
    describe_error(&read, detail)
}

/// Tells that Gemini refused a request, with the status that it gave.
pub fn gemini_failure(status: &str, detail: &str) -> (r: String)
    ensures
        r@ == "Gemini returned HTTP "@ + status@ + ": "@ + error_text(
            json::document(crate::fingerprint::utf8(detail@)),
            detail@,
        ),
{
    let mut out: String = "Gemini returned HTTP ".to_owned();
    out.append(status);
    out.append(": ");
    out.append(gemini_error_message(detail).as_str());
    out
}

// ---------------------------------------------------------------------------
// The answer
// ---------------------------------------------------------------------------

/// The text of the first `n` parts of an answer, without the thoughts.
pub open spec fn spoken_parts(parts: Seq<Tree>, n: nat) -> Seq<Seq<char>>
    decreases n,
{
    if n == 0 {
        Seq::empty()
    } else {
        let before = spoken_parts(parts, (n - 1) as nat);
        let part = Some(parts[n - 1]);
        match json::string(json::field(part, "text"@)) {
            Some(words) if json::truth(json::field(part, "thought"@)) != Some(true) => before.push(
                words,
            ),
            _ => before,
        }
    }
}

/// The first candidate of an answer.
pub open spec fn candidate(body: Tree) -> Option<Tree> {
    json::item(json::field(Some(body), "candidates"@), 0)
}

/// The words of an answer.
pub open spec fn answer_words(body: Tree) -> Seq<char> {
    let list = json::items(json::field(json::field(candidate(body), "content"@), "parts"@));
    text::joined(spoken_parts(list, list.len()), " "@)
}

/// The text of an answer, or why there is none.
pub open spec fn answer_text(body: Tree) -> Result<Seq<char>, Seq<char>> {
    let reason = match json::string(json::field(candidate(body), "finishReason"@)) {
        Some(reason) => reason,
        None => "UNKNOWN"@,
    };
    if reason == "MAX_TOKENS"@ {
        Err(
            "Gemini used its output budget before completing the summary and transcript. Resume to retry this chunk."@,
        )
    } else if reason != "STOP"@ && reason != "UNKNOWN"@ {
        Err(
            "Gemini did not complete this analysis ("@ + reason
                + "). Resume to retry the chunk."@,
        )
    } else if text::trimmed(answer_words(body)).len() == 0 {
        Err("Gemini returned no analysis for this chunk."@)
    } else {
        Ok(text::trimmed(answer_words(body)))
    }
}

fn read_words(body: &Json) -> (r: String)
    ensures
        r@ == answer_words(body.tree()),
{
    let first = json::nth(json::get(Some(body), "candidates"), 0);
    let list = json::get(json::get(first, "content"), "parts");
    let n: usize = json::list_len(list);
    let ghost items = json::items(json::seen(list));
    let mut words: Vec<String> = Vec::new();
    let mut i: usize = 0;
    assert(text::views(words@) =~= spoken_parts(items, 0));
    while i < n
        invariant
            i <= n,
            n == items.len(),
            items == json::items(json::seen(list)),
            text::views(words@) == spoken_parts(items, i as nat),
        decreases n - i,
    {
        let part = json::nth(list, i);
        let thought: bool = match json::as_bool(json::get(part, "thought")) {
            Some(flag) => flag,
            None => false,
        };
        if !thought {
            match json::as_text(json::get(part, "text")) {
                Some(s) => {
                    markdown::push_line(&mut words, s.as_str());
                },
                None => {},
            }
        }
        i += 1;
    }
    text::join(&words, " ")
}

/// Reads the text of an answer, which holds a summary and a transcript.
pub fn gemini_text(body: &Json) -> (r: Result<String, String>)
    ensures
        text::told(r) == answer_text(body.tree()),
{
    let first = json::nth(json::get(Some(body), "candidates"), 0);
    let reason: String = match json::as_text(json::get(first, "finishReason")) {
        Some(reason) => reason,
        None => "UNKNOWN".to_owned(),
    };
    if text::same(reason.as_str(), "MAX_TOKENS") {
        return Err(
            "Gemini used its output budget before completing the summary and transcript. Resume to retry this chunk.".to_owned(),
        );
    }
    if !text::same(reason.as_str(), "STOP") && !text::same(reason.as_str(), "UNKNOWN") {
        let mut message: String = "Gemini did not complete this analysis (".to_owned();
        message.append(reason.as_str());
        message.append("). Resume to retry the chunk.");
        return Err(message);
    }
    let words = text::trim(read_words(body).as_str());
    if words.as_str().is_empty() {
        return Err("Gemini returned no analysis for this chunk.".to_owned());
    }
    Ok(words)
}

/// A passage of speech as it was answered, from the start of the sound.
pub struct GeminiTranscriptCue {
    pub start: Binary64,
    pub end: Binary64,
    pub text: String,
    pub speaker: String,
    pub language: String,
}

impl View for GeminiTranscriptCue {
    type V = Cue;

    open spec fn view(&self) -> Cue {
        Cue {
            start: self.start,
            end: self.end,
            text: self.text@,
            speaker: self.speaker@,
            language: self.language@,
        }
    }
}

/// The content of answered passages.
pub open spec fn answered(cues: Seq<GeminiTranscriptCue>) -> Seq<Cue> {
    Seq::new(cues.len(), |i: int| cues[i]@)
}

/// A summary and a transcript as they were answered.
pub struct GeminiPayload {
    pub summary: String,
    pub transcript: Vec<GeminiTranscriptCue>,
}

/// An analysis.
pub struct GeminiAnalysis {
    pub summary: String,
    pub transcript_cues: Vec<TranscriptCue>,
}

/// The length of a piece, one second at least.
pub open spec fn piece_length(duration: Binary64) -> Binary64 {
    duration.upper(number::natural(1))
}

/// The passage within a piece of a length, where anything of it is left.
pub open spec fn held_cue(cue: Cue, length: Binary64) -> Option<Cue> {
    let start = cue.start.held(number::zero(), length);
    let end = cue.end.held(start, length);
    let text = markdown::entry_text(cue.text);
    if cue.start.finite() && cue.end.finite() && start.lt(end) && text != "Untitled note"@ {
        Some(
            Cue {
                start,
                end,
                text,
                speaker: markdown::metadata(cue.speaker, "Unknown"@),
                language: markdown::metadata(cue.language, "unknown"@),
            },
        )
    } else {
        None
    }
}

/// The passages that are kept of the first `n`.
pub open spec fn held_cues(cues: Seq<Cue>, length: Binary64, n: nat) -> Seq<Cue>
    decreases n,
{
    if n == 0 {
        Seq::empty()
    } else {
        let before = held_cues(cues, length, (n - 1) as nat);
        match held_cue(cues[n - 1], length) {
            Some(cue) => before.push(cue),
            None => before,
        }
    }
}

/// A summary without the marks of a list or a heading before it.
pub open spec fn plain_summary(summary: Seq<char>) -> Seq<char> {
    markdown::entry_text(text::drop_leading(text::trimmed(summary), text::among("-*# "@)))
}

/// Cleans a summary.
pub fn clean_summary(summary: &str) -> (r: String)
    ensures
        r@ == plain_summary(summary@),
{
    let plain = text::trim_start_matches(text::trim(summary).as_str(), "-*# ");
    markdown::sanitize_entry_text(plain.as_str())
}

proof fn lemma_one()
    ensures
        number::zero().le(number::natural(1)),
        !number::natural(1).is_nan(),
{
    let f = number::double();
    let p = vstd::arithmetic::power2::pow2(1074);
    number::lemma_nearest_exists(f, 1 * p, 1);
    number::lemma_first_steps(f);
}

fn hold_cue(cue: &GeminiTranscriptCue, length: Binary64) -> (r: Option<TranscriptCue>)
    requires
        number::zero().le(length),
    ensures
        match r {
            Some(held) => held_cue(cue@, length) == Some(held@),
            None => held_cue(cue@, length) is None,
        },
{
    if !cue.start.is_finite() || !cue.end.is_finite() {
        return None;
    }
    let start: Binary64 = cue.start.clamp(Binary64 { bits: 0 }, length);
    let end: Binary64 = cue.end.clamp(start, length);
    let text = markdown::sanitize_entry_text(cue.text.as_str());
    if !start.less(end) || text::same(text.as_str(), "Untitled note") {
        return None;
    }
    Some(
        TranscriptCue {
            start_seconds: start,
            end_seconds: end,
            text,
            speaker: markdown::sanitize_metadata(cue.speaker.as_str(), "Unknown"),
            language: markdown::sanitize_metadata(cue.language.as_str(), "unknown"),
        },
    )
}

/// Makes an analysis of what was answered for a piece of a length.
pub fn gemini_analysis(payload: &GeminiPayload, chunk_duration: Binary64) -> (r: GeminiAnalysis)
    ensures
        r.summary@ == plain_summary(payload.summary@),
        transcript::cues_of(r.transcript_cues@) == held_cues(
            answered(payload.transcript@),
            piece_length(chunk_duration),
            transcript::read_count(payload.transcript@.len()),
        ),
{
    let length: Binary64 = chunk_duration.max(Binary64::from_u64(1));
    proof {
        lemma_one();
    }
    let total: usize = payload.transcript.len();
    let n: usize = if total < transcript::CUE_LIMIT {
        total
    } else {
        transcript::CUE_LIMIT
    };
    let ghost cues = answered(payload.transcript@);
    let mut out: Vec<TranscriptCue> = Vec::new();
    let mut i: usize = 0;
    assert(transcript::cues_of(out@) =~= held_cues(cues, length, 0));
    while i < n
        invariant
            i <= n <= payload.transcript@.len(),
            cues == answered(payload.transcript@),
            number::zero().le(length),
            transcript::cues_of(out@) == held_cues(cues, length, i as nat),
        decreases n - i,
    {
        assert(cues[i as int] == payload.transcript@[i as int]@);
        match hold_cue(&payload.transcript[i], length) {
            Some(cue) => {
                let ghost before = transcript::cues_of(out@);
                let ghost added = cue@;
                out.push(cue);
                assert(transcript::cues_of(out@) =~= before.push(added));
            },
            None => {},
        }
        i += 1;
    }
    GeminiAnalysis {
        summary: clean_summary(payload.summary.as_str()),
        transcript_cues: out,
    }
}

} // verus!
