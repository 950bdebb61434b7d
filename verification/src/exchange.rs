//! What is sent to other services, and what is read of their answers.

use vstd::prelude::*;

use crate::address;
use crate::analysis;
use crate::chunk;
use crate::chunk::Action;
use crate::chunk::AnalysisChunkRequest;
use crate::chunk::ChunkEvent;
use crate::chunk::Stage;
use crate::digits;
use crate::encoding;
use crate::gemini;
use crate::json;
use crate::json::Tree;
use crate::names;
use crate::people;
use crate::providers;
use crate::relay;
use crate::selection;
use crate::text;

verus! {

// ---------------------------------------------------------------------------
// Documents
// ---------------------------------------------------------------------------

/// A field of a document is the first one of its name.
pub proof fn law_fields_are_found(fields: Seq<(Seq<char>, Tree)>, name: Seq<char>)
    ensures
        match json::field(Some(Tree::Object(fields)), name) {
            Some(value) => exists|k: int|
                0 <= k < fields.len() && #[trigger] fields[k] == (name, value) && forall|j: int|
                    0 <= j < k ==> (#[trigger] fields[j]).0 != name,
            None => forall|k: int| 0 <= k < fields.len() ==> (#[trigger] fields[k]).0 != name,
        },
{
    lemma_field(fields, name, 0);
}

proof fn lemma_field(fields: Seq<(Seq<char>, Tree)>, name: Seq<char>, from: int)
    requires
        0 <= from <= fields.len(),
        forall|j: int| 0 <= j < from ==> (#[trigger] fields[j]).0 != name,
    ensures
        match json::field_from(fields, name, from) {
            Some(value) => exists|k: int|
                0 <= k < fields.len() && #[trigger] fields[k] == (name, value) && forall|j: int|
                    0 <= j < k ==> (#[trigger] fields[j]).0 != name,
            None => forall|k: int| 0 <= k < fields.len() ==> (#[trigger] fields[k]).0 != name,
        },
    decreases fields.len() - from,
{
    if from < fields.len() {
        if fields[from].0 == name {
            assert(fields[from] == (name, fields[from].1));
        } else {
            lemma_field(fields, name, from + 1);
        }
    }
}

// ---------------------------------------------------------------------------
// The relay
// ---------------------------------------------------------------------------

/// Whether a header of a request is passed on to the session: one with a text,
/// that does not concern the connection itself.
pub open spec fn goes_through(field: (Seq<char>, Tree)) -> bool {
    let lower = encoding::lowercase(field.0);
    &&& field.1 is Text
    &&& lower != "host"@
    &&& lower != "connection"@
    &&& lower != "upgrade"@
}

/// The headers of a request reach the session as they were sent, in order, but
/// for those of the connection.
pub proof fn law_headers_go_through(fields: Seq<(Seq<char>, Tree)>, n: nat) -> (places: Seq<int>)
    requires
        n <= fields.len(),
    ensures
        selection::picks(places, n as int, |k: int| goes_through(fields[k])),
        relay::passed_headers(fields, n).len() == places.len(),
        forall|i: int|
            0 <= i < places.len() ==> (#[trigger] relay::passed_headers(fields, n)[i]).0
                == fields[places[i]].0 && Tree::Text(relay::passed_headers(fields, n)[i].1)
                == fields[places[i]].1,
    decreases n,
{
    let keeps = |k: int| goes_through(fields[k]);
    if n == 0 {
        selection::lemma_pick_none(keeps);
        Seq::empty()
    } else {
        let before = law_headers_go_through(fields, (n - 1) as nat);
        let kept = relay::passed_headers(fields, (n - 1) as nat);
        let all = relay::passed_headers(fields, n);
        selection::lemma_pick(before, n - 1, keeps);
        if keeps(n - 1) {
            let places = before.push(n - 1);
            assert forall|i: int| 0 <= i < places.len() implies (#[trigger] all[i]).0
                == fields[places[i]].0 && Tree::Text(all[i].1) == fields[places[i]].1 by {
                if i < before.len() {
                    assert(all[i] == kept[i]);
                    assert(places[i] == before[i]);
                }
            }
            places
        } else {
            before
        }
    }
}

/// A request that comes over the relay is made of the session on this computer:
/// with its method, its path and its body, or as a GET of the root where it
/// names none. What is no request, or has no number, is not made.
pub proof fn law_requests_are_relayed(data: Tree, port: nat)
    ensures
        ({
            let kind = json::string(json::field(Some(data), "type"@));
            let id = json::string(json::field(Some(data), "id"@));
            let method = json::string(json::field(Some(data), "method"@));
            let path = json::string(json::field(Some(data), "path"@));
            let body = json::string(json::field(Some(data), "body"@));
            let made = relay::relayed(data, port);
            &&& made is Some <==> kind == Some("http-request"@) && id is Some
            &&& made matches Some(request) ==> {
                &&& request.id == id->0
                &&& method is Some ==> request.method == method->0
                &&& method is None ==> request.method == "GET"@
                &&& request.url == "http://127.0.0.1:"@ + digits::decimal(port) + (if path is Some {
                    path->0
                } else {
                    "/"@
                })
                &&& body is None ==> request.body is None
                &&& body is Some ==> request.body == encoding::base64_bytes(body->0)
            }
        }),
{
}

/// Whether a list of headers ends with a value for a name: no later one has the
/// name.
pub open spec fn ends_with(
    headers: Seq<(Seq<char>, Seq<char>)>,
    name: Seq<char>,
    value: Seq<char>,
    n: int,
) -> bool {
    exists|k: int|
        0 <= k < n && #[trigger] headers[k] == (name, value) && forall|j: int|
            k < j < n ==> (#[trigger] headers[j]).0 != name
}

proof fn lemma_set(fields: Seq<(Seq<char>, Tree)>, name: Seq<char>, value: Tree, from: int)
    requires
        0 <= from <= fields.len(),
        forall|j: int| 0 <= j < from ==> (#[trigger] fields[j]).0 != name,
    ensures
        ({
            let after = relay::set_from(fields, name, value, from);
            &&& json::field_from(after, name, 0) == Some(value)
            &&& forall|other: Seq<char>|
                other != name ==> #[trigger] json::field_from(after, other, 0)
                    == json::field_from(fields, other, 0)
        }),
    decreases fields.len() - from,
{
    let after = relay::set_from(fields, name, value, from);
    if from < fields.len() && fields[from].0 != name {
        lemma_set(fields, name, value, from + 1);
    } else {
        let at = from;
        assert(after[at] == (name, value));
        assert forall|j: int| 0 <= j < at implies #[trigger] after[j] == fields[j] by {}
        lemma_found_at(after, name, at, 0);
        assert forall|other: Seq<char>| other != name implies #[trigger] json::field_from(
            after,
            other,
            0,
        ) == json::field_from(fields, other, 0) by {
            lemma_same_elsewhere(fields, after, name, at, other, 0);
        }
    }
}

proof fn lemma_found_at(fields: Seq<(Seq<char>, Tree)>, name: Seq<char>, at: int, from: int)
    requires
        0 <= from <= at < fields.len(),
        fields[at].0 == name,
        forall|j: int| 0 <= j < at ==> (#[trigger] fields[j]).0 != name,
    ensures
        json::field_from(fields, name, from) == Some(fields[at].1),
    decreases at - from,
{
    if from < at {
        lemma_found_at(fields, name, at, from + 1);
    }
}

proof fn lemma_same_elsewhere(
    fields: Seq<(Seq<char>, Tree)>,
    after: Seq<(Seq<char>, Tree)>,
    name: Seq<char>,
    at: int,
    other: Seq<char>,
    from: int,
)
    requires
        0 <= at <= fields.len(),
        0 <= from <= after.len(),
        other != name,
        at < fields.len() ==> fields[at].0 == name && after.len() == fields.len(),
        at == fields.len() ==> after.len() == fields.len() + 1,
        after[at].0 == name,
        forall|j: int| 0 <= j < fields.len() && j != at ==> #[trigger] after[j] == fields[j],
    ensures
        json::field_from(after, other, from) == json::field_from(fields, other, from),
    decreases after.len() - from,
{
    if from < after.len() {
        lemma_same_elsewhere(fields, after, name, at, other, from + 1);
        if from != at {
            assert(after[from] == fields[from]);
        }
    }
}

/// The headers of an answer are told by their names; of several with one name
/// the last one is told.
pub proof fn law_answered_headers_are_told(
    headers: Seq<(Seq<char>, Seq<char>)>,
    name: Seq<char>,
    n: nat,
)
    requires
        n <= headers.len(),
    ensures
        match json::field_from(relay::header_fields(headers, n), name, 0) {
            Some(told) => told is Text && ends_with(headers, name, told->Text_0, n as int),
            None => forall|k: int| 0 <= k < n ==> (#[trigger] headers[k]).0 != name,
        },
    decreases n,
{
    if n > 0 {
        law_answered_headers_are_told(headers, name, (n - 1) as nat);
        let before = relay::header_fields(headers, (n - 1) as nat);
        let last = headers[n - 1];
        lemma_set(before, last.0, Tree::Text(last.1), 0);
        if last.0 == name {
            assert(headers[n - 1] == (name, last.1));
            assert(ends_with(headers, name, last.1, n as int));
        } else {
            match json::field_from(before, name, 0) {
                Some(told) => {
                    let value = told->Text_0;
                    let k = choose|k: int|
                        0 <= k < n - 1 && #[trigger] headers[k] == (name, value) && forall|j: int|
                            k < j < n - 1 ==> (#[trigger] headers[j]).0 != name;
                    assert(headers[k] == (name, value));
                    assert(ends_with(headers, name, value, n as int));
                },
                None => {},
            }
        }
    }
}

/// An answer goes back under the number of its request, with its status; its
/// body goes with it, in Base64, up to a quarter of a mebibyte, and follows by
/// itself where it is longer.
pub proof fn law_answers_go_back(
    id: Seq<char>,
    status: nat,
    headers: Seq<(Seq<char>, Seq<char>)>,
    body: Seq<u8>,
)
    ensures
        ({
            let tree = Some(relay::answer(id, status, headers, body));
            &&& json::string(json::field(tree, "type"@)) == Some("http-response"@)
            &&& json::string(json::field(tree, "id"@)) == Some(id)
            &&& json::field(tree, "status"@) == Some(Tree::Number(digits::decimal(status)))
            &&& json::field(tree, "headers"@) == Some(
                Tree::Object(relay::header_fields(headers, headers.len())),
            )
            &&& body.len() <= 262_144 ==> json::string(json::field(tree, "body"@)) == Some(
                encoding::base64_text(body),
            ) && json::field(tree, "bodyLength"@) is None
            &&& body.len() > 262_144 ==> json::field(tree, "bodyLength"@) == Some(
                Tree::Number(digits::decimal(body.len())),
            ) && json::field(tree, "body"@) is None
        }),
{
    reveal_strlit("type");
    reveal_strlit("id");
    reveal_strlit("status");
    reveal_strlit("headers");
    reveal_strlit("body");
    reveal_strlit("bodyLength");
    assert("type"@.len() == 4 && "id"@.len() == 2 && "status"@.len() == 6 && "headers"@.len() == 7);
    assert("body"@.len() == 4 && "bodyLength"@.len() == 10);
    assert("type"@[0] == 't' && "body"@[0] == 'b');
    reveal_with_fuel(json::field_from, 7);
}

/// A session is registered at the relay under its code and its token.
pub proof fn law_registrations_are_read(
    code: Seq<char>,
    token: Seq<char>,
    host: Seq<char>,
    video: Seq<char>,
)
    ensures
        ({
            let tree = Some(relay::register_message(code, token, host, video));
            &&& json::string(json::field(tree, "type"@)) == Some("register"@)
            &&& json::string(json::field(tree, "code"@)) == Some(code)
            &&& json::string(json::field(tree, "token"@)) == Some(token)
            &&& json::string(json::field(tree, "hostName"@)) == Some(host)
            &&& json::string(json::field(tree, "videoName"@)) == Some(video)
        }),
{
    reveal_strlit("type");
    reveal_strlit("code");
    reveal_strlit("token");
    reveal_strlit("hostName");
    reveal_strlit("videoName");
    assert("type"@.len() == 4 && "code"@.len() == 4 && "token"@.len() == 5);
    assert("hostName"@.len() == 8 && "videoName"@.len() == 9);
    assert("type"@[0] == 't' && "code"@[0] == 'c');
    reveal_with_fuel(json::field_from, 7);
}

/// The relay took a session exactly where it says so.
pub proof fn law_registrations_are_confirmed(read: Result<Tree, Seq<char>>)
    ensures
        relay::registration_refusal(read) is None <==> (read matches Ok(data) && json::string(
            json::field(Some(data), "type"@),
        ) == Some("registered"@)),
        read is Ok && relay::registration_refusal(read) is Some ==> ({
            let said = json::string(json::field(Some(read->Ok_0), "message"@));
            said is Some ==> relay::registration_refusal(read) == said
        }),
{
}

// ---------------------------------------------------------------------------
// Gemini
// ---------------------------------------------------------------------------

proof fn lemma_gemini_names()
    ensures
        "contents"@.len() == 8 && "generationConfig"@.len() == 16,
        "role"@.len() == 4 && "parts"@.len() == 5,
        "mime_type"@.len() == 9 && "data"@.len() == 4,
{
    reveal_strlit("contents");
    reveal_strlit("generationConfig");
    reveal_strlit("role");
    reveal_strlit("parts");
    reveal_strlit("mime_type");
    reveal_strlit("data");
}

/// Whether a part of a question holds a sample of a kind.
pub open spec fn holds_sample(part: Tree, kind: Seq<char>, data: Seq<char>) -> bool {
    let inner = json::field(Some(part), "inline_data"@);
    &&& json::string(json::field(inner, "mime_type"@)) == Some(kind)
    &&& json::string(json::field(inner, "data"@)) == Some(data)
}

proof fn lemma_sample_part(kind: Seq<char>, data: Seq<char>)
    ensures
        holds_sample(gemini::inline_part(kind, data), kind, data),
{
    lemma_gemini_names();
    reveal_with_fuel(json::field_from, 4);
}

proof fn lemma_image_parts(images: Seq<Seq<char>>, n: nat)
    requires
        n <= images.len(),
    ensures
        gemini::image_parts(images, n).len() == n,
        forall|i: int|
            0 <= i < n ==> holds_sample(
                #[trigger] gemini::image_parts(images, n)[i],
                "image/jpeg"@,
                images[i],
            ),
    decreases n,
{
    if n > 0 {
        lemma_image_parts(images, (n - 1) as nat);
        lemma_sample_part("image/jpeg"@, images[n - 1]);
        let before = gemini::image_parts(images, (n - 1) as nat);
        let all = gemini::image_parts(images, n);
        assert forall|i: int| 0 <= i < n implies holds_sample(
            #[trigger] all[i],
            "image/jpeg"@,
            images[i],
        ) by {
            if i < n - 1 {
                assert(all[i] == before[i]);
            }
        }
    }
}

/// A question to Gemini holds the sound, where there is any, every frame in
/// order, and the words of the question behind them, and nothing else.
pub proof fn law_gemini_gets_all_samples(
    audio: Option<Seq<char>>,
    images: Seq<Seq<char>>,
    prompt: Seq<char>,
)
    ensures
        ({
            let tree = gemini::request(audio, images, prompt);
            let content = json::item(json::field(Some(tree), "contents"@), 0);
            let parts = json::items(json::field(content, "parts"@));
            let first = if audio is Some {
                1int
            } else {
                0int
            };
            &&& json::string(json::field(content, "role"@)) == Some("user"@)
            &&& json::field(Some(tree), "generationConfig"@) == Some(gemini::generation_config())
            &&& parts.len() == first + images.len() + 1
            &&& audio is Some ==> holds_sample(parts[0], "audio/aac"@, audio->0)
            &&& forall|i: int|
                0 <= i < images.len() ==> holds_sample(
                    #[trigger] parts[first + i],
                    "image/jpeg"@,
                    images[i],
                )
            &&& json::string(json::field(Some(parts.last()), "text"@)) == Some(prompt)
        }),
{
    lemma_gemini_names();
    let tree = gemini::request(audio, images, prompt);
    let all = gemini::parts(audio, images, prompt);
    let pictures = gemini::image_parts(images, images.len());
    lemma_image_parts(images, images.len());
    reveal_with_fuel(json::field_from, 4);
    let content = json::item(json::field(Some(tree), "contents"@), 0);
    assert(json::items(json::field(content, "parts"@)) == all);
    let first = if audio is Some {
        lemma_sample_part("audio/aac"@, audio->0);
        1int
    } else {
        0int
    };
    assert(all.len() == first + images.len() + 1);
    assert forall|i: int| 0 <= i < images.len() implies holds_sample(
        #[trigger] all[first + i],
        "image/jpeg"@,
        images[i],
    ) by {
        assert(all[first + i] == pictures[i]);
    }
    assert(all.last() == gemini::wrapped("text"@, Tree::Text(prompt)));
}

/// Whether a part of an answer is said: it has words, and is no thought.
pub open spec fn is_answer(part: Tree) -> bool {
    &&& json::string(json::field(Some(part), "text"@)) is Some
    &&& json::truth(json::field(Some(part), "thought"@)) != Some(true)
}

/// The words of an answer are those of its parts, in order, but for thoughts.
pub proof fn law_thoughts_are_left_out(parts: Seq<Tree>, n: nat) -> (places: Seq<int>)
    requires
        n <= parts.len(),
    ensures
        selection::picks(places, n as int, |k: int| is_answer(parts[k])),
        gemini::spoken_parts(parts, n).len() == places.len(),
        forall|i: int|
            0 <= i < places.len() ==> json::string(
                json::field(Some(parts[places[i]]), "text"@),
            ) == Some(#[trigger] gemini::spoken_parts(parts, n)[i]),
    decreases n,
{
    let keeps = |k: int| is_answer(parts[k]);
    if n == 0 {
        selection::lemma_pick_none(keeps);
        Seq::empty()
    } else {
        let before = law_thoughts_are_left_out(parts, (n - 1) as nat);
        let kept = gemini::spoken_parts(parts, (n - 1) as nat);
        let all = gemini::spoken_parts(parts, n);
        selection::lemma_pick(before, n - 1, keeps);
        if keeps(n - 1) {
            let places = before.push(n - 1);
            assert forall|i: int| 0 <= i < places.len() implies json::string(
                json::field(Some(parts[places[i]]), "text"@),
            ) == Some(#[trigger] all[i]) by {
                if i < before.len() {
                    assert(all[i] == kept[i]);
                    assert(places[i] == before[i]);
                }
            }
            places
        } else {
            before
        }
    }
}

/// An answer counts exactly where Gemini completed it, or does not say, and it
/// has words.
pub proof fn law_complete_answers_count(body: Tree)
    ensures
        ({
            let first = json::item(json::field(Some(body), "candidates"@), 0);
            let reason = json::string(json::field(first, "finishReason"@));
            let parts = json::items(json::field(json::field(first, "content"@), "parts"@));
            let words = text::trimmed(
                text::joined(gemini::spoken_parts(parts, parts.len()), " "@),
            );
            &&& gemini::answer_text(body) is Ok <==> words.len() > 0 && (reason is None || reason
                == Some("STOP"@) || reason == Some("UNKNOWN"@))
            &&& gemini::answer_text(body) is Ok ==> gemini::answer_text(body)->Ok_0 == words
        }),
{
    reveal_strlit("MAX_TOKENS");
    reveal_strlit("STOP");
    reveal_strlit("UNKNOWN");
    assert("MAX_TOKENS"@.len() == 10 && "STOP"@.len() == 4 && "UNKNOWN"@.len() == 7);
}

/// What Gemini says of an error is told, and where it cannot be read, the
/// beginning of its answer.
pub proof fn law_gemini_errors_are_told(read: Result<Tree, Seq<char>>, detail: Seq<char>)
    ensures
        read is Err ==> gemini::error_text(read, detail) == text::head(detail, 1200),
        read is Ok ==> ({
            let error = json::field(Some(read->Ok_0), "error"@);
            let said = json::string(json::field(error, "message"@));
            &&& said is Some && json::items(json::field(error, "details"@)).len() == 0
                ==> gemini::error_text(read, detail) == said->0
            &&& said is None && json::items(json::field(error, "details"@)).len() == 0
                ==> gemini::error_text(read, detail) == text::head(detail, 1200)
        }),
{
    if let Ok(body) = read {
        let error = json::field(Some(body), "error"@);
        let details = json::items(json::field(error, "details"@));
        if details.len() == 0 {
            assert(gemini::all_violations(details, 0) =~= Seq::<Seq<char>>::empty());
            if let Some(message) = json::string(json::field(error, "message"@)) {
                assert(gemini::messages(body) =~= seq![message]);
                assert(text::joined(seq![message], " · "@) == message);
            } else {
                assert(gemini::messages(body) =~= Seq::<Seq<char>>::empty());
            }
        }
    }
}

/// A model may be entered with or without the word in front of its name, and
/// with spaces around it.
pub proof fn law_model_names_are_read(name: Seq<char>)
    requires
        gemini::is_model(name),
    ensures
        gemini::model(name) == Ok::<Seq<char>, Seq<char>>(name),
        gemini::model("models/"@ + name) == Ok::<Seq<char>, Seq<char>>(name),
        gemini::model_address(name)
            == "https://generativelanguage.googleapis.com/v1beta/models/"@ + name,
{
    reveal_strlit("models/");
    assert forall|i: int| 0 <= i < name.len() implies !text::is_white(#[trigger] name[i]) && name[i]
        != '/' by {
        assert(gemini::is_model_char(name[i]));
    }
    crate::laws::lemma_trimmed_keeps(name);
    if text::has_prefix(name, "models/"@) {
        assert(name.subrange(0, 7)[6] == name[6]);
    }
    let full = "models/"@ + name;
    assert(full[0] == 'm');
    assert(full.last() == name[name.len() - 1]);
    crate::laws::lemma_trimmed_keeps(full);
    assert(full.subrange(0, 7) =~= "models/"@);
    assert(full.skip(7) =~= name);
}

// ---------------------------------------------------------------------------
// Ollama
// ---------------------------------------------------------------------------

/// A question to Ollama names the model, and holds the question and every
/// frame in order; the answer is to come at once.
pub proof fn law_ollama_gets_all_samples(
    model: Seq<char>,
    prompt: Seq<char>,
    images: Seq<Seq<char>>,
)
    ensures
        ({
            let tree = Some(analysis::ollama_request(model, prompt, images));
            let frames = json::items(json::field(tree, "images"@));
            &&& json::string(json::field(tree, "model"@)) == Some(model)
            &&& json::string(json::field(tree, "prompt"@)) == Some(prompt)
            &&& json::truth(json::field(tree, "stream"@)) == Some(false)
            &&& frames.len() == images.len()
            &&& forall|i: int|
                0 <= i < images.len() ==> #[trigger] frames[i] == Tree::Text(images[i])
        }),
{
    reveal_strlit("model");
    reveal_strlit("prompt");
    reveal_strlit("images");
    reveal_strlit("stream");
    assert("model"@.len() == 5 && "prompt"@.len() == 6 && "images"@.len() == 6);
    assert("stream"@.len() == 6);
    assert("prompt"@[0] == 'p' && "images"@[0] == 'i' && "stream"@[0] == 's');
    reveal_with_fuel(json::field_from, 6);
}

/// What Ollama answers is the summary, cleaned; whatever else comes is told as
/// an error.
pub proof fn law_ollama_summaries_are_read(reply: analysis::ModelReply, url: Seq<char>)
    ensures
        analysis::ollama_answer(reply, url) is Ok <==> (reply matches analysis::ModelReply::Answer(
            Ok(body),
        ) && json::string(json::field(Some(body.tree()), "response"@)) is Some),
        analysis::ollama_answer(reply, url) is Ok ==> analysis::ollama_answer(reply, url)->Ok_0
            == gemini::plain_summary(
            json::string(
                json::field(Some(reply->Answer_0->Ok_0.tree()), "response"@),
            )->0,
        ),
{
}

/// Subtitles beside a video count before what Whisper heard, and the source of
/// a transcript is told.
pub proof fn law_subtitles_count_first(companion: Option<Seq<char>>, whisper: Option<Seq<char>>)
    ensures
        ({
            let (words, source) = analysis::chosen_transcript(companion, whisper);
            &&& companion is Some ==> words == companion && source == "Companion subtitles"@
            &&& companion is None && whisper is Some ==> words == whisper && source
                == "Local Whisper transcript"@
            &&& companion is None && whisper is None ==> words is None && source
                == "Visual frames only"@
        }),
{
}

/// What Ollama is asked holds the transcript, as far as it has eight thousand
/// characters.
pub proof fn law_questions_hold_the_transcript(words: Seq<char>)
    ensures
        analysis::quoted_transcript(Some(words)).len() <= 8000,
        text::has_prefix(words, analysis::quoted_transcript(Some(words))),
        words.len() <= 8000 ==> analysis::quoted_transcript(Some(words)) == words,
{
    let quoted = analysis::quoted_transcript(Some(words));
    assert(words.subrange(0, quoted.len() as int) =~= quoted);
    if words.len() <= 8000 {
        assert(quoted =~= words);
    }
}

/// Of two files of subtitles beside a video the first one with words in the
/// piece counts.
pub proof fn law_first_subtitles_count(
    srt: Option<Seq<char>>,
    vtt: Option<Seq<char>>,
    start: crate::number::Binary64,
    end: crate::number::Binary64,
)
    ensures
        ({
            let first = match srt {
                Some(source) => analysis::excerpt(source, start, end),
                None => None,
            };
            let second = match vtt {
                Some(source) => analysis::excerpt(source, start, end),
                None => None,
            };
            analysis::companion(srt, vtt, start, end) == if first is Some {
                first
            } else {
                second
            }
        }),
{
}

// ---------------------------------------------------------------------------
// The services
// ---------------------------------------------------------------------------

proof fn lemma_listed_names(items: Seq<Tree>, n: nat) -> (places: Seq<int>)
    requires
        n <= items.len(),
    ensures
        selection::picks(
            places,
            n as int,
            |k: int| json::string(json::field(Some(items[k]), "name"@)) is Some || json::string(
                json::field(Some(items[k]), "model"@),
            ) is Some,
        ),
        providers::listed_names(items, n).len() == places.len(),
        forall|i: int|
            0 <= i < places.len() ==> ({
                let name = json::string(json::field(Some(items[places[i]]), "name"@));
                let model = json::string(json::field(Some(items[places[i]]), "model"@));
                Some(#[trigger] providers::listed_names(items, n)[i]) == if name is Some {
                    name
                } else {
                    model
                }
            }),
    decreases n,
{
    let keeps = |k: int|
        json::string(json::field(Some(items[k]), "name"@)) is Some || json::string(
            json::field(Some(items[k]), "model"@),
        ) is Some;
    if n == 0 {
        selection::lemma_pick_none(keeps);
        Seq::empty()
    } else {
        let before = lemma_listed_names(items, (n - 1) as nat);
        let kept = providers::listed_names(items, (n - 1) as nat);
        let all = providers::listed_names(items, n);
        selection::lemma_pick(before, n - 1, keeps);
        if keeps(n - 1) {
            let places = before.push(n - 1);
            assert forall|i: int| 0 <= i < places.len() implies ({
                let name = json::string(json::field(Some(items[places[i]]), "name"@));
                let model = json::string(json::field(Some(items[places[i]]), "model"@));
                Some(#[trigger] all[i]) == if name is Some {
                    name
                } else {
                    model
                }
            }) by {
                if i < before.len() {
                    assert(all[i] == kept[i]);
                    assert(places[i] == before[i]);
                }
            }
            places
        } else {
            before
        }
    }
}

/// The models of a service are all that it names, in the order of their names.
pub proof fn law_models_are_listed(body: Tree) -> (r: (Seq<int>, Seq<Seq<char>>))
    ensures
        ({
            let items = json::items(json::field(Some(body), "models"@));
            &&& selection::picks(
                r.0,
                items.len() as int,
                |k: int| json::string(json::field(Some(items[k]), "name"@)) is Some || json::string(
                    json::field(Some(items[k]), "model"@),
                ) is Some,
            )
            &&& r.1.len() == r.0.len()
            &&& forall|i: int|
                0 <= i < r.0.len() ==> ({
                    let name = json::string(json::field(Some(items[r.0[i]]), "name"@));
                    let model = json::string(json::field(Some(items[r.0[i]]), "model"@));
                    Some(#[trigger] r.1[i]) == if name is Some {
                        name
                    } else {
                        model
                    }
                })
            &&& providers::models(body).to_multiset() == r.1.to_multiset()
            &&& forall|i: int, j: int|
                0 <= i < j < providers::models(body).len() ==> !people::stands_before(
                    #[trigger] providers::models(body)[j],
                    #[trigger] providers::models(body)[i],
                )
        }),
{
    let items = json::items(json::field(Some(body), "models"@));
    let places = lemma_listed_names(items, items.len());
    let listed = providers::listed_names(items, items.len());
    people::law_sorted_lists_hold_the_same(listed);
    (places, listed)
}

/// A model is the same with and without the mark of its latest version.
pub proof fn law_latest_is_understood(model: Seq<char>)
    ensures
        providers::without_all(model + ":latest"@, ":latest"@) == providers::without_all(
            model,
            ":latest"@,
        ),
        !text::has_suffix(model, ":latest"@) ==> providers::without_all(model, ":latest"@) == model,
{
    reveal_strlit(":latest");
    let full = model + ":latest"@;
    assert(full.subrange(full.len() - 7, full.len() as int) =~= ":latest"@);
    assert(full.take(full.len() - 7) =~= model);
}

/// A model is available exactly where the service lists it, its version aside.
pub proof fn law_listed_models_are_available(list: Seq<Seq<char>>, model: Seq<char>)
    requires
        !text::has_suffix(model, ":latest"@),
        forall|i: int|
            0 <= i < list.len() ==> !text::has_suffix(
                #[trigger] list[i],
                ":latest"@ + ":latest"@,
            ),
    ensures
        providers::is_listed(list, model) <==> list.contains(model) || list.contains(
            model + ":latest"@,
        ),
{
    reveal_strlit(":latest");
    let mark = ":latest"@;
    law_latest_is_understood(model);
    if list.contains(model) {
        let i = choose|i: int| 0 <= i < list.len() && list[i] == model;
        assert(providers::without_all(list[i], mark) == providers::without_all(model, mark));
    }
    if list.contains(model + mark) {
        let i = choose|i: int| 0 <= i < list.len() && list[i] == model + mark;
        assert(providers::without_all(list[i], mark) == providers::without_all(model, mark));
    }
    if providers::is_listed(list, model) {
        let i = choose|i: int|
            0 <= i < list.len() && providers::without_all(#[trigger] list[i], mark)
                == providers::without_all(model, mark);
        let name = list[i];
        if text::has_suffix(name, mark) {
            let core = name.take(name.len() - 7);
            assert(name =~= core + name.subrange(name.len() - 7, name.len() as int));
            assert(name =~= core + mark);
            law_latest_is_understood(core);
            if text::has_suffix(core, mark) {
                assert(core.subrange(core.len() - 7, core.len() as int) == mark);
                let two = mark + mark;
                assert(name.subrange(name.len() - 14, name.len() as int) =~= two);
                assert(text::has_suffix(name, two));
            }
            assert(core == model);
            assert(list.contains(model + mark));
        } else {
            law_latest_is_understood(name);
            assert(list.contains(model));
        }
    }
}

/// Keys are kept apart for the two services that need one, however their names
/// are written, and for no other.
pub proof fn law_keys_are_kept_apart(provider: Seq<char>)
    ensures
        ({
            let name = text::lower(text::trimmed(provider));
            &&& name == "cloud"@ ==> providers::account(provider) == Ok::<Seq<char>, Seq<char>>(
                "ollama-cloud"@,
            )
            &&& name == "gemini"@ ==> providers::account(provider) == Ok::<Seq<char>, Seq<char>>(
                "gemini"@,
            )
            &&& name != "cloud"@ && name != "gemini"@ ==> providers::account(provider) is Err
        }),
{
    reveal_strlit("cloud");
    reveal_strlit("gemini");
    assert("cloud"@.len() == 5 && "gemini"@.len() == 6);
}

/// A key is sent without white space around it, and where there is none,
/// nothing is sent.
pub proof fn law_keys_are_trimmed(key: Option<Seq<char>>)
    ensures
        key is None ==> providers::bearer(key) is None,
        key is Some && text::trimmed(key->0).len() == 0 ==> providers::bearer(key) is None,
        key is Some && text::trimmed(key->0).len() > 0 ==> providers::bearer(key) == Some(
            text::trimmed(key->0),
        ),
{
}

/// The address of Ollama is taken with or without the path of its interface:
/// the same route is reached.
pub proof fn law_routes_are_reached(path: Seq<char>, route: Seq<char>)
    requires
        path.len() == 0 || path.last() != '/',
        !text::has_suffix(path, "/api"@),
    ensures
        address::route_reference(path, route) == "api/"@ + route,
        address::route_reference(path + "/"@, route) == "api/"@ + route,
        address::route_reference(path + "/api"@, route) == route,
        address::route_reference(path + "/api/"@, route) == route,
{
    reveal_strlit("/");
    reveal_strlit("/api");
    reveal_strlit("/api/");
    let class = text::among("/"@);
    assert("/"@[0] == '/');
    assert("/"@.contains('/'));
    assert(class('/'));
    assert forall|c: char| #[trigger] class(c) implies c == '/' by {}
    assert(text::drop_trailing(path, class) == path);
    assert((path + "/"@).drop_last() =~= path);
    assert(text::drop_trailing(path + "/"@, class) == path);
    let api = path + "/api"@;
    assert(api.last() == 'i');
    assert(text::drop_trailing(api, class) == api);
    assert((path + "/api/"@).drop_last() =~= api);
    assert(text::drop_trailing(path + "/api/"@, class) == api);
    assert(api.subrange(api.len() - 4, api.len() as int) =~= "/api"@);
}

/// Ollama is reached over HTTP, with a path that ends in a slash.
pub proof fn law_entered_addresses_are_read(read: Option<address::Parts>)
    ensures
        ({
            let entered = address::entered(read);
            &&& entered is Refused <==> !(read matches Some(parts) && (parts.scheme == "http"@
                || parts.scheme == "https"@))
            &&& entered is Whole ==> read == Some(entered->Whole_0) && text::has_suffix(
                entered->Whole_0.path,
                "/"@,
            )
            &&& entered is Open ==> entered->Open_0 == read->0.path + "/"@
        }),
{
}

// ---------------------------------------------------------------------------
// The course of an analysis
// ---------------------------------------------------------------------------

/// Frames and sound are taken from the piece that is asked for, three frames
/// where no number is named.
pub proof fn law_the_piece_is_sampled(
    request: AnalysisChunkRequest,
    stage: Stage,
    event: ChunkEvent,
)
    requires
        chunk::fits(stage, event),
    ensures
        ({
            let action = chunk::course(request, stage, event).1;
            let start = crate::clock::from_start(request.start_seconds);
            let end = analysis::piece_end(request.start_seconds, request.end_seconds);
            &&& action matches Action::Sample { start: from, end: to, count } ==> from == start && to
                == end && count == (match request.frame_count {
                Some(count) => count as nat,
                None => 3,
            })
            &&& action matches Action::Hear { start: from, end: to } ==> from == start && to == end
            &&& action matches Action::Transcribe { start: from, end: to, .. } ==> from
                == request.start_seconds && to == end
        }),
{
}

/// Gemini gets the sound of a piece, and Ollama its transcript: which of them
/// is asked goes by the name of the service, whatever the case of its letters.
pub proof fn law_the_service_is_asked(
    request: AnalysisChunkRequest,
    stage: Stage,
    event: ChunkEvent,
)
    requires
        chunk::fits(stage, event),
        event matches ChunkEvent::Sampled { cancelled, .. } && !cancelled,
    ensures
        ({
            let action = chunk::course(request, stage, event).1;
            if text::lower(request.provider@) == "gemini"@ {
                action is Hear
            } else {
                action is ReadCompanions
            }
        }),
{
    reveal_strlit("gemini");
    assert(text::lower("gemini"@) =~= "gemini"@);
}

/// A result tells how many frames were taken, and holds what was answered.
pub proof fn law_results_tell_what_was_answered(
    request: AnalysisChunkRequest,
    payload: gemini::GeminiPayload,
    frames: nat,
    has_audio: bool,
)
    ensures
        ({
            let outcome = chunk::gemini_outcome(request, payload, frames, has_audio);
            &&& outcome.frames == frames
            &&& outcome.complete
            &&& outcome.summary == gemini::plain_summary(payload.summary@)
            &&& has_audio ==> outcome.source == "Native AAC audio + vision · Gemini · "@
                + digits::decimal(outcome.cues.len()) + " subtitle cues"@
            &&& !has_audio ==> outcome.source == "Vision only · no audio stream"@
        }),
{
}

/// What Gemini answered is what the analysis tells: the summary and the
/// passages of the answer, with the frames that were sent.
pub proof fn law_answers_of_gemini_are_told(
    request: AnalysisChunkRequest,
    frames: nat,
    has_audio: bool,
    payload: gemini::GeminiPayload,
)
    ensures
        chunk::course(
            request,
            Stage::Parsing { frames, has_audio },
            ChunkEvent::Parsed(Ok(payload)),
        ) == (
            Stage::Closed,
            Action::Finish(Ok(chunk::gemini_outcome(request, payload, frames, has_audio))),
        ),
{
}

/// What Gemini said is read as its answer, and nothing is told where it said
/// nothing.
pub proof fn law_replies_of_gemini_are_read(
    request: AnalysisChunkRequest,
    frames: nat,
    has_audio: bool,
    reply: analysis::ModelReply,
)
    ensures
        ({
            let (stage, action) = chunk::course(
                request,
                Stage::AskingGemini { frames, has_audio },
                ChunkEvent::Replied(reply),
            );
            &&& action is Parse <==> (reply matches analysis::ModelReply::Answer(Ok(body))
                && gemini::answer_text(body.tree()) is Ok)
            &&& action is Parse ==> action->Parse_0 == gemini::answer_text(
                reply->Answer_0->Ok_0.tree(),
            )->Ok_0 && stage == (Stage::Parsing { frames, has_audio })
            &&& action !is Parse ==> action is Finish && action->Finish_0 is Err
        }),
{
}

/// Gemini is asked about the piece with its sound and all its frames, at the
/// address of the model and with the key that was given.
pub proof fn law_gemini_is_asked_about_the_piece(
    request: AnalysisChunkRequest,
    images: Seq<Seq<char>>,
    audio: Option<String>,
)
    ensures
        ({
            let (stage, action) = chunk::course(
                request,
                Stage::Hearing { images },
                ChunkEvent::Heard(audio),
            );
            let end = analysis::piece_end(request.start_seconds, request.end_seconds);
            &&& action matches Action::AskGemini { endpoint, key, body } ==> {
                &&& gemini::model(request.model@) is Ok
                &&& endpoint == "https://generativelanguage.googleapis.com/v1beta/models/"@
                    + gemini::model(request.model@)->Ok_0 + ":generateContent"@
                &&& request.api_key is Some && key == text::trimmed(request.api_key->0@)
                &&& key.len() > 0
                &&& body == gemini::request(
                    text::opt(audio),
                    images,
                    analysis::GEMINI_QUESTION@ + analysis::piece_words(
                        request.video.name_or("video"@),
                        request.start_seconds,
                        end,
                    ),
                )
                &&& stage == (Stage::AskingGemini {
                    frames: images.len(),
                    has_audio: audio is Some,
                })
            }
            &&& action is AskGemini <==> (images.len() > 0 || audio is Some) && gemini::model(
                request.model@,
            ) is Ok && text::trimmed(request.key()).len() > 0
        }),
{
    reveal_strlit("");
    if request.api_key is None {
        assert(request.key() == ""@);
        assert(text::trimmed(""@) =~= Seq::<char>::empty());
    }
}

/// Ollama is asked about the piece with its transcript, where there is one, and
/// all its frames.
pub proof fn law_ollama_is_asked_about_the_piece(
    request: AnalysisChunkRequest,
    images: Seq<Seq<char>>,
    companion: Option<Seq<char>>,
    whisper: Option<Seq<char>>,
)
    ensures
        ({
            let (stage, action) = chunk::settled(request, images, companion, whisper);
            let words = if companion is Some {
                companion
            } else {
                whisper
            };
            let end = analysis::piece_end(request.start_seconds, request.end_seconds);
            &&& action is AskOllama || action is Finish
            &&& action matches Action::AskOllama { endpoint, bearer, body } ==> {
                &&& images.len() > 0 || words is Some
                &&& address::ollama_address(request.ollama_url@) matches Ok(base)
                &&& bearer == providers::bearer(text::opt(request.api_key))
                &&& body == analysis::ollama_request(
                    address::model_name(
                        address::ollama_address(request.ollama_url@)->Ok_0.host,
                        request.model@,
                    ),
                    analysis::OLLAMA_QUESTION@ + analysis::piece_words(
                        request.video.name_or("video"@),
                        request.start_seconds,
                        end,
                    ) + "\nTranscript (may be unavailable): "@ + analysis::quoted_transcript(words),
                    images,
                )
            }
        }),
{
}

/// The transcript of a piece comes from the files beside the video, or from
/// Whisper where there are none.
pub proof fn law_transcripts_come_from_the_video(
    request: AnalysisChunkRequest,
    images: Seq<Seq<char>>,
    srt: Option<String>,
    vtt: Option<String>,
    heard: Option<String>,
)
    ensures
        chunk::course(
            request,
            Stage::Transcribing { images },
            ChunkEvent::Transcribed(heard),
        ) == chunk::settled(request, images, None, text::opt(heard)),
        srt is Some || vtt is Some ==> chunk::course(
            request,
            Stage::Reading { images },
            ChunkEvent::Companions { srt, vtt },
        ) == chunk::settled(
            request,
            images,
            analysis::companion(
                text::opt(srt),
                text::opt(vtt),
                request.start_seconds,
                analysis::piece_end(request.start_seconds, request.end_seconds),
            ),
            None,
        ),
{
}

/// An answer of Ollama is the summary of the piece; it tells no passages.
pub proof fn law_answers_of_ollama_are_told(
    request: AnalysisChunkRequest,
    frames: nat,
    source: Seq<char>,
    reply: analysis::ModelReply,
)
    ensures
        ({
            let action = chunk::course(
                request,
                Stage::AskingOllama { frames, source },
                ChunkEvent::Replied(reply),
            ).1;
            match analysis::ollama_answer(reply, request.ollama_url@) {
                Ok(summary) => {
                    &&& action is Finish && action->Finish_0 is Ok
                    &&& action->Finish_0->Ok_0.summary == summary
                    &&& action->Finish_0->Ok_0.frames == frames
                    &&& action->Finish_0->Ok_0.source == source
                    &&& action->Finish_0->Ok_0.cues.len() == 0
                    &&& !action->Finish_0->Ok_0.complete
                },
                Err(message) => action == Action::Finish(Err(message)),
            }
        }),
{
}

/// A service is available where it answers, and a model where the service lists
/// it; what is told says which.
pub proof fn law_availability_is_told(
    r: Result<providers::OllamaStatus, String>,
    host: Option<Seq<char>>,
    model: Seq<char>,
    reply: providers::Reply,
)
    requires
        providers::is_ollama_status(r, host, model, reply),
    ensures
        r is Ok && (r->Ok_0).available <==> (reply matches providers::Reply::Answer(Ok(_))),
        r is Ok && (r->Ok_0).model_available ==> (reply matches providers::Reply::Answer(
            Ok(body),
        ) && providers::is_listed(
            providers::models(body.tree()),
            address::model_name(host, text::trimmed(model)),
        )),
        r is Ok && (r->Ok_0).available ==> text::views((r->Ok_0).models@) == providers::models(
            reply->Answer_0->Ok_0.tree(),
        ),
        r is Ok && (r->Ok_0).available && !(r->Ok_0).model_available ==> !providers::is_listed(
            providers::models(reply->Answer_0->Ok_0.tree()),
            address::model_name(host, text::trimmed(model)),
        ),
{
}

/// A message on a model says whether it is there, and under which name it is
/// asked for.
pub proof fn law_models_are_described(requested: Seq<char>, model: Seq<char>)
    ensures
        providers::model_message(requested, model, false) == "Connected, but "@ + model
            + " is not available at this endpoint"@,
        providers::model_message(model, model, true) == "Connected · "@ + model + " is ready"@,
        requested != model ==> providers::model_message(requested, model, true) == "Connected · "@
            + requested + " maps to "@ + model + " for direct Cloud"@,
{
}

/// Gemini is available where it answers, or fails itself; a model where it
/// answers.
pub proof fn law_gemini_is_described(
    status: providers::OllamaStatus,
    model: Seq<char>,
    reply: providers::Reply,
)
    requires
        providers::is_gemini_status(status, model, reply),
    ensures
        status.model_available <==> reply is Answer,
        status.available <==> reply is Answer || (reply matches providers::Reply::Refused {
            code,
            ..
        } && 500 <= code < 600),
        reply is Answer ==> text::views(status.models@) == seq![model],
        reply !is Answer ==> status.models@.len() == 0,
{
}

/// The listener of a relay answers a ping with what it holds, makes the
/// requests that come, and ends where it is told to or the connection does.
pub proof fn law_relay_is_listened_to(
    event: relay::RelayEvent,
    action: relay::RelayAction,
    port: nat,
)
    requires
        relay::is_reaction(event, action, port),
    ensures
        event is Disconnect <==> action is CloseAndEnd,
        event is Broken || event is Close <==> action is End,
        event is Ping <==> action is Pong,
        event is Ping ==> action->Pong_0 == event->Ping_0,
        action is Forward ==> event is Text && json::document(
            crate::fingerprint::utf8(event->Text_0@),
        ) is Ok && relay::relayed(
            json::document(crate::fingerprint::utf8(event->Text_0@))->Ok_0,
            port,
        ) == Some(action->Forward_0@),
        event is Text && json::document(crate::fingerprint::utf8(event->Text_0@)) is Ok
            && relay::relayed(
            json::document(crate::fingerprint::utf8(event->Text_0@))->Ok_0,
            port,
        ) is Some ==> action is Forward,
{
}

/// Gemini is asked for a document with a summary and a transcript, whose
/// passages have a start, an end, words, a speaker and a language.
pub proof fn law_answers_are_asked_for_in_form()
    ensures
        ({
            let config = Some(gemini::generation_config());
            let format = json::field(json::field(config, "responseFormat"@), "text"@);
            let schema = json::field(format, "schema"@);
            let properties = json::field(schema, "properties"@);
            let cue = json::field(json::field(properties, "transcript"@), "items"@);
            &&& json::string(json::field(format, "mimeType"@)) == Some("APPLICATION_JSON"@)
            &&& json::field(schema, "required"@) == Some(
                Tree::List(seq![Tree::Text("summary"@), Tree::Text("transcript"@)]),
            )
            &&& json::string(
                json::field(json::field(properties, "summary"@), "type"@),
            ) == Some("string"@)
            &&& json::string(
                json::field(json::field(properties, "transcript"@), "type"@),
            ) == Some("array"@)
            &&& json::field(cue, "required"@) == Some(
                Tree::List(
                    seq![
                        Tree::Text("start"@),
                        Tree::Text("end"@),
                        Tree::Text("text"@),
                        Tree::Text("speaker"@),
                        Tree::Text("language"@),
                    ],
                ),
            )
        }),
{
    reveal_strlit("maxOutputTokens");
    reveal_strlit("thinkingConfig");
    reveal_strlit("responseFormat");
    reveal_strlit("mimeType");
    reveal_strlit("schema");
    reveal_strlit("type");
    reveal_strlit("properties");
    reveal_strlit("required");
    reveal_strlit("summary");
    reveal_strlit("transcript");
    reveal_strlit("description");
    reveal_strlit("items");
    assert("maxOutputTokens"@.len() == 15 && "thinkingConfig"@.len() == 14);
    assert("responseFormat"@.len() == 14 && "thinkingConfig"@[0] == 't');
    assert("responseFormat"@[0] == 'r');
    assert("mimeType"@.len() == 8 && "schema"@.len() == 6);
    assert("type"@.len() == 4 && "properties"@.len() == 10 && "required"@.len() == 8);
    assert("summary"@.len() == 7 && "transcript"@.len() == 10);
    assert("description"@.len() == 11 && "items"@.len() == 5);
    reveal_with_fuel(json::field_from, 5);
}

} // verus!
