//! What requests are answered with.

use vstd::prelude::*;

use crate::address;
use crate::digits;
use crate::media;
use crate::media::Answer;
use crate::media::FileState;
use crate::media::Method;
use crate::media::Route;
use crate::mix;
use crate::protocol;
use crate::protocol::Asked;
use crate::sound;
use crate::speech;
use crate::text;
use crate::wording;

verus! {

// ---------------------------------------------------------------------------
// Requests of guests
// ---------------------------------------------------------------------------

/// Some slashes.
pub open spec fn slashes(n: nat) -> Seq<char> {
    Seq::new(n, |i: int| '/')
}

/// Whether a path names a part of a session, slashes at its ends aside.
pub open spec fn names_part(path: Seq<char>, token: Seq<char>, part: Seq<char>) -> bool {
    exists|m: nat, n: nat|
        path == #[trigger] slashes(m) + ("session/"@ + token + "/"@ + part) + #[trigger] slashes(n)
}

proof fn lemma_slashes(s: Seq<char>)
    requires
        text::all_in(s, text::among("/"@)),
    ensures
        s == slashes(s.len()),
{
    reveal_strlit("/");
    assert forall|i: int| 0 <= i < s.len() implies s[i] == '/' by {
        assert(text::among("/"@)(s[i]));
    }
    assert(s =~= slashes(s.len()));
}

proof fn lemma_slash_class(c: char)
    ensures
        text::among("/"@)(c) == (c == '/'),
{
    reveal_strlit("/");
    assert("/"@[0] == '/');
    assert("/"@.contains('/'));
}

spec fn parted(token: Seq<char>, part: Seq<char>) -> Seq<Seq<char>> {
    seq!["session"@, token, part]
}

proof fn lemma_part_path(token: Seq<char>, part: Seq<char>)
    requires
        !token.contains('/'),
        !part.contains('/'),
        part.len() > 0,
    ensures
        text::joined(parted(token, part), "/"@) == "session/"@ + token + "/"@ + part,
        text::pieces("session/"@ + token + "/"@ + part, "/"@) == parted(token, part),
{
    reveal_strlit("/");
    reveal_strlit("session");
    reveal_strlit("session/");
    let parts = parted(token, part);
    assert("session/"@ =~= "session"@ + "/"@);
    assert("/"@ =~= seq!['/']);
    let two = seq!["session"@, token];
    assert(parts.drop_last() =~= two);
    assert(two.drop_last() =~= seq!["session"@]);
    assert(text::joined(seq!["session"@], "/"@) == "session"@);
    assert(text::joined(two, "/"@) == "session"@ + "/"@ + token);
    assert(text::joined(parts, "/"@) =~= "session/"@ + token + "/"@ + part);
    assert forall|i: int| 0 <= i < parts.len() implies !(#[trigger] parts[i]).contains('/') by {
        if i == 0 {
            assert(parts[i] == "session"@);
        }
    }
    wording::law_joined_parts_come_back(parts, '/');
}

/// A path is parted into the word for a session, its token and a part of it
/// exactly where it names that part.
proof fn lemma_names_part(path: Seq<char>, token: Seq<char>, part: Seq<char>)
    requires
        !token.contains('/'),
        !part.contains('/'),
        part.len() > 0,
    ensures
        names_part(path, token, part) <==> text::pieces(protocol::unslashed(path), "/"@) == parted(
            token,
            part,
        ),
{
    reveal_strlit("/");
    reveal_strlit("session/");
    let class = text::among("/"@);
    let core = "session/"@ + token + "/"@ + part;
    lemma_part_path(token, part);
    if names_part(path, token, part) {
        let (m, n) = choose|m: nat, n: nat|
            path == #[trigger] slashes(m) + ("session/"@ + token + "/"@ + part)
                + #[trigger] slashes(n);
        assert forall|i: int| 0 <= i < m implies class(#[trigger] slashes(m)[i]) by {
            lemma_slash_class('/');
        }
        assert forall|i: int| 0 <= i < n implies class(#[trigger] slashes(n)[i]) by {
            lemma_slash_class('/');
        }
        lemma_slash_class(core[0]);
        lemma_slash_class(core.last());
        assert(core.last() == part.last());
        assert(part.contains(part.last()));
        wording::law_ends_are_dropped(slashes(m), core, slashes(n), class);
    }
    if text::pieces(protocol::unslashed(path), "/"@) == parted(token, part) {
        let front = wording::law_leading_is_dropped(path, class);
        let rest = text::drop_leading(path, class);
        let back = wording::law_trailing_is_dropped(rest, class);
        lemma_slashes(front);
        lemma_slashes(back);
        wording::law_pieces_join_back(protocol::unslashed(path), "/"@);
        assert(path =~= slashes(front.len()) + core + slashes(back.len()));
    }
}

/// The parts of a session that a guest can ask for.
proof fn lemma_parts()
    ensures
        "media"@.len() == 5 && !"media"@.contains('/'),
        "mix"@.len() == 3 && !"mix"@.contains('/'),
        "events"@.len() == 6 && !"events"@.contains('/'),
        "event"@.len() == 5 && !"event"@.contains('/'),
        "leave"@.len() == 5 && !"leave"@.contains('/'),
        "media"@[0] == 'm' && "event"@[0] == 'e' && "leave"@[0] == 'l',
{
    reveal_strlit("media");
    reveal_strlit("mix");
    reveal_strlit("events");
    reveal_strlit("event");
    reveal_strlit("leave");
}

/// Every part of a session has its own address, and is asked for there and
/// nowhere else: the video and its mix with any method, the news with GET, and
/// an event or the leave of a guest with POST. Whatever else names no part is
/// answered with a status.
pub proof fn law_parts_of_a_session_are_found(
    method: Method,
    parts: address::Parts,
    token: Seq<char>,
)
    requires
        !token.contains('/'),
    ensures
        ({
            let asked = protocol::asked(method, Some(parts), Some(token));
            let path = parts.path;
            &&& asked is Media <==> names_part(path, token, "media"@)
            &&& asked is Mix <==> names_part(path, token, "mix"@)
            &&& asked is Events <==> names_part(path, token, "events"@) && method == Method::Get
            &&& asked is Event <==> names_part(path, token, "event"@) && method == Method::Post
            &&& asked is Leave <==> names_part(path, token, "leave"@) && method == Method::Post
            &&& asked is Join <==> path == "/join"@ && method == Method::Post
            &&& asked matches Asked::Status(status) ==> status == if path == "/join"@ {
                405int
            } else {
                404int
            }
        }),
{
    lemma_parts();
    let path = parts.path;
    lemma_names_part(path, token, "media"@);
    lemma_names_part(path, token, "mix"@);
    lemma_names_part(path, token, "events"@);
    lemma_names_part(path, token, "event"@);
    lemma_names_part(path, token, "leave"@);
    let segments = text::pieces(protocol::unslashed(path), "/"@);
    if path == "/join"@ {
        lemma_join_is_no_part();
    } else if segments.len() == 3 && segments[0] == "session"@ && segments[1] == token {
        assert(segments =~= parted(token, segments[2]));
    }
    assert(parted(token, "media"@)[2] == "media"@);
    assert(parted(token, "mix"@)[2] == "mix"@);
    assert(parted(token, "events"@)[2] == "events"@);
    assert(parted(token, "event"@)[2] == "event"@);
    assert(parted(token, "leave"@)[2] == "leave"@);
}

proof fn lemma_join_is_no_part()
    ensures
        text::pieces(protocol::unslashed("/join"@), "/"@).len() == 1,
{
    reveal_strlit("/");
    reveal_strlit("/join");
    reveal_strlit("join");
    let class = text::among("/"@);
    let core = "join"@;
    lemma_slash_class('/');
    lemma_slash_class(core[0]);
    lemma_slash_class(core.last());
    let front = seq!['/'];
    let none = Seq::<char>::empty();
    assert("/join"@ =~= front + core + none);
    assert forall|i: int| 0 <= i < front.len() implies class(#[trigger] front[i]) by {}
    wording::law_ends_are_dropped(front, core, none, class);
    assert("/"@ =~= seq!['/']);
    let one = seq![core];
    assert forall|i: int| 0 <= i < one.len() implies !(#[trigger] one[i]).contains('/') by {
        assert(one[i] == core);
    }
    wording::law_joined_parts_come_back(one, '/');
}

/// A guest is told the events behind the number that it names, from the first
/// one on where it names none, and is known by the name that it gives.
pub proof fn law_news_are_asked_for(
    parts: address::Parts,
    token: Seq<char>,
    after: u64,
    peer: Seq<char>,
)
    requires
        !token.contains('/'),
        names_part(parts.path, token, "events"@),
        sound::counts(parts.pairs, "peerId"@, peer),
        sound::counts(parts.pairs, "after"@, digits::decimal(after as nat)) || (after == 0
            && forall|k: int| 0 <= k < parts.pairs.len() ==> (#[trigger] parts.pairs[k]).0
            != "after"@),
    ensures
        protocol::asked(Method::Get, Some(parts), Some(token)) == (Asked::Events {
            after: after as nat,
            peer: Some(peer),
        }),
{
    law_parts_of_a_session_are_found(Method::Get, parts, token);
    lemma_counts_once(parts.pairs, "peerId"@, peer);
    lemma_counted(parts.pairs, "after"@);
    if sound::counts(parts.pairs, "after"@, digits::decimal(after as nat)) {
        lemma_counts_once(parts.pairs, "after"@, digits::decimal(after as nat));
        lemma_decimal_reads(after as nat);
    }
}

pub(crate) proof fn lemma_decimal_reads(n: nat)
    ensures
        digits::unsigned(digits::decimal(n), n) == Some(n),
        n <= u64::MAX ==> digits::unsigned(digits::decimal(n), u64::MAX as nat) == Some(n),
{
    digits::lemma_decimal(n);
    assert(text::is_digit(digits::decimal(n)[0]));
}

proof fn lemma_counted(pairs: Seq<(Seq<char>, Seq<char>)>, name: Seq<char>)
    ensures
        mix::query_value(pairs, name) is None <==> forall|k: int|
            0 <= k < pairs.len() ==> (#[trigger] pairs[k]).0 != name,
{
    sound::law_last_value_counts(pairs, name);
    if let Some(value) = mix::query_value(pairs, name) {
        let k = choose|k: int|
            0 <= k < pairs.len() && #[trigger] pairs[k] == (name, value) && forall|j: int|
                k < j < pairs.len() ==> (#[trigger] pairs[j]).0 != name;
        assert(pairs[k].0 == name);
    }
}

/// One value counts for a name.
pub(crate) proof fn lemma_counts_once(
    pairs: Seq<(Seq<char>, Seq<char>)>,
    name: Seq<char>,
    value: Seq<char>,
)
    requires
        sound::counts(pairs, name, value),
    ensures
        mix::query_value(pairs, name) == Some(value),
{
    sound::law_last_value_counts(pairs, name);
    let k = choose|k: int|
        0 <= k < pairs.len() && #[trigger] pairs[k] == (name, value) && forall|j: int|
            k < j < pairs.len() ==> (#[trigger] pairs[j]).0 != name;
    assert(pairs[k].0 == name);
    let other = mix::query_value(pairs, name)->0;
    let l = choose|l: int|
        0 <= l < pairs.len() && #[trigger] pairs[l] == (name, other) && forall|j: int|
            l < j < pairs.len() ==> (#[trigger] pairs[j]).0 != name;
    assert(pairs[l].0 == name);
}

// ---------------------------------------------------------------------------
// Ranges of a file
// ---------------------------------------------------------------------------

/// A text of digits and a hyphen between them, behind the word for bytes.
proof fn lemma_range_text(first: Seq<char>, last: Seq<char>)
    requires
        digits::all_digits(first),
        digits::all_digits(last),
    ensures
        ({
            let ranges = first + "-"@ + last;
            let value = "bytes="@ + ranges;
            &&& text::trimmed(value) == value
            &&& text::without_prefix(value, "bytes="@) == Some(ranges)
            &&& text::pieces(ranges, ","@)[0] == ranges
            &&& text::cut(ranges, "-"@) == Some((first, last))
        }),
{
    reveal_strlit("bytes=");
    reveal_strlit("-");
    reveal_strlit(",");
    let ranges = first + "-"@ + last;
    let value = "bytes="@ + ranges;
    assert forall|i: int| 0 <= i < ranges.len() implies #[trigger] ranges[i] != ','
        && !text::is_white(ranges[i]) && (ranges[i] == '-' ==> i == first.len()) by {
        if i < first.len() {
            assert(ranges[i] == first[i]);
            assert(text::is_digit(first[i]));
        } else if i > first.len() {
            assert(ranges[i] == last[i - first.len() - 1]);
            assert(text::is_digit(last[i - first.len() - 1]));
        }
    }
    assert(value[0] == 'b');
    assert(value.last() == ranges[ranges.len() - 1]);
    crate::laws::lemma_trimmed_keeps(value);
    assert(value.subrange(0, 6) =~= "bytes="@);
    assert(value.skip(6) =~= ranges);
    crate::roundtrip::lemma_lacks(ranges, ","@, 0);
    text::lemma_find(ranges, ","@);
    assert(text::pieces(ranges, ","@) =~= seq![ranges]);
    text::lemma_find(ranges, "-"@);
    let n = first.len() as int;
    assert(ranges.subrange(n, n + 1) =~= "-"@);
    assert(text::occurs_at(ranges, "-"@, n));
    let i = text::find(ranges, "-"@)->0;
    assert(ranges.subrange(i, i + 1)[0] == ranges[i]);
    assert(i == n);
    assert(ranges.take(n) =~= first);
    assert(ranges.skip(n + 1) =~= last);
}

/// A request for the bytes from one to another gets just those, as far as the
/// file reaches; where it reaches to none of them, it is no range.
pub proof fn law_bytes_between_are_sent(first: u64, last: u64, size: nat)
    requires
        size > 0,
    ensures
        media::range_of(
            Some(
                "bytes="@ + (digits::decimal(first as nat) + "-"@ + digits::decimal(last as nat)),
            ),
            size,
        ) == if first < size && first <= last {
            Some((first as int, speech::earlier(last as int, size - 1)))
        } else {
            None
        },
{
    digits::lemma_decimal(first as nat);
    digits::lemma_decimal(last as nat);
    lemma_range_text(digits::decimal(first as nat), digits::decimal(last as nat));
    lemma_decimal_reads(first as nat);
    lemma_decimal_reads(last as nat);
}

/// A request for the bytes from one on gets all of them to the end.
pub proof fn law_bytes_from_are_sent(first: u64, size: nat)
    requires
        size > 0,
    ensures
        media::range_of(
            Some("bytes="@ + (digits::decimal(first as nat) + "-"@ + Seq::empty())),
            size,
        ) == if first < size {
            Some((first as int, size - 1))
        } else {
            None
        },
{
    digits::lemma_decimal(first as nat);
    lemma_range_text(digits::decimal(first as nat), Seq::empty());
    lemma_decimal_reads(first as nat);
}

/// A request for so many bytes gets as many, the last ones of the file, or all
/// of it where it has no more.
pub proof fn law_last_bytes_are_sent(count: u64, size: nat)
    requires
        size > 0,
    ensures
        media::range_of(
            Some("bytes="@ + (Seq::empty() + "-"@ + digits::decimal(count as nat))),
            size,
        ) == Some((speech::later(0, size - count), size - 1)),
{
    digits::lemma_decimal(count as nat);
    lemma_range_text(Seq::empty(), digits::decimal(count as nat));
    lemma_decimal_reads(count as nat);
}

/// The headers that go with a reply have one value for a name.
pub open spec fn tells(
    headers: Seq<(Seq<char>, Seq<char>)>,
    name: Seq<char>,
    value: Seq<char>,
) -> bool {
    headers.contains((name, value))
}

/// A file is sent whole, with the status 200, or the part that is asked for,
/// with the status 206 and its place in the file; what is sent has the length
/// of the part. HEAD tells the same of it and sends nothing.
pub proof fn law_file_is_sent(range: Option<Seq<char>>, size: u64, kind: Seq<char>)
    requires
        size > 0,
    ensures
        ({
            let sent = media::local_answer(Method::Get, range, FileState::Size(size), kind);
            let told = media::local_answer(Method::Head, range, FileState::Size(size), kind);
            &&& sent is Part && told is Head
            &&& sent->Part_status == told->Head_status
            &&& sent->Part_headers == told->Head_headers
            &&& sent->Part_length == told->Head_length
            &&& tells(sent->Part_headers, "Accept-Ranges"@, "bytes"@)
            &&& match media::range_of(range, size as nat) {
                None => {
                    &&& sent->Part_status == 200
                    &&& sent->Part_first == 0
                    &&& sent->Part_length == size
                    &&& forall|k: int|
                        0 <= k < sent->Part_headers.len() ==> (#[trigger] sent->Part_headers[k]).0
                            != "Content-Range"@
                },
                Some((first, last)) => {
                    &&& sent->Part_status == 206
                    &&& sent->Part_first == first
                    &&& sent->Part_first + sent->Part_length == last + 1
                    &&& tells(
                        sent->Part_headers,
                        "Content-Range"@,
                        "bytes "@ + digits::decimal(first as nat) + "-"@ + digits::decimal(
                            last as nat,
                        ) + "/"@ + digits::decimal(size as nat),
                    )
                },
            }
        }),
{
    reveal_strlit("Content-Range");
    reveal_strlit("Accept-Ranges");
    reveal_strlit("Content-Type");
    reveal_strlit("Cache-Control");
    reveal_strlit("Access-Control-Allow-Origin");
    let sent = media::local_answer(Method::Get, range, FileState::Size(size), kind);
    let headers = sent->Part_headers;
    assert(headers[0] == ("Accept-Ranges"@, "bytes"@));
    assert("Content-Range"@[0] == 'C' && "Accept-Ranges"@[0] == 'A');
    assert("Content-Range"@.len() == 13 && "Content-Type"@.len() == 12);
    assert("Cache-Control"@[1] == 'a' && "Content-Range"@[1] == 'o');
    assert("Access-Control-Allow-Origin"@[0] == 'A');
    if let Some((first, last)) = media::range_of(range, size as nat) {
        assert(headers[4] == (
            "Content-Range"@,
            "bytes "@ + digits::decimal(first as nat) + "-"@ + digits::decimal(last as nat) + "/"@
                + digits::decimal(size as nat),
        ));
    }
}

/// What cannot be sent is answered with a status that says why.
pub proof fn law_missing_files_are_told(
    method: Method,
    range: Option<Seq<char>>,
    file: FileState,
    kind: Seq<char>,
)
    ensures
        ({
            let sent = media::local_answer(method, range, file, kind);
            &&& sent is Status <==> (method != Method::Get && method != Method::Head) || file
                is Missing || file is Unreadable || file == FileState::Size(0)
            &&& (method == Method::Post || method == Method::Other) ==> sent == Answer::Status(405)
            &&& method == Method::Get && file is Missing ==> sent == Answer::Status(404)
            &&& method == Method::Get && file == FileState::Size(0) ==> sent == Answer::Status(416)
        }),
{
}

/// What is registered under a token is found at the addresses that the player
/// is told, also with a query behind them.
pub proof fn law_registered_media_is_found(token: Seq<char>, query: Seq<char>)
    requires
        !token.contains('?'),
    ensures
        media::route("/media/"@ + token) == Route::Media,
        media::route("/mix/"@ + token) == Route::Mix,
        media::media_token("/media/"@ + token) == token,
        media::media_token("/media/"@ + token + "?"@ + query) == token,
        media::token_behind("/mix/"@ + token, "/mix/"@) == token,
{
    reveal_strlit("/media/");
    reveal_strlit("/mix/");
    reveal_strlit("?");
    let path = "/media/"@ + token;
    let mixed = "/mix/"@ + token;
    assert(path.subrange(0, 7) =~= "/media/"@);
    assert(path.skip(7) =~= token);
    assert(mixed.subrange(0, 5) =~= "/mix/"@);
    assert(mixed.skip(5) =~= token);
    if text::has_prefix(mixed, "/media/"@) {
        assert(mixed.subrange(0, 7)[2] == mixed[2]);
    }
    assert forall|i: int| 0 <= i < path.len() implies #[trigger] path[i] != '?' by {
        if i >= 7 {
            assert(path[i] == token[i - 7]);
        }
    }
    crate::roundtrip::lemma_lacks(path, "?"@, 0);
    text::lemma_find(path, "?"@);
    assert(text::pieces(path, "?"@) =~= seq![path]);
    let full = path + "?"@ + query;
    text::lemma_find(full, "?"@);
    let n = path.len() as int;
    assert(full.subrange(n, n + 1) =~= "?"@);
    assert(text::occurs_at(full, "?"@, n));
    let i = text::find(full, "?"@)->0;
    if i < n {
        assert(full.subrange(i, i + 1)[0] == path[i]);
    }
    assert(full.take(n) =~= path);
    assert(text::pieces(full, "?"@)[0] == path);
}

// ---------------------------------------------------------------------------
// Headers
// ---------------------------------------------------------------------------

/// A header is found by its name, whatever the case of its letters; the first
/// one counts.
pub proof fn law_headers_are_found(headers: Seq<(Seq<char>, Seq<char>)>, name: Seq<char>)
    ensures
        match media::header_from(headers, name, 0) {
            Some(value) => exists|k: int|
                0 <= k < headers.len() && (#[trigger] headers[k]).1 == value && text::lower(
                    headers[k].0,
                ) == text::lower(name) && forall|j: int|
                    0 <= j < k ==> text::lower((#[trigger] headers[j]).0) != text::lower(name),
            None => forall|k: int|
                0 <= k < headers.len() ==> text::lower((#[trigger] headers[k]).0) != text::lower(
                    name,
                ),
        },
{
    lemma_header(headers, name, 0);
}

proof fn lemma_header(headers: Seq<(Seq<char>, Seq<char>)>, name: Seq<char>, from: int)
    requires
        0 <= from <= headers.len(),
        forall|j: int| 0 <= j < from ==> text::lower((#[trigger] headers[j]).0) != text::lower(name),
    ensures
        match media::header_from(headers, name, from) {
            Some(value) => exists|k: int|
                0 <= k < headers.len() && (#[trigger] headers[k]).1 == value && text::lower(
                    headers[k].0,
                ) == text::lower(name) && forall|j: int|
                    0 <= j < k ==> text::lower((#[trigger] headers[j]).0) != text::lower(name),
            None => forall|k: int|
                0 <= k < headers.len() ==> text::lower((#[trigger] headers[k]).0) != text::lower(
                    name,
                ),
        },
    decreases headers.len() - from,
{
    if from < headers.len() {
        if text::lower(headers[from].0) == text::lower(name) {
            assert(headers[from].1 == headers[from].1);
        } else {
            lemma_header(headers, name, from + 1);
        }
    }
}

/// What a peer sends is passed on with its type and its place in the file.
pub proof fn law_replies_of_peers_are_passed_on(
    kind: Option<Seq<char>>,
    range: Option<Seq<char>>,
    fallback: Seq<char>,
)
    ensures
        ({
            let headers = media::proxy_fields(kind, range, fallback);
            &&& tells(
                headers,
                "Content-Type"@,
                if kind is Some {
                    kind->0
                } else {
                    fallback
                },
            )
            &&& range is Some ==> tells(headers, "Content-Range"@, range->0)
            &&& range is None ==> forall|k: int|
                0 <= k < headers.len() ==> (#[trigger] headers[k]).0 != "Content-Range"@
            &&& tells(headers, "Accept-Ranges"@, "bytes"@)
        }),
{
    reveal_strlit("Content-Range");
    reveal_strlit("Accept-Ranges");
    reveal_strlit("Content-Type");
    reveal_strlit("Cache-Control");
    reveal_strlit("Access-Control-Allow-Origin");
    let headers = media::proxy_fields(kind, range, fallback);
    assert(headers[0] == ("Accept-Ranges"@, "bytes"@));
    assert(headers[3].0 == "Content-Type"@);
    assert(headers.contains(headers[3]));
    assert("Content-Range"@[0] == 'C' && "Accept-Ranges"@[0] == 'A');
    assert("Content-Range"@.len() == 13 && "Content-Type"@.len() == 12);
    assert("Cache-Control"@[1] == 'a' && "Content-Range"@[1] == 'o');
    assert("Access-Control-Allow-Origin"@[0] == 'A');
    if let Some(range) = range {
        assert(headers[4] == ("Content-Range"@, range));
    }
}

/// A mix of a peer is asked for with the query of the player.
pub proof fn law_mixes_of_peers_are_asked_for(url: Seq<char>, query: Seq<char>)
    ensures
        media::remote_mix(url, Some(query)) == url + "?"@ + query,
        media::remote_mix(url, None) == url,
{
}

/// What a file is sent with: its type and that nothing is kept of it.
pub proof fn law_files_are_sent_as_what_they_are(
    kind: Seq<char>,
    part: Option<(int, int)>,
    size: nat,
)
    ensures
        tells(media::media_headers(kind, part, size), "Content-Type"@, crate::paths::media_type(kind)),
        tells(media::media_headers(kind, part, size), "Cache-Control"@, "no-store"@),
        tells(media::media_headers(kind, part, size), "Access-Control-Allow-Origin"@, "*"@),
{
    let headers = media::media_headers(kind, part, size);
    assert(headers[1] == ("Content-Type"@, crate::paths::media_type(kind)));
    assert(headers[2] == ("Cache-Control"@, "no-store"@));
    assert(headers[3] == ("Access-Control-Allow-Origin"@, "*"@));
}

} // verus!
