//! Who takes part in a session, and what they see of it.

use vstd::arithmetic::power2;
use vstd::prelude::*;

use crate::digits;
use crate::fingerprint;
use crate::ids;
use crate::joining;
use crate::joining::AcceptedJoin;
use crate::joining::JoinedSession;
use crate::json;
use crate::json::Tree;
use crate::laws;
use crate::names;
use crate::number;
use crate::paths::FilePath;
use crate::protocol::Asked;
use crate::protocol::HostedSession;
use crate::protocol::NetworkJoinResponse;
use crate::protocol::PeerRoute;
use crate::protocol;
use crate::relay;
use crate::serving;
use crate::session;
use crate::session::CollaborationTransport;
use crate::session::Event;
use crate::session::Peer;
use crate::session::Shared;
use crate::sharing;
use crate::sharing::Posted;
use crate::text;

verus! {

// ---------------------------------------------------------------------------
// Names
// ---------------------------------------------------------------------------

/// Whether a name stands before another: at the first place at which they
/// differ it has the lesser character, or it ends there.
pub open spec fn stands_before(a: Seq<char>, b: Seq<char>) -> bool {
    exists|k: int|
        {
            &&& 0 <= k <= a.len()
            &&& k < b.len()
            &&& #[trigger] a.take(k) == b.take(k)
            &&& k == a.len() || a[k] < b[k]
        }
}

/// Names are ordered as in a dictionary, by their characters.
pub proof fn law_names_are_ordered(a: Seq<char>, b: Seq<char>)
    ensures
        names::precedes(a, b) <==> stands_before(a, b),
    decreases a.len(),
{
    if a.len() > 0 && b.len() > 0 && a[0] == b[0] {
        let x = a.skip(1);
        let y = b.skip(1);
        law_names_are_ordered(x, y);
        if stands_before(x, y) {
            let k = choose|k: int|
                {
                    &&& 0 <= k <= x.len()
                    &&& k < y.len()
                    &&& #[trigger] x.take(k) == y.take(k)
                    &&& k == x.len() || x[k] < y[k]
                };
            assert(a.take(k + 1) =~= seq![a[0]] + x.take(k));
            assert(b.take(k + 1) =~= seq![b[0]] + y.take(k));
            assert(a.take(k + 1) == b.take(k + 1));
        }
        if stands_before(a, b) {
            let k = choose|k: int|
                {
                    &&& 0 <= k <= a.len()
                    &&& k < b.len()
                    &&& #[trigger] a.take(k) == b.take(k)
                    &&& k == a.len() || a[k] < b[k]
                };
            assert(k > 0);
            assert(x.take(k - 1) =~= a.take(k).skip(1));
            assert(y.take(k - 1) =~= b.take(k).skip(1));
            assert(x.take(k - 1) == y.take(k - 1));
        }
    } else {
        if names::precedes(a, b) {
            assert(a.take(0) =~= b.take(0));
        }
        if stands_before(a, b) {
            let k = choose|k: int|
                {
                    &&& 0 <= k <= a.len()
                    &&& k < b.len()
                    &&& #[trigger] a.take(k) == b.take(k)
                    &&& k == a.len() || a[k] < b[k]
                };
            if k > 0 {
                assert(a.take(k)[0] == b.take(k)[0]);
            }
        }
    }
}

/// A sorted list holds the same names, each as often, and none stands before
/// one in front of it.
pub proof fn law_sorted_lists_hold_the_same(list: Seq<Seq<char>>)
    ensures
        names::sorted(list).to_multiset() == list.to_multiset(),
        forall|i: int, j: int|
            0 <= i < j < names::sorted(list).len() ==> !stands_before(
                #[trigger] names::sorted(list)[j],
                #[trigger] names::sorted(list)[i],
            ),
{
    names::lemma_sorted(list);
    assert forall|i: int, j: int| 0 <= i < j < names::sorted(list).len() implies !stands_before(
        #[trigger] names::sorted(list)[j],
        #[trigger] names::sorted(list)[i],
    ) by {
        law_names_are_ordered(names::sorted(list)[j], names::sorted(list)[i]);
    }
}

// ---------------------------------------------------------------------------
// Those who take part
// ---------------------------------------------------------------------------

/// Guests who were heard of within the last twelve seconds take part under
/// their names; the others are forgotten.
pub proof fn law_quiet_guests_are_forgotten(
    peers: Map<Seq<char>, Peer>,
    now: nat,
    id: Seq<char>,
)
    ensures
        session::present(peers, now).dom().contains(id) <==> peers.dom().contains(id) && now
            - peers[id].last_seen <= 12_000_000_000,
        session::present(peers, now).dom().contains(id) ==> session::present(peers, now)[id]
            == peers[id],
{
}

/// A guest who is heard of keeps their name, and is heard of now; nobody else
/// is concerned, and nobody comes in this way.
pub proof fn law_guests_are_heard_of(
    peers: Map<Seq<char>, Peer>,
    id: Seq<char>,
    now: nat,
    other: Seq<char>,
)
    ensures
        ({
            let after = session::heard_of(peers, id, now);
            &&& after.dom().contains(other) <==> peers.dom().contains(other)
            &&& peers.dom().contains(other) ==> after[other].name == peers[other].name
            &&& peers.dom().contains(other) ==> after[other].last_seen == if other == id {
                now
            } else {
                peers[other].last_seen
            }
        }),
{
}

/// The roster names the host and every guest, and nobody else: it has one name
/// for each of them.
pub proof fn law_roster_names_everyone(
    roster: Seq<Seq<char>>,
    host: Seq<char>,
    peers: Map<Seq<char>, Peer>,
)
    requires
        session::is_roster(roster, host, peers),
    ensures
        roster.contains(host),
        forall|id: Seq<char>| #[trigger]
            peers.dom().contains(id) ==> roster.contains(peers[id].name),
        forall|name: Seq<char>| #[trigger]
            roster.contains(name) ==> name == host || exists|id: Seq<char>|
                peers.dom().contains(id) && #[trigger] peers[id].name == name,
        forall|i: int, j: int|
            0 <= i < j < roster.len() ==> !stands_before(#[trigger] roster[j], #[trigger] roster[i]),
{
    broadcast use vstd::seq_lib::group_to_multiset_ensures;

    let ids = choose|ids: Seq<Seq<char>>| #[trigger]
        session::is_order(peers, ids) && roster == names::sorted(
            seq![host] + session::peer_names(peers, ids, ids.len()),
        );
    let list = seq![host] + session::peer_names(peers, ids, ids.len());
    law_sorted_lists_hold_the_same(list);
    sharing::lemma_names_each(peers, ids, ids.len());
    assert forall|name: Seq<char>| #[trigger] roster.contains(name) <==> list.contains(name) by {
        assert(roster.to_multiset().count(name) == list.to_multiset().count(name));
    }
    assert(list[0] == host);
    assert(list.contains(host));
    assert forall|id: Seq<char>| #[trigger] peers.dom().contains(id) implies roster.contains(
        peers[id].name,
    ) by {
        assert(ids.contains(id));
        let i = choose|i: int| 0 <= i < ids.len() && ids[i] == id;
        assert(session::peer_names(peers, ids, ids.len())[i] == peers[ids[i]].name);
        assert(list[i + 1] == peers[id].name);
        assert(list.contains(peers[id].name));
    }
    assert forall|name: Seq<char>| #[trigger] roster.contains(name) implies name == host
        || exists|id: Seq<char>| peers.dom().contains(id) && #[trigger] peers[id].name == name by {
        assert(list.contains(name));
        let i = choose|i: int| 0 <= i < list.len() && list[i] == name;
        if i > 0 {
            assert(session::peer_names(peers, ids, ids.len())[i - 1] == peers[ids[i - 1]].name);
            assert(ids.contains(ids[i - 1]));
            assert(peers[ids[i - 1]].name == name);
        }
    }
}

// ---------------------------------------------------------------------------
// Playback
// ---------------------------------------------------------------------------

/// Playback can be shared from the start of the video on, at a quarter to four
/// times its speed.
pub proof fn law_playback_has_bounds(transport: CollaborationTransport)
    ensures
        transport.is_valid() <==> {
            &&& transport.position.finite() && transport.playback_rate.finite()
            &&& transport.position.units() >= 0
            &&& power2::pow2(1074) <= 4 * transport.playback_rate.units()
            &&& transport.playback_rate.units() <= 4 * power2::pow2(1074)
        },
{
    let f = number::double();
    let p = power2::pow2(1074);
    number::lemma_size_zero(0);
    let slow: nat = 0x3fd0_0000_0000_0000;
    let fast: nat = 0x4010_0000_0000_0000;
    let h: int = 0x10_0000_0000_0000;
    vstd::arithmetic::div_mod::lemma_fundamental_div_mod_converse(slow as int, h, 1021, 0);
    vstd::arithmetic::div_mod::lemma_fundamental_div_mod_converse(fast as int, h, 1025, 0);
    power2::lemma2_to64();
    power2::lemma2_to64_rest();
    power2::lemma_pow2_adds(1020, 52);
    power2::lemma_pow2_adds(1072, 2);
    power2::lemma_pow2_adds(1024, 52);
    power2::lemma_pow2_adds(1074, 2);
    let a = power2::pow2(1020);
    let b = power2::pow2(1024);
    assert((0x10_0000_0000_0000nat + 0) * a == a * 0x10_0000_0000_0000) by (nonlinear_arith);
    assert((0x10_0000_0000_0000nat + 0) * b == b * 0x10_0000_0000_0000) by (nonlinear_arith);
    assert(4 * number::steps(f, slow) == p);
    assert(number::steps(f, fast) == 4 * p);
}

/// Playback that someone sends is shared by all, with an event of the next
/// number that tells of it; it leaves the document as it is. What is no
/// playback changes nothing.
pub proof fn law_playback_is_shared(shared: Shared, post: Posted)
    requires
        post.kind == "transport"@,
    ensures
        ({
            let after = sharing::after_one(shared, post);
            &&& after.markdown == shared.markdown
            &&& after.revision == shared.revision
            &&& after.peers == shared.peers
            &&& match post.transport {
                Some(transport) if transport.is_valid() => {
                    &&& after.transport == transport
                    &&& after.sequence == shared.sequence + 1
                    &&& after.events.len() > 0
                    &&& after.events.last() == (Event {
                        sequence: shared.sequence + 1,
                        sender: post.sender,
                        kind: post.kind,
                        payload: post.payload,
                    })
                },
                _ => after == shared,
            }
        }),
{
    let event = Event {
        sequence: shared.sequence + 1,
        sender: post.sender,
        kind: post.kind,
        payload: post.payload,
    };
    let full = shared.events.push(event);
    assert(session::latest(full).last() == full.last());
}

/// What is neither playback nor a document changes nothing.
pub proof fn law_other_events_are_refused(shared: Shared, post: Posted)
    requires
        post.kind != "transport"@,
        post.kind != "document"@,
    ensures
        sharing::after_one(shared, post) == shared,
        session::effect(shared, post.kind, post.transport, post.payload) is Err,
{
}

// ---------------------------------------------------------------------------
// Guests
// ---------------------------------------------------------------------------

/// Every route that is decided is told as what it is.
pub proof fn law_routes_are_told(route: PeerRoute)
    ensures
        route is Media <==> route@ is Media,
        route is Mix <==> route@ is Mix,
        route is Join <==> route@ is Join,
        route is Event <==> route@ is Event,
        route is Leave <==> route@ is Leave,
        route matches PeerRoute::Status(status) ==> route@ == Asked::Status(status as int),
        route matches PeerRoute::Events { after, peer_id } ==> route@ == (Asked::Events {
            after: after as nat,
            peer: text::opt(peer_id),
        }),
{
}

/// The address at which a guest asks for a part of a session is the one at
/// which the host answers with it.
pub proof fn law_guests_reach_the_host(base: Seq<char>, token: Seq<char>, part: Seq<char>) -> (path:
    Seq<char>)
    ensures
        joining::session_url(base, token, part) == base + path,
        serving::names_part(path, token, part),
{
    reveal_strlit("/session/");
    reveal_strlit("session/");
    let core = "session/"@ + token + "/"@ + part;
    let path = serving::slashes(1) + core + serving::slashes(0);
    assert("/session/"@ =~= serving::slashes(1) + "session/"@);
    assert(joining::session_url(base, token, part) =~= base + path);
    path
}

/// A guest asks the host for the events behind the last one that it knows.
pub proof fn law_guests_ask_for_news(joined: JoinedSession) -> (path: Seq<char>)
    ensures
        joining::poll_url(joined) == joined.host_base_url@ + path + "?after="@ + digits::decimal(
            joined.cursor as nat,
        ) + "&peerId="@ + joined.peer_id@,
        serving::names_part(path, joined.token@, "events"@),
{
    reveal_strlit("events");
    reveal_strlit("?after=");
    reveal_strlit("events?after=");
    let base = joined.host_base_url@;
    let path = law_guests_reach_the_host(base, joined.token@, "events"@);
    assert("events?after="@ =~= "events"@ + "?after="@);
    assert(joining::session_url(base, joined.token@, "events?after="@) =~= joining::session_url(
        base,
        joined.token@,
        "events"@,
    ) + "?after="@);
    path
}

/// A guest who joins plays the video and the mix of the host, and sees the
/// sidecar and the playback as they are shared at that moment.
pub proof fn law_newcomers_see_what_is_shared(
    accepted: AcceptedJoin,
    network: NetworkJoinResponse,
    hosted: HostedSession,
    shared: Shared,
    base: Seq<char>,
    kind: Seq<char>,
    media_base: Seq<char>,
    media_token: Seq<char>,
    shadow: FilePath,
) -> (r: (Seq<char>, Seq<char>))
    requires
        network.introduces(hosted, shared),
        accepted.plays(network, base, kind, media_base, media_token),
        accepted.shows(network, shadow),
    ensures
        accepted.source.media_url@ == base + r.0,
        serving::names_part(r.0, hosted.token@, "media"@),
        accepted.source.mix_url@ == base + r.1,
        serving::names_part(r.1, hosted.token@, "mix"@),
        accepted.document.markdown@ == shared.markdown,
        accepted.document.playback_position == shared.transport.position,
        accepted.transport == shared.transport,
        accepted.document.video_name@ == hosted.video_name@,
        accepted.media_registration.url@ == media_base + "/media/"@ + media_token,
        accepted.media_registration.mix_base_url@ == media_base + "/mix/"@ + media_token,
{
    let media = law_guests_reach_the_host(base, hosted.token@, "media"@);
    let mix = law_guests_reach_the_host(base, hosted.token@, "mix"@);
    (media, mix)
}

/// A guest who joined, and who reads the news before more events were sent than
/// are kept, has the sidecar of the host.
pub proof fn law_joined_guests_follow(
    accepted: AcceptedJoin,
    network: NetworkJoinResponse,
    hosted: HostedSession,
    shared: Shared,
    posts: Seq<Posted>,
    code: Seq<char>,
    base: Seq<char>,
    peer: Seq<char>,
    name: Seq<char>,
    shadow: FilePath,
)
    requires
        network.introduces(hosted, shared),
        accepted.takes_part(network, code, base, peer, name, shadow),
        accepted.shows(network, shadow),
        session::is_recent(shared.events, shared.sequence),
        posts.len() <= 1024,
    ensures
        ({
            let end = sharing::after_all(shared, posts, posts.len());
            let news = session::events_after(end.events, accepted.session.cursor as nat);
            sharing::followed(accepted.document.markdown@, news) == end.markdown
        }),
        accepted.session.token@ == hosted.token@,
        accepted.session.peer_id@ == peer,
        accepted.session.code@ == code,
{
    sharing::law_guests_follow_the_document(shared, posts);
}

/// A request to join tells the code, who asks and under which name.
pub proof fn law_join_requests_are_read(code: Seq<char>, peer: Seq<char>, name: Seq<char>)
    ensures
        ({
            let tree = Some(joining::join_request(code, peer, name));
            &&& json::string(json::field(tree, "code"@)) == Some(code)
            &&& json::string(json::field(tree, "peerId"@)) == Some(peer)
            &&& json::string(json::field(tree, "displayName"@)) == Some(name)
        }),
{
    reveal_strlit("code");
    reveal_strlit("peerId");
    reveal_strlit("displayName");
    assert("code"@.len() == 4 && "peerId"@.len() == 6 && "displayName"@.len() == 11);
    reveal_with_fuel(json::field_from, 5);
}

/// An event that a guest sends tells who sent it, its kind and what it holds.
pub proof fn law_sent_events_are_read(peer: Seq<char>, kind: Seq<char>, payload: Tree)
    ensures
        ({
            let tree = Some(joining::event_request(peer, kind, payload));
            &&& json::string(json::field(tree, "peerId"@)) == Some(peer)
            &&& json::string(json::field(tree, "kind"@)) == Some(kind)
            &&& json::field(tree, "payload"@) == Some(payload)
        }),
{
    reveal_strlit("kind");
    reveal_strlit("peerId");
    reveal_strlit("payload");
    assert("kind"@.len() == 4 && "peerId"@.len() == 6 && "payload"@.len() == 7);
    reveal_with_fuel(json::field_from, 5);
}

/// Every computer that announces a session is tried, in order, at its port.
pub proof fn law_every_host_is_tried(hosts: Seq<Seq<char>>, port: nat, n: nat)
    requires
        n <= hosts.len(),
    ensures
        joining::base_urls(hosts, port, n).len() == n,
        forall|i: int|
            0 <= i < n ==> #[trigger] joining::base_urls(hosts, port, n)[i] == "http://"@ + hosts[i]
                + ":"@ + digits::decimal(port),
    decreases n,
{
    if n > 0 {
        law_every_host_is_tried(hosts, port, (n - 1) as nat);
    }
}

/// Joining needs a code of six digits, and nothing that is hosted or joined.
pub proof fn law_joining_needs_a_code(code: Seq<char>, hosted: bool, joined: bool)
    ensures
        joining::join_refusal(code, hosted, joined) is None <==> !hosted && !joined
            && text::trimmed(code).len() == 6 && digits::all_digits(text::trimmed(code)),
{
}

// ---------------------------------------------------------------------------
// Answers to requests
// ---------------------------------------------------------------------------

/// A request to join is let through exactly where it names the code of the
/// session that is hosted; one that cannot be read is answered with the status
/// 400, and says why.
pub proof fn law_joins_are_judged(hosted: Option<Seq<char>>, read: Result<Seq<char>, Seq<char>>)
    ensures
        protocol::join_refusal(hosted, read) is None <==> read is Ok && hosted == Some(read->Ok_0),
        read is Err ==> protocol::join_refusal(hosted, read) == Some(
            (400int, protocol::error_tree(read->Err_0)),
        ),
        read is Err ==> json::string(
            json::field(Some(protocol::error_tree(read->Err_0)), "error"@),
        ) == Some(read->Err_0),
{
    reveal_with_fuel(json::field_from, 2);
}

/// A session is hosted where nothing is hosted or joined already.
pub proof fn law_one_session_at_a_time(joined: bool, hosted: bool, active: bool, relay: Seq<char>)
    ensures
        protocol::host_refusal(joined, hosted) is None <==> !joined && !hosted,
        relay::relay_host_refusal(relay, joined, hosted, active) is None <==> !joined && !hosted
            && !active && relay::relay_name(relay).len() > 0,
{
}

/// Joining over the relay needs its address and a code of six digits.
pub proof fn law_relay_needs_an_address(
    relay: Seq<char>,
    code: Seq<char>,
    hosted: bool,
    joined: bool,
)
    ensures
        relay::relay_join_refusal(relay, code, hosted, joined) is None <==> !hosted && !joined
            && ids::is_code(text::trimmed(code)) && relay::relay_name(relay).len() > 0,
{
}

/// The address of the relay is taken without white space and without slashes
/// at its end.
pub proof fn law_relay_addresses_are_plain(name: Seq<char>, n: nat)
    requires
        name.len() > 0,
        !text::is_white(name[0]),
        !text::is_white(name.last()),
        name.last() != '/',
    ensures
        relay::relay_name(name + serving::slashes(n)) == name,
        relay::relay_name(name) == name,
{
    reveal_strlit("/");
    let class = text::among("/"@);
    assert("/"@[0] == '/' && "/"@.contains('/'));
    assert forall|c: char| #[trigger] class(c) implies c == '/' by {}
    let full = name + serving::slashes(n);
    assert(full[0] == name[0]);
    if n > 0 {
        assert(full.last() == '/');
    } else {
        assert(full =~= name);
    }
    laws::lemma_trimmed_keeps(full);
    laws::lemma_trimmed_keeps(name);
    lemma_slashes_dropped(name, n);
    assert(text::drop_trailing(name, class) == name);
}

proof fn lemma_slashes_dropped(name: Seq<char>, n: nat)
    requires
        name.len() > 0,
        name.last() != '/',
    ensures
        text::drop_trailing(name + serving::slashes(n), text::among("/"@)) == name,
    decreases n,
{
    reveal_strlit("/");
    let class = text::among("/"@);
    assert("/"@[0] == '/' && "/"@.contains('/'));
    let full = name + serving::slashes(n);
    if n > 0 {
        let m = (n - 1) as nat;
        lemma_slashes_dropped(name, m);
        assert(full.last() == '/');
        assert(full.drop_last() =~= name + serving::slashes(m));
    } else {
        assert(full =~= name);
        assert(!class(name.last()));
    }
}

/// A document of up to eight mebibytes can be shared.
pub proof fn law_documents_have_a_limit(shared: Shared, post: Posted, markdown: Seq<char>)
    requires
        post.kind == "document"@,
        json::string(json::field(Some(post.payload), "markdown"@)) == Some(markdown),
    ensures
        session::effect(shared, post.kind, post.transport, post.payload) is Err
            <==> fingerprint::utf8(markdown).len() > 8_388_608,
{
    assert("document"@ != "transport"@) by {
        reveal_strlit("document");
        reveal_strlit("transport");
        assert("document"@.len() == 8 && "transport"@.len() == 9);
    }
}

/// Of an ASCII text the first bytes are its first characters.
pub proof fn law_first_bytes_are_taken(s: Seq<char>, n: nat)
    requires
        vstd::utf8::is_ascii_chars(s),
        n <= s.len(),
    ensures
        joining::bytes_from(s, n, 0) == Some(s.take(n as int)),
{
    lemma_bytes_from(s, n, 0);
}

proof fn lemma_bytes_from(s: Seq<char>, n: nat, k: nat)
    requires
        vstd::utf8::is_ascii_chars(s),
        k <= n <= s.len(),
    ensures
        joining::bytes_from(s, n, k) == Some(s.take(n as int)),
    decreases n - k,
{
    let front = s.take(k as int);
    assert(vstd::utf8::is_ascii_chars(front)) by {
        assert(s =~= front + s.skip(k as int));
        vstd::utf8::is_ascii_chars_concat(s, front, s.skip(k as int));
    }
    vstd::utf8::is_ascii_chars_encode_utf8(front);
    if k < n {
        lemma_bytes_from(s, n, k + 1);
    }
}

/// Whoever asks for news is told every event behind the number that they name,
/// each once and in order, how many take part, and who they are.
pub proof fn law_polls_tell_the_news(
    result: session::CollaborationPollResult,
    shared: Shared,
    host: Seq<char>,
    after: nat,
)
    requires
        result.tells(shared, host, after),
        session::is_recent(shared.events, shared.sequence),
        shared.sequence - shared.events.len() <= after <= shared.sequence,
    ensures
        result.events@.len() == shared.sequence - after,
        forall|i: int|
            0 <= i < result.events@.len() ==> (#[trigger] result.events@[i]).sequence == after + 1
                + i && result.events@[i]@ == shared.events[shared.events.len()
                - result.events@.len() + i],
        result.participant_count == 1 + shared.peers.dom().len(),
        result.connected,
        text::views(result.participants@).contains(host),
        forall|id: Seq<char>| #[trigger]
            shared.peers.dom().contains(id) ==> text::views(result.participants@).contains(
                shared.peers[id].name,
            ),
{
    let news = session::events_after(shared.events, after);
    sharing::law_news_are_complete(shared.events, shared.sequence, after);
    law_roster_names_everyone(text::views(result.participants@), host, shared.peers);
    assert(session::events_of(result.events@) == news);
    assert(news.len() == result.events@.len());
    assert forall|i: int| 0 <= i < result.events@.len() implies (
    #[trigger] result.events@[i]).sequence == after + 1 + i && result.events@[i]@
        == shared.events[shared.events.len() - result.events@.len() + i] by {
        assert(news[i] == result.events@[i]@);
    }
}

/// An event is seen with all that it holds.
pub proof fn law_events_are_seen(event: session::CollaborationEvent)
    ensures
        event@.sequence == event.sequence,
        event@.sender == event.sender_id@,
        event@.kind == event.kind@,
        event@.payload == event.payload.tree(),
{
}

/// A change is seen as what it is.
pub proof fn law_changes_are_seen(change: session::Change)
    ensures
        change is Nothing <==> change@ is Nothing,
        change matches session::Change::Transport(transport) ==> change@
            == session::Effect::Transport(transport),
        change matches session::Change::Document(markdown) ==> change@ == session::Effect::Document(
            markdown@,
        ),
{
}

/// The state of a session is seen with all that it holds.
pub proof fn law_sessions_are_seen(runtime: session::HostedSessionRuntime)
    ensures
        runtime@.sequence == runtime.sequence,
        runtime@.revision == runtime.document_revision,
        runtime@.markdown == runtime.markdown@,
        runtime@.transport == runtime.transport,
        runtime@.events.len() == runtime.events@.len(),
        forall|i: int|
            0 <= i < runtime.events@.len() ==> #[trigger] runtime@.events[i] == runtime.events@[i]@,
        forall|id: Seq<char>| #[trigger]
            runtime@.peers.dom().contains(id) <==> runtime.peers.content().dom().contains(id),
        forall|id: Seq<char>|
            runtime.peers.content().dom().contains(id) ==> (#[trigger] runtime@.peers[id]).name
                == runtime.peers.content()[id].name@ && runtime@.peers[id].last_seen
                == runtime.peers.content()[id].last_seen,
{
}

} // verus!
