//! What holds of a shared session, however many take part in it.

use vstd::prelude::*;

use crate::address;
use crate::fingerprint;
use crate::joining;
use crate::json;
use crate::json::Tree;
use crate::media::Method;
use crate::names;
use crate::protocol;
use crate::protocol::Asked;
use crate::session;
use crate::session::CollaborationTransport;
use crate::session::Effect;
use crate::session::Event;
use crate::session::Peer;
use crate::session::Shared;
use crate::text;

verus! {

// ---------------------------------------------------------------------------
// Events
// ---------------------------------------------------------------------------

proof fn lemma_newer(events: Seq<Event>, sequence: nat, after: nat, n: nat)
    requires
        session::is_recent(events, sequence),
        sequence - events.len() <= after <= sequence,
        n <= events.len(),
    ensures
        ({
            let k = after - (sequence - events.len());
            session::newer(events, after, n) == if n <= k {
                Seq::empty()
            } else {
                events.subrange(k, n as int)
            }
        }),
    decreases n,
{
    let k = after - (sequence - events.len());
    if n > 0 {
        lemma_newer(events, sequence, after, (n - 1) as nat);
        assert(events[n - 1].sequence == sequence - events.len() + n);
        if n > k {
            assert(session::newer(events, after, n) =~= events.subrange(k, n as int));
        }
    }
}

/// News are the events with the numbers that follow the last one known, each
/// of them once and in order; after they are read, there are none.
pub proof fn law_news_are_complete(events: Seq<Event>, sequence: nat, after: nat)
    requires
        session::is_recent(events, sequence),
        sequence - events.len() <= after <= sequence,
    ensures
        ({
            let news = session::events_after(events, after);
            &&& news.len() == sequence - after
            &&& forall|i: int|
                0 <= i < news.len() ==> (#[trigger] news[i]).sequence == after + 1 + i
                    && news[i] == events[events.len() - news.len() + i]
            &&& session::cursor_after(after, news) == sequence
            &&& session::events_after(events, session::cursor_after(after, news)).len() == 0
        }),
{
    lemma_newer(events, sequence, after, events.len());
    lemma_newer(events, sequence, sequence, events.len());
    let k = after - (sequence - events.len());
    let news = session::events_after(events, after);
    if k < events.len() {
        assert(news == events.subrange(k, events.len() as int));
    }
}

/// An event that changes something gets the next number, and those kept stay
/// the latest ones without a gap; one that changes nothing leaves all as it
/// was.
pub proof fn law_events_are_numbered(
    shared: Shared,
    effect: Effect,
    sender: Seq<char>,
    kind: Seq<char>,
    payload: Tree,
)
    requires
        session::is_recent(shared.events, shared.sequence),
    ensures
        ({
            let after = session::published(shared, effect, sender, kind, payload);
            &&& session::is_recent(after.events, after.sequence)
            &&& effect is Nothing ==> after == shared
            &&& effect !is Nothing ==> after.sequence == shared.sequence + 1
                && after.events.last() == (Event {
                sequence: shared.sequence + 1,
                sender,
                kind,
                payload,
            })
        }),
{
    let after = session::published(shared, effect, sender, kind, payload);
    if effect !is Nothing {
        let event = Event { sequence: shared.sequence + 1, sender, kind, payload };
        let full = shared.events.push(event);
        assert(after.events == session::latest(full));
        let dropped = full.len() - after.events.len();
        assert forall|i: int| 0 <= i < after.events.len() implies (
        #[trigger] after.events[i]).sequence == after.sequence - after.events.len() + 1 + i by {
            assert(after.events[i] == full[i + dropped]);
            if i + dropped < shared.events.len() {
                assert(full[i + dropped] == shared.events[i + dropped]);
            }
        }
        assert(after.events.last() == full.last());
    }
}

/// An event that someone sends. `transport` is the playback that its payload
/// describes, where it describes one.
pub struct Posted {
    pub sender: Seq<char>,
    pub kind: Seq<char>,
    pub transport: Option<CollaborationTransport>,
    pub payload: Tree,
}

/// The state after one that was sent: one that is refused changes nothing.
pub open spec fn after_one(shared: Shared, post: Posted) -> Shared {
    match session::effect(shared, post.kind, post.transport, post.payload) {
        Ok(effect) => session::published(shared, effect, post.sender, post.kind, post.payload),
        Err(_) => shared,
    }
}

/// The state after the first `n` that were sent.
pub open spec fn after_all(shared: Shared, posts: Seq<Posted>, n: nat) -> Shared
    decreases n,
{
    if n == 0 {
        shared
    } else {
        after_one(after_all(shared, posts, (n - 1) as nat), posts[n - 1])
    }
}

/// The sidecar of a guest after it read events: the last one shared.
pub open spec fn followed(markdown: Seq<char>, events: Seq<Event>) -> Seq<char> {
    let texts = joining::shared_texts(events, events.len());
    if texts.len() > 0 {
        texts.last()
    } else {
        markdown
    }
}

proof fn lemma_texts_grow(events: Seq<Event>, event: Event, n: nat)
    requires
        n <= events.len(),
    ensures
        joining::shared_texts(events.push(event), n) == joining::shared_texts(events, n),
    decreases n,
{
    if n > 0 {
        lemma_texts_grow(events, event, (n - 1) as nat);
        assert(events.push(event)[n - 1] == events[n - 1]);
    }
}

proof fn lemma_followed_one(shared: Shared, post: Posted, markdown: Seq<char>, news: Seq<Event>)
    requires
        followed(markdown, news) == shared.markdown,
        session::effect(shared, post.kind, post.transport, post.payload) matches Ok(effect)
            && effect !is Nothing,
    ensures
        followed(
            markdown,
            news.push(
                Event {
                    sequence: shared.sequence + 1,
                    sender: post.sender,
                    kind: post.kind,
                    payload: post.payload,
                },
            ),
        ) == after_one(shared, post).markdown,
{
    reveal_strlit("transport");
    reveal_strlit("document");
    let event = Event {
        sequence: shared.sequence + 1,
        sender: post.sender,
        kind: post.kind,
        payload: post.payload,
    };
    let longer = news.push(event);
    lemma_texts_grow(news, event, news.len());
    assert("transport"@[0] == 't' && "document"@[0] == 'd');
    assert(longer[longer.len() - 1] == event);
}

proof fn lemma_followed(shared: Shared, posts: Seq<Posted>, n: nat)
    requires
        session::is_recent(shared.events, shared.sequence),
        n <= posts.len(),
        n <= session::COLLABORATION_EVENT_LIMIT,
    ensures
        ({
            let end = after_all(shared, posts, n);
            let news = session::events_after(end.events, shared.sequence);
            &&& session::is_recent(end.events, end.sequence)
            &&& shared.sequence <= end.sequence <= shared.sequence + n
            &&& end.sequence - end.events.len() <= shared.sequence
            &&& followed(shared.markdown, news) == end.markdown
        }),
    decreases n,
{
    if n == 0 {
        law_news_are_complete(shared.events, shared.sequence, shared.sequence);
        let news = session::events_after(shared.events, shared.sequence);
        assert(joining::shared_texts(news, news.len()).len() == 0);
    } else {
        lemma_followed(shared, posts, (n - 1) as nat);
        let before = after_all(shared, posts, (n - 1) as nat);
        let post = posts[n - 1];
        let end = after_all(shared, posts, n);
        match session::effect(before, post.kind, post.transport, post.payload) {
            Ok(effect) => {
                law_events_are_numbered(before, effect, post.sender, post.kind, post.payload);
                if effect !is Nothing {
                    let old_news = session::events_after(before.events, shared.sequence);
                    lemma_followed_one(before, post, shared.markdown, old_news);
                    let event = Event {
                        sequence: before.sequence + 1,
                        sender: post.sender,
                        kind: post.kind,
                        payload: post.payload,
                    };
                    let full = before.events.push(event);
                    assert(end.events == session::latest(full));
                    law_news_are_complete(before.events, before.sequence, shared.sequence);
                    assert(end.sequence - end.events.len() <= shared.sequence);
                    law_news_are_complete(end.events, end.sequence, shared.sequence);
                    let news = session::events_after(end.events, shared.sequence);
                    assert(news =~= old_news.push(event)) by {
                        assert forall|i: int| 0 <= i < news.len() implies news[i]
                            == old_news.push(event)[i] by {
                            let k = end.events.len() - news.len() + i;
                            assert(news[i] == end.events[k]);
                            let m = k + full.len() - end.events.len();
                            assert(end.events[k] == full[m]);
                            if i < old_news.len() {
                                assert(old_news[i] == before.events[before.events.len()
                                    - old_news.len() + i]);
                                assert(full[m] == before.events[m]);
                            }
                        }
                    }
                }
            },
            Err(_) => {},
        }
    }
}

/// A session keeps the latest events, whatever was sent: all of them, or as
/// many as are kept, numbered without a gap up to the last one. Neither the
/// number nor the revision grows by more than what was sent.
pub proof fn law_latest_events_are_kept(shared: Shared, posts: Seq<Posted>, n: nat)
    requires
        session::is_recent(shared.events, shared.sequence),
    ensures
        ({
            let end = after_all(shared, posts, n);
            &&& session::is_recent(end.events, end.sequence)
            &&& shared.sequence <= end.sequence <= shared.sequence + n
            &&& shared.revision <= end.revision <= shared.revision + n
        }),
    decreases n,
{
    if n > 0 {
        law_latest_events_are_kept(shared, posts, (n - 1) as nat);
        let before = after_all(shared, posts, (n - 1) as nat);
        let post = posts[n - 1];
        if let Ok(effect) = session::effect(before, post.kind, post.transport, post.payload) {
            law_events_are_numbered(before, effect, post.sender, post.kind, post.payload);
        }
    }
}

/// A document that is accepted becomes that of the session; one that the
/// session has already, and one that is refused, change nothing.
pub proof fn law_documents_are_shared(shared: Shared, post: Posted)
    requires
        post.kind == "document"@,
    ensures
        ({
            let sent = json::string(json::field(Some(post.payload), "markdown"@));
            let after = after_one(shared, post);
            match sent {
                Some(markdown) if fingerprint::utf8(markdown).len() <= session::MARKDOWN_LIMIT => {
                    &&& after.markdown == markdown
                    &&& markdown == shared.markdown ==> after == shared
                    &&& markdown != shared.markdown ==> after.revision == shared.revision + 1
                        && after.sequence == shared.sequence + 1
                },
                _ => after == shared,
            }
        }),
{
    assert("document"@ != "transport"@) by {
        reveal_strlit("document");
        reveal_strlit("transport");
        assert("document"@.len() == 8);
        assert("transport"@.len() == 9);
    }
}

/// A guest who knew all that was shared, and who reads the news before more
/// events were sent than are kept, has the sidecar of the host.
pub proof fn law_guests_follow_the_document(shared: Shared, posts: Seq<Posted>)
    requires
        session::is_recent(shared.events, shared.sequence),
        posts.len() <= session::COLLABORATION_EVENT_LIMIT,
    ensures
        ({
            let end = after_all(shared, posts, posts.len());
            let news = session::events_after(end.events, shared.sequence);
            &&& followed(shared.markdown, news) == end.markdown
            &&& session::cursor_after(shared.sequence, news) == end.sequence
        }),
{
    lemma_followed(shared, posts, posts.len());
    let end = after_all(shared, posts, posts.len());
    law_news_are_complete(end.events, end.sequence, shared.sequence);
}

/// The playback that is shared can be followed at any time.
pub proof fn law_playback_stays_valid(shared: Shared, posts: Seq<Posted>, n: nat)
    requires
        shared.transport.is_valid(),
        n <= posts.len(),
    ensures
        after_all(shared, posts, n).transport.is_valid(),
    decreases n,
{
    if n > 0 {
        law_playback_stays_valid(shared, posts, (n - 1) as nat);
    }
}

// ---------------------------------------------------------------------------
// Participants
// ---------------------------------------------------------------------------

spec fn not_behind() -> spec_fn(Seq<char>, Seq<char>) -> bool {
    |a: Seq<char>, b: Seq<char>| !names::precedes(b, a)
}

proof fn lemma_precedes_total(a: Seq<char>, b: Seq<char>)
    requires
        !names::precedes(a, b),
        !names::precedes(b, a),
    ensures
        a == b,
    decreases a.len(),
{
    if a.len() > 0 && b.len() > 0 && a[0] == b[0] {
        lemma_precedes_total(a.skip(1), b.skip(1));
        assert(a =~= seq![a[0]] + a.skip(1));
        assert(b =~= seq![b[0]] + b.skip(1));
    } else {
        assert(a =~= b);
    }
}

proof fn lemma_names_multiset(
    peers: Map<Seq<char>, Peer>,
    a: Seq<Seq<char>>,
    b: Seq<Seq<char>>,
)
    requires
        a.no_duplicates(),
        b.no_duplicates(),
        forall|id: Seq<char>| a.contains(id) <==> #[trigger] b.contains(id),
    ensures
        session::peer_names(peers, a, a.len()).to_multiset() == session::peer_names(
            peers,
            b,
            b.len(),
        ).to_multiset(),
    decreases a.len(),
{
    broadcast use vstd::seq_lib::group_to_multiset_ensures;

    if a.len() == 0 {
        if b.len() > 0 {
            assert(b.contains(b[0]));
        }
        assert(a =~= b);
    } else {
        let id = a.last();
        assert(a.contains(id)) by {
            assert(a[a.len() - 1] == id);
        }
        assert(b.contains(id));
        let j = choose|j: int| 0 <= j < b.len() && b[j] == id;
        let a1 = a.drop_last();
        let b1 = b.remove(j);
        assert(b1.no_duplicates());
        assert forall|other: Seq<char>| a1.contains(other) <==> #[trigger] b1.contains(other) by {
            if a1.contains(other) {
                let i = choose|i: int| 0 <= i < a1.len() && a1[i] == other;
                assert(a[i] == other);
                assert(a.contains(other));
                assert(b.contains(other));
                let k = choose|k: int| 0 <= k < b.len() && b[k] == other;
                assert(k != j);
                assert(b1[if k < j {
                    k
                } else {
                    k - 1
                }] == other);
            }
            if b1.contains(other) {
                let i = choose|i: int| 0 <= i < b1.len() && b1[i] == other;
                let k = if i < j {
                    i
                } else {
                    i + 1
                };
                assert(b[k] == other);
                assert(b.contains(other));
                assert(a.contains(other));
                let m = choose|m: int| 0 <= m < a.len() && a[m] == other;
                assert(other != id);
                assert(a1[m] == other);
            }
        }
        lemma_names_multiset(peers, a1, b1);
        lemma_names_front(peers, a, a1, a1.len());
        lemma_names_removed(peers, b, j, b.len());
        let removed = session::peer_names(peers, b, b.len());
        assert(removed.remove(j) =~= session::peer_names(peers, b1, b1.len()));
        let name = peers[id].name;
        assert(session::peer_names(peers, a, a.len()).to_multiset() =~= session::peer_names(
            peers,
            a1,
            a1.len(),
        ).to_multiset().insert(name));
        vstd::seq_lib::to_multiset_remove(removed, j);
        assert(removed.to_multiset() =~= removed.remove(j).to_multiset().insert(name)) by {
            assert(removed[j] == name);
            assert(removed.contains(name));
        }
    }
}

proof fn lemma_names_front(
    peers: Map<Seq<char>, Peer>,
    a: Seq<Seq<char>>,
    b: Seq<Seq<char>>,
    n: nat,
)
    requires
        n <= a.len(),
        n <= b.len(),
        forall|i: int| 0 <= i < n ==> #[trigger] a[i] == b[i],
    ensures
        session::peer_names(peers, a, n) == session::peer_names(peers, b, n),
    decreases n,
{
    if n > 0 {
        lemma_names_front(peers, a, b, (n - 1) as nat);
        assert(a[n - 1] == b[n - 1]);
    }
}

pub(crate) proof fn lemma_names_each(peers: Map<Seq<char>, Peer>, a: Seq<Seq<char>>, n: nat)
    requires
        n <= a.len(),
    ensures
        session::peer_names(peers, a, n).len() == n,
        forall|i: int|
            0 <= i < n ==> #[trigger] session::peer_names(peers, a, n)[i] == peers[a[i]].name,
    decreases n,
{
    if n > 0 {
        lemma_names_each(peers, a, (n - 1) as nat);
    }
}

proof fn lemma_names_removed(peers: Map<Seq<char>, Peer>, a: Seq<Seq<char>>, j: int, n: nat)
    requires
        0 <= j < a.len(),
        n == a.len(),
    ensures
        session::peer_names(peers, a, n).len() == n,
        session::peer_names(peers, a, n)[j] == peers[a[j]].name,
        session::peer_names(peers, a, n).remove(j) == session::peer_names(
            peers,
            a.remove(j),
            (n - 1) as nat,
        ),
{
    lemma_names_each(peers, a, n);
    lemma_names_each(peers, a.remove(j), (n - 1) as nat);
    assert(session::peer_names(peers, a, n).remove(j) =~= session::peer_names(
        peers,
        a.remove(j),
        (n - 1) as nat,
    ));
}

/// The list of those who take part does not depend on the order in which they
/// are kept.
pub proof fn law_roster_is_unique(
    a: Seq<Seq<char>>,
    b: Seq<Seq<char>>,
    host: Seq<char>,
    peers: Map<Seq<char>, Peer>,
)
    requires
        session::is_roster(a, host, peers),
        session::is_roster(b, host, peers),
    ensures
        a == b,
{
    broadcast use vstd::seq_lib::group_to_multiset_ensures;

    let x = choose|ids: Seq<Seq<char>>| #[trigger]
        session::is_order(peers, ids) && a == names::sorted(
            seq![host] + session::peer_names(peers, ids, ids.len()),
        );
    let y = choose|ids: Seq<Seq<char>>| #[trigger]
        session::is_order(peers, ids) && b == names::sorted(
            seq![host] + session::peer_names(peers, ids, ids.len()),
        );
    assert forall|id: Seq<char>| x.contains(id) <==> #[trigger] y.contains(id) by {
        assert(peers.dom().contains(id) <==> x.contains(id));
    }
    lemma_names_multiset(peers, x, y);
    let p = session::peer_names(peers, x, x.len());
    let q = session::peer_names(peers, y, y.len());
    vstd::seq_lib::lemma_multiset_commutative(seq![host], p);
    vstd::seq_lib::lemma_multiset_commutative(seq![host], q);
    assert((seq![host] + p).to_multiset() == (seq![host] + q).to_multiset());
    names::lemma_sorted(seq![host] + p);
    names::lemma_sorted(seq![host] + q);
    let leq = not_behind();
    assert(vstd::relations::total_ordering(leq)) by {
        assert forall|s: Seq<char>| #[trigger] leq(s, s) by {
            names::lemma_precedes_asymmetric(s, s);
        }
        assert forall|s: Seq<char>, t: Seq<char>|
            #[trigger] leq(s, t) && #[trigger] leq(t, s) implies s == t by {
            lemma_precedes_total(s, t);
        }
        assert forall|s: Seq<char>, t: Seq<char>, u: Seq<char>|
            #[trigger] leq(s, t) && #[trigger] leq(t, u) implies leq(s, u) by {
            names::lemma_precedes_transitive(s, t, u);
        }
        assert forall|s: Seq<char>, t: Seq<char>| #[trigger] leq(s, t) || leq(t, s) by {
            names::lemma_precedes_asymmetric(s, t);
        }
    }
    assert(vstd::relations::sorted_by(a, leq));
    assert(vstd::relations::sorted_by(b, leq));
    vstd::seq_lib::lemma_sorted_unique(a, b, leq);
}

// ---------------------------------------------------------------------------
// Who is served
// ---------------------------------------------------------------------------

/// Whoever does not name the token of the session gets nothing but the chance
/// to join: every other request is answered with a status, and one for a part
/// of a session with the status 404.
pub proof fn law_strangers_are_refused(
    method: Method,
    read: Option<address::Parts>,
    token: Option<Seq<char>>,
)
    requires
        read matches Some(parts) ==> {
            let segments = text::pieces(protocol::unslashed(parts.path), "/"@);
            token is None || (segments.len() > 1 ==> segments[1] != token->0)
        },
    ensures
        protocol::asked(method, read, token) is Status || protocol::asked(method, read, token)
            is Join,
        read matches Some(parts) && parts.path != "/join"@ ==> protocol::asked(method, read, token)
            == Asked::Status(404),
{
}

/// Whoever does not name the code of the session cannot join, and while none
/// is hosted nobody can: a request to join is answered with the status 403.
pub proof fn law_strangers_cannot_join(hosted: Option<Seq<char>>, code: Seq<char>)
    requires
        hosted != Some(code),
    ensures
        protocol::join_refusal(hosted, Ok(code)) == Some(
            (403int, protocol::error_tree("Session code not found."@)),
        ),
{
}

} // verus!
