//! A shared session on the computer that hosts it: its state, its events and
//! its participants.

use std::collections::VecDeque;

use vstd::prelude::*;

use crate::fingerprint;
use crate::json;
use crate::json::Json;
use crate::json::Tree;
use crate::markdown;
use crate::names;
use crate::number;
use crate::number::Binary64;
use crate::table::Table;
use crate::text;

verus! {

/// How many events are kept at most.
pub const COLLABORATION_EVENT_LIMIT: usize = 1024;

/// How long a participant counts as present, in nanoseconds.
pub const COLLABORATION_PEER_TTL: u64 = 12_000_000_000;

/// How many bytes a shared sidecar may have.
pub const MARKDOWN_LIMIT: usize = 8_388_608;

/// The synchronised playback.
#[derive(Clone, Copy, Debug)]
pub struct CollaborationTransport {
    pub position: Binary64,
    pub playing: bool,
    pub playback_rate: Binary64,
}

impl CollaborationTransport {
    /// Whether the playback can be followed: from the start of the video on,
    /// at a quarter to four times the normal rate.
    pub open spec fn is_valid(self) -> bool {
        &&& self.position.finite()
        &&& !self.position.lt(number::zero())
        &&& self.playback_rate.finite()
        &&& Binary64 { bits: 0x3fd0_0000_0000_0000 }.le(self.playback_rate)
        &&& self.playback_rate.le(Binary64 { bits: 0x4010_0000_0000_0000 })
    }

    /// Whether the playback can be followed.
    pub fn valid(self) -> (r: bool)
        ensures
            r == self.is_valid(),
    {
        let zero: Binary64 = Binary64 { bits: 0 };
        let slowest: Binary64 = Binary64 { bits: 0x3fd0_0000_0000_0000 };
        let fastest: Binary64 = Binary64 { bits: 0x4010_0000_0000_0000 };
        self.position.is_finite() && !self.position.less(zero) && self.playback_rate.is_finite()
            && slowest.at_most(self.playback_rate) && self.playback_rate.at_most(fastest)
    }
}

/// Something that happened in a session.
pub struct CollaborationEvent {
    pub sequence: u64,
    pub sender_id: String,
    pub kind: String,
    pub payload: Json,
}

/// The content of an event.
pub struct Event {
    pub sequence: nat,
    pub sender: Seq<char>,
    pub kind: Seq<char>,
    pub payload: Tree,
}

impl View for CollaborationEvent {
    type V = Event;

    open spec fn view(&self) -> Event {
        Event {
            sequence: self.sequence as nat,
            sender: self.sender_id@,
            kind: self.kind@,
            payload: self.payload.tree(),
        }
    }
}

/// The content of events.
pub open spec fn events_of(events: Seq<CollaborationEvent>) -> Seq<Event> {
    Seq::new(events.len(), |i: int| events[i]@)
}

fn copy_event(event: &CollaborationEvent) -> (r: CollaborationEvent)
    ensures
        r@ == event@,
{
    CollaborationEvent {
        sequence: event.sequence,
        sender_id: event.sender_id.clone(),
        kind: event.kind.clone(),
        payload: json::copy(&event.payload),
    }
}

/// Someone who takes part, and when they were last heard of.
pub struct PeerPresence {
    pub name: String,
    /// In nanoseconds of the clock of the host.
    pub last_seen: u64,
}

/// The content of a presence.
pub struct Peer {
    pub name: Seq<char>,
    pub last_seen: nat,
}

impl View for PeerPresence {
    type V = Peer;

    open spec fn view(&self) -> Peer {
        Peer { name: self.name@, last_seen: self.last_seen as nat }
    }
}

/// The changing state of a session.
pub struct HostedSessionRuntime {
    pub sequence: u64,
    pub document_revision: u64,
    pub markdown: String,
    pub transport: CollaborationTransport,
    pub events: VecDeque<CollaborationEvent>,
    pub peers: Table<PeerPresence>,
}

/// The content of the changing state of a session.
pub struct Shared {
    pub sequence: nat,
    pub revision: nat,
    pub markdown: Seq<char>,
    pub transport: CollaborationTransport,
    pub events: Seq<Event>,
    pub peers: Map<Seq<char>, Peer>,
}

/// The content of a table of presences.
pub open spec fn peers_of(peers: Table<PeerPresence>) -> Map<Seq<char>, Peer> {
    peers.content().map_values(|peer: PeerPresence| peer@)
}

impl View for HostedSessionRuntime {
    type V = Shared;

    open spec fn view(&self) -> Shared {
        Shared {
            sequence: self.sequence as nat,
            revision: self.document_revision as nat,
            markdown: self.markdown@,
            transport: self.transport,
            events: events_of(self.events@),
            peers: peers_of(self.peers),
        }
    }
}

/// Whether events are those of the last numbers up to one: all of them, or as
/// many as are kept.
pub open spec fn is_recent(events: Seq<Event>, sequence: nat) -> bool {
    &&& events.len() == if sequence < COLLABORATION_EVENT_LIMIT {
        sequence
    } else {
        COLLABORATION_EVENT_LIMIT as nat
    }
    &&& forall|i: int|
        0 <= i < events.len() ==> (#[trigger] events[i]).sequence == sequence - events.len() + 1 + i
}

impl HostedSessionRuntime {
    /// The events kept are the latest ones, without a gap in their numbers.
    pub open spec fn wf(&self) -> bool {
        &&& self.peers.wf()
        &&& is_recent(self@.events, self@.sequence)
        &&& self.transport.is_valid()
    }

    /// The state at the start of a session.
    pub fn new(markdown: &str) -> (r: HostedSessionRuntime)
        ensures
            r.wf(),
            r@ == (Shared {
                sequence: 0,
                revision: 0,
                markdown: markdown@,
                transport: CollaborationTransport {
                    position: markdown::position_of(markdown@),
                    playing: false,
                    playback_rate: number::natural(1),
                },
                events: Seq::empty(),
                peers: Map::empty(),
            }),
    {
        let r = HostedSessionRuntime {
            sequence: 0,
            document_revision: 0,
            markdown: markdown.to_owned(),
            transport: CollaborationTransport {
                position: markdown::playback_position(markdown),
                playing: false,
                playback_rate: Binary64::from_u64(1),
            },
            events: VecDeque::new(),
            peers: Table::new(),
        };
        assert(r@.events =~= Seq::<Event>::empty());
        assert(r@.peers =~= Map::<Seq<char>, Peer>::empty());
        proof {
            lemma_start_is_valid(r.transport, markdown@);
        }
        r
    }
}

proof fn lemma_start_is_valid(transport: CollaborationTransport, markdown: Seq<char>)
    requires
        transport.position == markdown::position_of(markdown),
        transport.playback_rate == number::natural(1),
    ensures
        transport.is_valid(),
{
    number::lemma_natural_one();
    let one = Binary64 { bits: 0x3ff0_0000_0000_0000 };
    let slow = Binary64 { bits: 0x3fd0_0000_0000_0000 };
    let fast = Binary64 { bits: 0x4010_0000_0000_0000 };
    number::lemma_steps_grow(number::double(), slow.magnitude(), one.magnitude());
    number::lemma_steps_grow(number::double(), one.magnitude(), fast.magnitude());
    let zero = number::zero();
    assert(zero.finite());
}

// ---------------------------------------------------------------------------
// Participants
// ---------------------------------------------------------------------------

/// Whether a participant counts as present.
pub open spec fn is_present(peer: Peer, now: nat) -> bool {
    now <= peer.last_seen + COLLABORATION_PEER_TTL
}

/// The participants that count as present.
pub open spec fn present(peers: Map<Seq<char>, Peer>, now: nat) -> Map<Seq<char>, Peer> {
    peers.restrict(
        Set::new(|id: Seq<char>| peers.dom().contains(id) && is_present(peers[id], now)),
    )
}

/// Forgets the participants that no longer count as present.
pub fn prune_peers(runtime: &mut HostedSessionRuntime, now: u64)
    requires
        old(runtime).wf(),
    ensures
        final(runtime).wf(),
        final(runtime)@ == (Shared {
            peers: present(old(runtime)@.peers, now as nat),
            ..old(runtime)@
        }),
{
    let ghost content = runtime.peers.content();
    let ghost before = runtime@.peers;
    let ghost keys = runtime.peers.keys();
    proof {
        runtime.peers.lemma_keys();
    }
    let n: usize = runtime.peers.len();
    assert forall|k: int| 0 <= k < n implies content.dom().contains(#[trigger] keys[k]) by {
        assert(keys.contains(keys[k]));
    }
    let mut stale: Vec<String> = Vec::new();
    let mut i: usize = 0;
    while i < n
        invariant
            i <= n,
            runtime.peers.wf(),
            runtime.peers.keys() == keys,
            runtime.peers.content() == content,
            n == keys.len(),
            before == peers_of(runtime.peers),
            forall|k: int| 0 <= k < n ==> content.dom().contains(#[trigger] keys[k]),
            forall|id: Seq<char>| #[trigger]
                text::views(stale@).contains(id) ==> content.dom().contains(id) && !is_present(
                    before[id],
                    now as nat,
                ),
            forall|k: int|
                0 <= k < i && !is_present(before[#[trigger] keys[k]], now as nat) ==> text::views(
                    stale@,
                ).contains(keys[k]),
        decreases n - i,
    {
        let id = runtime.peers.key(i);
        assert(content.dom().contains(keys[i as int]));
        let ghost had = text::views(stale@);
        match runtime.peers.get(id) {
            Some(peer) => {
                assert(before[id@] == peer@);
                if now > peer.last_seen && now - peer.last_seen > COLLABORATION_PEER_TTL {
                    stale.push(id.to_owned());
                    assert(text::views(stale@) =~= had.push(keys[i as int]));
                    assert(text::views(stale@)[had.len() as int] == keys[i as int]);
                    assert forall|other: Seq<char>| had.contains(other) implies text::views(
                        stale@,
                    ).contains(other) by {
                        let j = choose|j: int| 0 <= j < had.len() && had[j] == other;
                        assert(text::views(stale@)[j] == other);
                    }
                    assert forall|other: Seq<char>| #[trigger]
                        text::views(stale@).contains(other) implies content.dom().contains(other)
                        && !is_present(before[other], now as nat) by {
                        if other != keys[i as int] {
                            let j = choose|j: int|
                                0 <= j < stale@.len() && text::views(stale@)[j] == other;
                            assert(had[j] == other);
                            assert(had.contains(other));
                        }
                    }
                }
            },
            None => {
                assert(false);
            },
        }
        i += 1;
    }
    let ghost gone = text::views(stale@);
    let mut j: usize = 0;
    assert(gone.take(0).to_set() =~= Set::<Seq<char>>::empty());
    assert(content.remove_keys(gone.take(0).to_set()) =~= content);
    while j < stale.len()
        invariant
            j <= stale@.len(),
            gone == text::views(stale@),
            runtime.peers.wf(),
            runtime.peers.content() == content.remove_keys(gone.take(j as int).to_set()),
            runtime.events == old(runtime).events,
            runtime.sequence == old(runtime).sequence,
            runtime.document_revision == old(runtime).document_revision,
            runtime.markdown == old(runtime).markdown,
            runtime.transport == old(runtime).transport,
        decreases stale@.len() - j,
    {
        runtime.peers.remove(stale[j].as_str());
        proof {
            let id = stale@[j as int]@;
            assert(gone[j as int] == id);
            assert(gone.take(j + 1) =~= gone.take(j as int).push(id));
            assert(gone.take(j + 1).to_set() =~= gone.take(j as int).to_set().insert(id)) by {
                broadcast use vstd::seq_lib::group_seq_properties;

            }
            assert(content.remove_keys(gone.take(j as int).to_set()).remove(id)
                =~= content.remove_keys(gone.take(j + 1).to_set()));
        }
        j += 1;
    }
    proof {
        assert(gone.take(j as int) =~= gone);
        let after = runtime.peers.content();
        assert forall|id: Seq<char>| #[trigger]
            peers_of(runtime.peers).dom().contains(id) <==> present(
                before,
                now as nat,
            ).dom().contains(id) by {
            if content.dom().contains(id) {
                assert(keys.contains(id));
                let k = choose|k: int| 0 <= k < keys.len() && keys[k] == id;
                assert(keys[k] == id);
            }
        }
        assert(peers_of(runtime.peers) =~= present(before, now as nat));
        assert(runtime@.events == old(runtime)@.events);
    }
}

/// The names of the first `n` participants of an order.
pub open spec fn peer_names(peers: Map<Seq<char>, Peer>, ids: Seq<Seq<char>>, n: nat) -> Seq<
    Seq<char>,
>
    decreases n,
{
    if n == 0 {
        Seq::empty()
    } else {
        peer_names(peers, ids, (n - 1) as nat).push(peers[ids[n - 1]].name)
    }
}

/// Whether an order holds every participant once.
pub open spec fn is_order(peers: Map<Seq<char>, Peer>, ids: Seq<Seq<char>>) -> bool {
    &&& ids.no_duplicates()
    &&& forall|id: Seq<char>| peers.dom().contains(id) <==> #[trigger] ids.contains(id)
}

/// Whether names are those of the host and of all participants, in
/// alphabetical order.
pub open spec fn is_roster(
    roster: Seq<Seq<char>>,
    host: Seq<char>,
    peers: Map<Seq<char>, Peer>,
) -> bool {
    exists|ids: Seq<Seq<char>>| #[trigger]
        is_order(peers, ids) && roster == names::sorted(
            seq![host] + peer_names(peers, ids, ids.len()),
        )
}

fn list_names(runtime: &HostedSessionRuntime, host_name: &str) -> (r: Vec<String>)
    requires
        runtime.wf(),
    ensures
        is_order(runtime@.peers, runtime.peers.keys()),
        text::views(r@) == seq![host_name@] + peer_names(
            runtime@.peers,
            runtime.peers.keys(),
            runtime.peers.keys().len(),
        ),
        r@.len() == runtime.peers.keys().len() + 1,
{
    let ghost keys = runtime.peers.keys();
    let ghost peers = runtime@.peers;
    proof {
        runtime.peers.lemma_keys();
        assert(peers.dom() =~= runtime.peers.content().dom());
    }
    let n: usize = runtime.peers.len();
    assert forall|k: int| 0 <= k < n implies runtime.peers.content().dom().contains(
        #[trigger] keys[k],
    ) by {
        assert(keys.contains(keys[k]));
    }
    let mut list: Vec<String> = Vec::new();
    markdown::push_line(&mut list, host_name);
    let mut i: usize = 0;
    assert(text::views(list@) =~= seq![host_name@] + peer_names(peers, keys, 0));
    while i < n
        invariant
            i <= n,
            runtime.peers.wf(),
            runtime.peers.keys() == keys,
            n == keys.len(),
            peers == peers_of(runtime.peers),
            forall|k: int|
                0 <= k < n ==> runtime.peers.content().dom().contains(#[trigger] keys[k]),
            text::views(list@) == seq![host_name@] + peer_names(peers, keys, i as nat),
            list@.len() == i + 1,
        decreases n - i,
    {
        let id = runtime.peers.key(i);
        assert(runtime.peers.content().dom().contains(keys[i as int]));
        match runtime.peers.get(id) {
            Some(peer) => {
                assert(peers[id@] == peer@);
                markdown::push_line(&mut list, peer.name.as_str());
            },
            None => {
                assert(false);
            },
        }
        i += 1;
        assert(text::views(list@) =~= seq![host_name@] + peer_names(peers, keys, i as nat));
    }
    assert(is_order(peers, keys));
    list
}

/// Counts the host and the participants that are present.
pub fn participant_count(runtime: &mut HostedSessionRuntime, now: u64) -> (r: usize)
    requires
        old(runtime).wf(),
    ensures
        final(runtime).wf(),
        final(runtime)@ == (Shared {
            peers: present(old(runtime)@.peers, now as nat),
            ..old(runtime)@
        }),
        final(runtime)@.peers.dom().finite(),
        r == 1 + final(runtime)@.peers.dom().len(),
{
    prune_peers(runtime, now);
    proof {
        runtime.peers.lemma_keys();
        assert(runtime@.peers.dom() =~= runtime.peers.content().dom());
    }
    list_names(runtime, "").len()
}

/// Lists the names of the host and of the participants that are present.
pub fn participant_names(runtime: &mut HostedSessionRuntime, host_name: &str, now: u64) -> (r: Vec<
    String,
>)
    requires
        old(runtime).wf(),
    ensures
        final(runtime).wf(),
        final(runtime)@ == (Shared {
            peers: present(old(runtime)@.peers, now as nat),
            ..old(runtime)@
        }),
        is_roster(text::views(r@), host_name@, final(runtime)@.peers),
{
    prune_peers(runtime, now);
    let list = list_names(runtime, host_name);
    names::sort_names(&list)
}

/// Notes that a participant was heard of, where it is known.
pub open spec fn heard_of(peers: Map<Seq<char>, Peer>, id: Seq<char>, now: nat) -> Map<
    Seq<char>,
    Peer,
> {
    if peers.dom().contains(id) {
        peers.insert(id, Peer { name: peers[id].name, last_seen: now })
    } else {
        peers
    }
}

/// Notes that a participant was heard of.
pub fn touch_peer(runtime: &mut HostedSessionRuntime, peer_id: &str, now: u64)
    requires
        old(runtime).wf(),
    ensures
        final(runtime).wf(),
        final(runtime)@ == (Shared {
            peers: heard_of(old(runtime)@.peers, peer_id@, now as nat),
            ..old(runtime)@
        }),
{
    let ghost before = runtime@;
    let name: String = match runtime.peers.get(peer_id) {
        Some(peer) => {
            assert(before.peers[peer_id@] == peer@);
            peer.name.clone()
        },
        None => {
            assert(!before.peers.dom().contains(peer_id@));
            return;
        },
    };
    runtime.peers.insert(peer_id, PeerPresence { name, last_seen: now });
    assert(runtime@.peers =~= heard_of(before.peers, peer_id@, now as nat));
    assert(runtime@.events == before.events);
}

/// Takes a participant in, under a clean name.
pub fn admit_peer(runtime: &mut HostedSessionRuntime, peer_id: &str, display_name: &str, now: u64)
    requires
        old(runtime).wf(),
    ensures
        final(runtime).wf(),
        final(runtime)@ == (Shared {
            peers: old(runtime)@.peers.insert(
                peer_id@,
                Peer { name: markdown::metadata(display_name@, "Guest"@), last_seen: now as nat },
            ),
            ..old(runtime)@
        }),
{
    let ghost before = runtime@;
    let name = markdown::sanitize_metadata(display_name, "Guest");
    let ghost added = Peer { name: name@, last_seen: now as nat };
    runtime.peers.insert(peer_id, PeerPresence { name, last_seen: now });
    assert(runtime@.peers =~= before.peers.insert(peer_id@, added));
    assert(runtime@.events == before.events);
}

/// Lets a participant leave, where the request names one.
pub fn leave_peer(runtime: &mut HostedSessionRuntime, body: &Json)
    requires
        old(runtime).wf(),
    ensures
        final(runtime).wf(),
        final(runtime)@ == (Shared {
            peers: match json::string(json::field(Some(body.tree()), "peerId"@)) {
                Some(id) => old(runtime)@.peers.remove(id),
                None => old(runtime)@.peers,
            },
            ..old(runtime)@
        }),
{
    let ghost before = runtime@;
    match json::as_text(json::get(Some(body), "peerId")) {
        Some(id) => {
            runtime.peers.remove(id.as_str());
            assert(runtime@.peers =~= before.peers.remove(id@));
            assert(runtime@.events == before.events);
        },
        None => {},
    }
}

// ---------------------------------------------------------------------------
// Events
// ---------------------------------------------------------------------------

/// What an event changes.
pub enum Change {
    Nothing,
    Transport(CollaborationTransport),
    Document(String),
}

/// The content of what an event changes.
pub enum Effect {
    Nothing,
    Transport(CollaborationTransport),
    Document(Seq<char>),
}

impl View for Change {
    type V = Effect;

    open spec fn view(&self) -> Effect {
        match *self {
            Change::Nothing => Effect::Nothing,
            Change::Transport(transport) => Effect::Transport(transport),
            Change::Document(markdown) => Effect::Document(markdown@),
        }
    }
}

/// What an event changes, or why it is refused. `transport` is the playback
/// that its payload describes, where it describes one.
pub open spec fn effect(
    shared: Shared,
    kind: Seq<char>,
    transport: Option<CollaborationTransport>,
    payload: Tree,
) -> Result<Effect, Seq<char>> {
    if kind == "transport"@ {
        match transport {
            Some(transport) if transport.is_valid() => Ok(Effect::Transport(transport)),
            _ => Err("The synchronized playback state is invalid."@),
        }
    } else if kind == "document"@ {
        match json::string(json::field(Some(payload), "markdown"@)) {
            None => Err("The shared Markdown update is invalid."@),
            Some(markdown) => if fingerprint::utf8(markdown).len() > MARKDOWN_LIMIT {
                Err("The shared Markdown update is too large."@)
            } else if markdown == shared.markdown {
                Ok(Effect::Nothing)
            } else {
                Ok(Effect::Document(markdown))
            },
        }
    } else {
        Err("Unsupported collaboration event."@)
    }
}

/// The content of a judgement on an event.
pub open spec fn judged(r: Result<Change, String>) -> Result<Effect, Seq<char>> {
    match r {
        Ok(change) => Ok(change@),
        Err(message) => Err(message@),
    }
}

/// Judges an event: what it changes, or why it is refused. A changed document
/// is saved before the event is published.
pub fn check_host_event(
    runtime: &HostedSessionRuntime,
    kind: &str,
    transport: Option<CollaborationTransport>,
    payload: &Json,
) -> (r: Result<Change, String>)
    ensures
        judged(r) == effect(runtime@, kind@, transport, payload.tree()),
{
    proof {
        reveal_strlit("transport");
        reveal_strlit("document");
    }
    if text::same(kind, "transport") {
        match transport {
            Some(transport) => if transport.valid() {
                return Ok(Change::Transport(transport));
            },
            None => {},
        }
        return Err("The synchronized playback state is invalid.".to_owned());
    }
    if !text::same(kind, "document") {
        return Err("Unsupported collaboration event.".to_owned());
    }
    match json::as_text(json::get(Some(payload), "markdown")) {
        None => Err("The shared Markdown update is invalid.".to_owned()),
        Some(markdown) => {
            if markdown.as_str().as_bytes().len() > MARKDOWN_LIMIT {
                Err("The shared Markdown update is too large.".to_owned())
            } else if text::same(markdown.as_str(), runtime.markdown.as_str()) {
                Ok(Change::Nothing)
            } else {
                Ok(Change::Document(markdown))
            }
        },
    }
}

/// The latest events of a sequence, up to the limit.
pub open spec fn latest(events: Seq<Event>) -> Seq<Event> {
    if events.len() > COLLABORATION_EVENT_LIMIT {
        events.skip(events.len() - COLLABORATION_EVENT_LIMIT)
    } else {
        events
    }
}

/// The state after an event that changes something.
pub open spec fn published(
    shared: Shared,
    effect: Effect,
    sender: Seq<char>,
    kind: Seq<char>,
    payload: Tree,
) -> Shared {
    match effect {
        Effect::Nothing => shared,
        Effect::Transport(transport) => Shared {
            sequence: shared.sequence + 1,
            transport,
            events: latest(
                shared.events.push(
                    Event { sequence: shared.sequence + 1, sender, kind, payload },
                ),
            ),
            ..shared
        },
        Effect::Document(markdown) => Shared {
            sequence: shared.sequence + 1,
            revision: shared.revision + 1,
            markdown,
            events: latest(
                shared.events.push(
                    Event { sequence: shared.sequence + 1, sender, kind, payload },
                ),
            ),
            ..shared
        },
    }
}

/// Whether a change keeps the playback one that can be followed.
pub open spec fn is_sound(change: Change) -> bool {
    change matches Change::Transport(transport) ==> transport.is_valid()
}

fn record(runtime: &mut HostedSessionRuntime, event: CollaborationEvent)
    requires
        old(runtime).wf(),
        old(runtime).sequence < u64::MAX,
        event.sequence == old(runtime).sequence + 1,
    ensures
        final(runtime).wf(),
        final(runtime)@ == (Shared {
            sequence: old(runtime)@.sequence + 1,
            events: latest(old(runtime)@.events.push(event@)),
            ..old(runtime)@
        }),
{
    let ghost before = runtime@;
    let ghost added = event@;
    runtime.sequence = runtime.sequence + 1;
    runtime.events.push_back(event);
    assert(events_of(runtime.events@) =~= before.events.push(added));
    if runtime.events.len() > COLLABORATION_EVENT_LIMIT {
        runtime.events.pop_front();
        assert(events_of(runtime.events@) =~= before.events.push(added).skip(1));
    }
    assert(runtime@.events =~= latest(before.events.push(added)));
    assert forall|i: int| 0 <= i < runtime@.events.len() implies (
    #[trigger] runtime@.events[i]).sequence == runtime@.sequence - runtime@.events.len() + 1
        + i by {
        let full = before.events.push(added);
        let k = i + full.len() - runtime@.events.len();
        assert(runtime@.events[i] == full[k]);
        if k < before.events.len() {
            assert(full[k] == before.events[k]);
        }
    }
}

/// Publishes an event that was judged: nothing happens where it changes
/// nothing.
pub fn publish_host_event(
    runtime: &mut HostedSessionRuntime,
    change: Change,
    sender_id: &str,
    kind: &str,
    payload: &Json,
) -> (r: Option<CollaborationEvent>)
    requires
        old(runtime).wf(),
        is_sound(change),
        old(runtime).sequence < u64::MAX,
        old(runtime).document_revision < u64::MAX,
    ensures
        final(runtime).wf(),
        final(runtime)@ == published(
            old(runtime)@,
            change@,
            sender_id@,
            kind@,
            payload.tree(),
        ),
        match r {
            Some(event) => change@ !is Nothing && event@ == final(runtime)@.events.last(),
            None => change@ is Nothing,
        },
{
    let ghost before = runtime@;
    match change {
        Change::Nothing => {
            return None;
        },
        Change::Transport(transport) => {
            runtime.transport = transport;
        },
        Change::Document(markdown) => {
            runtime.markdown = markdown;
            runtime.document_revision = runtime.document_revision + 1;
        },
    }
    assert(runtime@.events == before.events);
    assert(runtime.wf());
    let event = CollaborationEvent {
        sequence: runtime.sequence + 1,
        sender_id: sender_id.to_owned(),
        kind: kind.to_owned(),
        payload: json::copy(payload),
    };
    let copy = copy_event(&event);
    record(runtime, event);
    assert(copy@ == before.events.push(copy@).last());
    Some(copy)
}

/// The events among the first `n` that came after a number.
pub open spec fn newer(events: Seq<Event>, after: nat, n: nat) -> Seq<Event>
    decreases n,
{
    if n == 0 {
        Seq::empty()
    } else {
        let before = newer(events, after, (n - 1) as nat);
        if events[n - 1].sequence > after {
            before.push(events[n - 1])
        } else {
            before
        }
    }
}

/// The events that came after a number.
pub open spec fn events_after(events: Seq<Event>, after: nat) -> Seq<Event> {
    newer(events, after, events.len())
}

fn select_events(events: &VecDeque<CollaborationEvent>, after: u64) -> (r: Vec<
    CollaborationEvent,
>)
    ensures
        events_of(r@) == events_after(events_of(events@), after as nat),
{
    let ghost all = events_of(events@);
    let mut out: Vec<CollaborationEvent> = Vec::new();
    let mut i: usize = 0;
    assert(events_of(out@) =~= newer(all, after as nat, 0));
    while i < events.len()
        invariant
            i <= events@.len(),
            all == events_of(events@),
            events_of(out@) == newer(all, after as nat, i as nat),
        decreases events@.len() - i,
    {
        assert(all[i as int] == events@[i as int]@);
        if events[i].sequence > after {
            let event = copy_event(&events[i]);
            let ghost before = events_of(out@);
            let ghost added = event@;
            out.push(event);
            assert(events_of(out@) =~= before.push(added));
        }
        i += 1;
    }
    out
}

/// What a participant learns when it asks for news.
pub struct CollaborationPollResult {
    pub events: Vec<CollaborationEvent>,
    pub participant_count: usize,
    pub participants: Vec<String>,
    pub connected: bool,
}

impl CollaborationPollResult {
    /// Whether the news are those after a number, of a state.
    pub open spec fn tells(&self, shared: Shared, host: Seq<char>, after: nat) -> bool {
        &&& events_of(self.events@) == events_after(shared.events, after)
        &&& shared.peers.dom().finite()
        &&& self.participant_count == 1 + shared.peers.dom().len()
        &&& is_roster(text::views(self.participants@), host, shared.peers)
        &&& self.connected
    }
}

fn tell(runtime: &mut HostedSessionRuntime, host_name: &str, after: u64, now: u64) -> (r:
    CollaborationPollResult)
    requires
        old(runtime).wf(),
    ensures
        final(runtime).wf(),
        final(runtime)@ == (Shared {
            peers: present(old(runtime)@.peers, now as nat),
            ..old(runtime)@
        }),
        r.tells(final(runtime)@, host_name@, after as nat),
{
    let events = select_events(&runtime.events, after);
    let participant_count: usize = participant_count(runtime, now);
    let ghost once = runtime@.peers;
    let participants = participant_names(runtime, host_name, now);
    assert(runtime@.peers =~= once);
    CollaborationPollResult { events, participant_count, participants, connected: true }
}

/// Answers a participant who asks for news after a number.
pub fn poll_events(
    runtime: &mut HostedSessionRuntime,
    host_name: &str,
    after: u64,
    peer_id: Option<&str>,
    now: u64,
) -> (r: CollaborationPollResult)
    requires
        old(runtime).wf(),
    ensures
        final(runtime).wf(),
        final(runtime)@ == (Shared {
            peers: present(
                match peer_id {
                    Some(id) => heard_of(old(runtime)@.peers, id@, now as nat),
                    None => old(runtime)@.peers,
                },
                now as nat,
            ),
            ..old(runtime)@
        }),
        r.tells(final(runtime)@, host_name@, after as nat),
{
    match peer_id {
        Some(id) => {
            touch_peer(runtime, id, now);
        },
        None => {},
    }
    tell(runtime, host_name, after, now)
}

/// The number up to which a reader knows events, after it read some.
pub open spec fn cursor_after(cursor: nat, events: Seq<Event>) -> nat {
    if events.len() > 0 {
        events.last().sequence
    } else {
        cursor
    }
}

/// Tells the host itself what is new, and moves its cursor on.
pub fn poll_host(
    runtime: &mut HostedSessionRuntime,
    host_name: &str,
    cursor: &mut u64,
    now: u64,
) -> (r: CollaborationPollResult)
    requires
        old(runtime).wf(),
    ensures
        final(runtime).wf(),
        final(runtime)@ == (Shared {
            peers: present(old(runtime)@.peers, now as nat),
            ..old(runtime)@
        }),
        r.tells(final(runtime)@, host_name@, *old(cursor) as nat),
        *final(cursor) as nat == cursor_after(*old(cursor) as nat, events_of(r.events@)),
{
    let r = tell(runtime, host_name, *cursor, now);
    let n: usize = r.events.len();
    if n > 0 {
        assert(events_of(r.events@).last() == r.events@[n - 1]@);
        *cursor = r.events[n - 1].sequence;
    }
    r
}

} // verus!
