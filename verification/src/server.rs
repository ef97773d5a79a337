use vstd::prelude::*;

use crate::addr::NetAddr;
use crate::assoc::{has_key, index_of, keys_of, lemma_index_of_unique, unique_keys, value_of};
use crate::channel::{ChannelConfig, ChannelView};
use crate::connection::{
    advance_time_spec, drain_spec, first_pending_at, has_pending, ingest_spec, messages_on,
    pop_first_spec, send_message_spec, Connection, ConnectionView,
};
use crate::endpoint::{Endpoint, EndpointConfig, NetworkInfo};
use crate::handshake::{HandleConnection, HandshakeView};
use crate::protocol::{ClientId, ServerAuthenticationProtocol};

verus! {

/// A lifecycle notification queued for the embedding application to
/// drain, oldest first.
#[derive(Clone, Copy, PartialEq, Eq, Structural, Debug)]
pub enum Event {
    ClientConnected(ClientId),
    ClientDisconnected(ClientId),
}

/// Capacity limits of the orchestrator: how many concurrent sessions it
/// admits and how large a single inbound datagram may be (the latter
/// sizes the embedding application's receive buffer).
#[derive(Clone, Copy, PartialEq, Eq, Structural, Debug)]
pub struct ServerConfig {
    pub max_clients: usize,
    pub max_payload_size: usize,
}

/// The error this layer reports to its caller: a first-contact payload
/// the authentication protocol rejected, so no handshake was created.
/// Every other recoverable condition is absorbed so that one misbehaving
/// peer can never stall processing for others.
#[derive(Clone, Copy, PartialEq, Eq, Structural, Debug)]
pub enum ServerError {
    InvalidFirstContactPayload,
}

/// The mathematical content of the orchestrator: its limits, the
/// configured channel ids in instantiation order, the live sessions and
/// in-progress handshakes in insertion order, and the queued events,
/// oldest first. Handshake protocol state is opaque and does not appear.
pub struct ServerView {
    pub max_clients: int,
    pub max_payload_size: int,
    pub current_time: u64,
    pub channel_ids: Seq<u8>,
    pub clients: Seq<(ClientId, ConnectionView)>,
    pub connecting: Seq<HandshakeView>,
    pub events: Seq<Event>,
}

/// The connection orchestrator: demultiplexes inbound datagrams by
/// source address into either an established session or an in-progress
/// handshake, drives handshakes to completion, promotes authenticated
/// handshakes into sessions under a capacity ceiling, and exposes
/// per-channel message queues and lifecycle events to the application.
///
/// Socket I/O stays with the embedding application: it drains the socket
/// and hands the datagrams to [`Server::update`], and transmits what
/// [`Server::update`] and [`Server::send_packets`] return.
pub struct Server<P: ServerAuthenticationProtocol> {
    config: ServerConfig,
    clients: Vec<(ClientId, Connection<P::Context>)>,
    connecting: Vec<HandleConnection<P>>,
    channels_config: Vec<(u8, ChannelConfig)>,
    current_time: u64,
    events: Vec<Event>,
    endpoint_config: EndpointConfig,
}

impl<P: ServerAuthenticationProtocol> View for Server<P> {
    type V = ServerView;

    closed spec fn view(&self) -> ServerView {
        ServerView {
            max_clients: self.config.max_clients as int,
            max_payload_size: self.config.max_payload_size as int,
            current_time: self.current_time,
            channel_ids: self.channels_config@.map_values(|p: (u8, ChannelConfig)| p.0),
            clients: self.clients@.map_values(
                |p: (ClientId, Connection<P::Context>)| (p.0, p.1@),
            ),
            connecting: self.connecting@.map_values(|h: HandleConnection<P>| h@),
            events: self.events@,
        }
    }
}

/// The ids of the live sessions, in insertion order.
pub open spec fn client_ids(v: ServerView) -> Seq<ClientId> {
    keys_of(v.clients)
}

/// Whether a live session exists under `id`.
pub open spec fn has_client(v: ServerView, id: ClientId) -> bool {
    has_key(v.clients, id)
}

/// The session under `id`; meaningful only when `has_client(v, id)`.
pub open spec fn client_of(v: ServerView, id: ClientId) -> ConnectionView {
    value_of(v.clients, id)
}

/// Whether an in-progress handshake exists under `id`.
pub open spec fn pending_id_taken(v: ServerView, id: ClientId) -> bool {
    exists|i: int| 0 <= i < v.connecting.len() && v.connecting[i].client_id == id
}

/// The index of the handshake under `id`; meaningful only when
/// `pending_id_taken(v, id)` and the handshake ids are unique.
pub open spec fn pending_index_of_id(v: ServerView, id: ClientId) -> int {
    choose|i: int| 0 <= i < v.connecting.len() && v.connecting[i].client_id == id
}

/// Whether some live session owns `addr`.
pub open spec fn session_addr_taken(v: ServerView, addr: NetAddr) -> bool {
    exists|i: int| 0 <= i < v.clients.len() && v.clients[i].1.addr == addr
}

/// The index of the session owning `addr`; meaningful only when
/// `session_addr_taken(v, addr)` and the session addresses are unique.
pub open spec fn session_index_of_addr(v: ServerView, addr: NetAddr) -> int {
    choose|i: int| 0 <= i < v.clients.len() && v.clients[i].1.addr == addr
}

/// Whether some in-progress handshake owns `addr`.
pub open spec fn pending_addr_taken(v: ServerView, addr: NetAddr) -> bool {
    exists|i: int| 0 <= i < v.connecting.len() && v.connecting[i].addr == addr
}

/// Whether the session map has reached the capacity ceiling.
pub open spec fn server_full(v: ServerView) -> bool {
    v.clients.len() >= v.max_clients
}

/// A client id names at most one live entry: session ids are unique,
/// handshake ids are unique, and no id is both (a handshake becomes a
/// session one way, one time).
pub open spec fn ids_unique(v: ServerView) -> bool {
    &&& unique_keys(v.clients)
    &&& (forall|i: int, j: int|
        0 <= i < j < v.connecting.len() ==> v.connecting[i].client_id != v.connecting[j].client_id)
    &&& (forall|i: int, j: int|
        0 <= i < v.clients.len() && 0 <= j < v.connecting.len() ==> v.clients[i].0
            != v.connecting[j].client_id)
}

/// A network address maps to at most one live entry across the union of
/// sessions and in-progress handshakes.
pub open spec fn addrs_unique(v: ServerView) -> bool {
    &&& (forall|i: int, j: int|
        0 <= i < j < v.clients.len() ==> v.clients[i].1.addr != v.clients[j].1.addr)
    &&& (forall|i: int, j: int|
        0 <= i < j < v.connecting.len() ==> v.connecting[i].addr != v.connecting[j].addr)
    &&& (forall|i: int, j: int|
        0 <= i < v.clients.len() && 0 <= j < v.connecting.len() ==> v.clients[i].1.addr
            != v.connecting[j].addr)
}

/// The configured channel ids are distinct, and every session's channel
/// set is exactly the configured set, in instantiation order: no channel
/// is added or removed after a session is created.
pub open spec fn channels_exact(v: ServerView) -> bool {
    &&& (forall|i: int, j: int|
        0 <= i < j < v.channel_ids.len() ==> v.channel_ids[i] != v.channel_ids[j])
    &&& (forall|i: int|
        0 <= i < v.clients.len() ==> keys_of(#[trigger] v.clients[i].1.channels) == v.channel_ids)
}

/// The orchestrator's invariant: unique ids, unique addresses, the
/// capacity ceiling respected, and homogeneous channel sets.
pub open spec fn wf(v: ServerView) -> bool {
    &&& ids_unique(v)
    &&& addrs_unique(v)
    &&& v.clients.len() <= v.max_clients
    &&& channels_exact(v)
}

/// With unique handshake ids, the entry found at `pending_index_of_id`
/// is the only one with its id.
pub proof fn lemma_pending_index_unique(v: ServerView, id: ClientId, i: int)
    requires
        ids_unique(v),
        0 <= i < v.connecting.len(),
        v.connecting[i].client_id == id,
    ensures
        pending_index_of_id(v, id) == i,
        pending_id_taken(v, id),
{
    assert(pending_id_taken(v, id));
    let j = pending_index_of_id(v, id);
    if i < j {
        assert(v.connecting[i].client_id != v.connecting[j].client_id);
    } else if j < i {
        assert(v.connecting[j].client_id != v.connecting[i].client_id);
    }
}

/// With unique session addresses, the entry found at
/// `session_index_of_addr` is the only one with its address.
pub proof fn lemma_session_addr_index_unique(v: ServerView, addr: NetAddr, i: int)
    requires
        addrs_unique(v),
        0 <= i < v.clients.len(),
        v.clients[i].1.addr == addr,
    ensures
        session_index_of_addr(v, addr) == i,
        session_addr_taken(v, addr),
{
    assert(session_addr_taken(v, addr));
    let j = session_index_of_addr(v, addr);
    if i < j {
        assert(v.clients[i].1.addr != v.clients[j].1.addr);
    } else if j < i {
        assert(v.clients[j].1.addr != v.clients[i].1.addr);
    }
}

/// In a well-formed orchestrator every session's channel ids are unique,
/// so per-channel lookups inside a session are unambiguous.
pub proof fn lemma_client_channels_unique(v: ServerView, i: int)
    requires
        wf(v),
        0 <= i < v.clients.len(),
    ensures
        unique_keys(v.clients[i].1.channels),
{
    let s = v.clients[i].1.channels;
    assert(keys_of(s) == v.channel_ids);
    assert forall|a: int, b: int| 0 <= a < b < s.len() implies s[a].0 != s[b].0 by {
        assert(keys_of(s)[a] == s[a].0);
        assert(keys_of(s)[b] == s[b].0);
        assert(v.channel_ids[a] != v.channel_ids[b]);
    }
}

/// `v` after enqueueing `message` on channel `channel_id` of the session
/// under `client_id`; an unknown client id is a no-op, not an error.
pub open spec fn send_to_client_spec(
    v: ServerView,
    client_id: ClientId,
    channel_id: u8,
    message: Seq<u8>,
) -> ServerView {
    if has_client(v, client_id) {
        let i = index_of(v.clients, client_id);
        ServerView {
            clients: v.clients.update(
                i,
                (client_id, send_message_spec(v.clients[i].1, channel_id, message)),
            ),
            ..v
        }
    } else {
        v
    }
}

/// `v` after draining channel `channel_id` of the session under
/// `client_id`.
pub open spec fn drain_client_spec(v: ServerView, client_id: ClientId, channel_id: u8) -> ServerView {
    if has_client(v, client_id) {
        let i = index_of(v.clients, client_id);
        ServerView {
            clients: v.clients.update(i, (client_id, drain_spec(v.clients[i].1, channel_id))),
            ..v
        }
    } else {
        v
    }
}

/// `v` after the session under `client_id` is removed: its entry leaves
/// the session map and one `ClientDisconnected` event is queued; an
/// unknown id is a no-op.
pub open spec fn disconnect_spec(v: ServerView, client_id: ClientId) -> ServerView {
    if has_client(v, client_id) {
        ServerView {
            clients: v.clients.remove(index_of(v.clients, client_id)),
            events: v.events.push(Event::ClientDisconnected(client_id)),
            ..v
        }
    } else {
        v
    }
}

/// The per-session batches read off channel `channel_id`: for every
/// session with at least one buffered message on that channel, in
/// session insertion order, its id and its full batch; sessions with
/// nothing buffered are omitted.
pub open spec fn channel_batches(
    clients: Seq<(ClientId, ConnectionView)>,
    channel_id: u8,
) -> Seq<(ClientId, Seq<Seq<u8>>)>
    decreases clients.len(),
{
    if clients.len() == 0 {
        Seq::<(ClientId, Seq<Seq<u8>>)>::empty()
    } else {
        let rest = channel_batches(clients.drop_last(), channel_id);
        let p = clients.last();
        if messages_on(p.1, channel_id).len() > 0 {
            rest.push((p.0, messages_on(p.1, channel_id)))
        } else {
            rest
        }
    }
}

/// `v` after the session owning `addr` ingested one payload of `len`
/// bytes; meaningful only when `session_addr_taken(v, addr)`.
pub open spec fn ingest_at_addr_spec(v: ServerView, addr: NetAddr, len: u64) -> ServerView {
    let i = session_index_of_addr(v, addr);
    ServerView {
        clients: v.clients.update(i, (v.clients[i].0, ingest_spec(v.clients[i].1, len))),
        ..v
    }
}

/// `v` after a first-contact datagram from `addr` whose protocol chose
/// `id`: a fresh handshake entry, unless the id is already live. An id
/// that names a live session is dropped (a handshake becomes a session
/// one way, one time); an id already in the handshake set restarts that
/// handshake from the new address.
pub open spec fn first_contact_spec(v: ServerView, id: ClientId, addr: NetAddr) -> ServerView {
    if has_client(v, id) {
        v
    } else if pending_id_taken(v, id) {
        ServerView {
            connecting: v.connecting.update(
                pending_index_of_id(v, id),
                HandshakeView { client_id: id, addr },
            ),
            ..v
        }
    } else {
        ServerView { connecting: v.connecting.push(HandshakeView { client_id: id, addr }), ..v }
    }
}

/// A first-contact datagram from an address nobody owns keeps the
/// orchestrator well formed, whatever id the protocol chose.
proof fn lemma_first_contact_wf(v: ServerView, id: ClientId, addr: NetAddr)
    requires
        wf(v),
        !session_addr_taken(v, addr),
        !pending_addr_taken(v, addr),
    ensures
        wf(first_contact_spec(v, id, addr)),
{
    if has_client(v, id) {
    } else if pending_id_taken(v, id) {
        let j = pending_index_of_id(v, id);
        assert(0 <= j < v.connecting.len() && v.connecting[j].client_id == id);
        let w = first_contact_spec(v, id, addr);
        assert forall|a: int, b: int| 0 <= a < b < w.connecting.len() implies w.connecting[a].client_id
            != w.connecting[b].client_id by {
            assert(v.connecting[a].client_id != v.connecting[b].client_id);
        }
    } else {
    }
}

/// Enqueueing on a session keeps the orchestrator well formed as long as
/// the replacement session keeps its address and its channel id set.
proof fn lemma_update_client_wf(v: ServerView, i: int, c: ConnectionView)
    requires
        wf(v),
        0 <= i < v.clients.len(),
        c.addr == v.clients[i].1.addr,
        keys_of(c.channels) == v.channel_ids,
    ensures
        wf(ServerView { clients: v.clients.update(i, (v.clients[i].0, c)), ..v }),
{
}

/// Enqueueing a message on a channel leaves the session's channel id
/// set as it was.
proof fn lemma_send_message_keys(c: ConnectionView, channel_id: u8, message: Seq<u8>)
    ensures
        keys_of(send_message_spec(c, channel_id, message).channels) == keys_of(c.channels),
        send_message_spec(c, channel_id, message).addr == c.addr,
{
    assert(keys_of(send_message_spec(c, channel_id, message).channels) =~= keys_of(c.channels));
}

/// Draining a channel leaves the session's channel id set as it was.
proof fn lemma_drain_keys(c: ConnectionView, channel_id: u8)
    ensures
        keys_of(drain_spec(c, channel_id).channels) == keys_of(c.channels),
        drain_spec(c, channel_id).addr == c.addr,
{
    assert(keys_of(drain_spec(c, channel_id).channels) =~= keys_of(c.channels));
}

/// Statistics of a session that has not sent or received anything yet.
pub open spec fn zero_info() -> NetworkInfo {
    NetworkInfo { sent_packets: 0, sent_bytes: 0, received_packets: 0, received_bytes: 0 }
}

/// The session a promoted handshake becomes: the handshake's address, a
/// fresh endpoint, and one empty channel per configured channel id, in
/// configuration order, each clocked at the orchestrator's construction
/// time.
pub open spec fn new_session_spec(v: ServerView, addr: NetAddr) -> ConnectionView {
    ConnectionView {
        addr,
        info: zero_info(),
        channels: v.channel_ids.map_values(
            |ch: u8| (
                ch,
                ChannelView { current_time: v.current_time, messages: Seq::<Seq<u8>>::empty() },
            ),
        ),
    }
}

/// `v` after the authenticated handshake under `id` is promoted: its
/// entry leaves the handshake set exactly once; if the session map
/// still has room the handshake becomes a session and exactly one
/// `ClientConnected` event is queued, and otherwise the handshake is
/// discarded with no session and no event.
pub open spec fn promote_one_spec(v: ServerView, id: ClientId) -> ServerView {
    if !pending_id_taken(v, id) {
        v
    } else {
        let j = pending_index_of_id(v, id);
        let addr = v.connecting[j].addr;
        if v.clients.len() >= v.max_clients {
            ServerView { connecting: v.connecting.remove(j), ..v }
        } else {
            ServerView {
                connecting: v.connecting.remove(j),
                clients: v.clients.push((id, new_session_spec(v, addr))),
                events: v.events.push(Event::ClientConnected(id)),
                ..v
            }
        }
    }
}

/// `v` after promoting each id of `ids` in turn.
pub open spec fn promote_fold(v: ServerView, ids: Seq<ClientId>) -> ServerView
    decreases ids.len(),
{
    if ids.len() == 0 {
        v
    } else {
        promote_fold(promote_one_spec(v, ids[0]), ids.drop_first())
    }
}

/// Folding one more promotion on the right is promoting it last.
pub proof fn lemma_promote_fold_snoc(v: ServerView, ids: Seq<ClientId>, id: ClientId)
    ensures
        promote_fold(v, ids.push(id)) == promote_one_spec(promote_fold(v, ids), id),
    decreases ids.len(),
{
    let ids1 = ids.push(id);
    assert(ids1.len() > 0);
    if ids.len() == 0 {
        assert(ids1[0] == id);
        assert(ids1.drop_first() =~= Seq::<ClientId>::empty());
        assert(promote_fold(v, ids1) == promote_fold(promote_one_spec(v, id), ids1.drop_first()));
        assert(promote_fold(promote_one_spec(v, id), ids1.drop_first()) == promote_one_spec(v, id));
        assert(promote_fold(v, ids) == v);
    } else {
        assert(ids1[0] == ids[0]);
        assert(ids1.drop_first() =~= ids.drop_first().push(id));
        lemma_promote_fold_snoc(promote_one_spec(v, ids[0]), ids.drop_first(), id);
        assert(promote_fold(v, ids1) == promote_fold(promote_one_spec(v, ids[0]), ids1.drop_first()));
        assert(promote_fold(v, ids) == promote_fold(promote_one_spec(v, ids[0]), ids.drop_first()));
    }
}

/// Promotion keeps the orchestrator well formed: the promoted peer's
/// address and id come from its handshake entry, so they collide with
/// no live session, and admission is re-checked at the moment of
/// promotion.
pub proof fn lemma_promote_one_wf(v: ServerView, id: ClientId)
    requires
        wf(v),
    ensures
        wf(promote_one_spec(v, id)),
{
    if pending_id_taken(v, id) {
        let j = pending_index_of_id(v, id);
        assert(0 <= j < v.connecting.len() && v.connecting[j].client_id == id);
        let w = promote_one_spec(v, id);
        assert forall|a: int, b: int| 0 <= a < b < w.connecting.len() implies w.connecting[a].addr
            != w.connecting[b].addr && w.connecting[a].client_id != w.connecting[b].client_id by {
            let a0: int = if a < j { a } else { a + 1 };
            let b0: int = if b < j { b } else { b + 1 };
            assert(w.connecting[a] == v.connecting[a0]);
            assert(w.connecting[b] == v.connecting[b0]);
        }
        if v.clients.len() < v.max_clients {
            assert(keys_of(new_session_spec(v, v.connecting[j].addr).channels) =~= v.channel_ids);
            assert forall|a: int|
                0 <= a < w.clients.len() implies keys_of(#[trigger] w.clients[a].1.channels)
                == w.channel_ids by {
                if a < v.clients.len() {
                    assert(w.clients[a] == v.clients[a]);
                } else {
                    assert(w.clients[a].1 == new_session_spec(v, v.connecting[j].addr));
                }
            }
            assert forall|a: int, b: int|
                0 <= a < w.clients.len() && 0 <= b < w.connecting.len() implies w.clients[a].1.addr
                != w.connecting[b].addr && w.clients[a].0 != w.connecting[b].client_id by {
                let b0: int = if b < j { b } else { b + 1 };
                assert(w.connecting[b] == v.connecting[b0]);
                if a < v.clients.len() {
                    assert(w.clients[a] == v.clients[a]);
                } else {
                    assert(w.clients[a].0 == id && w.clients[a].1.addr == v.connecting[j].addr);
                }
            }
        }
    }
}

/// `v` with every session's channel clock advanced to `now`.
pub open spec fn advance_clocks_spec(v: ServerView, now: u64) -> ServerView {
    ServerView {
        clients: v.clients.map_values(
            |p: (ClientId, ConnectionView)| (p.0, advance_time_spec(p.1, now)),
        ),
        ..v
    }
}

/// Advancing channel clocks leaves a session's channel id set and
/// address as they were.
proof fn lemma_advance_time_keys(c: ConnectionView, now: u64)
    ensures
        keys_of(advance_time_spec(c, now).channels) == keys_of(c.channels),
        advance_time_spec(c, now).addr == c.addr,
{
    assert(keys_of(advance_time_spec(c, now).channels) =~= keys_of(c.channels));
}

/// How routing one datagram `(payload, addr)` may change the
/// orchestrator: the cases of [`Server::process_payload_from`], with the
/// protocol's choice of id left open.
pub open spec fn routed_step(
    pre: ServerView,
    payload: Seq<u8>,
    addr: NetAddr,
    post: ServerView,
) -> bool {
    if session_addr_taken(pre, addr) {
        post == ingest_at_addr_spec(pre, addr, payload.len() as u64)
    } else if server_full(pre) {
        post == pre
    } else if pending_addr_taken(pre, addr) {
        post == pre
    } else {
        post == pre || (exists|id: ClientId| post == #[trigger] first_contact_spec(pre, id, addr))
    }
}

/// `post` is reachable from `pre` by routing the datagrams of `ds` in
/// order.
pub open spec fn routed_all(
    pre: ServerView,
    ds: Seq<(Seq<u8>, NetAddr)>,
    post: ServerView,
) -> bool
    decreases ds.len(),
{
    if ds.len() == 0 {
        post == pre
    } else {
        exists|mid: ServerView|
            #[trigger] routed_step(pre, ds[0].0, ds[0].1, mid) && routed_all(
                mid,
                ds.drop_first(),
                post,
            )
    }
}

/// Routing one more datagram on the right is routing it last.
pub proof fn lemma_routed_all_snoc(
    pre: ServerView,
    ds: Seq<(Seq<u8>, NetAddr)>,
    payload: Seq<u8>,
    addr: NetAddr,
    mid: ServerView,
    post: ServerView,
)
    requires
        routed_all(pre, ds, mid),
        routed_step(mid, payload, addr, post),
    ensures
        routed_all(pre, ds.push((payload, addr)), post),
    decreases ds.len(),
{
    let ds1 = ds.push((payload, addr));
    if ds.len() == 0 {
        assert(ds1[0] == (payload, addr));
        assert(ds1.drop_first() =~= Seq::<(Seq<u8>, NetAddr)>::empty());
        assert(routed_step(pre, ds1[0].0, ds1[0].1, post) && routed_all(
            post,
            ds1.drop_first(),
            post,
        ));
    } else {
        let m0 = choose|m: ServerView|
            #[trigger] routed_step(pre, ds[0].0, ds[0].1, m) && routed_all(m, ds.drop_first(), mid);
        lemma_routed_all_snoc(m0, ds.drop_first(), payload, addr, mid, post);
        assert(ds1[0] == ds[0]);
        assert(ds1.drop_first() =~= ds.drop_first().push((payload, addr)));
        assert(routed_step(pre, ds1[0].0, ds1[0].1, m0) && routed_all(m0, ds1.drop_first(), post));
    }
}

/// The session after one flush step: its first non-empty channel gave
/// up its oldest message as an outbound packet; a session with nothing
/// ready is untouched.
pub open spec fn flush_one_spec(c: ConnectionView) -> ConnectionView {
    if has_pending(c) {
        pop_first_spec(c, crate::connection::first_pending_idx(c.channels))
    } else {
        c
    }
}

/// What one flush pass emits: for every session with a packet ready, in
/// session insertion order, the peer's address and the packet.
pub open spec fn flush_out_spec(clients: Seq<(ClientId, ConnectionView)>) -> Seq<(NetAddr, Seq<u8>)>
    decreases clients.len(),
{
    if clients.len() == 0 {
        Seq::<(NetAddr, Seq<u8>)>::empty()
    } else {
        let rest = flush_out_spec(clients.drop_last());
        let c = clients.last().1;
        if has_pending(c) {
            rest.push(
                (c.addr, c.channels[crate::connection::first_pending_idx(c.channels)].1.messages[0]),
            )
        } else {
            rest
        }
    }
}

/// One flush step leaves a session's channel id set and address as they
/// were.
proof fn lemma_flush_one_keys(c: ConnectionView)
    ensures
        keys_of(flush_one_spec(c).channels) == keys_of(c.channels),
        flush_one_spec(c).addr == c.addr,
{
    if has_pending(c) {
        crate::connection::lemma_first_pending_idx_valid(c.channels);
    }
    assert(keys_of(flush_one_spec(c).channels) =~= keys_of(c.channels));
}

/// `v` after a sequence of first-contact datagrams, the k-th from
/// address `contacts[k].1` with the protocol choosing id
/// `contacts[k].0`.
pub open spec fn first_contacts_fold(v: ServerView, contacts: Seq<(ClientId, NetAddr)>) -> ServerView
    decreases contacts.len(),
{
    if contacts.len() == 0 {
        v
    } else {
        first_contacts_fold(
            first_contact_spec(v, contacts[0].0, contacts[0].1),
            contacts.drop_first(),
        )
    }
}

/// Address uniqueness: any sequence of first-contact datagrams from
/// distinct, previously unseen addresses, with the protocol choosing
/// distinct fresh ids, creates exactly one handshake entry per address —
/// as many entries as addresses, never more.
pub proof fn lemma_address_uniqueness(v: ServerView, contacts: Seq<(ClientId, NetAddr)>)
    requires
        wf(v),
        forall|a: int, b: int| 0 <= a < b < contacts.len() ==> contacts[a].1 != contacts[b].1,
        forall|a: int, b: int| 0 <= a < b < contacts.len() ==> contacts[a].0 != contacts[b].0,
        forall|k: int|
            0 <= k < contacts.len() ==> !session_addr_taken(v, (#[trigger] contacts[k]).1)
                && !pending_addr_taken(v, contacts[k].1) && !has_client(v, contacts[k].0)
                && !pending_id_taken(v, contacts[k].0),
    ensures
        first_contacts_fold(v, contacts).connecting.len() == v.connecting.len() + contacts.len(),
        wf(first_contacts_fold(v, contacts)),
    decreases contacts.len(),
{
    if contacts.len() == 0 {
    } else {
        let id0 = contacts[0].0;
        let addr0 = contacts[0].1;
        let w = first_contact_spec(v, id0, addr0);
        lemma_first_contact_wf(v, id0, addr0);
        assert(w.connecting == v.connecting.push(HandshakeView { client_id: id0, addr: addr0 }));
        let rest = contacts.drop_first();
        assert forall|k: int|
            0 <= k < rest.len() implies !session_addr_taken(w, (#[trigger] rest[k]).1)
            && !pending_addr_taken(w, rest[k].1) && !has_client(w, rest[k].0) && !pending_id_taken(
            w,
            rest[k].0,
        ) by {
            assert(rest[k] == contacts[k + 1]);
            assert(!session_addr_taken(v, contacts[k + 1].1));
            assert forall|j: int| 0 <= j < w.connecting.len() implies w.connecting[j].addr != rest[k].1
                && w.connecting[j].client_id != rest[k].0 by {
                if j < v.connecting.len() {
                    assert(w.connecting[j] == v.connecting[j]);
                } else {
                    assert(w.connecting[j] == HandshakeView { client_id: id0, addr: addr0 });
                }
            }
        }
        lemma_address_uniqueness(w, rest);
    }
}

/// One handshake per address: after a first contact from a fresh
/// address created a handshake entry, a second datagram from the same
/// address is routed to that existing handshake (or discarded at
/// capacity) — it never creates a second entry.
pub proof fn lemma_one_handshake_per_address(
    v: ServerView,
    id: ClientId,
    addr: NetAddr,
    payload: Seq<u8>,
    post: ServerView,
)
    requires
        wf(v),
        !session_addr_taken(v, addr),
        !pending_addr_taken(v, addr),
        !has_client(v, id),
        !pending_id_taken(v, id),
        routed_step(first_contact_spec(v, id, addr), payload, addr, post),
    ensures
        first_contact_spec(v, id, addr).connecting.len() == v.connecting.len() + 1,
        pending_addr_taken(first_contact_spec(v, id, addr), addr),
        post.connecting == first_contact_spec(v, id, addr).connecting,
{
    let w = first_contact_spec(v, id, addr);
    assert(w.connecting == v.connecting.push(HandshakeView { client_id: id, addr }));
    assert(w.connecting[v.connecting.len() as int].addr == addr);
    assert(pending_addr_taken(w, addr));
    assert(w.clients == v.clients);
    assert(!session_addr_taken(w, addr));
    if server_full(w) {
        assert(post == w);
    } else {
        assert(post == w);
    }
}

/// Exactly-once promotion: promoting an authenticated handshake while
/// the server has room puts its id in the session set exactly once,
/// removes it from the handshake set, queues exactly one
/// `ClientConnected` event — and a later first-contact datagram caught
/// under that id can never re-enter it into the handshake set.
pub proof fn lemma_exactly_once_promotion(
    v: ServerView,
    id: ClientId,
    id2: ClientId,
    addr2: NetAddr,
)
    requires
        wf(v),
        pending_id_taken(v, id),
        !server_full(v),
    ensures
        has_client(promote_one_spec(v, id), id),
        unique_keys(promote_one_spec(v, id).clients),
        !pending_id_taken(promote_one_spec(v, id), id),
        promote_one_spec(v, id).events == v.events.push(Event::ClientConnected(id)),
        id2 == id ==> first_contact_spec(promote_one_spec(v, id), id2, addr2) == promote_one_spec(
            v,
            id,
        ),
{
    let w = promote_one_spec(v, id);
    lemma_promote_one_wf(v, id);
    let j = pending_index_of_id(v, id);
    assert(w.clients[v.clients.len() as int].0 == id);
    assert(has_client(w, id));
    assert forall|b: int| 0 <= b < w.connecting.len() implies w.connecting[b].client_id != id by {
        let b0: int = if b < j { b } else { b + 1 };
        assert(w.connecting[b] == v.connecting[b0]);
        assert(v.connecting[b0].client_id != v.connecting[j].client_id);
    }
}

/// Capacity ceiling, kept across any promotion sequence: the session
/// count never exceeds `max_clients`.
pub proof fn lemma_capacity_ceiling(v: ServerView, ids: Seq<ClientId>)
    requires
        wf(v),
    ensures
        promote_fold(v, ids).clients.len() <= v.max_clients,
        promote_fold(v, ids).max_clients == v.max_clients,
        wf(promote_fold(v, ids)),
    decreases ids.len(),
{
    if ids.len() == 0 {
    } else {
        lemma_promote_one_wf(v, ids[0]);
        assert(promote_one_spec(v, ids[0]).max_clients == v.max_clients);
        lemma_capacity_ceiling(promote_one_spec(v, ids[0]), ids.drop_first());
    }
}

/// What a promotion sequence can never touch: the limits, the channel
/// blueprint and the clock stay as they are, and the event queue only
/// grows at the back, by `ClientConnected` events alone.
pub proof fn lemma_promote_fold_frame(v: ServerView, ids: Seq<ClientId>)
    ensures
        promote_fold(v, ids).max_clients == v.max_clients,
        promote_fold(v, ids).max_payload_size == v.max_payload_size,
        promote_fold(v, ids).channel_ids == v.channel_ids,
        promote_fold(v, ids).current_time == v.current_time,
        v.events.is_prefix_of(promote_fold(v, ids).events),
        forall|k: int|
            v.events.len() <= k < promote_fold(v, ids).events.len()
                ==> promote_fold(v, ids).events[k] is ClientConnected,
    decreases ids.len(),
{
    if ids.len() == 0 {
        assert(v.events.is_prefix_of(v.events));
    } else {
        let w = promote_one_spec(v, ids[0]);
        assert(v.events.is_prefix_of(w.events));
        lemma_promote_fold_frame(w, ids.drop_first());
        let u = promote_fold(v, ids);
        assert(w.events.is_prefix_of(u.events));
        assert(v.events.is_prefix_of(u.events));
        assert forall|k: int| v.events.len() <= k < u.events.len() implies u.events[k]
            is ClientConnected by {
            if k < w.events.len() {
                assert(u.events[k] == w.events[k]);
            }
        }
    }
}

/// Capacity ceiling at the moment of promotion: a handshake that
/// authenticates while the server is full is discarded — no session is
/// created and no event is queued.
pub proof fn lemma_full_promotion_denied(v: ServerView, id: ClientId)
    requires
        wf(v),
        server_full(v),
        pending_id_taken(v, id),
    ensures
        promote_one_spec(v, id).clients == v.clients,
        promote_one_spec(v, id).events == v.events,
        !pending_id_taken(promote_one_spec(v, id), id),
{
    let w = promote_one_spec(v, id);
    let j = pending_index_of_id(v, id);
    assert forall|b: int| 0 <= b < w.connecting.len() implies w.connecting[b].client_id != id by {
        let b0: int = if b < j { b } else { b + 1 };
        assert(w.connecting[b] == v.connecting[b0]);
        assert(v.connecting[b0].client_id != v.connecting[j].client_id);
    }
}

/// Channel isolation: a message enqueued on channel `a` for client `x`
/// is never observable through a read of another channel `b` of `x`,
/// nor through a read of any channel of another client `y`.
pub proof fn lemma_channel_isolation(
    v: ServerView,
    x: ClientId,
    a: u8,
    m: Seq<u8>,
    y: ClientId,
    b: u8,
)
    requires
        wf(v),
        has_client(v, y),
        x != y || a != b,
    ensures
        has_client(send_to_client_spec(v, x, a, m), y),
        messages_on(client_of(send_to_client_spec(v, x, a, m), y), b) == messages_on(
            client_of(v, y),
            b,
        ),
{
    let w = send_to_client_spec(v, x, a, m);
    if has_client(v, x) {
        let i = index_of(v.clients, x);
        assert(0 <= i < v.clients.len() && v.clients[i].0 == x);
        let iy = index_of(v.clients, y);
        assert(0 <= iy < v.clients.len() && v.clients[iy].0 == y);
        if x == y {
            lemma_index_of_unique(w.clients, y, i);
            assert(client_of(w, y) == send_message_spec(v.clients[i].1, a, m));
            lemma_client_channels_unique(v, i);
            let c = v.clients[i].1;
            let cw = send_message_spec(c, a, m);
            if has_key(c.channels, a) {
                let ia = index_of(c.channels, a);
                assert(0 <= ia < c.channels.len() && c.channels[ia].0 == a);
                if has_key(c.channels, b) {
                    let ib = index_of(c.channels, b);
                    assert(0 <= ib < c.channels.len() && c.channels[ib].0 == b);
                    assert(ia != ib);
                    assert(cw.channels[ib] == c.channels[ib]);
                    lemma_index_of_unique(cw.channels, b, ib);
                    assert(messages_on(cw, b) == messages_on(c, b));
                } else {
                    assert forall|k: int| 0 <= k < cw.channels.len() implies cw.channels[k].0
                        != b by {
                        assert(c.channels[k].0 != b || k == ia);
                    }
                    assert(!has_key(cw.channels, b));
                }
            }
        } else {
            assert(i != iy);
            assert(w.clients[iy] == v.clients[iy]);
            lemma_index_of_unique(w.clients, y, iy);
            assert(client_of(w, y) == client_of(v, y));
        }
    }
}

/// A byte-for-byte copy of a payload.
fn copy_payload(m: &Vec<u8>) -> (r: Vec<u8>)
    ensures
        r@ == m@,
{
    let mut r: Vec<u8> = Vec::new();
    let mut i: usize = 0;
    while i < m.len()
        invariant
            i <= m@.len(),
            r@ == m@.take(i as int),
        decreases m@.len() - i,
    {
        r.push(m[i]);
        proof {
            assert(r@ =~= m@.take(i + 1));
        }
        i = i + 1;
    }
    proof {
        assert(m@.take(m@.len() as int) =~= m@);
    }
    r
}

impl<P: ServerAuthenticationProtocol> Server<P> {
    /// A fresh orchestrator with no sessions, no handshakes and no
    /// events, remembering its limits, its channel blueprint set and the
    /// time it was built at. The channel ids of the blueprint must be
    /// distinct: the set is a mapping from channel id to blueprint.
    pub fn new(
        config: ServerConfig,
        endpoint_config: EndpointConfig,
        channels_config: Vec<(u8, ChannelConfig)>,
        current_time: u64,
    ) -> (s: Server<P>)
        requires
            unique_keys(channels_config@),
        ensures
            s@ == (ServerView {
                max_clients: config.max_clients as int,
                max_payload_size: config.max_payload_size as int,
                current_time,
                channel_ids: keys_of(channels_config@),
                clients: Seq::<(ClientId, ConnectionView)>::empty(),
                connecting: Seq::<HandshakeView>::empty(),
                events: Seq::<Event>::empty(),
            }),
            wf(s@),
    {
        let s = Server {
            config,
            clients: Vec::new(),
            connecting: Vec::new(),
            channels_config,
            current_time,
            events: Vec::new(),
            endpoint_config,
        };
        proof {
            assert(s@.clients =~= Seq::<(ClientId, ConnectionView)>::empty());
            assert(s@.connecting =~= Seq::<HandshakeView>::empty());
            assert forall|i: int, j: int| 0 <= i < j < s@.channel_ids.len() implies s@.channel_ids[i]
                != s@.channel_ids[j] by {
                assert(s.channels_config@[i].0 == s@.channel_ids[i]);
                assert(s.channels_config@[j].0 == s@.channel_ids[j]);
            }
        }
        s
    }

    /// Whether at least one session is live.
    pub fn has_clients(&self) -> (r: bool)
        ensures
            r <==> self@.clients.len() > 0,
    {
        !self.clients.is_empty()
    }

    /// Drain one queued lifecycle event, oldest first; `None` when no
    /// event is queued.
    pub fn get_event(&mut self) -> (r: Option<Event>)
        ensures
            old(self)@.events.len() == 0 ==> r is None && final(self)@ == old(self)@,
            old(self)@.events.len() > 0 ==> r == Some(old(self)@.events[0]) && final(self)@
                == (ServerView { events: old(self)@.events.drop_first(), ..old(self)@ }),
    {
        if self.events.len() == 0 {
            None
        } else {
            Some(self.events.remove(0))
        }
    }

    /// A snapshot of the ids of all live sessions, in insertion order.
    pub fn get_clients_id(&self) -> (r: Vec<ClientId>)
        ensures
            r@ == client_ids(self@),
    {
        let mut r: Vec<ClientId> = Vec::new();
        let mut i: usize = 0;
        while i < self.clients.len()
            invariant
                i <= self@.clients.len(),
                r@ == keys_of(self@.clients.take(i as int)),
            decreases self@.clients.len() - i,
        {
            r.push(self.clients[i].0);
            proof {
                assert(r@ =~= keys_of(self@.clients.take(i + 1)));
            }
            i = i + 1;
        }
        proof {
            assert(self@.clients.take(self@.clients.len() as int) =~= self@.clients);
        }
        r
    }

    /// The index of the session under `client_id`, if one is live.
    fn find_client_by_id(&self, client_id: ClientId) -> (r: Option<usize>)
        ensures
            match r {
                Some(i) => i < self@.clients.len() && self@.clients[i as int].0 == client_id,
                None => !has_client(self@, client_id),
            },
    {
        let mut i: usize = 0;
        while i < self.clients.len()
            invariant
                i <= self@.clients.len(),
                forall|j: int| 0 <= j < i ==> self@.clients[j].0 != client_id,
            decreases self@.clients.len() - i,
        {
            if self.clients[i].0 == client_id {
                return Some(i);
            }
            i = i + 1;
        }
        None
    }

    /// The index of the session owning `addr`, if one is live.
    fn find_client_by_addr(&self, addr: &NetAddr) -> (r: Option<usize>)
        ensures
            match r {
                Some(i) => i < self@.clients.len() && self@.clients[i as int].1.addr == *addr,
                None => !session_addr_taken(self@, *addr),
            },
    {
        let mut i: usize = 0;
        while i < self.clients.len()
            invariant
                i <= self@.clients.len(),
                forall|j: int| 0 <= j < i ==> self@.clients[j].1.addr != *addr,
            decreases self@.clients.len() - i,
        {
            if self.clients[i].1.addr() == *addr {
                return Some(i);
            }
            i = i + 1;
        }
        None
    }

    /// The index of the in-progress handshake under `client_id`, if any.
    fn find_connection_by_id(&self, client_id: ClientId) -> (r: Option<usize>)
        ensures
            match r {
                Some(i) => i < self@.connecting.len() && self@.connecting[i as int].client_id
                    == client_id,
                None => !pending_id_taken(self@, client_id),
            },
    {
        let mut i: usize = 0;
        while i < self.connecting.len()
            invariant
                i <= self@.connecting.len(),
                forall|j: int| 0 <= j < i ==> self@.connecting[j].client_id != client_id,
            decreases self@.connecting.len() - i,
        {
            if self.connecting[i].client_id() == client_id {
                return Some(i);
            }
            i = i + 1;
        }
        None
    }

    /// The index of the in-progress handshake owning `addr`, if any.
    fn find_connection_by_addr(&self, addr: &NetAddr) -> (r: Option<usize>)
        ensures
            match r {
                Some(i) => i < self@.connecting.len() && self@.connecting[i as int].addr == *addr,
                None => !pending_addr_taken(self@, *addr),
            },
    {
        let mut i: usize = 0;
        while i < self.connecting.len()
            invariant
                i <= self@.connecting.len(),
                forall|j: int| 0 <= j < i ==> self@.connecting[j].addr != *addr,
            decreases self@.connecting.len() - i,
        {
            if self.connecting[i].addr() == *addr {
                return Some(i);
            }
            i = i + 1;
        }
        None
    }

    /// The current bandwidth statistics of the session under
    /// `client_id`, or `None` when no such session is live.
    pub fn get_client_network_info(&self, client_id: ClientId) -> (r: Option<NetworkInfo>)
        requires
            wf(self@),
        ensures
            r is Some <==> has_client(self@, client_id),
            has_client(self@, client_id) ==> r == Some(client_of(self@, client_id).info),
    {
        match self.find_client_by_id(client_id) {
            Some(i) => {
                proof {
                    lemma_index_of_unique(self@.clients, client_id, i as int);
                }
                Some(self.clients[i].1.network_info())
            }
            None => None,
        }
    }

    /// Enqueue `message` on channel `channel_id` of the session under
    /// `client_id`. An unknown client id is silently ignored: no panic,
    /// no error.
    pub fn send_message_to_client(&mut self, client_id: ClientId, channel_id: u8, message: Vec<u8>)
        requires
            wf(old(self)@),
        ensures
            final(self)@ == send_to_client_spec(old(self)@, client_id, channel_id, message@),
            wf(final(self)@),
    {
        let ghost pre = self@;
        match self.find_client_by_id(client_id) {
            Some(i) => {
                proof {
                    lemma_index_of_unique(pre.clients, client_id, i as int);
                    lemma_client_channels_unique(pre, i as int);
                }
                self.clients[i].1.send_message(channel_id, message);
                proof {
                    assert(self@.clients =~= send_to_client_spec(
                        pre,
                        client_id,
                        channel_id,
                        message@,
                    ).clients);
                    assert(self@ == send_to_client_spec(pre, client_id, channel_id, message@));
                    lemma_send_message_keys(pre.clients[i as int].1, channel_id, message@);
                    lemma_update_client_wf(
                        pre,
                        i as int,
                        send_message_spec(pre.clients[i as int].1, channel_id, message@),
                    );
                }
            }
            None => {}
        }
    }

    /// Enqueue a copy of `message` on channel `channel_id` of every live
    /// session.
    pub fn send_message_to_all_clients(&mut self, channel_id: u8, message: Vec<u8>)
        requires
            wf(old(self)@),
        ensures
            final(self)@ == (ServerView {
                clients: old(self)@.clients.map_values(
                    |p: (ClientId, ConnectionView)| (
                        p.0,
                        send_message_spec(p.1, channel_id, message@),
                    ),
                ),
                ..old(self)@
            }),
            wf(final(self)@),
    {
        let ghost pre = self@;
        let mut i: usize = 0;
        while i < self.clients.len()
            invariant
                pre == old(self)@,
                wf(pre),
                i <= self@.clients.len(),
                self@.clients.len() == pre.clients.len(),
                (ServerView { clients: pre.clients, ..self@ }) == pre,
                forall|j: int| i <= j < pre.clients.len() ==> self@.clients[j] == pre.clients[j],
                forall|j: int|
                    0 <= j < i ==> self@.clients[j] == (
                        pre.clients[j].0,
                        send_message_spec(pre.clients[j].1, channel_id, message@),
                    ),
            decreases self@.clients.len() - i,
        {
            let ghost snap = self@;
            let m = copy_payload(&message);
            proof {
                lemma_client_channels_unique(pre, i as int);
                assert(snap.clients[i as int].1 == pre.clients[i as int].1);
            }
            self.clients[i].1.send_message(channel_id, m);
            proof {
                assert(self@.clients =~= snap.clients.update(
                    i as int,
                    (
                        snap.clients[i as int].0,
                        send_message_spec(snap.clients[i as int].1, channel_id, message@),
                    ),
                ));
            }
            i = i + 1;
        }
        proof {
            assert(self@.clients =~= pre.clients.map_values(
                |p: (ClientId, ConnectionView)| (p.0, send_message_spec(p.1, channel_id, message@)),
            ));
            assert forall|j: int| 0 <= j < self@.clients.len() implies keys_of(
                #[trigger] self@.clients[j].1.channels,
            ) == self@.channel_ids by {
                lemma_send_message_keys(pre.clients[j].1, channel_id, message@);
            }
        }
    }

    /// Drain and return every message buffered on channel `channel_id`
    /// of the session under `client_id`, oldest first. A live session
    /// with nothing buffered yields `Some` of an empty batch; only an
    /// unknown client id yields `None`.
    pub fn get_messages_from_client(&mut self, client_id: ClientId, channel_id: u8) -> (r: Option<
        Vec<Vec<u8>>,
    >)
        requires
            wf(old(self)@),
        ensures
            r is Some <==> has_client(old(self)@, client_id),
            !has_client(old(self)@, client_id) ==> final(self)@ == old(self)@,
            has_client(old(self)@, client_id) ==> (r matches Some(batch) && batch@.map_values(
                |m: Vec<u8>| m@,
            ) == messages_on(client_of(old(self)@, client_id), channel_id)) && final(self)@
                == drain_client_spec(old(self)@, client_id, channel_id),
            wf(final(self)@),
    {
        let ghost pre = self@;
        match self.find_client_by_id(client_id) {
            Some(i) => {
                proof {
                    lemma_index_of_unique(pre.clients, client_id, i as int);
                    lemma_client_channels_unique(pre, i as int);
                }
                let batch = self.clients[i].1.receive_all_messages_from_channel(channel_id);
                proof {
                    assert(self@.clients =~= drain_client_spec(pre, client_id, channel_id).clients);
                    assert(self@ == drain_client_spec(pre, client_id, channel_id));
                    lemma_drain_keys(pre.clients[i as int].1, channel_id);
                    lemma_update_client_wf(
                        pre,
                        i as int,
                        drain_spec(pre.clients[i as int].1, channel_id),
                    );
                }
                Some(batch)
            }
            None => None,
        }
    }

    /// Read channel `channel_id` across all live sessions: for every
    /// session with at least one message buffered on that channel, its
    /// id and its full batch, in session insertion order; sessions with
    /// nothing buffered are omitted. Every read batch is drained.
    pub fn get_messages_from_channel(&mut self, channel_id: u8) -> (r: Vec<(ClientId, Vec<Vec<u8>>)>)
        requires
            wf(old(self)@),
        ensures
            r@.map_values(|p: (ClientId, Vec<Vec<u8>>)| (p.0, p.1@.map_values(|m: Vec<u8>| m@)))
                == channel_batches(old(self)@.clients, channel_id),
            final(self)@ == (ServerView {
                clients: old(self)@.clients.map_values(
                    |p: (ClientId, ConnectionView)| (p.0, drain_spec(p.1, channel_id)),
                ),
                ..old(self)@
            }),
            wf(final(self)@),
    {
        let ghost pre = self@;
        let mut r: Vec<(ClientId, Vec<Vec<u8>>)> = Vec::new();
        let mut i: usize = 0;
        while i < self.clients.len()
            invariant
                pre == old(self)@,
                wf(pre),
                i <= self@.clients.len(),
                self@.clients.len() == pre.clients.len(),
                (ServerView { clients: pre.clients, ..self@ }) == pre,
                forall|j: int| i <= j < pre.clients.len() ==> self@.clients[j] == pre.clients[j],
                forall|j: int|
                    0 <= j < i ==> self@.clients[j] == (
                        pre.clients[j].0,
                        drain_spec(pre.clients[j].1, channel_id),
                    ),
                r@.map_values(
                    |p: (ClientId, Vec<Vec<u8>>)| (p.0, p.1@.map_values(|m: Vec<u8>| m@)),
                ) == channel_batches(pre.clients.take(i as int), channel_id),
            decreases self@.clients.len() - i,
        {
            let ghost snap = self@;
            let ghost rsnap = r@;
            let client_id = self.clients[i].0;
            proof {
                lemma_client_channels_unique(pre, i as int);
                assert(snap.clients[i as int] == pre.clients[i as int]);
            }
            let batch = self.clients[i].1.receive_all_messages_from_channel(channel_id);
            if batch.len() > 0 {
                r.push((client_id, batch));
            }
            proof {
                assert(self@.clients =~= snap.clients.update(
                    i as int,
                    (
                        snap.clients[i as int].0,
                        drain_spec(snap.clients[i as int].1, channel_id),
                    ),
                ));
                assert(pre.clients.take(i + 1).drop_last() =~= pre.clients.take(i as int));
                assert(pre.clients.take(i + 1).last() == pre.clients[i as int]);
                assert(r@.map_values(
                    |p: (ClientId, Vec<Vec<u8>>)| (p.0, p.1@.map_values(|m: Vec<u8>| m@)),
                ) =~= channel_batches(pre.clients.take(i + 1), channel_id));
            }
            i = i + 1;
        }
        proof {
            assert(pre.clients.take(pre.clients.len() as int) =~= pre.clients);
            assert(self@.clients =~= pre.clients.map_values(
                |p: (ClientId, ConnectionView)| (p.0, drain_spec(p.1, channel_id)),
            ));
            assert forall|j: int| 0 <= j < self@.clients.len() implies keys_of(
                #[trigger] self@.clients[j].1.channels,
            ) == self@.channel_ids by {
                lemma_drain_keys(pre.clients[j].1, channel_id);
            }
        }
        r
    }

    /// Remove the session under `client_id`, queueing one
    /// `ClientDisconnected` event; an unknown id is silently ignored.
    /// The state machine it shows has no exit of its own: removal is
    /// the owning application's explicit decision.
    pub fn disconnect_client(&mut self, client_id: ClientId)
        requires
            wf(old(self)@),
        ensures
            wf(final(self)@),
            final(self)@ == disconnect_spec(old(self)@, client_id),
    {
        let ghost pre = self@;
        match self.find_client_by_id(client_id) {
            Some(i) => {
                proof {
                    lemma_index_of_unique(pre.clients, client_id, i as int);
                }
                let _entry = self.clients.remove(i);
                self.events.push(Event::ClientDisconnected(client_id));
                proof {
                    assert(self@.clients =~= pre.clients.remove(i as int));
                    assert(self@.events =~= pre.events.push(Event::ClientDisconnected(client_id)));
                    assert(self@ == disconnect_spec(pre, client_id));
                    assert forall|a: int, b: int|
                        0 <= a < b < self@.clients.len() implies self@.clients[a].0
                        != self@.clients[b].0 && self@.clients[a].1.addr
                        != self@.clients[b].1.addr by {
                        let a0: int = if a < i as int { a } else { a + 1 };
                        let b0: int = if b < i as int { b } else { b + 1 };
                        assert(self@.clients[a] == pre.clients[a0]);
                        assert(self@.clients[b] == pre.clients[b0]);
                    }
                    assert forall|a: int, b: int|
                        0 <= a < self@.clients.len() && 0 <= b < self@.connecting.len() implies self@.clients[a].0
                        != self@.connecting[b].client_id && self@.clients[a].1.addr
                        != self@.connecting[b].addr by {
                        let a0: int = if a < i as int { a } else { a + 1 };
                        assert(self@.clients[a] == pre.clients[a0]);
                    }
                    assert forall|a: int|
                        0 <= a < self@.clients.len() implies keys_of(
                        #[trigger] self@.clients[a].1.channels,
                    ) == self@.channel_ids by {
                        let a0: int = if a < i as int { a } else { a + 1 };
                        assert(self@.clients[a] == pre.clients[a0]);
                        assert(keys_of(pre.clients[a0].1.channels) == pre.channel_ids);
                    }
                }
            }
            None => {}
        }
    }

    /// Route one inbound datagram `(payload, addr)`:
    ///
    /// 1. If `addr` owns a live session, the payload goes to that
    ///    session (sessions take priority over handshakes).
    /// 2. Else, if the session map is full, the datagram is discarded.
    /// 3. Else, if `addr` owns an in-progress handshake, the payload
    ///    goes to that handshake's protocol.
    /// 4. Else it is a first-contact datagram: the protocol builds a
    ///    handshake from it, choosing the peer's id; a payload the
    ///    protocol rejects is reported as the error, and no handshake is
    ///    created.
    pub fn process_payload_from(&mut self, payload: Vec<u8>, addr: &NetAddr) -> (r: Result<
        (),
        ServerError,
    >)
        requires
            wf(old(self)@),
        ensures
            wf(final(self)@),
            session_addr_taken(old(self)@, *addr) ==> r is Ok && final(self)@
                == ingest_at_addr_spec(old(self)@, *addr, payload@.len() as u64),
            !session_addr_taken(old(self)@, *addr) && server_full(old(self)@) ==> r is Ok
                && final(self)@ == old(self)@,
            !session_addr_taken(old(self)@, *addr) && !server_full(old(self)@)
                && pending_addr_taken(old(self)@, *addr) ==> r is Ok && final(self)@ == old(self)@,
            !session_addr_taken(old(self)@, *addr) && !server_full(old(self)@)
                && !pending_addr_taken(old(self)@, *addr) && r is Ok ==> (exists|id: ClientId|
                final(self)@ == #[trigger] first_contact_spec(old(self)@, id, *addr)),
            r is Err ==> final(self)@ == old(self)@ && !session_addr_taken(old(self)@, *addr)
                && !server_full(old(self)@) && !pending_addr_taken(old(self)@, *addr),
    {
        let ghost pre = self@;
        match self.find_client_by_addr(addr) {
            Some(i) => {
                proof {
                    lemma_session_addr_index_unique(pre, *addr, i as int);
                }
                let ghost len = payload@.len() as u64;
                self.clients[i].1.process_payload(payload);
                proof {
                    assert(self@.clients =~= ingest_at_addr_spec(pre, *addr, len).clients);
                    assert(self@ == ingest_at_addr_spec(pre, *addr, len));
                    lemma_update_client_wf(
                        pre,
                        i as int,
                        ingest_spec(pre.clients[i as int].1, len),
                    );
                }
                return Ok(());
            }
            None => {}
        }
        if self.clients.len() >= self.config.max_clients {
            return Ok(());
        }
        match self.find_connection_by_addr(addr) {
            Some(i) => {
                // a rejected in-progress payload leaves the handshake
                // unchanged, free to retry on a later datagram
                let _accepted = self.connecting[i].process_payload(payload);
                proof {
                    assert(self@.connecting =~= pre.connecting);
                    assert(self@ == pre);
                }
                Ok(())
            }
            None => {
                match P::from_payload(payload) {
                    None => Err(ServerError::InvalidFirstContactPayload),
                    Some(protocol) => {
                        let id = protocol.id();
                        proof {
                            lemma_first_contact_wf(pre, id, *addr);
                        }
                        match self.find_client_by_id(id) {
                            Some(_) => {
                                // this id already names a live session:
                                // promotion is one way, one time, so the
                                // datagram is dropped
                                proof {
                                    assert(final(self)@ == first_contact_spec(pre, id, *addr));
                                }
                                Ok(())
                            }
                            None => {
                                let hc = HandleConnection::new(id, *addr, protocol);
                                match self.find_connection_by_id(id) {
                                    Some(j) => {
                                        // the handshake under this id
                                        // restarts from the new address
                                        proof {
                                            lemma_pending_index_unique(pre, id, j as int);
                                        }
                                        let _old_entry = self.connecting.remove(j);
                                        self.connecting.insert(j, hc);
                                        proof {
                                            assert(self@.connecting =~= first_contact_spec(
                                                pre,
                                                id,
                                                *addr,
                                            ).connecting);
                                            assert(self@ == first_contact_spec(pre, id, *addr));
                                        }
                                        Ok(())
                                    }
                                    None => {
                                        self.connecting.push(hc);
                                        proof {
                                            assert(self@.connecting =~= first_contact_spec(
                                                pre,
                                                id,
                                                *addr,
                                            ).connecting);
                                            assert(self@ == first_contact_spec(pre, id, *addr));
                                        }
                                        Ok(())
                                    }
                                }
                            }
                        }
                    }
                }
            }
        }
    }

    /// Promote the handshake under `client_id`: remove its entry, and,
    /// if the session map still has room, build a fresh session at the
    /// handshake's address with every configured channel instantiated
    /// empty, insert it under the handshake's id, and queue exactly one
    /// `ClientConnected` event. At capacity the handshake is discarded
    /// with no session and no event.
    fn promote(&mut self, client_id: ClientId)
        requires
            wf(old(self)@),
        ensures
            wf(final(self)@),
            final(self)@ == promote_one_spec(old(self)@, client_id),
    {
        let ghost pre = self@;
        proof {
            lemma_promote_one_wf(pre, client_id);
        }
        match self.find_connection_by_id(client_id) {
            None => {}
            Some(j) => {
                proof {
                    lemma_pending_index_unique(pre, client_id, j as int);
                }
                let hc = self.connecting.remove(j);
                proof {
                    assert(self@.connecting =~= pre.connecting.remove(j as int));
                }
                if self.clients.len() >= self.config.max_clients {
                    // authenticated, but the server filled up while the
                    // handshake ran: the peer is turned away
                    proof {
                        assert(self@ == promote_one_spec(pre, client_id));
                    }
                } else {
                    let endpoint = Endpoint::new(self.endpoint_config);
                    let security = hc.build_security_interface();
                    let mut connection = Connection::new(hc.addr(), endpoint, security);
                    let ghost mid = self@;
                    let mut c: usize = 0;
                    while c < self.channels_config.len()
                        invariant
                            self@ == mid,
                            c <= mid.channel_ids.len(),
                            connection@.addr == hc@.addr,
                            connection@.info == zero_info(),
                            connection@.channels =~= mid.channel_ids.take(c as int).map_values(
                                |ch: u8| (
                                    ch,
                                    ChannelView {
                                        current_time: mid.current_time,
                                        messages: Seq::<Seq<u8>>::empty(),
                                    },
                                ),
                            ),
                        decreases mid.channel_ids.len() - c,
                    {
                        let channel = self.channels_config[c].1.new_channel(self.current_time);
                        connection.add_channel(self.channels_config[c].0, channel);
                        proof {
                            assert(mid.channel_ids.take(c + 1) =~= mid.channel_ids.take(
                                c as int,
                            ).push(mid.channel_ids[c as int]));
                            assert(connection@.channels =~= mid.channel_ids.take(c + 1).map_values(
                                |ch: u8| (
                                    ch,
                                    ChannelView {
                                        current_time: mid.current_time,
                                        messages: Seq::<Seq<u8>>::empty(),
                                    },
                                ),
                            ));
                        }
                        c = c + 1;
                    }
                    proof {
                        assert(mid.channel_ids.take(mid.channel_ids.len() as int)
                            =~= mid.channel_ids);
                        assert(connection@ == new_session_spec(pre, hc@.addr));
                    }
                    self.events.push(Event::ClientConnected(client_id));
                    self.clients.push((client_id, connection));
                    proof {
                        assert(self@.clients =~= promote_one_spec(pre, client_id).clients);
                        assert(self@.events =~= promote_one_spec(pre, client_id).events);
                        assert(self@ == promote_one_spec(pre, client_id));
                    }
                }
            }
        }
    }

    /// Advance every in-progress handshake: collect the outbound
    /// handshake payloads of those not yet authenticated (each paired
    /// with its peer's address, for the application to transmit), and
    /// promote every handshake whose protocol reports authenticated, in
    /// entry order, each subject to admission control at its turn.
    fn update_pending_connections(&mut self) -> (out: Vec<(NetAddr, Vec<u8>)>)
        requires
            wf(old(self)@),
        ensures
            wf(final(self)@),
            exists|auth: Seq<ClientId>|
                #![trigger promote_fold(old(self)@, auth)]
                auth.no_duplicates() && (forall|k: int|
                    0 <= k < auth.len() ==> pending_id_taken(old(self)@, #[trigger] auth[k]))
                    && final(self)@ == promote_fold(old(self)@, auth),
            forall|k: int|
                0 <= k < out@.len() ==> pending_addr_taken(old(self)@, (#[trigger] out@[k]).0),
    {
        let ghost pre = self@;
        let mut out: Vec<(NetAddr, Vec<u8>)> = Vec::new();
        let mut connected: Vec<ClientId> = Vec::new();
        let mut i: usize = 0;
        while i < self.connecting.len()
            invariant
                pre == old(self)@,
                wf(pre),
                self@ == pre,
                i <= self@.connecting.len(),
                forall|k: int|
                    0 <= k < connected@.len() ==> exists|j: int|
                        0 <= j < i && pre.connecting[j].client_id == #[trigger] connected@[k],
                connected@.no_duplicates(),
                forall|k: int|
                    0 <= k < out@.len() ==> pending_addr_taken(pre, (#[trigger] out@[k]).0),
            decreases self@.connecting.len() - i,
        {
            if self.connecting[i].is_authenticated() {
                let id = self.connecting[i].client_id();
                proof {
                    assert(id == pre.connecting[i as int].client_id);
                    assert forall|k: int| 0 <= k < connected@.len() implies #[trigger] connected@[k]
                        != id by {
                        let j = choose|j: int|
                            0 <= j < i && pre.connecting[j].client_id == connected@[k];
                        assert(pre.connecting[j].client_id != pre.connecting[i as int].client_id);
                    }
                }
                connected.push(id);
            } else {
                let ghost snap = self@;
                match self.connecting[i].create_payload() {
                    Some(payload) => {
                        proof {
                            assert(self@.connecting =~= snap.connecting);
                            assert(self@ == pre);
                        }
                        let a = self.connecting[i].addr();
                        proof {
                            assert((i as int) < pre.connecting.len());
                            assert(pre.connecting[i as int].addr == a);
                            assert(pending_addr_taken(pre, a));
                        }
                        out.push((a, payload));
                    }
                    None => {
                        proof {
                            assert(self@.connecting =~= snap.connecting);
                            assert(self@ == pre);
                        }
                    }
                }
            }
            proof {
                assert forall|k: int| 0 <= k < connected@.len() implies (exists|j: int|
                    0 <= j < i + 1 && pre.connecting[j].client_id == #[trigger] connected@[k]) by {
                    if exists|j: int| 0 <= j < i && pre.connecting[j].client_id == connected@[k] {
                        let j = choose|j: int|
                            0 <= j < i && pre.connecting[j].client_id == connected@[k];
                        assert(0 <= j < i + 1 && pre.connecting[j].client_id == connected@[k]);
                    } else {
                        assert(pre.connecting[i as int].client_id == connected@[k]);
                    }
                }
            }
            i = i + 1;
        }
        let ghost auth = connected@;
        let mut k: usize = 0;
        while k < connected.len()
            invariant
                pre == old(self)@,
                wf(pre),
                auth == connected@,
                k <= connected@.len(),
                wf(self@),
                self@ == promote_fold(pre, auth.take(k as int)),
            decreases connected@.len() - k,
        {
            let id = connected[k];
            proof {
                lemma_promote_fold_snoc(pre, auth.take(k as int), id);
                assert(auth.take(k + 1) =~= auth.take(k as int).push(id));
            }
            self.promote(id);
            k = k + 1;
        }
        proof {
            assert(auth.take(auth.len() as int) =~= auth);
            assert(connected@.no_duplicates() && (forall|k: int|
                0 <= k < auth.len() ==> pending_id_taken(pre, #[trigger] auth[k])) && self@
                == promote_fold(pre, auth)) by {
                assert forall|k: int| 0 <= k < auth.len() implies pending_id_taken(
                    pre,
                    #[trigger] auth[k],
                ) by {
                    let j = choose|j: int|
                        0 <= j < pre.connecting.len() && pre.connecting[j].client_id == auth[k];
                    assert(pending_id_taken(pre, auth[k]));
                }
            }
        }
        out
    }

    /// One update tick, fed the datagrams the application drained from
    /// its socket this tick: (1) advance every session's channel clock
    /// to `now`; (2) route each datagram in order, absorbing rejected
    /// first contacts so one misbehaving peer never stalls the others;
    /// (3) advance every pending handshake and promote the
    /// authenticated ones under admission control. Returns the outbound
    /// handshake payloads, each paired with the peer address the
    /// application must transmit it to.
    pub fn update(&mut self, now: u64, datagrams: Vec<(Vec<u8>, NetAddr)>) -> (out: Vec<
        (NetAddr, Vec<u8>),
    >)
        requires
            wf(old(self)@),
        ensures
            wf(final(self)@),
            exists|mid: ServerView, auth: Seq<ClientId>|
                #![trigger promote_fold(mid, auth)]
                routed_all(
                    advance_clocks_spec(old(self)@, now),
                    datagrams@.map_values(|d: (Vec<u8>, NetAddr)| (d.0@, d.1)),
                    mid,
                ) && auth.no_duplicates() && (forall|k: int|
                    0 <= k < auth.len() ==> pending_id_taken(mid, #[trigger] auth[k])) && (forall|
                    k: int,
                |
                    0 <= k < out@.len() ==> pending_addr_taken(mid, (#[trigger] out@[k]).0))
                    && final(self)@ == promote_fold(mid, auth),
            final(self)@.max_clients == old(self)@.max_clients,
            final(self)@.max_payload_size == old(self)@.max_payload_size,
            final(self)@.channel_ids == old(self)@.channel_ids,
            final(self)@.current_time == old(self)@.current_time,
            old(self)@.events.is_prefix_of(final(self)@.events),
            forall|k: int|
                old(self)@.events.len() <= k < final(self)@.events.len()
                    ==> final(self)@.events[k] is ClientConnected,
    {
        let ghost pre = self@;
        let mut i: usize = 0;
        while i < self.clients.len()
            invariant
                pre == old(self)@,
                wf(pre),
                i <= self@.clients.len(),
                self@.clients.len() == pre.clients.len(),
                (ServerView { clients: pre.clients, ..self@ }) == pre,
                forall|j: int| i <= j < pre.clients.len() ==> self@.clients[j] == pre.clients[j],
                forall|j: int|
                    0 <= j < i ==> self@.clients[j] == (
                        pre.clients[j].0,
                        advance_time_spec(pre.clients[j].1, now),
                    ),
            decreases self@.clients.len() - i,
        {
            let ghost snap = self@;
            self.clients[i].1.update_channels_current_time(now);
            proof {
                assert(self@.clients =~= snap.clients.update(
                    i as int,
                    (
                        snap.clients[i as int].0,
                        advance_time_spec(snap.clients[i as int].1, now),
                    ),
                ));
            }
            i = i + 1;
        }
        proof {
            assert(self@.clients =~= advance_clocks_spec(pre, now).clients);
            assert(self@ == advance_clocks_spec(pre, now));
            assert forall|j: int| 0 <= j < self@.clients.len() implies keys_of(
                #[trigger] self@.clients[j].1.channels,
            ) == self@.channel_ids && self@.clients[j].1.addr == pre.clients[j].1.addr
                && self@.clients[j].0 == pre.clients[j].0 by {
                lemma_advance_time_keys(pre.clients[j].1, now);
            }
            assert(wf(self@));
        }
        let ghost vstart = self@;
        let ghost all = datagrams@.map_values(|d: (Vec<u8>, NetAddr)| (d.0@, d.1));
        let mut ds = datagrams;
        let ghost mut processed = Seq::<(Seq<u8>, NetAddr)>::empty();
        proof {
            assert(processed + ds@.map_values(|d: (Vec<u8>, NetAddr)| (d.0@, d.1)) =~= all);
        }
        while ds.len() > 0
            invariant
                wf(self@),
                routed_all(vstart, processed, self@),
                all == processed + ds@.map_values(|d: (Vec<u8>, NetAddr)| (d.0@, d.1)),
                self@.events == vstart.events,
                self@.max_clients == vstart.max_clients,
                self@.max_payload_size == vstart.max_payload_size,
                self@.channel_ids == vstart.channel_ids,
                self@.current_time == vstart.current_time,
            decreases ds@.len(),
        {
            let ghost snap = self@;
            let ghost dsv = ds@.map_values(|d: (Vec<u8>, NetAddr)| (d.0@, d.1));
            let pair = ds.remove(0);
            // a failed first contact is reported by
            // `process_payload_from`; here it is absorbed, as every
            // peer-scoped failure is
            let _r = self.process_payload_from(pair.0, &pair.1);
            proof {
                assert(routed_step(snap, pair.0@, pair.1, self@));
                lemma_routed_all_snoc(vstart, processed, pair.0@, pair.1, snap, self@);
                processed = processed.push((pair.0@, pair.1));
                assert(dsv[0] == (pair.0@, pair.1));
                assert(ds@.map_values(|d: (Vec<u8>, NetAddr)| (d.0@, d.1)) =~= dsv.drop_first());
                assert(all =~= processed + ds@.map_values(|d: (Vec<u8>, NetAddr)| (d.0@, d.1)));
            }
        }
        proof {
            assert(ds@.map_values(|d: (Vec<u8>, NetAddr)| (d.0@, d.1)) =~= Seq::<(
                Seq<u8>,
                NetAddr,
            )>::empty());
            assert(processed =~= all);
            assert(routed_all(vstart, all, self@));
        }
        let ghost midv = self@;
        let out = self.update_pending_connections();
        proof {
            let auth = choose|auth: Seq<ClientId>|
                #![trigger promote_fold(midv, auth)]
                auth.no_duplicates() && (forall|k: int|
                    0 <= k < auth.len() ==> pending_id_taken(midv, #[trigger] auth[k])) && self@
                    == promote_fold(midv, auth);
            assert(routed_all(advance_clocks_spec(pre, now), all, midv) && auth.no_duplicates() && (
            forall|k: int| 0 <= k < auth.len() ==> pending_id_taken(midv, #[trigger] auth[k])) && (
            forall|k: int|
                0 <= k < out@.len() ==> pending_addr_taken(midv, (#[trigger] out@[k]).0)) && self@
                == promote_fold(midv, auth));
            lemma_promote_fold_frame(midv, auth);
        }
        out
    }

    /// Ask every session for its next outbound packet, in session
    /// insertion order; each packet ready is returned with the peer
    /// address the application must transmit it to. A session with
    /// nothing ready contributes nothing.
    pub fn send_packets(&mut self) -> (out: Vec<(NetAddr, Vec<u8>)>)
        requires
            wf(old(self)@),
        ensures
            wf(final(self)@),
            final(self)@ == (ServerView {
                clients: old(self)@.clients.map_values(
                    |p: (ClientId, ConnectionView)| (p.0, flush_one_spec(p.1)),
                ),
                ..old(self)@
            }),
            out@.map_values(|p: (NetAddr, Vec<u8>)| (p.0, p.1@)) == flush_out_spec(
                old(self)@.clients,
            ),
    {
        let ghost pre = self@;
        let mut out: Vec<(NetAddr, Vec<u8>)> = Vec::new();
        let mut i: usize = 0;
        while i < self.clients.len()
            invariant
                pre == old(self)@,
                wf(pre),
                i <= self@.clients.len(),
                self@.clients.len() == pre.clients.len(),
                (ServerView { clients: pre.clients, ..self@ }) == pre,
                forall|j: int| i <= j < pre.clients.len() ==> self@.clients[j] == pre.clients[j],
                forall|j: int|
                    0 <= j < i ==> self@.clients[j] == (
                        pre.clients[j].0,
                        flush_one_spec(pre.clients[j].1),
                    ),
                out@.map_values(|p: (NetAddr, Vec<u8>)| (p.0, p.1@)) == flush_out_spec(
                    pre.clients.take(i as int),
                ),
            decreases self@.clients.len() - i,
        {
            let ghost snap = self@;
            let ghost outsnap = out@;
            let addr = self.clients[i].1.addr();
            match self.clients[i].1.get_packet() {
                Some(payload) => {
                    proof {
                        let ghost ci = snap.clients[i as int].1;
                        let w = choose|w: int|
                            #[trigger] first_pending_at(ci, w) && payload@ == ci.channels[w].1.messages[0]
                                && self@.clients[i as int].1 == pop_first_spec(ci, w);
                        crate::connection::lemma_first_pending_idx(
                            snap.clients[i as int].1.channels,
                            w,
                        );
                        assert(self@.clients =~= snap.clients.update(
                            i as int,
                            (
                                snap.clients[i as int].0,
                                flush_one_spec(snap.clients[i as int].1),
                            ),
                        ));
                    }
                    out.push((addr, payload));
                }
                None => {
                    proof {
                        assert(self@.clients =~= snap.clients.update(
                            i as int,
                            (
                                snap.clients[i as int].0,
                                flush_one_spec(snap.clients[i as int].1),
                            ),
                        ));
                    }
                }
            }
            proof {
                assert(pre.clients.take(i + 1).drop_last() =~= pre.clients.take(i as int));
                assert(pre.clients.take(i + 1).last() == pre.clients[i as int]);
                assert(out@.map_values(|p: (NetAddr, Vec<u8>)| (p.0, p.1@)) =~= flush_out_spec(
                    pre.clients.take(i + 1),
                ));
            }
            i = i + 1;
        }
        proof {
            assert(pre.clients.take(pre.clients.len() as int) =~= pre.clients);
            assert(self@.clients =~= pre.clients.map_values(
                |p: (ClientId, ConnectionView)| (p.0, flush_one_spec(p.1)),
            ));
            assert forall|j: int| 0 <= j < self@.clients.len() implies keys_of(
                #[trigger] self@.clients[j].1.channels,
            ) == self@.channel_ids && self@.clients[j].1.addr == pre.clients[j].1.addr by {
                lemma_flush_one_keys(pre.clients[j].1);
            }
        }
        out
    }
}

} // verus!

