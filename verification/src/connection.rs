use vstd::prelude::*;

use crate::addr::NetAddr;
use crate::assoc::{has_key, index_of, lemma_index_of_unique, value_of};
use crate::channel::{Channel, ChannelView};
use crate::endpoint::{Endpoint, NetworkInfo, record_received_spec, record_sent_spec};

verus! {

/// The mathematical content of one session: the peer's address, the
/// packet-accounting statistics, and each channel's buffered messages,
/// in the order the channels were instantiated. The security context is
/// opaque to this layer and does not appear.
pub struct ConnectionView {
    pub addr: NetAddr,
    pub info: NetworkInfo,
    pub channels: Seq<(u8, ChannelView)>,
}

/// One authenticated peer: its network address, its endpoint accounting,
/// its channel set, and the security context the handshake produced.
pub struct Connection<S> {
    pub(crate) addr: NetAddr,
    endpoint: Endpoint,
    channels: Vec<(u8, Channel)>,
    security: S,
}

impl<S> View for Connection<S> {
    type V = ConnectionView;

    closed spec fn view(&self) -> ConnectionView {
        ConnectionView {
            addr: self.addr,
            info: self.endpoint.info(),
            channels: self.channels@.map_values(|p: (u8, Channel)| (p.0, p.1@)),
        }
    }
}

/// The messages buffered on channel `channel_id`, oldest first; an
/// unknown channel id reads as an empty batch.
pub open spec fn messages_on(c: ConnectionView, channel_id: u8) -> Seq<Seq<u8>> {
    if has_key(c.channels, channel_id) {
        value_of(c.channels, channel_id).messages
    } else {
        Seq::<Seq<u8>>::empty()
    }
}

/// `c` after enqueueing `message` on channel `channel_id`; a session has
/// every configured channel, and an unknown id leaves it unchanged.
pub open spec fn send_message_spec(c: ConnectionView, channel_id: u8, message: Seq<u8>) -> ConnectionView {
    if has_key(c.channels, channel_id) {
        let i = index_of(c.channels, channel_id);
        ConnectionView {
            channels: c.channels.update(
                i,
                (
                    channel_id,
                    ChannelView {
                        current_time: c.channels[i].1.current_time,
                        messages: c.channels[i].1.messages.push(message),
                    },
                ),
            ),
            ..c
        }
    } else {
        c
    }
}

/// `c` after draining channel `channel_id`.
pub open spec fn drain_spec(c: ConnectionView, channel_id: u8) -> ConnectionView {
    if has_key(c.channels, channel_id) {
        let i = index_of(c.channels, channel_id);
        ConnectionView {
            channels: c.channels.update(
                i,
                (
                    channel_id,
                    ChannelView {
                        current_time: c.channels[i].1.current_time,
                        messages: Seq::<Seq<u8>>::empty(),
                    },
                ),
            ),
            ..c
        }
    } else {
        c
    }
}

/// `c` after ingesting one inbound payload of `len` bytes: only the
/// accounting moves; what the payload decodes to is the transport's
/// concern below this layer.
pub open spec fn ingest_spec(c: ConnectionView, len: u64) -> ConnectionView {
    ConnectionView { info: record_received_spec(c.info, len), ..c }
}

/// `c` with every channel clock advanced to `now`.
pub open spec fn advance_time_spec(c: ConnectionView, now: u64) -> ConnectionView {
    ConnectionView {
        channels: c.channels.map_values(
            |p: (u8, ChannelView)| (p.0, ChannelView { current_time: now, messages: p.1.messages }),
        ),
        ..c
    }
}

/// Whether some channel has a message waiting to be flushed.
pub open spec fn has_pending(c: ConnectionView) -> bool {
    exists|i: int| 0 <= i < c.channels.len() && c.channels[i].1.messages.len() > 0
}

/// `i` is the first channel (in instantiation order) with a message
/// waiting.
pub open spec fn first_pending_at(c: ConnectionView, i: int) -> bool {
    &&& 0 <= i < c.channels.len()
    &&& c.channels[i].1.messages.len() > 0
    &&& forall|j: int| 0 <= j < i ==> c.channels[j].1.messages.len() == 0
}

/// `c` after its channel at index `i` gave up its oldest message as an
/// outbound packet, with the sent-side accounting moved accordingly.
pub open spec fn pop_first_spec(c: ConnectionView, i: int) -> ConnectionView {
    ConnectionView {
        info: record_sent_spec(c.info, c.channels[i].1.messages[0].len() as u64),
        channels: c.channels.update(
            i,
            (
                c.channels[i].0,
                ChannelView {
                    current_time: c.channels[i].1.current_time,
                    messages: c.channels[i].1.messages.drop_first(),
                },
            ),
        ),
        ..c
    }
}

/// The index of the first channel with a message waiting; the channel
/// count when none has one.
pub open spec fn first_pending_idx(channels: Seq<(u8, ChannelView)>) -> int
    decreases channels.len(),
{
    if channels.len() == 0 {
        0
    } else if channels[0].1.messages.len() > 0 {
        0
    } else {
        1 + first_pending_idx(channels.drop_first())
    }
}

/// When some channel has a message waiting, `first_pending_idx` names a
/// real channel: the first one with a message waiting.
pub proof fn lemma_first_pending_idx_valid(channels: Seq<(u8, ChannelView)>)
    requires
        exists|i: int| 0 <= i < channels.len() && channels[i].1.messages.len() > 0,
    ensures
        0 <= first_pending_idx(channels) < channels.len(),
        channels[first_pending_idx(channels)].1.messages.len() > 0,
        forall|j: int| 0 <= j < first_pending_idx(channels) ==> channels[j].1.messages.len() == 0,
    decreases channels.len(),
{
    if channels[0].1.messages.len() > 0 {
    } else {
        let i = choose|i: int| 0 <= i < channels.len() && channels[i].1.messages.len() > 0;
        assert(channels.drop_first()[i - 1] == channels[i]);
        lemma_first_pending_idx_valid(channels.drop_first());
        let f = first_pending_idx(channels.drop_first());
        assert(channels[f + 1] == channels.drop_first()[f]);
        assert forall|j: int| 0 <= j < f + 1 implies channels[j].1.messages.len() == 0 by {
            if j > 0 {
                assert(channels[j] == channels.drop_first()[j - 1]);
            }
        }
    }
}

/// The first channel with a message waiting is unique, so
/// `first_pending_at` pins `first_pending_idx` down.
pub proof fn lemma_first_pending_idx(channels: Seq<(u8, ChannelView)>, i: int)
    requires
        0 <= i < channels.len(),
        channels[i].1.messages.len() > 0,
        forall|j: int| 0 <= j < i ==> channels[j].1.messages.len() == 0,
    ensures
        first_pending_idx(channels) == i,
    decreases i,
{
    if i == 0 {
    } else {
        assert(channels[0].1.messages.len() == 0);
        assert(channels.drop_first()[i - 1] == channels[i]);
        assert forall|j: int| 0 <= j < i - 1 implies channels.drop_first()[j].1.messages.len()
            == 0 by {
            assert(channels.drop_first()[j] == channels[j + 1]);
        }
        lemma_first_pending_idx(channels.drop_first(), i - 1);
    }
}

impl<S> Connection<S> {
    /// A fresh session with no channels yet.
    pub fn new(addr: NetAddr, endpoint: Endpoint, security: S) -> (c: Connection<S>)
        ensures
            c@ == (ConnectionView {
                addr,
                info: endpoint.info(),
                channels: Seq::<(u8, ChannelView)>::empty(),
            }),
    {
        let c = Connection { addr, endpoint, channels: Vec::new(), security };
        proof {
            assert(c@.channels =~= Seq::<(u8, ChannelView)>::empty());
        }
        c
    }

    /// Append one channel under `channel_id`; the caller keeps the ids
    /// unique.
    pub fn add_channel(&mut self, channel_id: u8, channel: Channel)
        ensures
            final(self)@ == (ConnectionView {
                channels: old(self)@.channels.push((channel_id, channel@)),
                ..old(self)@
            }),
    {
        let ghost pre = self@.channels;
        self.channels.push((channel_id, channel));
        proof {
            assert(self@.channels =~= pre.push((channel_id, self.channels@.last().1@)));
        }
    }

    /// The index of channel `channel_id` in this session's channel set.
    fn find_channel(&self, channel_id: u8) -> (r: Option<usize>)
        ensures
            match r {
                Some(i) => i < self@.channels.len() && self@.channels[i as int].0 == channel_id,
                None => !has_key(self@.channels, channel_id),
            },
    {
        let mut i: usize = 0;
        while i < self.channels.len()
            invariant
                i <= self@.channels.len(),
                forall|j: int| 0 <= j < i ==> self@.channels[j].0 != channel_id,
            decreases self@.channels.len() - i,
        {
            if self.channels[i].0 == channel_id {
                return Some(i);
            }
            i = i + 1;
        }
        None
    }

    /// Enqueue `message` on channel `channel_id`; an unknown channel id
    /// is ignored.
    pub fn send_message(&mut self, channel_id: u8, message: Vec<u8>)
        requires
            crate::assoc::unique_keys(old(self)@.channels),
        ensures
            final(self)@ == send_message_spec(old(self)@, channel_id, message@),
    {
        let ghost pre = self@;
        match self.find_channel(channel_id) {
            Some(i) => {
                proof {
                    lemma_index_of_unique(pre.channels, channel_id, i as int);
                }
                self.channels[i].1.push_message(message);
                proof {
                    assert(self@.channels =~= send_message_spec(pre, channel_id, message@).channels);
                }
            }
            None => {}
        }
    }

    /// Drain and return every message buffered on channel `channel_id`,
    /// oldest first; a channel with nothing buffered yields an empty
    /// batch, and an unknown channel id yields an empty batch too.
    pub fn receive_all_messages_from_channel(&mut self, channel_id: u8) -> (batch: Vec<Vec<u8>>)
        requires
            crate::assoc::unique_keys(old(self)@.channels),
        ensures
            batch@.map_values(|m: Vec<u8>| m@) == messages_on(old(self)@, channel_id),
            final(self)@ == drain_spec(old(self)@, channel_id),
    {
        let ghost pre = self@;
        match self.find_channel(channel_id) {
            Some(i) => {
                proof {
                    lemma_index_of_unique(pre.channels, channel_id, i as int);
                }
                let batch = self.channels[i].1.drain_messages();
                proof {
                    assert(self@.channels =~= drain_spec(pre, channel_id).channels);
                }
                batch
            }
            None => {
                let batch: Vec<Vec<u8>> = Vec::new();
                proof {
                    assert(batch@.map_values(|m: Vec<u8>| m@) =~= messages_on(pre, channel_id));
                }
                batch
            }
        }
    }

    /// The peer's network address.
    pub fn addr(&self) -> (a: NetAddr)
        ensures
            a == self@.addr,
    {
        self.addr
    }

    /// Report the session's current bandwidth statistics.
    pub fn network_info(&self) -> (r: NetworkInfo)
        ensures
            r == self@.info,
    {
        self.endpoint.network_info()
    }

    /// Ingest one inbound payload from the peer: the received-side
    /// accounting moves by one packet of the payload's length.
    pub fn process_payload(&mut self, payload: Vec<u8>)
        ensures
            final(self)@ == ingest_spec(old(self)@, payload@.len() as u64),
    {
        let len = payload.len();
        self.endpoint.record_received(len as u64);
    }

    /// Advance every channel's clock to `now`.
    pub fn update_channels_current_time(&mut self, now: u64)
        ensures
            final(self)@ == advance_time_spec(old(self)@, now),
    {
        let ghost pre = self@;
        let mut i: usize = 0;
        while i < self.channels.len()
            invariant
                i <= self@.channels.len(),
                self@.channels.len() == pre.channels.len(),
                self@.addr == pre.addr,
                self@.info == pre.info,
                forall|j: int| i <= j < pre.channels.len() ==> self@.channels[j] == pre.channels[j],
                forall|j: int| 0 <= j < i ==> self@.channels[j] == (
                    pre.channels[j].0,
                    ChannelView { current_time: now, messages: pre.channels[j].1.messages },
                ),
            decreases self@.channels.len() - i,
        {
            let ghost snap = self@.channels;
            self.channels[i].1.update_current_time(now);
            proof {
                assert(self@.channels =~= snap.update(
                    i as int,
                    (
                        snap[i as int].0,
                        ChannelView { current_time: now, messages: snap[i as int].1.messages },
                    ),
                ));
            }
            i = i + 1;
        }
        proof {
            assert(self@.channels =~= advance_time_spec(pre, now).channels);
        }
    }

    /// Produce the next outbound packet, if any channel has a message
    /// waiting: the oldest message of the first non-empty channel, with
    /// the sent-side accounting moved. `None` means nothing is ready.
    pub fn get_packet(&mut self) -> (r: Option<Vec<u8>>)
        ensures
            r is Some <==> has_pending(old(self)@),
            r is None ==> final(self)@ == old(self)@,
            r is Some ==> (exists|i: int|
                #[trigger] first_pending_at(old(self)@, i) && r->0@ == old(
                    self,
                )@.channels[i].1.messages[0] && final(self)@ == pop_first_spec(old(self)@, i)),
    {
        let ghost pre = self@;
        let mut i: usize = 0;
        while i < self.channels.len()
            invariant
                i <= self@.channels.len(),
                pre == old(self)@,
                self@ == pre,
                forall|j: int| 0 <= j < i ==> pre.channels[j].1.messages.len() == 0,
            decreases self@.channels.len() - i,
        {
            if !self.channels[i].1.is_empty() {
                let ghost gi = i as int;
                let m = self.channels[i].1.pop_front_message();
                let len = m.len();
                self.endpoint.record_sent(len as u64);
                proof {
                    assert(pre == old(self)@);
                    assert(pre.channels[gi].1.messages.len() > 0);
                    assert(first_pending_at(old(self)@, gi));
                    assert(has_pending(old(self)@));
                    assert(m@ == pre.channels[gi].1.messages[0]);
                    assert(self@.channels =~= pop_first_spec(pre, gi).channels);
                    assert(self@ == pop_first_spec(pre, gi));
                }
                return Some(m);
            }
            i = i + 1;
        }
        proof {
            assert(!has_pending(pre));
        }
        None
    }
}

} // verus!
