use vstd::prelude::*;

verus! {

/// Blueprint from which a session's channel is built at promotion time.
/// How a channel serializes or retransmits its data is the transport's
/// concern, not this layer's, so the blueprint carries no knobs here.
#[derive(Clone, Copy)]
pub struct ChannelConfig {}

/// The mathematical content of one channel: its clock and the messages
/// currently buffered on it, oldest first.
pub struct ChannelView {
    pub current_time: u64,
    pub messages: Seq<Seq<u8>>,
}

/// One logical message stream within a session, identified by a small
/// integer id: a per-session, per-identifier message queue with its own
/// clock.
pub struct Channel {
    current_time: u64,
    messages: Vec<Vec<u8>>,
}

impl View for Channel {
    type V = ChannelView;

    closed spec fn view(&self) -> ChannelView {
        ChannelView {
            current_time: self.current_time,
            messages: self.messages@.map_values(|m: Vec<u8>| m@),
        }
    }
}

impl ChannelConfig {
    /// Build a fresh, empty channel whose clock starts at `current_time`.
    pub fn new_channel(&self, current_time: u64) -> (c: Channel)
        ensures
            c@ == (ChannelView { current_time, messages: Seq::<Seq<u8>>::empty() }),
    {
        let c = Channel { current_time, messages: Vec::new() };
        proof {
            assert(c@.messages =~= Seq::<Seq<u8>>::empty());
        }
        c
    }
}

impl Channel {
    /// Advance the channel's clock; buffered messages are untouched.
    pub fn update_current_time(&mut self, now: u64)
        ensures
            final(self)@ == (ChannelView { current_time: now, messages: old(self)@.messages }),
    {
        self.current_time = now;
    }

    /// Append one message at the back of the queue.
    pub fn push_message(&mut self, message: Vec<u8>)
        ensures
            final(self)@ == (ChannelView {
                current_time: old(self)@.current_time,
                messages: old(self)@.messages.push(message@),
            }),
    {
        let ghost pre = self.messages@;
        self.messages.push(message);
        proof {
            assert(self.messages@.map_values(|m: Vec<u8>| m@) =~= pre.map_values(
                |m: Vec<u8>| m@,
            ).push(self.messages@.last()@));
        }
    }

    /// Take every buffered message out, oldest first, leaving the queue
    /// empty. An empty queue yields an empty batch, not an error.
    pub fn drain_messages(&mut self) -> (batch: Vec<Vec<u8>>)
        ensures
            batch@.map_values(|m: Vec<u8>| m@) == old(self)@.messages,
            final(self)@ == (ChannelView {
                current_time: old(self)@.current_time,
                messages: Seq::<Seq<u8>>::empty(),
            }),
    {
        let mut batch: Vec<Vec<u8>> = Vec::new();
        core::mem::swap(&mut batch, &mut self.messages);
        proof {
            assert(self.messages@.map_values(|m: Vec<u8>| m@) =~= Seq::<Seq<u8>>::empty());
        }
        batch
    }

    /// Whether nothing is buffered.
    pub fn is_empty(&self) -> (r: bool)
        ensures
            r <==> self@.messages.len() == 0,
    {
        self.messages.len() == 0
    }

    /// Remove and return the oldest buffered message.
    pub fn pop_front_message(&mut self) -> (m: Vec<u8>)
        requires
            old(self)@.messages.len() > 0,
        ensures
            m@ == old(self)@.messages[0],
            final(self)@ == (ChannelView {
                current_time: old(self)@.current_time,
                messages: old(self)@.messages.drop_first(),
            }),
    {
        let m = self.messages.remove(0);
        proof {
            assert(self.messages@.map_values(|x: Vec<u8>| x@) =~= old(
                self,
            )@.messages.drop_first());
        }
        m
    }
}

} // verus!
