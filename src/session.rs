//! The decisions of a publisher session: one per TCP connection, fed the decoded
//! messages one at a time by the caller that owns the socket.
use crate::channel_id::channel_id_of;
use crate::multipart::wrapped;
use crate::protocol::ProtoMsg;
use crate::router::{
    after_publish, claimed, jobs_after, lemma_same_queue_refl, publish_outcome, released,
    slot_taken, PublishOutcome, PublisherConflict, Router,
};
use vstd::prelude::*;
use vstd::utf8::encode_utf8;

verus! {

/// The channel id of a channel name.
pub open spec fn id_of_name(name: Seq<char>) -> u64 {
    channel_id_of(encode_utf8(name))
}

/// Where a publisher session stands.
pub ghost enum SessionView {
    /// Waiting for the connect request.
    Awaiting,
    /// Holding the publisher slot of a channel.
    Streaming { name: Seq<char>, channel: u64 },
    /// Over; the caller closes the connection.
    Closed,
}

/// What the caller read from the connection.
pub enum SessionEvent {
    /// A payload that decoded to a message.
    Message(ProtoMsg),
    /// A payload that did not decode.
    Malformed,
}

/// What the session did with one event.
#[derive(Clone, Copy, Debug, PartialEq, Eq, Structural)]
pub enum SessionStep {
    /// The connect request claimed the channel's publisher slot.
    Registered(u64),
    /// The channel already has a publisher; the session is over.
    Conflict(PublisherConflict),
    /// The first message was not a connect request; the session is over.
    NotConnected,
    /// A frame of the session's channel was dispatched.
    Published(PublishOutcome),
    /// A malformed or out-of-place message was discarded and counted.
    Dropped,
    /// The session was already over.
    Ended,
}

impl SessionStep {
    /// The caller must close the connection.
    pub fn ends_session(&self) -> (b: bool)
        ensures
            b == (self is Conflict || self is NotConnected || self is Ended),
    {
        match self {
            SessionStep::Conflict(_) | SessionStep::NotConnected | SessionStep::Ended => true,
            _ => false,
        }
    }
}

#[derive(Clone, Copy, Debug, PartialEq, Eq, Structural)]
enum Phase {
    Awaiting,
    Streaming,
    Closed,
}

/// `n + 1`, staying at the largest value.
pub open spec fn saturating_succ(n: u64) -> u64 {
    if n == u64::MAX {
        n
    } else {
        (n + 1) as u64
    }
}

/// One publisher connection's state.
pub struct PublisherSession {
    phase: Phase,
    name: String,
    channel: u64,
    protocol_errors: u64,
}

impl PublisherSession {
    pub closed spec fn state(&self) -> SessionView {
        match self.phase {
            Phase::Awaiting => SessionView::Awaiting,
            Phase::Streaming => SessionView::Streaming { name: self.name@, channel: self.channel },
            Phase::Closed => SessionView::Closed,
        }
    }

    pub closed spec fn errors(&self) -> u64 {
        self.protocol_errors
    }

    /// A streaming session's channel is the id of its name.
    pub closed spec fn wf(&self) -> bool {
        self.phase == Phase::Streaming ==> self.channel == id_of_name(self.name@)
    }

    /// A session that waits for its connect request.
    pub fn new() -> (s: PublisherSession)
        ensures
            s.wf(),
            s.state() == SessionView::Awaiting,
            s.errors() == 0,
    {
        PublisherSession { phase: Phase::Awaiting, name: String::new(), channel: 0, protocol_errors: 0 }
    }

    /// Messages discarded so far as malformed or out of place.
    pub fn protocol_errors(&self) -> (n: u64)
        ensures
            n == self.errors(),
    {
        self.protocol_errors
    }

    /// The channel this session publishes to, once connected.
    pub fn channel(&self) -> (c: Option<u64>)
        ensures
            match self.state() {
                SessionView::Streaming { channel, .. } => c == Some(channel),
                _ => c is None,
            },
    {
        match self.phase {
            Phase::Streaming => Some(self.channel),
            _ => None,
        }
    }

    /// Handles one event read from the connection at `now`.
    ///
    /// The first message must be a connect request, which claims the channel's
    /// publisher slot; anything else first, or a claimed slot, ends the session. Once
    /// connected, a frame whose name is the session's channel is published, and any
    /// other message, or a payload that did not decode, is discarded and counted.
    pub fn handle(&mut self, router: &mut Router, event: SessionEvent, now: u64) -> (step: SessionStep)
        requires
            old(router).wf(),
            old(self).wf(),
        ensures
            final(router).wf(),
            final(self).wf(),
            final(router).same_queue(old(router)) || step is Published,
            match (old(self).state(), event) {
                (SessionView::Awaiting, SessionEvent::Message(ProtoMsg::ConnectReq(n))) => {
                    let id = id_of_name(n@);
                    if slot_taken(old(router).channels(), id) {
                        &&& step == SessionStep::Conflict(PublisherConflict { channel: id })
                        &&& final(self).state() == SessionView::Closed
                        &&& final(router).channels() == old(router).channels()
                    } else {
                        &&& step == SessionStep::Registered(id)
                        &&& final(self).state() == (SessionView::Streaming { name: n@, channel: id })
                        &&& final(router).channels() == claimed(old(router).channels(), id, now)
                    }
                },
                (SessionView::Awaiting, _) => {
                    &&& step == SessionStep::NotConnected
                    &&& final(self).state() == SessionView::Closed
                    &&& final(router).channels() == old(router).channels()
                },
                (SessionView::Streaming { name, channel }, SessionEvent::Message(ProtoMsg::FrameMsg(f))) => {
                    &&& final(self).state() == old(self).state()
                    &&& if f.id@ == name {
                        let out = publish_outcome(
                            old(router).channels(),
                            old(router).jobs().len(),
                            old(router).infer_capacity(),
                            channel,
                        );
                        &&& step == SessionStep::Published(out)
                        &&& final(router).jobs() == jobs_after(old(router).jobs(), out, channel, f.data@)
                        &&& final(router).publishes() == old(router).publishes() + 1
                        &&& final(router).channels() == after_publish(
                            old(router).channels(),
                            channel,
                            wrapped(f.data@),
                            now,
                        )
                        &&& final(self).errors() == old(self).errors()
                    } else {
                        &&& step == SessionStep::Dropped
                        &&& final(router).channels() == old(router).channels()
                        &&& final(self).errors() == saturating_succ(old(self).errors())
                    }
                },
                (SessionView::Streaming { .. }, _) => {
                    &&& step == SessionStep::Dropped
                    &&& final(self).state() == old(self).state()
                    &&& final(router).channels() == old(router).channels()
                    &&& final(self).errors() == saturating_succ(old(self).errors())
                },
                (SessionView::Closed, _) => {
                    &&& step == SessionStep::Ended
                    &&& final(self).state() == SessionView::Closed
                    &&& final(router).channels() == old(router).channels()
                },
            },
    {
        proof {
            lemma_same_queue_refl(&*router);
        }
        match self.phase {
            Phase::Closed => SessionStep::Ended,
            Phase::Awaiting => {
                match event {
                    SessionEvent::Message(ProtoMsg::ConnectReq(name)) => {
                        match router.register_publisher(name.as_str(), now) {
                            Ok(id) => {
                                self.phase = Phase::Streaming;
                                self.name = name;
                                self.channel = id;
                                SessionStep::Registered(id)
                            },
                            Err(conflict) => {
                                self.phase = Phase::Closed;
                                SessionStep::Conflict(conflict)
                            },
                        }
                    },
                    _ => {
                        self.phase = Phase::Closed;
                        SessionStep::NotConnected
                    },
                }
            },
            Phase::Streaming => {
                match event {
                    SessionEvent::Message(ProtoMsg::FrameMsg(f)) => {
                        if f.id == self.name {
                            let out = router.publish(self.name.as_str(), f.data.as_slice(), now);
                            SessionStep::Published(out)
                        } else {
                            self.protocol_errors = self.protocol_errors.saturating_add(1);
                            SessionStep::Dropped
                        }
                    },
                    _ => {
                        self.protocol_errors = self.protocol_errors.saturating_add(1);
                        SessionStep::Dropped
                    },
                }
            },
        }
    }

    /// The connection is gone: the session's publisher slot, if it holds one, is freed
    /// at `now`, and the session is over.
    pub fn finish(&mut self, router: &mut Router, now: u64)
        requires
            old(router).wf(),
            old(self).wf(),
        ensures
            final(router).wf(),
            final(self).wf(),
            final(router).same_queue(old(router)),
            final(self).state() == SessionView::Closed,
            match old(self).state() {
                SessionView::Streaming { channel, .. } => final(router).channels() == released(
                    old(router).channels(),
                    channel,
                    now,
                ),
                _ => final(router).channels() == old(router).channels(),
            },
    {
        proof {
            lemma_same_queue_refl(&*router);
        }
        if self.phase == Phase::Streaming {
            router.release_publisher(self.channel, now);
        }
        self.phase = Phase::Closed;
    }
}

} // verus!
