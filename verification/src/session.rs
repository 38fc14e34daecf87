//! Session: the state machine of one connection.
//!
//! ```text
//! Connecting -> Registering -> Active -> Closing -> Closed
//!                    |                      ^
//!                    +----------------------+
//! ```
//!
//! The first frame of a connection is the name it asks for. If the name is
//! granted the session becomes `Active` and every further frame is a command.
//! If not, the session goes straight to `Closing`: it was never in the
//! registry. A disconnect command, an oversized frame, a read error or the
//! end of the stream also lead to `Closing`; from there `close` gives the
//! name back and ends in `Closed`, where nothing happens any more.
//!
//! The caller owns the socket. It reports what it read with `on_bytes` and
//! that nothing more will come with `on_disconnect`, writes out the
//! deliveries it gets back, and calls `close` once the session is `Closing`.

use vstd::prelude::*;
use crate::codec::{FrameDecoder, frame_ready, frame_too_long, first_frame, after_first_frame};
use crate::message::{classify, classified};
use crate::notice::{greeting, username_unavailable, user_not_found, greeting_line,
    username_unavailable_line, user_not_found_line};
use crate::registry::{Registry, RegistrationHandle, Member, Delivery, DeliveryView, SinkId,
    delivery_views, can_register, with_member, without_member};
use crate::router::{route, routed, RouteError};
use crate::text::{trimmed, to_bytes, lemma_find_byte_bounds, NEWLINE};

verus! {

/// Where a session stands.
#[derive(Clone, Copy, Debug, PartialEq, Eq, Structural)]
pub enum SessionState {
    /// Accepted; nothing has been read.
    Connecting,
    /// Waiting for the frame that carries the name.
    Registering,
    /// Registered; frames are commands.
    Active,
    /// Done reading; the name, if any, is still to be given back.
    Closing,
    /// Terminal.
    Closed,
}

/// The server's side of one connection.
#[derive(Debug)]
pub struct Session {
    state: SessionState,
    sink: SinkId,
    handle: Option<RegistrationHandle>,
    decoder: FrameDecoder,
}

/// A [`Session`] as contracts see it.
pub struct SessionView {
    pub state: SessionState,
    /// Where lines for this session's own client are written.
    pub sink: SinkId,
    /// The name the session is registered under.
    pub name: Option<Seq<u8>>,
    /// Bytes read and not yet decoded.
    pub buffered: Seq<u8>,
    /// The longest frame that is accepted.
    pub limit: nat,
}

/// What one event led to.
pub struct Turn {
    /// The session after the event.
    pub session: SessionView,
    /// The registry after the event.
    pub members: Seq<Member>,
    /// The writes to make, in order.
    pub out: Seq<DeliveryView>,
}

/// Whether the session reads frames in state `state`.
pub open spec fn reads_in(state: SessionState) -> bool {
    state is Registering || state is Active
}

/// A session has a name while it is `Active`, and none before it registers
/// or after it closes.
pub open spec fn name_fits_state(s: SessionView) -> bool {
    match s.state {
        SessionState::Active => s.name is Some,
        SessionState::Closing => true,
        _ => s.name is None,
    }
}

/// A line for the session's own client. It is addressed to the session's
/// name, or to the empty name while the session has none.
pub open spec fn to_self(s: SessionView, line: Seq<u8>) -> DeliveryView {
    DeliveryView {
        recipient: match s.name {
            Some(name) => name,
            None => Seq::empty(),
        },
        sink: s.sink,
        payload: line,
    }
}

/// The session once reading starts.
pub open spec fn after_begin(s: SessionView) -> SessionView {
    if s.state is Connecting {
        SessionView { state: SessionState::Registering, ..s }
    } else {
        s
    }
}

/// The session once its stream has ended or failed.
pub open spec fn after_disconnect(s: SessionView) -> SessionView {
    if s.state is Closed {
        s
    } else {
        SessionView { state: SessionState::Closing, ..s }
    }
}

/// What one frame leads to.
///
/// - `Registering`: the frame is the name asked for. If it can be registered
///   the session joins the registry, is greeted and becomes `Active`. If not,
///   it is told so and goes to `Closing`; the registry is unchanged.
/// - `Active`: the frame is a command, and is routed. A disconnect leads to
///   `Closing`. A direct message to nobody is answered with a notice and the
///   session goes on.
/// - Any other state: nothing.
pub open spec fn after_frame(s: SessionView, ms: Seq<Member>, frame: Seq<u8>) -> Turn {
    match s.state {
        SessionState::Registering => if can_register(ms, frame) {
            let joined = SessionView {
                state: SessionState::Active,
                name: Some(trimmed(frame)),
                ..s
            };
            Turn {
                session: joined,
                members: with_member(ms, frame, s.sink),
                out: seq![to_self(joined, greeting(trimmed(frame)))],
            }
        } else {
            Turn {
                session: SessionView { state: SessionState::Closing, ..s },
                members: ms,
                out: seq![to_self(s, username_unavailable())],
            }
        },
        SessionState::Active => match s.name {
            Some(name) => match routed(ms, name, classified(frame)) {
                Ok(r) => Turn {
                    session: SessionView {
                        state: if r.close {
                            SessionState::Closing
                        } else {
                            SessionState::Active
                        },
                        ..s
                    },
                    members: ms,
                    out: r.deliveries + match r.reply {
                        Some(line) => seq![to_self(s, line)],
                        None => Seq::empty(),
                    },
                },
                Err(RouteError::UserNotFound) => Turn {
                    session: s,
                    members: ms,
                    out: seq![to_self(s, user_not_found())],
                },
            },
            None => Turn { session: s, members: ms, out: Seq::empty() },
        },
        _ => Turn { session: s, members: ms, out: Seq::empty() },
    }
}

/// What decoding and handling the buffered frames leads to. Frames are
/// handled one by one, for as long as the session reads and a complete frame
/// is buffered. A frame longer than the limit leads to `Closing`.
pub open spec fn drained(s: SessionView, ms: Seq<Member>) -> Turn
    decreases s.buffered.len(),
{
    if !reads_in(s.state) {
        Turn { session: s, members: ms, out: Seq::empty() }
    } else if frame_too_long(s.buffered, s.limit) {
        Turn {
            session: SessionView { state: SessionState::Closing, ..s },
            members: ms,
            out: Seq::empty(),
        }
    } else if !frame_ready(s.buffered, s.limit) {
        Turn { session: s, members: ms, out: Seq::empty() }
    } else {
        let first = after_frame(
            SessionView { buffered: after_first_frame(s.buffered), ..s },
            ms,
            first_frame(s.buffered),
        );
        let rest = drained(
            SessionView { buffered: after_first_frame(s.buffered), ..first.session },
            first.members,
        );
        Turn { session: rest.session, members: rest.members, out: first.out + rest.out }
    }
}

/// What one read leads to. A session that does not read ignores the bytes.
pub open spec fn after_bytes(s: SessionView, ms: Seq<Member>, bytes: Seq<u8>) -> Turn {
    if reads_in(s.state) {
        drained(SessionView { buffered: s.buffered + bytes, ..s }, ms)
    } else {
        Turn { session: s, members: ms, out: Seq::empty() }
    }
}

/// What closing leads to: a `Closing` session gives its name back, if it has
/// one, and is `Closed`. In any other state nothing happens.
pub open spec fn after_close(s: SessionView, ms: Seq<Member>) -> Turn {
    if s.state is Closing {
        Turn {
            session: SessionView { state: SessionState::Closed, name: None, ..s },
            members: match s.name {
                Some(name) => without_member(ms, name),
                None => ms,
            },
            out: Seq::empty(),
        }
    } else {
        Turn { session: s, members: ms, out: Seq::empty() }
    }
}

/// A frame never touches the bytes that are still buffered.
pub proof fn lemma_frame_keeps_buffer(s: SessionView, ms: Seq<Member>, frame: Seq<u8>)
    ensures
        after_frame(s, ms, frame).session.buffered == s.buffered,
        after_frame(s, ms, frame).session.limit == s.limit,
        after_frame(s, ms, frame).session.sink == s.sink,
        name_fits_state(s) ==> name_fits_state(after_frame(s, ms, frame).session),
{
}

/// A session whose name is refused never joins: the registry is as it was,
/// the session is on its way out without a name, and closing it leaves the
/// registry untouched again.
pub proof fn lemma_refused_never_joins(s: SessionView, ms: Seq<Member>, frame: Seq<u8>)
    requires
        s.state is Registering,
        s.name is None,
        !can_register(ms, frame),
    ensures
        after_frame(s, ms, frame).members == ms,
        after_frame(s, ms, frame).session.state is Closing,
        after_frame(s, ms, frame).session.name is None,
        after_frame(s, ms, frame).out == seq![to_self(s, username_unavailable())],
        after_close(after_frame(s, ms, frame).session, ms).members == ms,
{
}

/// `Closed` is terminal: no event changes the session or the registry, and
/// none produces a write.
pub proof fn lemma_closed_is_terminal(s: SessionView, ms: Seq<Member>, bytes: Seq<u8>)
    requires
        s.state is Closed,
    ensures
        after_begin(s) == s,
        after_disconnect(s) == s,
        after_frame(s, ms, bytes) == (Turn { session: s, members: ms, out: Seq::empty() }),
        after_bytes(s, ms, bytes) == (Turn { session: s, members: ms, out: Seq::empty() }),
        after_close(s, ms) == (Turn { session: s, members: ms, out: Seq::empty() }),
{
}

impl View for Session {
    type V = SessionView;

    closed spec fn view(&self) -> SessionView {
        SessionView {
            state: self.state,
            sink: self.sink,
            name: match self.handle {
                Some(handle) => Some(handle@),
                None => None,
            },
            buffered: self.decoder.buffered(),
            limit: self.decoder.limit(),
        }
    }
}

impl Session {
    /// The internal invariant.
    pub closed spec fn wf(&self) -> bool {
        self.decoder.wf() && name_fits_state(self@)
    }

    /// The session of a connection that was just accepted. Lines for its
    /// client go to `sink`; frames of more than `max_frame` bytes end it.
    pub fn new(sink: SinkId, max_frame: usize) -> (s: Session)
        ensures
            s.wf(),
            s@ == (SessionView {
                state: SessionState::Connecting,
                sink,
                name: None,
                buffered: Seq::empty(),
                limit: max_frame as nat,
            }),
    {
        Session {
            state: SessionState::Connecting,
            sink,
            handle: None,
            decoder: FrameDecoder::new(max_frame),
        }
    }

    /// Where the session stands.
    pub fn state(&self) -> (state: SessionState)
        ensures
            state == self@.state,
    {
        self.state
    }

    /// Where lines for this session's own client are written.
    pub fn sink(&self) -> (sink: SinkId)
        ensures
            sink == self@.sink,
    {
        self.sink
    }

    /// The name the session is registered under.
    pub fn username(&self) -> (name: Option<&Vec<u8>>)
        ensures
            match name {
                Some(n) => self@.name == Some(n@),
                None => self@.name is None,
            },
    {
        match &self.handle {
            Some(handle) => Some(handle.username()),
            None => None,
        }
    }

    /// Whether the session takes frames in its present state.
    pub fn is_reading(&self) -> (b: bool)
        ensures
            b == reads_in(self@.state),
    {
        match self.state {
            SessionState::Registering => true,
            SessionState::Active => true,
            _ => false,
        }
    }

    /// Starts reading: `Connecting` becomes `Registering`.
    pub fn begin(&mut self)
        requires
            old(self).wf(),
        ensures
            final(self).wf(),
            final(self)@ == after_begin(old(self)@),
    {
        match self.state {
            SessionState::Connecting => {
                self.state = SessionState::Registering;
            },
            _ => {},
        }
    }

    /// Reports that the stream has ended or failed. The session is `Closing`
    /// unless it was `Closed`.
    pub fn on_disconnect(&mut self)
        requires
            old(self).wf(),
        ensures
            final(self).wf(),
            final(self)@ == after_disconnect(old(self)@),
    {
        match self.state {
            SessionState::Closed => {},
            _ => {
                self.state = SessionState::Closing;
            },
        }
    }

    fn line_to_self(&self, line: Vec<u8>) -> (d: Delivery)
        ensures
            d@ == to_self(self@, line@),
    {
        let recipient = match &self.handle {
            Some(handle) => to_bytes(handle.username().as_slice()),
            None => Vec::new(),
        };
        Delivery { recipient, sink: self.sink, payload: line }
    }

    /// Handles one decoded frame.
    pub fn on_frame(&mut self, registry: &mut Registry, frame: &[u8]) -> (out: Vec<Delivery>)
        requires
            old(self).wf(),
            old(registry).wf(),
        ensures
            final(self).wf(),
            final(registry).wf(),
            final(self)@ == after_frame(old(self)@, old(registry).members(), frame@).session,
            final(registry).members() == after_frame(
                old(self)@,
                old(registry).members(),
                frame@,
            ).members,
            delivery_views(out@) == after_frame(old(self)@, old(registry).members(), frame@).out,
    {
        let mut out: Vec<Delivery> = Vec::new();
        assert(delivery_views(out@) =~= Seq::<DeliveryView>::empty());
        match self.state {
            SessionState::Registering => {
                match registry.register(frame, self.sink) {
                    Ok(handle) => {
                        let line = greeting_line(handle.username().as_slice());
                        self.handle = Some(handle);
                        self.state = SessionState::Active;
                        let d = self.line_to_self(line);
                        out.push(d);
                        assert(delivery_views(out@) =~= seq![d@]);
                    },
                    Err(_) => {
                        let d = self.line_to_self(username_unavailable_line());
                        self.state = SessionState::Closing;
                        out.push(d);
                        assert(delivery_views(out@) =~= seq![d@]);
                    },
                }
            },
            SessionState::Active => {
                let message = classify(frame);
                let answer = match &self.handle {
                    Some(handle) => Some(route(registry, handle, &message)),
                    None => None,
                };
                match answer {
                    Some(Ok(r)) => {
                        let mut deliveries = r.deliveries;
                        let ghost routed_out = delivery_views(deliveries@);
                        out.append(&mut deliveries);
                        assert(delivery_views(out@) =~= routed_out);
                        match r.reply {
                            Some(line) => {
                                let d = self.line_to_self(line);
                                out.push(d);
                                assert(delivery_views(out@) =~= routed_out + seq![d@]);
                            },
                            None => {
                                assert(delivery_views(out@) =~= routed_out + Seq::<
                                    DeliveryView,
                                >::empty());
                            },
                        }
                        if r.close {
                            self.state = SessionState::Closing;
                        }
                    },
                    Some(Err(_)) => {
                        let d = self.line_to_self(user_not_found_line());
                        out.push(d);
                        assert(delivery_views(out@) =~= seq![d@]);
                    },
                    None => {},
                }
            },
            _ => {},
        }
        out
    }

    /// Takes in the bytes of one read, and handles every frame that is now
    /// complete, in order, for as long as the session reads.
    pub fn on_bytes(&mut self, registry: &mut Registry, bytes: &[u8]) -> (out: Vec<Delivery>)
        requires
            old(self).wf(),
            old(registry).wf(),
        ensures
            final(self).wf(),
            final(registry).wf(),
            final(self)@ == after_bytes(old(self)@, old(registry).members(), bytes@).session,
            final(registry).members() == after_bytes(
                old(self)@,
                old(registry).members(),
                bytes@,
            ).members,
            delivery_views(out@) == after_bytes(old(self)@, old(registry).members(), bytes@).out,
    {
        let mut out: Vec<Delivery> = Vec::new();
        assert(delivery_views(out@) =~= Seq::<DeliveryView>::empty());
        if !self.is_reading() {
            return out;
        }
        self.decoder.push(bytes);
        let ghost whole = drained(self@, registry.members());
        assert(whole == after_bytes(old(self)@, old(registry).members(), bytes@));
        loop
            invariant
                self.wf(),
                registry.wf(),
                whole.session == drained(self@, registry.members()).session,
                whole.members == drained(self@, registry.members()).members,
                whole.out == delivery_views(out@) + drained(self@, registry.members()).out,
            ensures
                self.wf(),
                registry.wf(),
                whole.session == self@,
                whole.members == registry.members(),
                whole.out == delivery_views(out@),
            decreases self@.buffered.len(),
        {
            let ghost before = self@;
            let ghost ms = registry.members();
            let ghost done = delivery_views(out@);
            proof {
                lemma_find_byte_bounds(before.buffered, NEWLINE);
            }
            if !self.is_reading() {
                assert(done + Seq::<DeliveryView>::empty() =~= done);
                break ;
            }
            match self.decoder.next_frame() {
                Err(_) => {
                    self.state = SessionState::Closing;
                    assert(done + Seq::<DeliveryView>::empty() =~= done);
                    break ;
                },
                Ok(None) => {
                    assert(done + Seq::<DeliveryView>::empty() =~= done);
                    break ;
                },
                Ok(Some(frame)) => {
                    let ghost cut = self@;
                    let mut more = self.on_frame(registry, frame.as_slice());
                    let ghost first = after_frame(cut, ms, frame@);
                    proof {
                        lemma_frame_keeps_buffer(cut, ms, frame@);
                        assert(cut == (SessionView {
                            buffered: after_first_frame(before.buffered),
                            ..before
                        }));
                        assert(self@ == (SessionView {
                            buffered: after_first_frame(before.buffered),
                            ..first.session
                        }));
                        assert(delivery_views(more@) == first.out);
                    }
                    out.append(&mut more);
                    proof {
                        assert(delivery_views(out@) =~= done + first.out);
                        let rest = drained(self@, registry.members());
                        assert(drained(before, ms).out == first.out + rest.out);
                        assert(done + (first.out + rest.out) =~= (done + first.out) + rest.out);
                    }
                },
            }
        }
        out
    }

    /// Ends a `Closing` session: gives its name back to the registry, if it
    /// has one, and makes it `Closed`. In any other state nothing happens.
    pub fn close(&mut self, registry: &mut Registry) -> (out: Vec<Delivery>)
        requires
            old(self).wf(),
            old(registry).wf(),
        ensures
            final(self).wf(),
            final(registry).wf(),
            final(self)@ == after_close(old(self)@, old(registry).members()).session,
            final(registry).members() == after_close(old(self)@, old(registry).members()).members,
            delivery_views(out@) == after_close(old(self)@, old(registry).members()).out,
    {
        let out: Vec<Delivery> = Vec::new();
        assert(delivery_views(out@) =~= Seq::<DeliveryView>::empty());
        match self.state {
            SessionState::Closing => {
                match self.handle.take() {
                    Some(handle) => {
                        registry.unregister(handle.username().as_slice());
                    },
                    None => {},
                }
                self.state = SessionState::Closed;
            },
            _ => {},
        }
        out
    }
}

} // verus!
