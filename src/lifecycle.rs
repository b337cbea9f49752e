//! The life of one accepted connection:
//! `Handshaking -> Active -> Closed`, or `Handshaking -> Closed`.
//!
//! Each inbound event moves the connection along, updates the registry, and
//! says which network work follows (a reply, a broadcast, closing). The
//! task that drives the connection performs that work and feeds the next
//! event back; it holds the registry's lock only for the duration of a step.
use vstd::prelude::*;
use crate::codec::DecodeError;
use crate::frame::ReceiveError;
use crate::message::{EnvelopeView, KindView, Message, MessageType};
use crate::registry::{inserted, removed, Registry};

verus! {

/// Where a connection stands.
#[derive(Clone, Debug)]
pub enum Phase {
    /// Waiting for the first message, which must be `Hello`.
    Handshaking,
    /// Registered under `peer`.
    Active { peer: String },
    /// Done; the connection is no longer used.
    Closed,
}

pub enum PhaseView {
    Handshaking,
    Active { peer: Seq<char> },
    Closed,
}

impl View for Phase {
    type V = PhaseView;

    open spec fn view(&self) -> PhaseView {
        match self {
            Phase::Handshaking => PhaseView::Handshaking,
            Phase::Active { peer } => PhaseView::Active { peer: peer@ },
            Phase::Closed => PhaseView::Closed,
        }
    }
}

/// What the transport reported on a connection.
#[derive(Clone, Debug)]
pub enum Event {
    /// A stream carried this envelope.
    Received(Message),
    /// A stream's bytes were no envelope; that message is dropped.
    Undecodable(DecodeError),
    /// A stream exceeded the size bound; that read is aborted.
    Oversized,
    /// A single stream failed; the connection itself still stands.
    StreamFailed,
    /// The connection was closed or reset.
    ConnectionLost,
}

pub enum EventView {
    Received(EnvelopeView),
    Undecodable(DecodeError),
    Oversized,
    StreamFailed,
    ConnectionLost,
}

impl View for Event {
    type V = EventView;

    open spec fn view(&self) -> EventView {
        match self {
            Event::Received(m) => EventView::Received(m@),
            Event::Undecodable(d) => EventView::Undecodable(*d),
            Event::Oversized => EventView::Oversized,
            Event::StreamFailed => EventView::StreamFailed,
            Event::ConnectionLost => EventView::ConnectionLost,
        }
    }
}

/// Network work that a step asks for.
#[derive(Clone, Debug)]
pub enum Action {
    /// Send an envelope of this kind back on the same connection.
    Reply(MessageType),
    /// Send `message` to every registered peer but `origin`.
    Broadcast { origin: String, message: Message },
    /// Close the connection.
    Close,
}

pub enum ActionView {
    Reply(KindView),
    Broadcast { origin: Seq<char>, message: EnvelopeView },
    Close,
}

impl View for Action {
    type V = ActionView;

    open spec fn view(&self) -> ActionView {
        match self {
            Action::Reply(k) => ActionView::Reply(k@),
            Action::Broadcast { origin, message } => ActionView::Broadcast {
                origin: origin@,
                message: message@,
            },
            Action::Close => ActionView::Close,
        }
    }
}

/// The event that a read of one stream amounts to.
pub open spec fn event_of(r: Result<EnvelopeView, ReceiveError>) -> EventView {
    match r {
        Ok(e) => EventView::Received(e),
        Err(ReceiveError::Capacity) => EventView::Oversized,
        Err(ReceiveError::Decoding(d)) => EventView::Undecodable(d),
    }
}

/// Turns the result of reading one stream into an event.
pub fn event_from(r: Result<Message, ReceiveError>) -> (e: Event)
    ensures
        e@ == event_of(
            match r {
                Ok(m) => Ok::<EnvelopeView, ReceiveError>(m@),
                Err(x) => Err::<EnvelopeView, ReceiveError>(x),
            },
        ),
{
    match r {
        Ok(m) => Event::Received(m),
        Err(ReceiveError::Capacity) => Event::Oversized,
        Err(ReceiveError::Decoding(d)) => Event::Undecodable(d),
    }
}

pub open spec fn is_hello(e: EventView) -> bool {
    e matches EventView::Received(m) && m.message_type is Hello
}

/// The phase after an event.
pub open spec fn next_phase(p: PhaseView, e: EventView) -> PhaseView {
    match p {
        PhaseView::Handshaking => if is_hello(e) {
            PhaseView::Active { peer: e->Received_0.message_type->Hello_server_id }
        } else {
            PhaseView::Closed
        },
        PhaseView::Active { peer } => if e is ConnectionLost {
            PhaseView::Closed
        } else {
            PhaseView::Active { peer }
        },
        PhaseView::Closed => PhaseView::Closed,
    }
}

/// The network work an event calls for; `local` is this node's identity.
pub open spec fn actions_of(p: PhaseView, e: EventView, local: Seq<char>) -> Seq<ActionView> {
    match p {
        PhaseView::Handshaking => if is_hello(e) {
            seq![ActionView::Reply(KindView::Welcome { server_id: local })]
        } else {
            seq![ActionView::Close]
        },
        PhaseView::Active { peer } => match e {
            EventView::Received(m) => match m.message_type {
                KindView::Text { .. } => seq![ActionView::Broadcast { origin: peer, message: m }],
                KindView::Ping => seq![ActionView::Reply(KindView::Pong)],
                _ => seq![],
            },
            _ => seq![],
        },
        PhaseView::Closed => seq![],
    }
}

/// The registry after an event: a `Hello` handshake registers the peer, and
/// the loss of an active connection unregisters it; nothing else touches it.
pub open spec fn registry_after<H>(
    p: PhaseView,
    e: EventView,
    reg: Seq<(Seq<char>, H)>,
    conn: H,
) -> Seq<(Seq<char>, H)> {
    match p {
        PhaseView::Handshaking => if is_hello(e) {
            inserted(reg, e->Received_0.message_type->Hello_server_id, conn)
        } else {
            reg
        },
        PhaseView::Active { peer } => if e is ConnectionLost {
            removed(reg, peer)
        } else {
            reg
        },
        PhaseView::Closed => reg,
    }
}

/// Takes one event on a connection whose handle is `conn`.
pub fn on_event<H>(
    phase: &mut Phase,
    registry: &mut Registry<H>,
    conn: H,
    local_id: &String,
    event: Event,
) -> (r: Vec<Action>)
    requires
        old(registry).wf(),
    ensures
        final(registry).wf(),
        final(phase)@ == next_phase(old(phase)@, event@),
        final(registry)@ == registry_after(old(phase)@, event@, old(registry)@, conn),
        r@.map_values(|a: Action| a@) == actions_of(old(phase)@, event@, local_id@),
{
    let ghost ev = event@;
    let mut out: Vec<Action> = Vec::new();
    match phase {
        Phase::Handshaking => {
            match event {
                Event::Received(m) => {
                    match m.message_type {
                        MessageType::Hello { server_id } => {
                            registry.insert(server_id.clone(), conn);
                            *phase = Phase::Active { peer: server_id };
                            out.push(
                                Action::Reply(MessageType::Welcome { server_id: local_id.clone() }),
                            );
                        },
                        _ => {
                            *phase = Phase::Closed;
                            out.push(Action::Close);
                        },
                    }
                },
                _ => {
                    *phase = Phase::Closed;
                    out.push(Action::Close);
                },
            }
        },
        Phase::Active { peer } => {
            match event {
                Event::Received(m) => {
                    match m.message_type {
                        MessageType::Text { .. } => {
                            out.push(Action::Broadcast { origin: peer.clone(), message: m });
                        },
                        MessageType::Ping => {
                            out.push(Action::Reply(MessageType::Pong));
                        },
                        _ => {},
                    }
                },
                Event::ConnectionLost => {
                    registry.remove(peer);
                    *phase = Phase::Closed;
                },
                _ => {},
            }
        },
        Phase::Closed => {},
    }
    proof {
        assert(out@.map_values(|a: Action| a@) =~= actions_of(old(phase)@, ev, local_id@));
    }
    out
}

/// A connection whose first event is anything but a `Hello` is closed and
/// never registered.
pub proof fn lemma_handshake_gating<H>(
    e: EventView,
    reg: Seq<(Seq<char>, H)>,
    conn: H,
    local: Seq<char>,
)
    requires
        !is_hello(e),
    ensures
        next_phase(PhaseView::Handshaking, e) == PhaseView::Closed,
        registry_after(PhaseView::Handshaking, e, reg, conn) == reg,
        actions_of(PhaseView::Handshaking, e, local) == seq![ActionView::Close],
{
}

/// A closed connection stays closed, asks for no more work, and never
/// touches the registry again: its entry is removed at most once.
pub proof fn lemma_closed_is_final<H>(
    e: EventView,
    reg: Seq<(Seq<char>, H)>,
    conn: H,
    local: Seq<char>,
)
    ensures
        next_phase(PhaseView::Closed, e) == PhaseView::Closed,
        registry_after(PhaseView::Closed, e, reg, conn) == reg,
        actions_of(PhaseView::Closed, e, local).len() == 0,
{
}

} // verus!
