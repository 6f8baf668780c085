//! The state machine of one connection.
//!
//! A connection is in exactly one state: it waits for a line, holds a reply
//! that the codec has not taken yet, flushes a reply, or is closed. One poll
//! takes the outcome of the socket operation that the connection was waiting
//! for and then makes every transition that needs no further I/O.

use crate::codec::{Codec, CodecView, Decoded, Frame};
use crate::error::ConnectionError;
use crate::frame::{after_frame, first_frame, has_frame, lemma_delimiter_at};
use crate::line::{
    decimal, is_line, lemma_ascii_is_utf8, lemma_decimal_is_line, ping, Line, NEWLINE,
};
use vstd::pervasive::unreached;
use vstd::prelude::*;

verus! {

/// The outcome of one non-blocking operation on the socket of a connection.
#[derive(Clone, Debug)]
pub enum Io {
    /// A read returned these bytes; none at all means that the peer has ended the stream.
    Read(Vec<u8>),
    /// A write took this many of the pending bytes.
    Wrote(usize),
    /// The operation could not proceed without waiting.
    WouldBlock,
    /// The operation failed for good.
    Failed,
}

/// An `Io` as plain values.
pub enum IoView {
    Read(Seq<u8>),
    Wrote(nat),
    WouldBlock,
    Failed,
}

impl View for Io {
    type V = IoView;

    open spec fn view(&self) -> IoView {
        match self {
            Io::Read(bytes) => IoView::Read(bytes@),
            Io::Wrote(n) => IoView::Wrote(*n as nat),
            Io::WouldBlock => IoView::WouldBlock,
            Io::Failed => IoView::Failed,
        }
    }
}

/// The socket operation that a connection waits for.
#[derive(Clone, Copy, Debug, PartialEq, Eq, Structural)]
pub enum Interest {
    /// A read: the connection waits for a line.
    Read,
    /// A write of the pending bytes.
    Write,
    /// Nothing: the connection is closed.
    Nothing,
}

/// What a connection is doing right now.
#[derive(Debug)]
pub enum State {
    /// Waiting for a line from the peer.
    ReceivingLine,
    /// Holding a reply until the codec is ready to take it.
    Sending(Line),
    /// Waiting for the codec's pending bytes to be written.
    Flushing,
    /// Done for good.
    Closed,
    /// The placeholder that stands in the slot while a poll holds the state.
    /// No connection is ever left in it.
    Transitioning,
}

/// A `State` as plain values.
pub enum StateView {
    ReceivingLine,
    Sending(Seq<u8>),
    Flushing,
    Closed,
    Transitioning,
}

impl View for State {
    type V = StateView;

    open spec fn view(&self) -> StateView {
        match self {
            State::ReceivingLine => StateView::ReceivingLine,
            State::Sending(msg) => StateView::Sending(msg@),
            State::Flushing => StateView::Flushing,
            State::Closed => StateView::Closed,
            State::Transitioning => StateView::Transitioning,
        }
    }
}

impl StateView {
    /// How many transitions a state can still make without consuming input.
    pub open spec fn rank(self) -> nat {
        match self {
            StateView::Sending(_) => 2,
            StateView::Flushing => 1,
            _ => 0,
        }
    }
}

/// A connection as plain values.
pub struct ConnectionView {
    /// The handle of the connection, which no other live connection has.
    pub id: u64,
    pub state: StateView,
    pub codec: CodecView,
}

/// A connection and the counter after some transitions, with the error that
/// closed the connection, if one did.
pub struct Step {
    pub conn: ConnectionView,
    pub pings: nat,
    pub error: Option<ConnectionError>,
}

impl ConnectionView {
    /// A connection as it is accepted: waiting for its first line.
    pub open spec fn fresh(id: u64) -> ConnectionView {
        ConnectionView { id, state: StateView::ReceivingLine, codec: CodecView::empty() }
    }

    /// Between polls a connection waits for exactly the I/O that its state names.
    pub open spec fn wf(self) -> bool {
        match self.state {
            StateView::ReceivingLine => {
                &&& !has_frame(self.codec.inbound)
                &&& !self.codec.exhausted
                &&& self.codec.outbound.len() == 0
            },
            StateView::Sending(msg) => is_line(msg) && !self.codec.ready(),
            StateView::Flushing => self.codec.outbound.len() > 0,
            StateView::Closed => true,
            StateView::Transitioning => false,
        }
    }

    /// The socket operation that the connection waits for.
    pub open spec fn interest(self) -> Interest {
        match self.state {
            StateView::ReceivingLine => Interest::Read,
            StateView::Sending(_) | StateView::Flushing => Interest::Write,
            _ => Interest::Nothing,
        }
    }

    /// The connection with another state.
    pub open spec fn with_state(self, state: StateView) -> ConnectionView {
        ConnectionView { state, ..self }
    }

    /// The connection with another codec.
    pub open spec fn with_codec(self, codec: CodecView) -> ConnectionView {
        ConnectionView { codec, ..self }
    }

    /// The connection after it has taken in an I/O outcome, or `None` where
    /// the outcome ends it: a failure, a write that the codec cannot account
    /// for, or an outcome of an operation that the connection did not wait for.
    pub open spec fn deliver(self, io: IoView) -> Option<ConnectionView> {
        match io {
            IoView::WouldBlock => Some(self),
            IoView::Failed => None,
            IoView::Read(bytes) => match self.state {
                StateView::ReceivingLine => Some(
                    self.with_codec(
                        if bytes.len() == 0 {
                            self.codec.exhaust()
                        } else {
                            self.codec.feed(bytes)
                        },
                    ),
                ),
                _ => None,
            },
            IoView::Wrote(n) => match self.state {
                StateView::Sending(_) | StateView::Flushing => if self.codec.can_flush(n) {
                    Some(self.with_codec(self.codec.flush(n)))
                } else {
                    None
                },
                _ => None,
            },
        }
    }

    /// Every transition that needs no I/O, one after the other, until the
    /// connection has to wait or is closed.
    pub open spec fn drive(self, pings: nat) -> Step
        decreases self.codec.inbound.len(), self.state.rank(),
    {
        let stay = Step { conn: self, pings, error: None };
        match self.state {
            StateView::ReceivingLine => {
                let next = self.with_codec(self.codec.after_decode());
                match self.codec.decoded() {
                    Decoded::Line(line) => {
                        proof {
                            lemma_delimiter_at(self.codec.inbound);
                        }
                        if line == ping() {
                            next.with_state(StateView::Sending(decimal(pings + 1))).drive(pings + 1)
                        } else {
                            next.drive(pings)
                        }
                    },
                    Decoded::Pending => stay,
                    Decoded::End => Step {
                        conn: next.with_state(StateView::Closed),
                        pings,
                        error: None,
                    },
                    Decoded::Failed(e) => Step {
                        conn: next.with_state(StateView::Closed),
                        pings,
                        error: Some(e),
                    },
                }
            },
            StateView::Sending(msg) => if self.codec.ready() {
                self.with_codec(self.codec.accept(msg)).with_state(StateView::Flushing).drive(pings)
            } else {
                stay
            },
            StateView::Flushing => if self.codec.outbound.len() == 0 {
                self.with_state(StateView::ReceivingLine).drive(pings)
            } else {
                stay
            },
            StateView::Closed | StateView::Transitioning => stay,
        }
    }

    /// Whether a poll with this outcome counts as progress: the connection
    /// was open and its socket did not ask to wait.
    pub open spec fn progresses(self, io: IoView) -> bool {
        !(self.state is Closed) && !(io is WouldBlock)
    }

    /// One poll: take in the outcome, then make every transition that is free.
    /// A closed connection stays as it is, whatever the outcome.
    pub open spec fn poll(self, pings: nat, io: IoView) -> Step {
        if self.state is Closed {
            Step { conn: self, pings, error: None }
        } else {
            match self.deliver(io) {
                Some(conn) => conn.drive(pings),
                None => Step {
                    conn: self.with_state(StateView::Closed),
                    pings,
                    error: Some(ConnectionError::Io),
                },
            }
        }
    }
}

/// What one poll of a connection reports.
#[derive(Clone, Copy, Debug, PartialEq, Eq, Structural)]
pub struct Polled {
    /// Whether the socket may have more to give or take right now.
    pub progress: bool,
    /// The failure that closed the connection in this poll, if one did.
    pub error: Option<ConnectionError>,
}

/// One accepted peer: its handle, its state and its codec.
#[derive(Debug)]
pub struct Connection {
    id: u64,
    state: State,
    codec: Codec,
}

impl View for Connection {
    type V = ConnectionView;

    closed spec fn view(&self) -> ConnectionView {
        ConnectionView { id: self.id, state: self.state@, codec: self.codec@ }
    }
}

impl Connection {
    /// Every connection at rest is well-formed.
    pub open spec fn wf(&self) -> bool {
        self@.wf()
    }

    /// A connection for a peer that was just accepted.
    pub fn new(id: u64) -> (conn: Connection)
        ensures
            conn.wf(),
            conn@ == ConnectionView::fresh(id),
    {
        Connection { id, state: State::ReceivingLine, codec: Codec::new() }
    }

    /// The handle of the connection.
    pub fn id(&self) -> (id: u64)
        ensures
            id == self@.id,
    {
        self.id
    }

    /// The state of the connection.
    pub fn state(&self) -> (state: &State)
        ensures
            state@ == self@.state,
    {
        &self.state
    }

    /// Whether the connection is closed.
    pub fn is_closed(&self) -> (yes: bool)
        ensures
            yes == (self@.state is Closed),
    {
        matches!(self.state, State::Closed)
    }

    /// The socket operation whose outcome the next poll expects.
    pub fn interest(&self) -> (interest: Interest)
        ensures
            interest == self@.interest(),
    {
        match self.state {
            State::ReceivingLine => Interest::Read,
            State::Sending(_) | State::Flushing => Interest::Write,
            _ => Interest::Nothing,
        }
    }

    /// The bytes that the driver is to write while the interest is `Write`.
    pub fn pending(&self) -> (bytes: &[u8])
        ensures
            bytes@ == self@.codec.outbound,
    {
        self.codec.pending()
    }

    /// Advances the connection by one poll.
    ///
    /// `io` is the outcome of the operation named by `interest()`. The poll
    /// takes it in and then goes through every transition that needs no
    /// further I/O: lines other than `ping` are dropped one after the other;
    /// a `ping` raises the counter by one and its new value becomes the
    /// reply, which the codec takes at once where it is ready. The
    /// connection comes to rest where it has to wait for its socket, or
    /// closed.
    pub fn poll(&mut self, pings: &mut u64, io: &Io) -> (polled: Polled)
        requires
            old(self).wf(),
            *old(pings) < u64::MAX,
        ensures
            final(self).wf(),
            final(self)@ == old(self)@.poll(*old(pings) as nat, io@).conn,
            *final(pings) == old(self)@.poll(*old(pings) as nat, io@).pings,
            polled.error == old(self)@.poll(*old(pings) as nat, io@).error,
            polled.progress == old(self)@.progresses(io@),
            final(self)@.id == old(self)@.id,
            *old(pings) <= *final(pings) <= *old(pings) + 1,
    {
        let mut state = State::Transitioning;
        core::mem::swap(&mut self.state, &mut state);
        if matches!(state, State::Closed) {
            self.state = State::Closed;
            return Polled { progress: false, error: None };
        }
        let delivered = match io {
            Io::WouldBlock => true,
            Io::Failed => false,
            Io::Read(bytes) => match state {
                State::ReceivingLine => {
                    if bytes.len() == 0 {
                        self.codec.exhaust();
                    } else {
                        self.codec.feed(bytes.as_slice());
                    }
                    true
                },
                _ => false,
            },
            Io::Wrote(n) => match state {
                State::Sending(_) | State::Flushing => self.codec.flush(*n).is_ok(),
                _ => false,
            },
        };
        if !delivered {
            self.state = State::Closed;
            return Polled { progress: true, error: Some(ConnectionError::Io) };
        }
        let progress = !matches!(io, Io::WouldBlock);
        let ghost goal = old(self)@.poll(*old(pings) as nat, io@);
        loop
            invariant
                self.id == old(self).id,
                goal == old(self)@.poll(*old(pings) as nat, io@),
                progress == old(self)@.progresses(io@),
                !(state@ is Transitioning),
                state matches State::Sending(msg) ==> msg.wf(),
                state@ is ReceivingLine ==> self.codec@.outbound.len() == 0,
                *pings == *old(pings) || (*pings == *old(pings) + 1 && (state@ is Sending || (state@
                    is Flushing && self.codec@.outbound.len() > 0))),
                *old(pings) < u64::MAX,
                goal == (ConnectionView {
                    id: self.id,
                    state: state@,
                    codec: self.codec@,
                }).drive(*pings as nat),
            decreases self.codec@.inbound.len(), state@.rank(),
        {
            proof {
                lemma_delimiter_at(self.codec@.inbound);
            }
            match state {
                State::ReceivingLine => match self.codec.next_line() {
                    Ok(Frame::Line(line)) => {
                        if line.is_ping() {
                            *pings += 1;
                            state = State::Sending(Line::decimal(*pings));
                        } else {
                            state = State::ReceivingLine;
                        }
                    },
                    Ok(Frame::Pending) => {
                        self.state = State::ReceivingLine;
                        return Polled { progress, error: None };
                    },
                    Ok(Frame::End) => {
                        self.state = State::Closed;
                        return Polled { progress, error: None };
                    },
                    Err(e) => {
                        self.state = State::Closed;
                        return Polled { progress, error: Some(e) };
                    },
                },
                State::Sending(msg) => {
                    if self.codec.accept(&msg) {
                        state = State::Flushing;
                    } else {
                        self.state = State::Sending(msg);
                        return Polled { progress, error: None };
                    }
                },
                State::Flushing => {
                    if self.codec.ready() {
                        state = State::ReceivingLine;
                    } else {
                        self.state = State::Flushing;
                        return Polled { progress, error: None };
                    }
                },
                State::Closed => {
                    self.state = State::Closed;
                    return Polled { progress, error: None };
                },
                State::Transitioning => {
                    return unreached();
                },
            }
        }
    }
}

/// How many of the whole frames among `inbound` spell `ping`.
pub open spec fn pings_in(inbound: Seq<u8>) -> nat
    decreases inbound.len(),
{
    if !has_frame(inbound) {
        0
    } else {
        proof {
            lemma_delimiter_at(inbound);
        }
        let first: nat = if first_frame(inbound) == ping().push(NEWLINE) {
            1
        } else {
            0
        };
        first + pings_in(after_frame(inbound))
    }
}

/// The sum of the sizes of some writes.
pub open spec fn total(writes: Seq<nat>) -> nat
    decreases writes.len(),
{
    if writes.len() == 0 {
        0
    } else {
        total(writes.drop_last()) + writes.last()
    }
}

impl ConnectionView {
    /// What holds of a connection in the middle of a poll, whatever it has buffered.
    pub open spec fn in_hand(self) -> bool {
        match self.state {
            StateView::ReceivingLine => self.codec.outbound.len() == 0,
            StateView::Sending(msg) => is_line(msg),
            StateView::Transitioning => false,
            _ => true,
        }
    }

    /// The input that the connection holds once it has taken in `io`: what
    /// it had buffered and, where it was waiting for a line, what was read.
    pub open spec fn arrived(self, io: IoView) -> Seq<u8> {
        match io {
            IoView::Read(bytes) if self.state is ReceivingLine => self.codec.inbound + bytes,
            _ => self.codec.inbound,
        }
    }

    /// The connection and the counter after one poll for each of `writes`,
    /// in each of which the socket took that many bytes.
    pub open spec fn after_writes(self, pings: nat, writes: Seq<nat>) -> Step
        decreases writes.len(),
    {
        if writes.len() == 0 {
            Step { conn: self, pings, error: None }
        } else {
            let before = self.after_writes(pings, writes.drop_last());
            before.conn.poll(before.pings, IoView::Wrote(writes.last()))
        }
    }

    /// The bytes that the socket took in `writes`, in order: each write takes
    /// the first bytes of what is pending when it is made.
    pub open spec fn sent(self, pings: nat, writes: Seq<nat>) -> Seq<u8>
        decreases writes.len(),
    {
        if writes.len() == 0 {
            Seq::empty()
        } else {
            let before = self.after_writes(pings, writes.drop_last());
            self.sent(pings, writes.drop_last()) + before.conn.codec.outbound.take(
                writes.last() as int,
            )
        }
    }
}

/// A reply that waits for the codec is taken as soon as the codec is ready,
/// and is kept as it is until then.
pub proof fn lemma_drive_sending(c: ConnectionView, pings: nat)
    requires
        c.state is Sending,
    ensures
        c.codec.ready() ==> c.drive(pings) == (Step {
            conn: c.with_codec(c.codec.accept(c.state->Sending_0)).with_state(StateView::Flushing),
            pings,
            error: None,
        }),
        !c.codec.ready() ==> c.drive(pings) == (Step { conn: c, pings, error: None }),
{
    reveal_with_fuel(ConnectionView::drive, 2);
}

/// The transitions of one poll come to rest, keep the handle, and accept at
/// most one ping; where they accept one, the reply that waits to be written
/// is the count that the ping brought the counter to.
pub proof fn lemma_drive(c: ConnectionView, pings: nat)
    requires
        c.in_hand(),
    ensures
        c.drive(pings).conn.wf(),
        c.drive(pings).conn.id == c.id,
        pings <= c.drive(pings).pings <= pings + 1,
        c.drive(pings).error is Some ==> c.drive(pings).conn.state is Closed,
        c.drive(pings).pings == pings + 1 ==> {
            &&& c.drive(pings).conn.state is Flushing
            &&& c.drive(pings).conn.codec.outbound == decimal(pings + 1).push(NEWLINE)
            &&& c.drive(pings).error is None
        },
    decreases c.codec.inbound.len(), c.state.rank(),
{
    lemma_delimiter_at(c.codec.inbound);
    match c.state {
        StateView::ReceivingLine => {
            let next = c.with_codec(c.codec.after_decode());
            match c.codec.decoded() {
                Decoded::Line(line) => {
                    if line == ping() {
                        let sending = next.with_state(StateView::Sending(decimal(pings + 1)));
                        lemma_decimal_is_line(pings + 1);
                        lemma_drive_sending(sending, pings + 1);
                        assert(Seq::<u8>::empty() + decimal(pings + 1).push(NEWLINE) =~= decimal(
                            pings + 1,
                        ).push(NEWLINE));
                    } else {
                        lemma_drive(next, pings);
                    }
                },
                _ => {},
            }
        },
        StateView::Sending(msg) => {
            lemma_drive_sending(c, pings);
        },
        StateView::Flushing => {
            if c.codec.outbound.len() == 0 {
                lemma_drive(c.with_state(StateView::ReceivingLine), pings);
            }
        },
        _ => {},
    }
}

/// A connection at rest, polled with the outcome of its socket, comes to rest
/// again under the same handle. It accepts at most one ping, and the reply
/// that then waits to be written is the new count in decimal. A socket that
/// asks to wait changes nothing at all.
pub proof fn lemma_poll(c: ConnectionView, pings: nat, io: IoView)
    requires
        c.wf(),
    ensures
        c.poll(pings, io).conn.wf(),
        c.poll(pings, io).conn.id == c.id,
        pings <= c.poll(pings, io).pings <= pings + 1,
        c.poll(pings, io).error is Some ==> c.poll(pings, io).conn.state is Closed,
        c.poll(pings, io).pings == pings + 1 ==> {
            &&& c.poll(pings, io).conn.state is Flushing
            &&& c.poll(pings, io).conn.codec.outbound == decimal(pings + 1).push(NEWLINE)
            &&& c.poll(pings, io).error is None
        },
        io is WouldBlock ==> c.poll(pings, io) == (Step { conn: c, pings, error: None }),
        c.state is Closed ==> c.poll(pings, io) == (Step { conn: c, pings, error: None }),
{
    if !(c.state is Closed) {
        match c.deliver(io) {
            Some(conn) => {
                lemma_drive(conn, pings);
                if io is WouldBlock {
                    reveal_with_fuel(ConnectionView::drive, 2);
                }
            },
            None => {},
        }
    }
}

/// Lines other than `ping` are never answered: where none of the buffered
/// frames spells `ping`, the transitions of a poll leave the counter as it
/// is and queue nothing for writing.
pub proof fn lemma_drive_without_ping(c: ConnectionView, pings: nat)
    requires
        c.state is ReceivingLine,
        pings_in(c.codec.inbound) == 0,
    ensures
        c.drive(pings).pings == pings,
        c.drive(pings).conn.codec.outbound == c.codec.outbound,
        c.drive(pings).conn.state is ReceivingLine || c.drive(pings).conn.state is Closed,
    decreases c.codec.inbound.len(),
{
    lemma_delimiter_at(c.codec.inbound);
    match c.codec.decoded() {
        Decoded::Line(line) => {
            let frame = first_frame(c.codec.inbound);
            assert(frame =~= line.push(NEWLINE));
            lemma_drive_without_ping(c.with_codec(c.codec.after_decode()), pings);
        },
        _ => {},
    }
}

/// No line but `ping` is ever answered. A connection that waits for a line
/// reads some bytes; where no frame that they complete spells `ping`, the
/// poll leaves the counter as it is and nothing is queued for the peer.
pub proof fn lemma_only_ping_is_answered(c: ConnectionView, pings: nat, bytes: Seq<u8>)
    requires
        c.wf(),
        c.state is ReceivingLine,
        pings_in(c.codec.inbound + bytes) == 0,
    ensures
        c.poll(pings, IoView::Read(bytes)).pings == pings,
        c.poll(pings, IoView::Read(bytes)).conn.codec.outbound.len() == 0,
{
    let fed = c.deliver(IoView::Read(bytes))->Some_0;
    if bytes.len() == 0 {
        assert(c.codec.inbound + bytes =~= c.codec.inbound);
    }
    lemma_drive_without_ping(fed, pings);
}

/// The transitions of a poll that ends without an error account for every
/// buffered `ping`: the counter goes up by the number of `ping` frames that
/// were taken from the input, and the others are still buffered.
pub proof fn lemma_drive_counts_pings(c: ConnectionView, pings: nat)
    requires
        c.in_hand(),
    ensures
        c.drive(pings).error is None ==> pings_in(c.codec.inbound) == (c.drive(pings).pings - pings)
            + pings_in(c.drive(pings).conn.codec.inbound),
    decreases c.codec.inbound.len(), c.state.rank(),
{
    lemma_delimiter_at(c.codec.inbound);
    match c.state {
        StateView::ReceivingLine => {
            let next = c.with_codec(c.codec.after_decode());
            match c.codec.decoded() {
                Decoded::Line(line) => {
                    assert(first_frame(c.codec.inbound) =~= line.push(NEWLINE));
                    if line == ping() {
                        lemma_drive_sending(
                            next.with_state(StateView::Sending(decimal(pings + 1))),
                            pings + 1,
                        );
                    } else {
                        assert(ping().push(NEWLINE).drop_last() =~= ping());
                        lemma_drive_counts_pings(next, pings);
                    }
                },
                _ => {},
            }
        },
        StateView::Sending(msg) => {
            lemma_drive_sending(c, pings);
        },
        StateView::Flushing => {
            if c.codec.outbound.len() == 0 {
                lemma_drive_counts_pings(c.with_state(StateView::ReceivingLine), pings);
            }
        },
        _ => {},
    }
}

/// No `ping` is lost and none is answered twice. After a poll that ends
/// without an error, every `ping` among the whole frames that the connection
/// had buffered or has just read either raised the counter in this poll, by
/// one, or is still buffered for a later poll.
pub proof fn lemma_every_ping_counts_once(c: ConnectionView, pings: nat, io: IoView)
    requires
        c.wf(),
    ensures
        c.poll(pings, io).error is None ==> pings_in(c.arrived(io)) == (c.poll(pings, io).pings
            - pings) + pings_in(c.poll(pings, io).conn.codec.inbound),
{
    if !(c.state is Closed) {
        match c.deliver(io) {
            Some(conn) => {
                assert(conn.codec.inbound =~= c.arrived(io));
                lemma_drive_counts_pings(conn, pings);
            },
            None => {},
        }
    }
}

/// Every `ping` is answered, once, with the count that it brought the counter
/// to: a connection that waits for a line and finds `ping` as the first whole
/// frame raises the counter by one and queues the new count in decimal, and
/// its delimiter, as the only bytes to write.
pub proof fn lemma_ping_is_answered(c: ConnectionView, pings: nat)
    requires
        c.state is ReceivingLine,
        c.codec.outbound.len() == 0,
        has_frame(c.codec.inbound),
        first_frame(c.codec.inbound) == ping().push(NEWLINE),
    ensures
        c.drive(pings) == (Step {
            conn: c.with_codec(c.codec.after_decode().accept(decimal(pings + 1))).with_state(
                StateView::Flushing,
            ),
            pings: pings + 1,
            error: None,
        }),
{
    lemma_delimiter_at(c.codec.inbound);
    lemma_ascii_is_utf8(ping().push(NEWLINE));
    assert(ping().push(NEWLINE).drop_last() =~= ping());
    let sending = c.with_codec(c.codec.after_decode()).with_state(
        StateView::Sending(decimal(pings + 1)),
    );
    lemma_drive_sending(sending, pings + 1);
}

/// A flush can be resumed as often as the socket asks. While the writes so
/// far add up to less than what was pending, the connection keeps flushing
/// and the counter stands; the socket has taken the first bytes of what was
/// pending, and the rest is still pending, in order: nothing is lost,
/// repeated or reordered.
pub proof fn lemma_flush_resumes(c: ConnectionView, pings: nat, writes: Seq<nat>)
    requires
        c.wf(),
        c.state is Flushing,
        forall|i: int| 0 <= i < writes.len() ==> writes[i] >= 1,
        total(writes) < c.codec.outbound.len(),
    ensures
        c.after_writes(pings, writes) == (Step {
            conn: c.with_codec(c.codec.flush(total(writes))),
            pings,
            error: None,
        }),
        c.sent(pings, writes) == c.codec.outbound.take(total(writes) as int),
    decreases writes.len(),
{
    if writes.len() == 0 {
        assert(c.codec.outbound.skip(0) =~= c.codec.outbound);
        assert(c.codec.outbound.take(0) =~= Seq::<u8>::empty());
    } else {
        let init = writes.drop_last();
        lemma_flush_resumes(c, pings, init);
        let before = c.with_codec(c.codec.flush(total(init)));
        assert(before.codec.outbound.skip(writes.last() as int) =~= c.codec.outbound.skip(
            total(writes) as int,
        ));
        assert(c.codec.outbound.take(total(init) as int) + before.codec.outbound.take(
            writes.last() as int,
        ) =~= c.codec.outbound.take(total(writes) as int));
    }
}

/// A reply reaches the peer in full however little the socket takes at a
/// time, be it one byte. With the write that takes the last pending byte the
/// socket has taken exactly what was pending, byte for byte, and the
/// connection turns to its input again with nothing left to write.
pub proof fn lemma_flush_completes(c: ConnectionView, pings: nat, writes: Seq<nat>)
    requires
        c.wf(),
        c.state is Flushing,
        forall|i: int| 0 <= i < writes.len() ==> writes[i] >= 1,
        total(writes) == c.codec.outbound.len(),
    ensures
        c.sent(pings, writes) == c.codec.outbound,
        c.after_writes(pings, writes) == c.with_codec(
            CodecView { outbound: Seq::empty(), ..c.codec },
        ).with_state(StateView::ReceivingLine).drive(pings),
{
    let init = writes.drop_last();
    lemma_flush_resumes(c, pings, init);
    let before = c.with_codec(c.codec.flush(total(init)));
    assert(before.codec.outbound.skip(writes.last() as int) =~= Seq::<u8>::empty());
    assert(c.codec.outbound.take(total(init) as int) + before.codec.outbound.take(
        writes.last() as int,
    ) =~= c.codec.outbound);
    reveal_with_fuel(ConnectionView::drive, 2);
}

} // verus!
