//! The history of one connection, from the peer's side: what it has sent,
//! what it has been sent, and which pings were counted in between.

use crate::codec::Decoded;
use crate::connection::{
    lemma_drive_counts_pings, lemma_drive_sending, lemma_poll, pings_in, ConnectionView, IoView,
    StateView,
};
use crate::frame::{after_frame, delimiter_at, first_frame, has_frame, lemma_delimiter_at};
use crate::line::{decimal, ping, NEWLINE};
use vstd::prelude::*;

verus! {

/// Whether `s` is made of whole frames: it is empty or ends with a delimiter.
pub open spec fn whole_frames(s: Seq<u8>) -> bool {
    s.len() == 0 || s.last() == NEWLINE
}

/// The first delimiter of some bytes stays the first whatever follows them.
pub proof fn lemma_first_frame_of_more(a: Seq<u8>, b: Seq<u8>)
    requires
        has_frame(a),
    ensures
        delimiter_at(a + b) == delimiter_at(a),
        has_frame(a + b),
        first_frame(a + b) == first_frame(a),
        after_frame(a + b) == after_frame(a) + b,
    decreases a.len(),
{
    lemma_delimiter_at(a);
    assert((a + b)[0] == a[0]);
    if a[0] != NEWLINE {
        assert((a + b).drop_first() =~= a.drop_first() + b);
        lemma_first_frame_of_more(a.drop_first(), b);
    }
    assert(first_frame(a + b) =~= first_frame(a));
    assert(after_frame(a + b) =~= after_frame(a) + b);
}

/// Bytes that end with a delimiter hold a frame, and what follows their
/// first frame is made of whole frames again.
pub proof fn lemma_whole_frames(a: Seq<u8>)
    requires
        whole_frames(a),
        a.len() > 0,
    ensures
        has_frame(a),
        whole_frames(after_frame(a)),
        after_frame(a).len() < a.len(),
{
    lemma_delimiter_at(a);
    if !has_frame(a) {
        assert(a[a.len() - 1] != NEWLINE);
    }
}

/// The pings among whole frames and what follows them are those of the one
/// and those of the other.
pub proof fn lemma_pings_in_pieces(a: Seq<u8>, b: Seq<u8>)
    requires
        whole_frames(a),
    ensures
        pings_in(a + b) == pings_in(a) + pings_in(b),
    decreases a.len(),
{
    if a.len() == 0 {
        assert(a + b =~= b);
    } else {
        lemma_whole_frames(a);
        lemma_first_frame_of_more(a, b);
        lemma_pings_in_pieces(after_frame(a), b);
    }
}

/// What the transitions of a poll take from the buffered input.
pub open spec fn eaten(c: ConnectionView, pings: nat) -> Seq<u8> {
    c.codec.inbound.take(c.codec.inbound.len() - c.drive(pings).conn.codec.inbound.len())
}

/// The transitions of a poll take whole frames from the front of the
/// buffered input and leave the rest as it is.
pub proof fn lemma_drive_eats_whole_frames(c: ConnectionView, pings: nat)
    ensures
        c.drive(pings).conn.codec.inbound.len() <= c.codec.inbound.len(),
        c.codec.inbound == eaten(c, pings) + c.drive(pings).conn.codec.inbound,
        whole_frames(eaten(c, pings)),
    decreases c.codec.inbound.len(), c.state.rank(),
{
    let inbound = c.codec.inbound;
    lemma_delimiter_at(inbound);
    match c.state {
        StateView::ReceivingLine => {
            let next = c.with_codec(c.codec.after_decode());
            match c.codec.decoded() {
                Decoded::Line(line) => {
                    let onward = if line == ping() {
                        next.with_state(StateView::Sending(decimal(pings + 1)))
                    } else {
                        next
                    };
                    let onward_pings = if line == ping() {
                        pings + 1
                    } else {
                        pings
                    };
                    lemma_drive_eats_whole_frames(onward, onward_pings);
                    assert(c.drive(pings) == onward.drive(onward_pings));
                    assert(inbound =~= first_frame(inbound) + after_frame(inbound));
                    assert(eaten(c, pings) =~= first_frame(inbound) + eaten(onward, onward_pings));
                },
                _ => {
                    if has_frame(inbound) {
                        assert(eaten(c, pings) =~= first_frame(inbound));
                    }
                },
            }
        },
        StateView::Sending(msg) => {
            lemma_drive_sending(c, pings);
        },
        StateView::Flushing => {
            if c.codec.outbound.len() == 0 {
                lemma_drive_eats_whole_frames(c.with_state(StateView::ReceivingLine), pings);
            }
        },
        _ => {},
    }
}

/// The transitions of a poll queue nothing but the reply to a ping that they
/// accept: the count that the ping brought the counter to, and a delimiter.
pub proof fn lemma_drive_queues_only_replies(c: ConnectionView, pings: nat)
    requires
        c.in_hand(),
        !(c.state is Sending),
    ensures
        !(c.drive(pings).conn.state is Sending),
        pings <= c.drive(pings).pings <= pings + 1,
        c.drive(pings).pings == pings ==> c.drive(pings).conn.codec.outbound == c.codec.outbound,
        c.drive(pings).pings == pings + 1 ==> c.drive(pings).conn.codec.outbound
            == c.codec.outbound + decimal(pings + 1).push(NEWLINE),
    decreases c.codec.inbound.len(), c.state.rank(),
{
    lemma_delimiter_at(c.codec.inbound);
    match c.state {
        StateView::ReceivingLine => {
            let next = c.with_codec(c.codec.after_decode());
            match c.codec.decoded() {
                Decoded::Line(line) => {
                    if line == ping() {
                        lemma_drive_sending(
                            next.with_state(StateView::Sending(decimal(pings + 1))),
                            pings + 1,
                        );
                    } else {
                        lemma_drive_queues_only_replies(next, pings);
                    }
                },
                _ => {},
            }
        },
        StateView::Flushing => {
            if c.codec.outbound.len() == 0 {
                lemma_drive_queues_only_replies(c.with_state(StateView::ReceivingLine), pings);
            }
        },
        _ => {},
    }
}

/// One poll in the life of a connection: the counter as the poll finds it,
/// which other connections may have raised since the poll before, and the
/// outcome of the socket operation that the connection waited for.
pub struct Turn {
    pub pings: nat,
    pub io: IoView,
}

/// A connection and what has passed between it and its peer so far.
pub struct History {
    /// The connection as it is now.
    pub conn: ConnectionView,
    /// Every byte that was read from the peer, in order.
    pub read: Seq<u8>,
    /// Every byte that the socket took for the peer, in order.
    pub written: Seq<u8>,
    /// The value that each ping accepted from the peer brought the counter to, in order.
    pub counts: Seq<nat>,
    /// Whether a poll has ended with an error.
    pub failed: bool,
}

/// The bytes that a poll with the outcome `io` takes in from the peer.
pub open spec fn read_in(c: ConnectionView, io: IoView) -> Seq<u8> {
    match io {
        IoView::Read(bytes) if c.state is ReceivingLine => bytes,
        _ => Seq::empty(),
    }
}

/// The bytes that the socket took for the peer where a poll is given the outcome `io`.
pub open spec fn written_out(c: ConnectionView, io: IoView) -> Seq<u8> {
    match io {
        IoView::Wrote(n) if (c.state is Sending || c.state is Flushing) && c.codec.can_flush(n) =>
            c.codec.outbound.take(n as int),
        _ => Seq::empty(),
    }
}

/// The replies with the counts `counts` as they travel: each count in
/// decimal, each followed by a delimiter.
pub open spec fn wire(counts: Seq<nat>) -> Seq<u8>
    decreases counts.len(),
{
    if counts.len() == 0 {
        Seq::empty()
    } else {
        wire(counts.drop_last()) + decimal(counts.last()).push(NEWLINE)
    }
}

impl History {
    /// The history of a connection that has not been polled yet.
    pub open spec fn begin(conn: ConnectionView) -> History {
        History {
            conn,
            read: Seq::empty(),
            written: Seq::empty(),
            counts: Seq::empty(),
            failed: false,
        }
    }

    /// The history after one more poll.
    pub open spec fn polled(self, turn: Turn) -> History {
        let step = self.conn.poll(turn.pings, turn.io);
        History {
            conn: step.conn,
            read: self.read + read_in(self.conn, turn.io),
            written: self.written + written_out(self.conn, turn.io),
            counts: if step.pings == turn.pings {
                self.counts
            } else {
                self.counts.push(step.pings)
            },
            failed: self.failed || step.error is Some,
        }
    }

    /// The history of `conn` after the polls `turns`.
    pub open spec fn of(conn: ConnectionView, turns: Seq<Turn>) -> History
        decreases turns.len(),
    {
        if turns.len() == 0 {
            History::begin(conn)
        } else {
            History::of(conn, turns.drop_last()).polled(turns.last())
        }
    }

    /// What was read and has been taken from the buffer since.
    pub open spec fn consumed(self) -> Seq<u8> {
        self.read.take(self.read.len() - self.conn.codec.inbound.len())
    }

    /// What holds of every history of a connection that began with nothing
    /// buffered: the connection is at rest and holds no reply back; what
    /// was written and what waits to be written are the replies to the pings
    /// that were accepted; what is buffered is the end of what was read, and
    /// what was consumed before it is whole frames, with one ping among them
    /// for each that was accepted, unless a poll has failed.
    pub open spec fn consistent(self) -> bool {
        &&& self.conn.wf()
        &&& !(self.conn.state is Sending)
        &&& self.written + self.conn.codec.outbound == wire(self.counts)
        &&& self.conn.codec.inbound.len() <= self.read.len()
        &&& self.read == self.consumed() + self.conn.codec.inbound
        &&& whole_frames(self.consumed())
        &&& !self.failed ==> pings_in(self.consumed()) == self.counts.len()
    }
}

/// One more poll keeps a history consistent.
pub proof fn lemma_poll_keeps_consistent(h: History, turn: Turn)
    requires
        h.consistent(),
    ensures
        h.polled(turn).consistent(),
{
    let c = h.conn;
    let after = h.polled(turn);
    let step = c.poll(turn.pings, turn.io);
    lemma_poll(c, turn.pings, turn.io);
    if c.state is Closed {
        assert(after.read =~= h.read);
        assert(after.written =~= h.written);
    } else {
        match c.deliver(turn.io) {
            None => {
                assert(after.read =~= h.read);
                assert(after.written =~= h.written);
            },
            Some(taken) => {
                // What was written and what is pending are together what they were.
                assert(after.written + taken.codec.outbound =~= h.written + c.codec.outbound);
                // What was read is what was consumed and what is buffered now.
                assert(after.read =~= h.consumed() + taken.codec.inbound);
                lemma_drive_queues_only_replies(taken, turn.pings);
                lemma_drive_eats_whole_frames(taken, turn.pings);
                lemma_drive_counts_pings(taken, turn.pings);
                let eaten = eaten(taken, turn.pings);
                lemma_pings_in_pieces(eaten, step.conn.codec.inbound);
                lemma_pings_in_pieces(h.consumed(), eaten);
                assert(after.consumed() =~= h.consumed() + eaten);
                if step.pings == turn.pings {
                    assert(after.written + step.conn.codec.outbound =~= wire(after.counts));
                } else {
                    assert(after.counts.drop_last() =~= h.counts);
                    assert(after.written + step.conn.codec.outbound =~= wire(after.counts));
                }
            },
        }
    }
    assert(after.read =~= after.consumed() + after.conn.codec.inbound);
}

/// Every history of a connection that began with nothing buffered is consistent.
pub proof fn lemma_history_consistent(id: u64, turns: Seq<Turn>)
    ensures
        History::of(ConnectionView::fresh(id), turns).consistent(),
    decreases turns.len(),
{
    if turns.len() == 0 {
        let h = History::begin(ConnectionView::fresh(id));
        assert(h.consumed() =~= Seq::<u8>::empty());
        assert(h.read =~= h.consumed() + h.conn.codec.inbound);
        assert(h.written + h.conn.codec.outbound =~= wire(h.counts));
    } else {
        lemma_history_consistent(id, turns.drop_last());
        lemma_poll_keeps_consistent(
            History::of(ConnectionView::fresh(id), turns.drop_last()),
            turns.last(),
        );
    }
}

/// Each client gets exactly one reply for each ping it sends. Whatever a
/// peer sends and in whatever pieces it arrives, however little its socket
/// takes at a time, and whatever other connections do to the counter in
/// between: the bytes that the peer was sent, followed by those that still
/// wait to be written, are the replies to the pings that were accepted from
/// it, in order, and nothing else. Unless a poll has failed, the pings that
/// were accepted are the pings among the whole lines that the peer has sent,
/// but for those that are still buffered behind a reply.
pub proof fn lemma_one_reply_for_each_ping(id: u64, turns: Seq<Turn>)
    ensures
        ({
            let h = History::of(ConnectionView::fresh(id), turns);
            &&& h.written + h.conn.codec.outbound == wire(h.counts)
            &&& !h.failed ==> pings_in(h.read) == h.counts.len() + pings_in(h.conn.codec.inbound)
            &&& !h.failed && h.conn.state is ReceivingLine ==> {
                &&& h.written == wire(h.counts)
                &&& h.counts.len() == pings_in(h.read)
            }
        }),
{
    let h = History::of(ConnectionView::fresh(id), turns);
    lemma_history_consistent(id, turns);
    lemma_pings_in_pieces(h.consumed(), h.conn.codec.inbound);
    assert(h.written + Seq::<u8>::empty() =~= h.written);
}

} // verus!
