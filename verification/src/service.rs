//! The service as a whole, as plain values: what one tick of the multiplexer
//! does to the counter and to the connections.

use crate::connection::{lemma_poll, ConnectionView, IoView, Step};
use crate::error::ConnectionError;
use crate::frame::{first_frame, has_frame};
use crate::line::{decimal, NEWLINE};
use vstd::prelude::*;
use vstd::utf8::valid_utf8;

verus! {

/// What the listening socket had to offer when the driver asked it.
#[derive(Clone, Copy, Debug, PartialEq, Eq, Structural)]
pub enum Accept {
    /// A new peer was accepted.
    Peer,
    /// No peer is waiting.
    WouldBlock,
    /// The listening socket has ended: it will accept nobody any more.
    Closed,
    /// The listening socket has failed.
    Failed,
}

/// A connection that a tick removed, with the failure that closed it, if one did.
#[derive(Clone, Copy, Debug, PartialEq, Eq, Structural)]
pub struct Removed {
    pub id: u64,
    pub error: Option<ConnectionError>,
}

/// The outcome for the connection at position `i`: the one given for it, or
/// `WouldBlock` where the driver gave none.
pub open spec fn io_at(ios: Seq<IoView>, i: int) -> IoView {
    if 0 <= i < ios.len() {
        ios[i]
    } else {
        IoView::WouldBlock
    }
}

/// The counter after the polls `steps`, which began at `pings`.
pub open spec fn pings_after(steps: Seq<Step>, pings: nat) -> nat {
    if steps.len() == 0 {
        pings
    } else {
        steps.last().pings
    }
}

/// One poll of every connection, in order, each with its own outcome; the
/// counter is handed from each poll to the next.
pub open spec fn polls(conns: Seq<ConnectionView>, ios: Seq<IoView>, pings: nat) -> Seq<Step>
    decreases conns.len(),
{
    if conns.len() == 0 {
        Seq::empty()
    } else {
        let init = polls(conns.drop_last(), ios, pings);
        init.push(conns.last().poll(pings_after(init, pings), io_at(ios, conns.len() - 1)))
    }
}

/// The connections that are still open after their polls, in order.
pub open spec fn open_after(steps: Seq<Step>) -> Seq<ConnectionView>
    decreases steps.len(),
{
    if steps.len() == 0 {
        Seq::empty()
    } else if steps.last().conn.state is Closed {
        open_after(steps.drop_last())
    } else {
        open_after(steps.drop_last()).push(steps.last().conn)
    }
}

/// The connections that their polls left closed, in order, each with its failure.
pub open spec fn removed_after(steps: Seq<Step>) -> Seq<Removed>
    decreases steps.len(),
{
    if steps.len() == 0 {
        Seq::empty()
    } else if steps.last().conn.state is Closed {
        removed_after(steps.drop_last()).push(
            Removed { id: steps.last().conn.id, error: steps.last().error },
        )
    } else {
        removed_after(steps.drop_last())
    }
}

/// A reply that a poll queued: the connection it is for, and the count it carries.
pub struct Reply {
    pub to: u64,
    pub count: nat,
}

/// The replies that the polls `steps` queued, in order: one for each poll
/// that raised the counter, with the count that the poll raised it to.
pub open spec fn replies(steps: Seq<Step>, pings: nat) -> Seq<Reply>
    decreases steps.len(),
{
    if steps.len() == 0 {
        Seq::empty()
    } else if steps.last().pings == pings_after(steps.drop_last(), pings) {
        replies(steps.drop_last(), pings)
    } else {
        replies(steps.drop_last(), pings).push(
            Reply { to: steps.last().conn.id, count: steps.last().pings },
        )
    }
}

/// What the driver hands to one tick.
pub struct Input {
    pub ios: Seq<IoView>,
    pub accept: Accept,
}

/// The service as plain values.
pub struct ServiceView {
    /// How many pings were accepted so far.
    pub pings: nat,
    /// The handle that the next accepted peer gets.
    pub next_id: u64,
    /// The live connections, oldest first.
    pub conns: Seq<ConnectionView>,
}

impl ServiceView {
    /// A service that has seen nobody yet.
    pub open spec fn empty() -> ServiceView {
        ServiceView { pings: 0, next_id: 0, conns: Seq::empty() }
    }

    /// Every live connection is open and waits for its socket.
    pub open spec fn at_rest(self) -> bool {
        forall|i: int|
            0 <= i < self.conns.len() ==> (#[trigger] self.conns[i]).wf() && !(self.conns[i].state
                is Closed)
    }

    /// Every live connection is open and at rest, and the handles grow along
    /// the collection: no two connections share one, and none was handed out
    /// that is not below `next_id`.
    pub open spec fn wf(self) -> bool {
        &&& self.at_rest()
        &&& forall|i: int, j: int|
            0 <= i < j < self.conns.len() ==> (#[trigger] self.conns[i]).id < (
            #[trigger] self.conns[j]).id
        &&& forall|i: int| 0 <= i < self.conns.len() ==> (#[trigger] self.conns[i]).id < self.next_id
    }

    /// Whether the counter and the handles have room for one more tick.
    pub open spec fn headroom(self) -> bool {
        &&& self.pings + self.conns.len() <= u64::MAX
        &&& self.next_id < u64::MAX
    }

    /// The polls of one tick.
    pub open spec fn polls(self, ios: Seq<IoView>) -> Seq<Step> {
        polls(self.conns, ios, self.pings)
    }

    /// Whether a tick with these outcomes made progress: some socket did not
    /// ask to wait, or a new peer was accepted.
    pub open spec fn progresses(self, ios: Seq<IoView>, accept: Accept) -> bool {
        ||| accept is Peer
        ||| exists|i: int|
            0 <= i < self.conns.len() && (#[trigger] self.conns[i]).progresses(io_at(ios, i))
    }

    /// The service after one tick: every connection is polled once, those
    /// that closed are removed, and a peer that was accepted is added at the
    /// end, waiting for its first line.
    pub open spec fn tick(self, ios: Seq<IoView>, accept: Accept) -> ServiceView {
        let steps = self.polls(ios);
        let open = open_after(steps);
        ServiceView {
            pings: pings_after(steps, self.pings),
            next_id: if accept is Peer {
                (self.next_id + 1) as u64
            } else {
                self.next_id
            },
            conns: if accept is Peer {
                open.push(ConnectionView::fresh(self.next_id))
            } else {
                open
            },
        }
    }

    /// The service without the connection at position `i`.
    pub open spec fn without(self, i: int) -> ServiceView {
        ServiceView { conns: self.conns.remove(i), ..self }
    }

    /// The service after one tick for each of `inputs`.
    pub open spec fn run(self, inputs: Seq<Input>) -> ServiceView
        decreases inputs.len(),
    {
        if inputs.len() == 0 {
            self
        } else {
            self.run(inputs.drop_last()).tick(inputs.last().ios, inputs.last().accept)
        }
    }

    /// Every reply that the ticks for `inputs` queued, in the order in which
    /// the pings were accepted.
    pub open spec fn replies(self, inputs: Seq<Input>) -> Seq<Reply>
        decreases inputs.len(),
    {
        if inputs.len() == 0 {
            Seq::empty()
        } else {
            let before = self.run(inputs.drop_last());
            self.replies(inputs.drop_last()) + replies(
                before.polls(inputs.last().ios),
                before.pings,
            )
        }
    }
}

/// The polls of a collection begin with the polls of each of its prefixes,
/// and each poll starts on the counter as the polls before it left it.
pub proof fn lemma_polls_step(conns: Seq<ConnectionView>, ios: Seq<IoView>, pings: nat, i: int)
    requires
        0 <= i < conns.len(),
    ensures
        polls(conns, ios, pings).len() == conns.len(),
        polls(conns, ios, pings).take(i) == polls(conns.take(i), ios, pings),
        polls(conns, ios, pings)[i] == conns[i].poll(
            pings_after(polls(conns.take(i), ios, pings), pings),
            io_at(ios, i),
        ),
    decreases conns.len(),
{
    let init = conns.drop_last();
    lemma_polls_len(init, ios, pings);
    if i < conns.len() - 1 {
        lemma_polls_step(init, ios, pings, i);
        assert(init.take(i) =~= conns.take(i));
    }
}

/// There is one poll for each connection.
pub proof fn lemma_polls_len(conns: Seq<ConnectionView>, ios: Seq<IoView>, pings: nat)
    ensures
        polls(conns, ios, pings).len() == conns.len(),
    decreases conns.len(),
{
    if conns.len() > 0 {
        lemma_polls_len(conns.drop_last(), ios, pings);
    }
}

/// The polls of a collection read the outcomes of its own positions only.
pub proof fn lemma_polls_read_their_own(
    conns: Seq<ConnectionView>,
    ios: Seq<IoView>,
    others: Seq<IoView>,
    pings: nat,
)
    requires
        forall|i: int| 0 <= i < conns.len() ==> io_at(ios, i) == io_at(others, i),
    ensures
        polls(conns, ios, pings) == polls(conns, others, pings),
    decreases conns.len(),
{
    if conns.len() > 0 {
        lemma_polls_read_their_own(conns.drop_last(), ios, others, pings);
    }
}

/// The connections that stay after their polls are open and at rest.
pub proof fn lemma_open_after(steps: Seq<Step>)
    requires
        forall|i: int| 0 <= i < steps.len() ==> (#[trigger] steps[i]).conn.wf(),
    ensures
        forall|j: int|
            0 <= j < open_after(steps).len() ==> (#[trigger] open_after(steps)[j]).wf() && !(
            open_after(steps)[j].state is Closed),
    decreases steps.len(),
{
    if steps.len() > 0 {
        lemma_open_after(steps.drop_last());
    }
}

/// Within one tick the counter goes up by one for each ping that is accepted,
/// and the replies carry the counts in that order: the first the count after
/// `pings`, each later one the next, none twice and none left out. Every
/// connection is at rest after its poll.
pub proof fn lemma_polls_count_up(conns: Seq<ConnectionView>, ios: Seq<IoView>, pings: nat)
    requires
        forall|i: int| 0 <= i < conns.len() ==> (#[trigger] conns[i]).wf(),
    ensures
        polls(conns, ios, pings).len() == conns.len(),
        forall|i: int|
            0 <= i < conns.len() ==> (#[trigger] polls(conns, ios, pings)[i]).conn.wf() && polls(
                conns,
                ios,
                pings,
            )[i].conn.id == conns[i].id,
        pings_after(polls(conns, ios, pings), pings) == pings + replies(
            polls(conns, ios, pings),
            pings,
        ).len(),
        forall|k: int|
            0 <= k < replies(polls(conns, ios, pings), pings).len() ==> (#[trigger] replies(
                polls(conns, ios, pings),
                pings,
            )[k]).count == pings + k + 1,
        forall|i: int|
            0 <= i < conns.len() && (#[trigger] polls(conns, ios, pings)[i]).pings != pings_after(
                polls(conns, ios, pings).take(i),
                pings,
            ) ==> polls(conns, ios, pings)[i].conn.codec.outbound == decimal(
                polls(conns, ios, pings)[i].pings,
            ).push(NEWLINE),
    decreases conns.len(),
{
    if conns.len() > 0 {
        let init = polls(conns.drop_last(), ios, pings);
        let steps = polls(conns, ios, pings);
        lemma_polls_count_up(conns.drop_last(), ios, pings);
        lemma_poll(conns.last(), pings_after(init, pings), io_at(ios, conns.len() - 1));
        assert(steps.drop_last() =~= init);
        assert forall|i: int|
            0 <= i < conns.len() && (#[trigger] steps[i]).pings != pings_after(
                steps.take(i),
                pings,
            ) implies steps[i].conn.codec.outbound == decimal(steps[i].pings).push(NEWLINE) by {
            assert(steps.take(i) =~= init.take(i));
        }
    }
}

/// Ticks keep every live connection open and at rest.
pub proof fn lemma_tick_rests(s: ServiceView, ios: Seq<IoView>, accept: Accept)
    requires
        s.at_rest(),
    ensures
        s.tick(ios, accept).at_rest(),
{
    lemma_polls_count_up(s.conns, ios, s.pings);
    lemma_open_after(s.polls(ios));
}

/// Across the whole service, whatever the clients send and however their
/// bytes arrive, every accepted ping is answered with the value of the
/// counter right after it: the replies carry, in the order in which the
/// pings were accepted, the counts that follow the one the service began
/// with, each exactly once, and the counter ends at the last of them.
pub proof fn lemma_replies_count_up(s: ServiceView, inputs: Seq<Input>)
    requires
        s.at_rest(),
    ensures
        s.run(inputs).at_rest(),
        s.run(inputs).pings == s.pings + s.replies(inputs).len(),
        forall|k: int|
            0 <= k < s.replies(inputs).len() ==> (#[trigger] s.replies(inputs)[k]).count == s.pings
                + k + 1,
    decreases inputs.len(),
{
    if inputs.len() > 0 {
        let earlier = inputs.drop_last();
        let before = s.run(earlier);
        lemma_replies_count_up(s, earlier);
        lemma_tick_rests(before, inputs.last().ios, inputs.last().accept);
        lemma_polls_count_up(before.conns, inputs.last().ios, before.pings);
    }
}

/// No two replies of the service carry the same count, whoever they are for:
/// a later reply carries a greater count than an earlier one.
pub proof fn lemma_replies_differ(s: ServiceView, inputs: Seq<Input>, j: int, k: int)
    requires
        s.at_rest(),
        0 <= j < k < s.replies(inputs).len(),
    ensures
        s.replies(inputs)[j].count < s.replies(inputs)[k].count,
{
    lemma_replies_count_up(s, inputs);
}

/// A connection that closes without a ping leaves no trace: every other
/// connection, the counter and the collection of live connections come out of
/// the tick exactly as if that connection had never been there.
pub proof fn lemma_closed_leaves_no_trace(
    conns: Seq<ConnectionView>,
    ios: Seq<IoView>,
    pings: nat,
    i: int,
)
    requires
        0 <= i < conns.len(),
        i < ios.len(),
        polls(conns, ios, pings)[i].conn.state is Closed,
        polls(conns, ios, pings)[i].pings == pings_after(polls(conns.take(i), ios, pings), pings),
    ensures
        polls(conns.remove(i), ios.remove(i), pings) == polls(conns, ios, pings).remove(i),
        open_after(polls(conns.remove(i), ios.remove(i), pings)) == open_after(
            polls(conns, ios, pings),
        ),
        pings_after(polls(conns.remove(i), ios.remove(i), pings), pings) == pings_after(
            polls(conns, ios, pings),
            pings,
        ),
    decreases conns.len(),
{
    let n = conns.len() as int;
    let steps = polls(conns, ios, pings);
    let init_conns = conns.drop_last();
    let init = polls(init_conns, ios, pings);
    let rest = conns.remove(i);
    let rest_ios = ios.remove(i);
    lemma_polls_len(init_conns, ios, pings);
    lemma_polls_step(conns, ios, pings, i);
    assert(steps.drop_last() =~= init);
    if i == n - 1 {
        // The connection is the last one: the others are polled before it.
        assert(rest =~= init_conns);
        lemma_polls_read_their_own(init_conns, ios, rest_ios, pings);
        assert(steps.remove(i) =~= init);
    } else {
        // It is not: take it out of those before the last, then poll the
        // last, which finds the counter as it did with the connection there.
        lemma_polls_step(init_conns, ios, pings, i);
        assert(init_conns.take(i) =~= conns.take(i));
        lemma_closed_leaves_no_trace(init_conns, ios, pings, i);
        assert(rest.drop_last() =~= init_conns.remove(i));
        assert(rest.last() == conns.last());
        assert(io_at(rest_ios, rest.len() - 1) == io_at(ios, n - 1));
        lemma_polls_len(init_conns.remove(i), rest_ios, pings);
        assert(polls(rest, rest_ios, pings) =~= steps.remove(i));
        assert(steps.remove(i).drop_last() =~= init.remove(i));
        assert(steps.remove(i).last() == steps.last());
    }
}

/// A socket that fails takes down its own connection and nothing else: the
/// connection is closed with an I/O error, and the service comes out of the
/// tick exactly as if that connection had never been there.
pub proof fn lemma_failure_is_contained(s: ServiceView, ios: Seq<IoView>, accept: Accept, i: int)
    requires
        0 <= i < s.conns.len(),
        i < ios.len(),
        !(s.conns[i].state is Closed),
        ios[i] is Failed,
    ensures
        s.polls(ios)[i].conn.state is Closed,
        s.polls(ios)[i].error == Some(ConnectionError::Io),
        s.tick(ios, accept) == s.without(i).tick(ios.remove(i), accept),
{
    lemma_polls_step(s.conns, ios, s.pings, i);
    lemma_closed_leaves_no_trace(s.conns, ios, s.pings, i);
}

/// Bytes that are not UTF-8 take down the connection that sent them and
/// nothing else: where the first frame that a read completes is malformed,
/// the connection is closed with that error, and the service comes out of the
/// tick exactly as if that connection had never been there.
pub proof fn lemma_malformed_input_is_contained(
    s: ServiceView,
    ios: Seq<IoView>,
    accept: Accept,
    i: int,
    bytes: Seq<u8>,
)
    requires
        0 <= i < s.conns.len(),
        i < ios.len(),
        s.conns[i].wf(),
        s.conns[i].state is ReceivingLine,
        ios[i] == IoView::Read(bytes),
        has_frame(s.conns[i].codec.inbound + bytes),
        !valid_utf8(first_frame(s.conns[i].codec.inbound + bytes)),
    ensures
        s.polls(ios)[i].conn.state is Closed,
        s.polls(ios)[i].error == Some(ConnectionError::MalformedFrame),
        s.tick(ios, accept) == s.without(i).tick(ios.remove(i), accept),
{
    lemma_polls_step(s.conns, ios, s.pings, i);
    lemma_closed_leaves_no_trace(s.conns, ios, s.pings, i);
}

} // verus!
