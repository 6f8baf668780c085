//! The multiplexer: every connection of the service, advanced in turn on one thread.

use crate::connection::{Connection, ConnectionView, Io, IoView};
use crate::error::ListenerFailure;
use crate::service::{
    io_at, open_after, pings_after, polls, removed_after, Accept, Removed, ServiceView,
};
use vstd::prelude::*;

verus! {

/// The outcomes that the driver gathered, as plain values.
pub open spec fn io_views(ios: Seq<Io>) -> Seq<IoView> {
    Seq::new(ios.len(), |i: int| ios[i]@)
}

/// The connections of a collection, as plain values.
pub open spec fn conn_views(conns: Seq<Connection>) -> Seq<ConnectionView> {
    Seq::new(conns.len(), |i: int| conns[i]@)
}

/// What one tick did.
#[derive(Debug)]
pub struct Tick {
    /// Whether the driver should gather outcomes and tick again at once,
    /// rather than wait for a socket to become ready.
    pub progress: bool,
    /// The handle of the peer that was accepted in this tick, if one was.
    pub accepted: Option<u64>,
    /// The connections that were removed in this tick, oldest first.
    pub removed: Vec<Removed>,
}

/// The ping counter and the live connections.
#[derive(Debug)]
pub struct Multiplexer {
    pings: u64,
    next_id: u64,
    conns: Vec<Connection>,
}

impl View for Multiplexer {
    type V = ServiceView;

    closed spec fn view(&self) -> ServiceView {
        ServiceView {
            pings: self.pings as nat,
            next_id: self.next_id,
            conns: conn_views(self.conns@),
        }
    }
}

impl Multiplexer {
    /// Every multiplexer is well-formed between ticks.
    pub open spec fn wf(&self) -> bool {
        self@.wf()
    }

    /// A service with the counter at zero and nobody connected.
    pub fn new() -> (mux: Multiplexer)
        ensures
            mux.wf(),
            mux@ == ServiceView::empty(),
    {
        let mux = Multiplexer { pings: 0, next_id: 0, conns: Vec::new() };
        proof {
            assert(mux@.conns =~= Seq::empty());
        }
        mux
    }

    /// How many pings were accepted so far.
    pub fn pings(&self) -> (pings: u64)
        ensures
            pings == self@.pings,
    {
        self.pings
    }

    /// How many connections are live.
    pub fn len(&self) -> (len: usize)
        ensures
            len == self@.conns.len(),
    {
        self.conns.len()
    }

    /// The live connection at position `i`, oldest first.
    pub fn connection(&self, i: usize) -> (conn: &Connection)
        requires
            i < self@.conns.len(),
        ensures
            conn@ == self@.conns[i as int],
    {
        &self.conns[i]
    }

    /// Whether the counter and the handles have room for one more tick.
    pub fn has_headroom(&self) -> (yes: bool)
        ensures
            yes == self@.headroom(),
    {
        self.next_id < u64::MAX && self.conns.len() as u64 <= u64::MAX - self.pings
    }

    /// Advances the whole service by one tick.
    ///
    /// `ios[i]` is the outcome of the socket operation that the connection at
    /// position `i` waited for; a connection without one is polled as if its
    /// socket had asked to wait. Every connection is polled once, in order,
    /// on the counter as the one before it left it. Connections that closed
    /// are removed and reported. Then the listener's outcome is taken in: a
    /// new peer joins the collection under a fresh handle, and a listener
    /// that ended or failed ends the service.
    pub fn advance(&mut self, ios: &Vec<Io>, accept: Accept) -> (r: Result<Tick, ListenerFailure>)
        requires
            old(self).wf(),
            old(self)@.headroom(),
        ensures
            final(self).wf(),
            final(self)@ == old(self)@.tick(io_views(ios@), accept),
            old(self)@.pings <= final(self)@.pings <= old(self)@.pings + old(self)@.conns.len(),
            match r {
                Ok(tick) => {
                    &&& accept is Peer || accept is WouldBlock
                    &&& tick.progress == old(self)@.progresses(io_views(ios@), accept)
                    &&& tick.accepted == if accept is Peer {
                        Some(old(self)@.next_id)
                    } else {
                        None
                    }
                    &&& tick.removed@ == removed_after(old(self)@.polls(io_views(ios@)))
                },
                Err(_) => accept is Closed || accept is Failed,
            },
    {
        let mut before: Vec<Connection> = Vec::new();
        core::mem::swap(&mut self.conns, &mut before);
        let ghost views = conn_views(before@);
        let ghost outcomes = io_views(ios@);
        let ghost start = self.pings as nat;
        let mut removed: Vec<Removed> = Vec::new();
        let mut progress = false;
        let mut i: usize = 0;
        for conn in it: before
            invariant
                i == it.index(),
                it.seq() == old(self).conns@,
                views == conn_views(old(self).conns@),
                outcomes == io_views(ios@),
                start == old(self).pings,
                old(self).wf(),
                old(self)@.headroom(),
                self.next_id == old(self).next_id,
                self.pings == pings_after(polls(views.take(i as int), outcomes, start), start),
                start <= self.pings <= start + i,
                conn_views(self.conns@) == open_after(polls(views.take(i as int), outcomes, start)),
                removed@ == removed_after(polls(views.take(i as int), outcomes, start)),
                forall|j: int|
                    0 <= j < self.conns.len() ==> (#[trigger] self.conns[j]).wf() && !(
                    self.conns[j]@.state is Closed),
                forall|j: int, k: int|
                    0 <= j < k < self.conns.len() ==> (#[trigger] self.conns[j])@.id < (
                    #[trigger] self.conns[k])@.id,
                forall|j: int|
                    0 <= j < self.conns.len() ==> (#[trigger] self.conns[j])@.id < old(
                        self,
                    ).next_id && (i < views.len() ==> self.conns[j]@.id < views[i as int].id),
                progress == exists|j: int|
                    0 <= j < i && (#[trigger] views[j]).progresses(io_at(outcomes, j)),
        {
            let mut conn = conn;
            let ghost prefix = views.take(i as int);
            let ghost next = views.take(i + 1);
            let ghost live = self.conns@;
            proof {
                assert(i < old(self).conns.len());
                assert(next.drop_last() =~= prefix);
                assert(next.last() == views[i as int]);
                assert(views[i as int] == conn@);
                assert(old(self)@.conns[i as int] == views[i as int]);
                assert(polls(next, outcomes, start).drop_last() =~= polls(prefix, outcomes, start));
                if i + 1 < views.len() {
                    assert(old(self)@.conns[i + 1] == views[i + 1]);
                }
            }
            let polled = if i < ios.len() {
                conn.poll(&mut self.pings, &ios[i])
            } else {
                conn.poll(&mut self.pings, &Io::WouldBlock)
            };
            if polled.progress {
                progress = true;
            }
            if conn.is_closed() {
                removed.push(Removed { id: conn.id(), error: polled.error });
            } else {
                self.conns.push(conn);
                proof {
                    assert(conn_views(self.conns@) =~= conn_views(live).push(conn@));
                }
            }
            i = i + 1;
        }
        let ghost open = self.conns@;
        proof {
            assert(views.take(views.len() as int) =~= views);
            assert(views == old(self)@.conns);
            assert(progress == exists|j: int|
                0 <= j < old(self)@.conns.len() && (#[trigger] old(self)@.conns[j]).progresses(
                    io_at(outcomes, j),
                ));
        }
        match accept {
            Accept::Peer => {
                let id: u64 = self.next_id;
                self.next_id = id + 1;
                let conn = Connection::new(id);
                self.conns.push(conn);
                proof {
                    assert(conn_views(self.conns@) =~= conn_views(open).push(
                        ConnectionView::fresh(id),
                    ));
                }
                Ok(Tick { progress: true, accepted: Some(id), removed })
            },
            Accept::WouldBlock => Ok(Tick { progress, accepted: None, removed }),
            Accept::Closed | Accept::Failed => Err(ListenerFailure),
        }
    }
}

} // verus!
