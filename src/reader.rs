use vstd::prelude::*;

use crate::peer::PeerAddr;
use crate::relay::RelayEvent;

verus! {

/// The size of the buffer a reader task reads into.
pub const READ_CHUNK: usize = 64;

/// How one read from a connection ended.
#[derive(Clone, Copy, Debug, PartialEq, Eq, Structural)]
pub enum ReadOutcome {
    /// This many bytes were read into the buffer; zero means the peer closed.
    Bytes(usize),
    /// The read failed.
    Failed,
}

/// How a reader task ended.
#[derive(Clone, Copy, Debug, PartialEq, Eq, Structural)]
pub enum ReaderEnd {
    /// The peer closed the connection.
    Closed,
    /// A read failed.
    Failed,
}

/// An event as the reader sent it, without the write half.
pub ghost enum Sent {
    Connected,
    Payload(Seq<u8>),
    Disconnected,
}

/// What the event `e` from a reader is, without its write half.
pub open spec fn sent_of<W>(e: RelayEvent<W>) -> Sent {
    match e {
        RelayEvent::Connected(_, _) => Sent::Connected,
        RelayEvent::Payload(b, _) => Sent::Payload(b@),
        RelayEvent::Disconnected(_) => Sent::Disconnected,
    }
}

/// `log` is in the order a connection's events are owed: `Connected` first,
/// then payloads, and `Disconnected` only as the last event, present exactly
/// when the reader is `finished`.
pub open spec fn in_connection_order(log: Seq<Sent>, finished: bool) -> bool {
    &&& log.len() > 0
    &&& log[0] == Sent::Connected
    &&& forall|i: int| 0 < i < log.len() ==> #[trigger] log[i] != Sent::Connected
    &&& forall|i: int| 0 <= i < log.len() - 1 ==> #[trigger] log[i] != Sent::Disconnected
    &&& finished == (log.last() == Sent::Disconnected)
}

/// The decisions of the task that reads one connection and reports to the relay.
pub struct ReaderTask {
    addr: PeerAddr,
    finished: bool,
    log: Ghost<Seq<Sent>>,
}

impl ReaderTask {
    pub closed spec fn addr_view(&self) -> PeerAddr {
        self.addr
    }

    pub closed spec fn finished_view(&self) -> bool {
        self.finished
    }

    /// Every event this reader has handed out, in order.
    pub closed spec fn sent(&self) -> Seq<Sent> {
        self.log@
    }

    pub open spec fn wf(&self) -> bool {
        in_connection_order(self.sent(), self.finished_view())
    }

    /// Starts the reader for the connection from `addr`; the first event hands
    /// its write half to the relay.
    pub fn start<W>(writer: W, addr: PeerAddr) -> (r: (ReaderTask, RelayEvent<W>))
        ensures
            r.0.wf(),
            r.0.addr_view() == addr,
            !r.0.finished_view(),
            r.1 == RelayEvent::Connected(writer, addr),
            r.0.sent() == seq![sent_of(r.1)],
    {
        let ev = RelayEvent::Connected(writer, addr);
        let ghost first = seq![sent_of(ev)];
        let task = ReaderTask { addr, finished: false, log: Ghost(first) };
        (task, ev)
    }

    pub fn addr(&self) -> (a: PeerAddr)
        ensures
            a == self.addr_view(),
    {
        self.addr
    }

    pub fn is_finished(&self) -> (r: bool)
        ensures
            r == self.finished_view(),
    {
        self.finished
    }

    /// The event owed for one read into `buf`, and how the task ends if it
    /// does: a closed peer or a failed read yields `Disconnected` and ends the
    /// task; `n > 0` bytes yield a payload of exactly those bytes.
    pub fn on_read<W>(&mut self, buf: &[u8], outcome: ReadOutcome) -> (r: (
        RelayEvent<W>,
        Option<ReaderEnd>,
    ))
        requires
            old(self).wf(),
            !old(self).finished_view(),
            match outcome {
                ReadOutcome::Bytes(n) => n <= buf@.len(),
                ReadOutcome::Failed => true,
            },
        ensures
            final(self).wf(),
            final(self).addr_view() == old(self).addr_view(),
            final(self).finished_view() == r.1.is_some(),
            final(self).sent() == old(self).sent().push(sent_of(r.0)),
            match outcome {
                ReadOutcome::Bytes(0) => r.0 == RelayEvent::<W>::Disconnected(old(self).addr_view())
                    && r.1 == Some(ReaderEnd::Closed),
                ReadOutcome::Bytes(n) => r.1.is_none() && match r.0 {
                    RelayEvent::Payload(b, a) => a == old(self).addr_view() && b@ == buf@.take(
                        n as int,
                    ),
                    _ => false,
                },
                ReadOutcome::Failed => r.0 == RelayEvent::<W>::Disconnected(old(self).addr_view())
                    && r.1 == Some(ReaderEnd::Failed),
            },
    {
        let (ev, end) = match outcome {
            ReadOutcome::Bytes(n) => {
                if n == 0 {
                    (RelayEvent::Disconnected(self.addr), Some(ReaderEnd::Closed))
                } else {
                    let mut chunk: Vec<u8> = Vec::new();
                    let mut i: usize = 0;
                    while i < n
                        invariant
                            i <= n <= buf@.len(),
                            chunk@ == buf@.take(i as int),
                        decreases n - i,
                    {
                        chunk.push(buf[i]);
                        i = i + 1;
                        assert(chunk@ =~= buf@.take(i as int));
                    }
                    (RelayEvent::Payload(chunk, self.addr), None)
                }
            },
            ReadOutcome::Failed => (RelayEvent::Disconnected(self.addr), Some(ReaderEnd::Failed)),
        };
        self.finished = end.is_some();
        let ghost log = self.log@.push(sent_of(ev));
        self.log = Ghost(log);
        (ev, end)
    }
}

} // verus!
