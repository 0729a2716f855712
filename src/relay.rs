use vstd::prelude::*;

use crate::broadcast::Broadcast;
use crate::peer::PeerAddr;
use crate::table::{
    addr_set, as_map, connected, disconnected, holds, is_broadcast_plan, lemma_connected,
    lemma_disconnected, lemma_slot, slot_of, unique_addrs, writer_of, Peer, RelayTable,
};

verus! {

/// What a reader task tells the relay. `W` is the write half of a connection.
pub enum RelayEvent<W> {
    /// A new connection, handing its write half over to the relay.
    Connected(W, PeerAddr),
    /// The connection from this address has ended.
    Disconnected(PeerAddr),
    /// Bytes read from the connection at this address.
    Payload(Vec<u8>, PeerAddr),
}

/// What the relay's owner has to do after an event was applied to the table.
pub enum RelayAction<W> {
    /// The writer was stored; a writer it replaced, if any, is handed back.
    Stored { replaced: Option<W> },
    /// The entry was removed; its writer, if there was one, is to be shut down.
    Closed { removed: Option<W> },
    /// The payload is to be written to each target in turn.
    Send(Broadcast),
}

/// The table after the relay has processed `e`.
pub open spec fn after_event<W>(s: Seq<Peer<W>>, e: RelayEvent<W>) -> Seq<Peer<W>> {
    match e {
        RelayEvent::Connected(w, a) => connected(s, a, w),
        RelayEvent::Disconnected(a) => disconnected(s, a),
        RelayEvent::Payload(_, _) => s,
    }
}

/// `act` is what processing `e` on table `s` calls for.
pub open spec fn action_for<W>(s: Seq<Peer<W>>, e: RelayEvent<W>, act: RelayAction<W>) -> bool {
    match e {
        RelayEvent::Connected(_, a) => act == RelayAction::Stored { replaced: writer_of(s, a) },
        RelayEvent::Disconnected(a) => act == RelayAction::Closed { removed: writer_of(s, a) },
        RelayEvent::Payload(bytes, a) => match act {
            RelayAction::Send(b) => {
                &&& b.wf()
                &&& b.payload_view() == bytes@
                &&& is_broadcast_plan(s, a, b.targets_view())
                &&& b.results_view().len() == 0
            },
            _ => false,
        },
    }
}

impl<W> RelayTable<W> {
    /// Applies one event to the table and says what is left to do for it.
    pub fn handle(&mut self, event: RelayEvent<W>) -> (act: RelayAction<W>)
        requires
            old(self).wf(),
        ensures
            final(self).wf(),
            final(self)@ == after_event(old(self)@, event),
            action_for(old(self)@, event, act),
    {
        match event {
            RelayEvent::Connected(writer, addr) => {
                let replaced = self.connect(addr, writer);
                RelayAction::Stored { replaced }
            },
            RelayEvent::Disconnected(addr) => {
                let removed = self.disconnect(&addr);
                RelayAction::Closed { removed }
            },
            RelayEvent::Payload(bytes, addr) => {
                let targets = self.broadcast_targets(&addr);
                RelayAction::Send(Broadcast::new(bytes, targets))
            },
        }
    }
}

/// The addresses at the positions `t` of table `s`.
pub open spec fn addrs_at<W>(s: Seq<Peer<W>>, t: Seq<usize>) -> Seq<PeerAddr> {
    t.map_values(|i: usize| s[i as int].addr)
}

/// A payload from `origin` is sent to every other connected peer, to each
/// exactly once, and never back to `origin`.
pub proof fn lemma_broadcast_reaches_others<W>(s: Seq<Peer<W>>, origin: PeerAddr, t: Seq<usize>)
    requires
        unique_addrs(s),
        is_broadcast_plan(s, origin, t),
    ensures
        addrs_at(s, t).to_set() == addr_set(s).remove(origin),
        addrs_at(s, t).no_duplicates(),
        !addrs_at(s, t).contains(origin),
{
    let r = addrs_at(s, t);
    assert forall|a: PeerAddr| #[trigger] r.contains(a) == addr_set(s).remove(origin).contains(a) by {
        if r.contains(a) {
            let k = choose|k: int| 0 <= k < r.len() && r[k] == a;
            assert(t[k] < s.len());
            assert(s[t[k] as int].addr == a);
        }
        if addr_set(s).remove(origin).contains(a) {
            assert(holds(s, a));
            let i = choose|i: int| 0 <= i < s.len() && (#[trigger] s[i]).addr == a;
            let k = choose|k: int| 0 <= k < t.len() && t[k] == i;
            assert(r[k] == a);
        }
    }
    assert(r.to_set() =~= addr_set(s).remove(origin));
    assert forall|k: int, l: int| 0 <= k < r.len() && 0 <= l < r.len() && k != l implies r[k]
        != r[l] by {
        if k < l {
            assert(t[k] < t[l]);
        } else {
            assert(t[l] < t[k]);
        }
        assert(t[k] < s.len() && t[l] < s.len());
    }
    if r.contains(origin) {
        let k = choose|k: int| 0 <= k < r.len() && r[k] == origin;
        assert(t[k] < s.len());
    }
}

/// Once `a` has disconnected, no later broadcast targets it, and every other
/// peer but the sender is still targeted.
pub proof fn lemma_no_write_after_disconnect<W>(
    s: Seq<Peer<W>>,
    a: PeerAddr,
    origin: PeerAddr,
    t: Seq<usize>,
)
    requires
        unique_addrs(s),
        is_broadcast_plan(disconnected(s, a), origin, t),
    ensures
        !addrs_at(disconnected(s, a), t).contains(a),
        addrs_at(disconnected(s, a), t).to_set() == addr_set(s).remove(a).remove(origin),
{
    let d = disconnected(s, a);
    lemma_disconnected(s, a);
    lemma_broadcast_reaches_others(d, origin, t);
    assert forall|b: PeerAddr| #[trigger] addr_set(d).contains(b) == addr_set(s).remove(a).contains(b) by {
        assert(as_map(d).contains_key(b) == holds(d, b));
        assert(as_map(s).contains_key(b) == holds(s, b));
    }
    assert(addr_set(d) =~= addr_set(s).remove(a));
}

/// The table after `a` connects once with each writer of `ws`, in order.
pub open spec fn connect_each<W>(s: Seq<Peer<W>>, a: PeerAddr, ws: Seq<W>) -> Seq<Peer<W>>
    decreases ws.len(),
{
    if ws.len() == 0 {
        s
    } else {
        connected(connect_each(s, a, ws.drop_last()), a, ws.last())
    }
}

/// Connecting twice from one address is the same as connecting once with the
/// later writer.
pub proof fn lemma_connect_twice<W>(s: Seq<Peer<W>>, a: PeerAddr, w1: W, w2: W)
    requires
        unique_addrs(s),
    ensures
        connected(connected(s, a, w1), a, w2) == connected(s, a, w2),
{
    let c = connected(s, a, w1);
    lemma_connected(s, a, w1);
    let k = if holds(s, a) { slot_of(s, a) } else { s.len() as int };
    lemma_slot(c, k);
    assert(connected(c, a, w2) =~= connected(s, a, w2));
}

/// Any number of connections from one address leave exactly one entry for
/// it, holding the last writer, and the table as one connection would.
pub proof fn lemma_connect_idempotent<W>(s: Seq<Peer<W>>, a: PeerAddr, ws: Seq<W>)
    requires
        unique_addrs(s),
        ws.len() > 0,
    ensures
        connect_each(s, a, ws) == connected(s, a, ws.last()),
        unique_addrs(connect_each(s, a, ws)),
        as_map(connect_each(s, a, ws)) == as_map(s).insert(a, ws.last()),
    decreases ws.len(),
{
    let init = ws.drop_last();
    assert(connect_each(s, a, ws) == connected(connect_each(s, a, init), a, ws.last()));
    if init.len() > 0 {
        lemma_connect_idempotent(s, a, init);
        lemma_connect_twice(s, a, init.last(), ws.last());
    } else {
        assert(connect_each(s, a, init) == s);
    }
    lemma_connected(s, a, ws.last());
}

/// A reconnect after a disconnect is a fresh connection: the table ends as
/// one connection would leave it, and a new address simply joins the end.
pub proof fn lemma_reconnect<W>(s: Seq<Peer<W>>, a: PeerAddr, w1: W, w2: W)
    requires
        unique_addrs(s),
    ensures
        unique_addrs(connected(disconnected(connected(s, a, w1), a), a, w2)),
        as_map(connected(disconnected(connected(s, a, w1), a), a, w2)) == as_map(s).insert(a, w2),
        !holds(s, a) ==> connected(disconnected(connected(s, a, w1), a), a, w2) == connected(
            s,
            a,
            w2,
        ),
{
    let c = connected(s, a, w1);
    lemma_connected(s, a, w1);
    let d = disconnected(c, a);
    lemma_disconnected(c, a);
    lemma_connected(d, a, w2);
    assert(as_map(s).insert(a, w1).remove(a).insert(a, w2) =~= as_map(s).insert(a, w2));
    if !holds(s, a) {
        lemma_slot(c, s.len() as int);
        assert(d =~= s);
    }
}

} // verus!
