use vstd::prelude::*;

use crate::peer::PeerAddr;

verus! {

/// One live connection: its remote address and the write half the relay owns.
pub struct Peer<W> {
    pub addr: PeerAddr,
    pub writer: W,
}

/// Some entry of `s` has address `a`.
pub open spec fn holds<W>(s: Seq<Peer<W>>, a: PeerAddr) -> bool {
    exists|i: int| 0 <= i < s.len() && (#[trigger] s[i]).addr == a
}

/// No address appears twice in `s`.
pub open spec fn unique_addrs<W>(s: Seq<Peer<W>>) -> bool {
    forall|i: int, j: int|
        0 <= i < s.len() && 0 <= j < s.len() && i != j ==> (#[trigger] s[i]).addr != (#[trigger] s[j]).addr
}

/// The position of the entry with address `a` (meaningful when `holds(s, a)`).
pub open spec fn slot_of<W>(s: Seq<Peer<W>>, a: PeerAddr) -> int {
    choose|i: int| 0 <= i < s.len() && (#[trigger] s[i]).addr == a
}

/// The set of addresses present in `s`.
pub open spec fn addr_set<W>(s: Seq<Peer<W>>) -> Set<PeerAddr> {
    Set::new(|a: PeerAddr| holds(s, a))
}

/// The writer stored for `a`, if any.
pub open spec fn writer_of<W>(s: Seq<Peer<W>>, a: PeerAddr) -> Option<W> {
    if holds(s, a) {
        Some(s[slot_of(s, a)].writer)
    } else {
        None
    }
}

/// The table after a connection from `a` with writer `w`: an existing entry for
/// `a` is overwritten in place, otherwise a new entry goes to the end.
pub open spec fn connected<W>(s: Seq<Peer<W>>, a: PeerAddr, w: W) -> Seq<Peer<W>> {
    if holds(s, a) {
        s.update(slot_of(s, a), Peer { addr: a, writer: w })
    } else {
        s.push(Peer { addr: a, writer: w })
    }
}

/// The table after `a` disconnects: its entry, if any, is removed.
pub open spec fn disconnected<W>(s: Seq<Peer<W>>, a: PeerAddr) -> Seq<Peer<W>> {
    if holds(s, a) {
        s.remove(slot_of(s, a))
    } else {
        s
    }
}

/// `t` lists, in increasing order and each once, exactly the positions of `s`
/// whose address differs from `origin`.
pub open spec fn is_broadcast_plan<W>(s: Seq<Peer<W>>, origin: PeerAddr, t: Seq<usize>) -> bool {
    &&& forall|k: int| 0 <= k < t.len() ==> (#[trigger] t[k]) < s.len() && s[t[k] as int].addr != origin
    &&& forall|k: int, l: int| 0 <= k < l < t.len() ==> (#[trigger] t[k]) < (#[trigger] t[l])
    &&& forall|i: int|
        0 <= i < s.len() && (#[trigger] s[i]).addr != origin ==> exists|k: int|
            0 <= k < t.len() && t[k] == i
}

/// The table as a map from address to writer.
pub open spec fn as_map<W>(s: Seq<Peer<W>>) -> Map<PeerAddr, W> {
    Map::new(|a: PeerAddr| holds(s, a), |a: PeerAddr| s[slot_of(s, a)].writer)
}

/// In a table without repeated addresses, the entry found at `i` is the slot of its address.
pub proof fn lemma_slot<W>(s: Seq<Peer<W>>, i: int)
    requires
        unique_addrs(s),
        0 <= i < s.len(),
    ensures
        holds(s, s[i].addr),
        slot_of(s, s[i].addr) == i,
{
    let a = s[i].addr;
    assert(holds(s, a));
    let k = slot_of(s, a);
    assert(s[k].addr == a);
}

/// Connecting `a` keeps addresses unique and sets `a`'s writer, leaving every
/// other entry as it was.
pub proof fn lemma_connected<W>(s: Seq<Peer<W>>, a: PeerAddr, w: W)
    requires
        unique_addrs(s),
    ensures
        unique_addrs(connected(s, a, w)),
        as_map(connected(s, a, w)) == as_map(s).insert(a, w),
{
    let c = connected(s, a, w);
    if holds(s, a) {
        let k = slot_of(s, a);
        assert(s[k].addr == a);
        assert forall|i: int, j: int|
            0 <= i < c.len() && 0 <= j < c.len() && i != j implies (#[trigger] c[i]).addr != (
            #[trigger] c[j]).addr by {
            assert(c[i].addr == s[i].addr);
            assert(c[j].addr == s[j].addr);
        }
    } else {
        assert forall|i: int, j: int|
            0 <= i < c.len() && 0 <= j < c.len() && i != j implies (#[trigger] c[i]).addr != (
            #[trigger] c[j]).addr by {
            if i == s.len() {
                assert(s[j].addr != a);
            } else if j == s.len() {
                assert(s[i].addr != a);
            }
        }
    }
    let m = as_map(s).insert(a, w);
    assert forall|b: PeerAddr| #[trigger] holds(c, b) == m.contains_key(b) by {
        if holds(c, b) && b != a {
            let i = slot_of(c, b);
            assert(c[i] == s[i]);
        }
        if holds(s, b) {
            let i = slot_of(s, b);
            if b != a {
                assert(c[i] == s[i]);
            }
        }
        if b == a {
            lemma_slot(c, if holds(s, a) { slot_of(s, a) } else { s.len() as int });
        }
    }
    assert forall|b: PeerAddr| #[trigger] m.contains_key(b) implies as_map(c)[b] == m[b] by {
        if b == a {
            lemma_slot(c, if holds(s, a) { slot_of(s, a) } else { s.len() as int });
        } else {
            let i = slot_of(s, b);
            lemma_slot(s, i);
            assert(c[i] == s[i]);
            lemma_slot(c, i);
        }
    }
    assert(as_map(c) =~= m);
}

/// Disconnecting `a` keeps addresses unique and drops `a`'s entry, leaving
/// every other entry as it was.
pub proof fn lemma_disconnected<W>(s: Seq<Peer<W>>, a: PeerAddr)
    requires
        unique_addrs(s),
    ensures
        unique_addrs(disconnected(s, a)),
        as_map(disconnected(s, a)) == as_map(s).remove(a),
{
    let d = disconnected(s, a);
    let m = as_map(s).remove(a);
    if holds(s, a) {
        let k = slot_of(s, a);
        assert(s[k].addr == a);
        assert forall|x: int| 0 <= x < d.len() implies #[trigger] d[x] == s[if x < k {
            x
        } else {
            x + 1
        }] by {}
        assert forall|x: int, y: int|
            0 <= x < d.len() && 0 <= y < d.len() && x != y implies (#[trigger] d[x]).addr != (
            #[trigger] d[y]).addr by {
            let xo = if x < k { x } else { x + 1 };
            let yo = if y < k { y } else { y + 1 };
            assert(d[x] == s[xo]);
            assert(d[y] == s[yo]);
        }
        assert forall|b: PeerAddr| #[trigger] holds(d, b) == m.contains_key(b) by {
            if holds(d, b) {
                let x = slot_of(d, b);
                let xo = if x < k { x } else { x + 1 };
                assert(d[x] == s[xo]);
                assert(s[xo].addr == b);
                assert(b != a);
            }
            if m.contains_key(b) {
                let i = slot_of(s, b);
                assert(s[i].addr == b);
                assert(i != k);
                let x = if i < k { i } else { i - 1 };
                assert(d[x] == s[i]);
            }
        }
        assert forall|b: PeerAddr| #[trigger] m.contains_key(b) implies as_map(d)[b] == m[b] by {
            let i = slot_of(s, b);
            lemma_slot(s, i);
            assert(i != k);
            let x = if i < k { i } else { i - 1 };
            assert(d[x] == s[i]);
            lemma_slot(d, x);
        }
    } else {
        assert forall|b: PeerAddr| #[trigger] holds(d, b) == m.contains_key(b) by {}
    }
    assert(as_map(d) =~= m);
}

/// The live connection table: every connected peer's write half, keyed by
/// its address, in order of first connection.
pub struct RelayTable<W> {
    peers: Vec<Peer<W>>,
}

impl<W> RelayTable<W> {
    pub closed spec fn view(&self) -> Seq<Peer<W>> {
        self.peers@
    }

    /// Each address has at most one entry.
    pub open spec fn wf(&self) -> bool {
        unique_addrs(self@)
    }

    pub fn new() -> (r: RelayTable<W>)
        ensures
            r.wf(),
            r@ == Seq::<Peer<W>>::empty(),
    {
        RelayTable { peers: Vec::new() }
    }

    pub fn len(&self) -> (n: usize)
        ensures
            n == self@.len(),
    {
        self.peers.len()
    }

    /// The position of the entry for `a`, if there is one.
    pub fn position(&self, a: &PeerAddr) -> (r: Option<usize>)
        requires
            self.wf(),
        ensures
            match r {
                Some(i) => holds(self@, *a) && i == slot_of(self@, *a) && self@[i as int].addr
                    == *a,
                None => !holds(self@, *a),
            },
    {
        let mut i: usize = 0;
        while i < self.peers.len()
            invariant
                self.wf(),
                i <= self.peers@.len(),
                forall|j: int| 0 <= j < i ==> (#[trigger] self.peers@[j]).addr != *a,
            decreases self.peers@.len() - i,
        {
            if self.peers[i].addr == *a {
                assert(holds(self@, *a));
                let ghost k = slot_of(self@, *a);
                assert(self@[k].addr == *a);
                assert(self@[i as int].addr == *a);
                assert(k == i);
                return Some(i);
            }
            i = i + 1;
        }
        None
    }

    pub fn contains(&self, a: &PeerAddr) -> (r: bool)
        requires
            self.wf(),
        ensures
            r == holds(self@, *a),
    {
        self.position(a).is_some()
    }

    /// Stores `writer` for `addr`, overwriting any entry it already has, and
    /// hands back the writer that was replaced.
    pub fn connect(&mut self, addr: PeerAddr, writer: W) -> (replaced: Option<W>)
        requires
            old(self).wf(),
        ensures
            final(self).wf(),
            final(self)@ == connected(old(self)@, addr, writer),
            replaced == writer_of(old(self)@, addr),
    {
        let ghost s = self@;
        match self.position(&addr) {
            Some(i) => {
                self.peers.push(Peer { addr, writer });
                let prev = self.peers.swap_remove(i);
                assert(self@ =~= connected(s, addr, writer));
                proof {
                    lemma_connected(s, addr, writer);
                }
                Some(prev.writer)
            },
            None => {
                self.peers.push(Peer { addr, writer });
                proof {
                    lemma_connected(s, addr, writer);
                }
                None
            },
        }
    }

    /// Removes the entry for `addr`, if any, and hands back its writer.
    pub fn disconnect(&mut self, addr: &PeerAddr) -> (removed: Option<W>)
        requires
            old(self).wf(),
        ensures
            final(self).wf(),
            final(self)@ == disconnected(old(self)@, *addr),
            removed == writer_of(old(self)@, *addr),
    {
        let ghost s = self@;
        match self.position(addr) {
            Some(i) => {
                let p = self.peers.remove(i);
                proof {
                    lemma_disconnected(s, *addr);
                }
                Some(p.writer)
            },
            None => None,
        }
    }

    /// The positions of every entry whose address is not `origin`, in table order.
    pub fn broadcast_targets(&self, origin: &PeerAddr) -> (t: Vec<usize>)
        ensures
            is_broadcast_plan(self@, *origin, t@),
    {
        let mut t: Vec<usize> = Vec::new();
        let mut i: usize = 0;
        while i < self.peers.len()
            invariant
                i <= self.peers@.len(),
                forall|k: int| 0 <= k < t@.len() ==> (#[trigger] t@[k]) < i && self@[t@[k] as int].addr != *origin,
                forall|k: int, l: int| 0 <= k < l < t@.len() ==> (#[trigger] t@[k]) < (#[trigger] t@[l]),
                forall|j: int|
                    0 <= j < i && (#[trigger] self@[j]).addr != *origin ==> exists|k: int|
                        0 <= k < t@.len() && t@[k] == j,
            decreases self.peers@.len() - i,
        {
            if self.peers[i].addr != *origin {
                let ghost t0 = t@;
                t.push(i);
                assert forall|j: int|
                    0 <= j <= i && (#[trigger] self@[j]).addr != *origin implies exists|k: int|
                        0 <= k < t@.len() && t@[k] == j by {
                    if j < i {
                        let k = choose|k: int| 0 <= k < t0.len() && t0[k] == j;
                        assert(t@[k] == j);
                    } else {
                        assert(t@[t0.len() as int] == j);
                    }
                }
            }
            i = i + 1;
        }
        t
    }

    /// The writer of the entry at position `i`, for writing to it.
    pub fn writer_mut(&mut self, i: usize) -> (w: &mut W)
        requires
            i < old(self)@.len(),
        ensures
            *w == old(self)@[i as int].writer,
            final(self)@ == old(self)@.update(
                i as int,
                Peer { addr: old(self)@[i as int].addr, writer: *final(w) },
            ),
    {
        &mut self.peers[i].writer
    }
}

} // verus!
