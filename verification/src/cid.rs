//! Connection identifiers, and maps keyed by them.

use vstd::prelude::*;

use crate::seq::{distance, nth_after};

verus! {

/// A remote peer.
pub trait ConnectionPeer: Sized {
    /// Whether two values name the same peer.
    fn same(&self, other: &Self) -> (same: bool)
        ensures
            same == (*self == *other),
    ;

    /// Another value that names the same peer.
    fn duplicate(&self) -> (copy: Self)
        ensures
            copy == *self,
    ;
}

/// The address of a peer that is reached over UDP.
#[derive(Clone, Copy, Debug, PartialEq, Eq, Hash, Structural)]
pub enum PeerAddr {
    V4 { ip: u32, port: u16 },
    V6 { ip: u128, port: u16, flowinfo: u32, scope_id: u32 },
}

impl ConnectionPeer for PeerAddr {
    fn same(&self, other: &Self) -> (same: bool) {
        *self == *other
    }

    fn duplicate(&self) -> (copy: Self) {
        *self
    }
}

/// The identifiers under which the two ends of a connection with `peer` send and receive.
#[derive(Clone, Copy, Debug, PartialEq, Eq, Hash)]
pub struct ConnectionId<P> {
    pub send: u16,
    pub recv: u16,
    pub peer: P,
}

/// The identifiers of a connection that receives under `recv`: whoever initiates a connection
/// sends under the number after the one it receives under.
pub open spec fn cid_for<P>(peer: P, is_initiator: bool, recv: u16) -> ConnectionId<P> {
    ConnectionId {
        send: if is_initiator {
            recv.wrapping_add(1)
        } else {
            recv.wrapping_sub(1)
        },
        recv,
        peer,
    }
}

impl<P: ConnectionPeer> ConnectionId<P> {
    /// Whether two values are the same identifier.
    pub fn same(&self, other: &Self) -> (same: bool)
        ensures
            same == (*self == *other),
    {
        self.send == other.send && self.recv == other.recv && self.peer.same(&other.peer)
    }

    /// Another value of the same identifier.
    pub fn duplicate(&self) -> (copy: Self)
        ensures
            copy == *self,
    {
        ConnectionId { send: self.send, recv: self.recv, peer: self.peer.duplicate() }
    }
}

/// The map that a list of entries stands for.
pub open spec fn entries_map<P, V>(entries: Seq<(ConnectionId<P>, V)>) -> Map<ConnectionId<P>, V>
    decreases entries.len(),
{
    if entries.len() == 0 {
        Map::empty()
    } else {
        entries_map(entries.drop_last()).insert(entries.last().0, entries.last().1)
    }
}

/// No identifier occurs twice.
pub open spec fn distinct<P, V>(entries: Seq<(ConnectionId<P>, V)>) -> bool {
    forall|i: int, j: int|
        0 <= i < j < entries.len() ==> (#[trigger] entries[i]).0 != (#[trigger] entries[j]).0
}

/// Distinct entries are the entries of their map.
proof fn lemma_entries<P, V>(entries: Seq<(ConnectionId<P>, V)>)
    requires
        distinct(entries),
    ensures
        entries_map(entries).dom().finite(),
        entries_map(entries).dom().len() == entries.len(),
        forall|i: int|
            0 <= i < entries.len() ==> entries_map(entries).contains_key(
                (#[trigger] entries[i]).0,
            ) && entries_map(entries)[entries[i].0] == entries[i].1,
        forall|cid: ConnectionId<P>| #[trigger]
            entries_map(entries).contains_key(cid) ==> exists|i: int|
                0 <= i < entries.len() && (#[trigger] entries[i]).0 == cid,
    decreases entries.len(),
{
    if entries.len() > 0 {
        let rest = entries.drop_last();
        let last = entries.last();
        lemma_entries(rest);
        assert forall|i: int| 0 <= i < entries.len() implies entries_map(entries).contains_key(
            (#[trigger] entries[i]).0,
        ) && entries_map(entries)[entries[i].0] == entries[i].1 by {
            if i < rest.len() {
                assert(rest[i] == entries[i]);
                assert(entries[i].0 != entries[entries.len() - 1].0);
            }
        }
        assert forall|cid: ConnectionId<P>| #[trigger]
            entries_map(entries).contains_key(cid) implies exists|i: int|
            0 <= i < entries.len() && (#[trigger] entries[i]).0 == cid by {
            if cid == last.0 {
                assert(entries[entries.len() - 1].0 == cid);
            } else {
                assert(entries_map(rest).contains_key(cid));
                let i = choose|i: int| 0 <= i < rest.len() && (#[trigger] rest[i]).0 == cid;
                assert(entries[i].0 == cid);
            }
        }
        assert(!entries_map(rest).contains_key(last.0)) by {
            if entries_map(rest).contains_key(last.0) {
                let i = choose|i: int| 0 <= i < rest.len() && (#[trigger] rest[i]).0 == last.0;
                assert(entries[i].0 == entries[entries.len() - 1].0);
            }
        }
        assert(entries_map(entries).dom() =~= entries_map(rest).dom().insert(last.0));
    }
}

/// Dropping one of distinct entries removes its identifier from the map.
proof fn lemma_entry_removed<P, V>(entries: Seq<(ConnectionId<P>, V)>, i: int)
    requires
        distinct(entries),
        0 <= i < entries.len(),
    ensures
        distinct(entries.remove(i)),
        entries_map(entries.remove(i)) == entries_map(entries).remove(entries[i].0),
{
    let rest = entries.remove(i);
    assert(distinct(rest)) by {
        assert forall|a: int, b: int| 0 <= a < b < rest.len() implies (#[trigger] rest[a]).0 != (
        #[trigger] rest[b]).0 by {
            let a0 = if a < i {
                a
            } else {
                a + 1
            };
            let b0 = if b < i {
                b
            } else {
                b + 1
            };
            assert(entries[a0].0 != entries[b0].0);
        }
    }
    lemma_entries(entries);
    lemma_entries(rest);
    let before = entries_map(entries).remove(entries[i].0);
    let after = entries_map(rest);
    assert forall|cid: ConnectionId<P>|
        after.contains_key(cid) implies #[trigger] before.contains_key(cid) && after[cid]
        == before[cid] by {
        let a = choose|a: int| 0 <= a < rest.len() && (#[trigger] rest[a]).0 == cid;
        let a0 = if a < i {
            a
        } else {
            a + 1
        };
        assert(entries[a0] == rest[a]);
        assert(entries[a0].0 != entries[i].0);
    }
    assert forall|cid: ConnectionId<P>| before.contains_key(cid) implies #[trigger]
        after.contains_key(cid) by {
        let a = choose|a: int| 0 <= a < entries.len() && (#[trigger] entries[a]).0 == cid;
        let a0 = if a < i {
            a
        } else {
            a - 1
        };
        assert(rest[a0] == entries[a]);
    }
    assert(after =~= before);
}

/// A map keyed by connection identifiers.
#[derive(Clone, Debug)]
pub struct ConnectionMap<P, V> {
    entries: Vec<(ConnectionId<P>, V)>,
}

impl<P, V> View for ConnectionMap<P, V> {
    type V = Map<ConnectionId<P>, V>;

    closed spec fn view(&self) -> Map<ConnectionId<P>, V> {
        entries_map(self.entries@)
    }
}

impl<P: ConnectionPeer, V> ConnectionMap<P, V> {
    /// No identifier occurs twice.
    pub closed spec fn wf(self) -> bool {
        distinct(self.entries@)
    }

    /// An empty map.
    pub fn new() -> (map: Self)
        ensures
            map.wf(),
            map@ == Map::<ConnectionId<P>, V>::empty(),
    {
        ConnectionMap { entries: Vec::new() }
    }

    /// The number of entries.
    pub fn len(&self) -> (len: usize)
        requires
            self.wf(),
        ensures
            self@.dom().finite(),
            len == self@.dom().len(),
    {
        proof {
            lemma_entries(self.entries@);
        }
        self.entries.len()
    }

    /// Whether there is no entry.
    pub fn is_empty(&self) -> (empty: bool)
        requires
            self.wf(),
        ensures
            empty == (self@ == Map::<ConnectionId<P>, V>::empty()),
    {
        proof {
            lemma_entries(self.entries@);
            if self.entries@.len() > 0 {
                assert(self@.contains_key(self.entries@[0].0));
            } else {
                assert(self@ =~= Map::<ConnectionId<P>, V>::empty());
            }
        }
        self.entries.len() == 0
    }

    /// Where the entry under an identifier stands.
    fn find(&self, cid: &ConnectionId<P>) -> (place: Option<usize>)
        requires
            self.wf(),
        ensures
            match place {
                Some(i) => i < self.entries@.len() && self.entries@[i as int].0 == *cid
                    && self@.contains_key(*cid) && self@[*cid] == self.entries@[i as int].1,
                None => !self@.contains_key(*cid),
            },
    {
        proof {
            lemma_entries(self.entries@);
        }
        let mut i: usize = 0;
        while i < self.entries.len()
            invariant
                self.wf(),
                i <= self.entries@.len(),
                forall|j: int| 0 <= j < i ==> (#[trigger] self.entries@[j]).0 != *cid,
            decreases self.entries@.len() - i,
        {
            if self.entries[i].0.same(cid) {
                proof {
                    lemma_entries(self.entries@);
                    assert(entries_map(self.entries@).contains_key(self.entries@[i as int].0));
                }
                return Some(i);
            }
            i = i + 1;
        }
        None
    }

    /// Whether there is an entry under an identifier.
    pub fn contains_key(&self, cid: &ConnectionId<P>) -> (contained: bool)
        requires
            self.wf(),
        ensures
            contained == self@.contains_key(*cid),
    {
        self.find(cid).is_some()
    }

    /// The value under an identifier.
    pub fn get(&self, cid: &ConnectionId<P>) -> (value: Option<&V>)
        requires
            self.wf(),
        ensures
            match value {
                Some(value) => self@.contains_key(*cid) && self@[*cid] == *value,
                None => !self@.contains_key(*cid),
            },
    {
        match self.find(cid) {
            Some(i) => Some(&self.entries[i].1),
            None => None,
        }
    }

    /// Takes the value under an identifier out of the map.
    pub fn remove(&mut self, cid: &ConnectionId<P>) -> (value: Option<V>)
        requires
            old(self).wf(),
        ensures
            final(self).wf(),
            final(self)@ == old(self)@.remove(*cid),
            value == (if old(self)@.contains_key(*cid) {
                Some(old(self)@[*cid])
            } else {
                None
            }),
    {
        match self.find(cid) {
            Some(i) => {
                proof {
                    lemma_entry_removed(self.entries@, i as int);
                }
                let entry = self.entries.remove(i);
                Some(entry.1)
            },
            None => {
                assert(self@.remove(*cid) =~= self@);
                None
            },
        }
    }

    /// Puts a value under an identifier, and hands out the value that was there.
    pub fn insert(&mut self, cid: ConnectionId<P>, value: V) -> (replaced: Option<V>)
        requires
            old(self).wf(),
        ensures
            final(self).wf(),
            final(self)@ == old(self)@.insert(cid, value),
            replaced == (if old(self)@.contains_key(cid) {
                Some(old(self)@[cid])
            } else {
                None
            }),
    {
        let ghost before = self@;
        let replaced = self.remove(&cid);
        let ghost entries = self.entries@;
        proof {
            lemma_entries(entries);
            assert forall|i: int| 0 <= i < entries.len() implies (#[trigger] entries[i]).0
                != cid by {
                assert(entries_map(entries).contains_key(entries[i].0));
            }
        }
        self.entries.push((cid, value));
        proof {
            assert(self.entries@.drop_last() == entries);
            assert(self@ =~= before.insert(cid, value));
        }
        replaced
    }

    /// Some identifier that has an entry.
    pub fn any_key(&self) -> (cid: Option<ConnectionId<P>>)
        requires
            self.wf(),
        ensures
            match cid {
                Some(cid) => self@.contains_key(cid),
                None => self@ == Map::<ConnectionId<P>, V>::empty(),
            },
    {
        if self.is_empty() {
            None
        } else {
            proof {
                lemma_entries(self.entries@);
                if self.entries@.len() == 0 {
                    assert(self@ =~= Map::<ConnectionId<P>, V>::empty());
                }
            }
            Some(self.entries[0].0.duplicate())
        }
    }

    /// The identifiers that have an entry, in the order of the entries.
    pub closed spec fn order(self) -> Seq<ConnectionId<P>> {
        self.entries@.map_values(|entry: (ConnectionId<P>, V)| entry.0)
    }

    /// The values of all entries, each once.
    pub fn values(&self) -> (values: Vec<&V>)
        requires
            self.wf(),
        ensures
            self.order().no_duplicates(),
            forall|cid: ConnectionId<P>| #[trigger]
                self@.contains_key(cid) <==> self.order().contains(cid),
            values@.len() == self.order().len(),
            forall|i: int|
                0 <= i < values@.len() ==> *(#[trigger] values@[i]) == self@[self.order()[i]],
    {
        let mut values: Vec<&V> = Vec::new();
        let mut i: usize = 0;
        while i < self.entries.len()
            invariant
                i <= self.entries@.len(),
                values@.len() == i,
                forall|j: int| 0 <= j < i ==> *(#[trigger] values@[j]) == self.entries@[j].1,
            decreases self.entries@.len() - i,
        {
            values.push(&self.entries[i].1);
            i = i + 1;
        }
        proof {
            lemma_entries(self.entries@);
            let order = self.order();
            assert forall|cid: ConnectionId<P>| #[trigger]
                self@.contains_key(cid) <==> order.contains(cid) by {
                if self@.contains_key(cid) {
                    let j = choose|j: int|
                        0 <= j < self.entries@.len() && (#[trigger] self.entries@[j]).0 == cid;
                    assert(order[j] == cid);
                }
                if order.contains(cid) {
                    let j = choose|j: int| 0 <= j < order.len() && order[j] == cid;
                    assert(self.entries@[j].0 == cid);
                }
            }
            assert forall|j: int| 0 <= j < values@.len() implies *(#[trigger] values@[j])
                == self@[order[j]] by {
                assert(self.entries@[j].0 == order[j]);
            }
            assert forall|a: int, b: int|
                0 <= a < order.len() && 0 <= b < order.len() && a != b implies order[a]
                != order[b] by {
                assert(self.entries@[a].0 == order[a] && self.entries@[b].0 == order[b]);
            }
        }
        values
    }
}

/// Hands out connection identifiers, none of them twice.
#[derive(Clone, Debug)]
pub struct StdConnectionIdGenerator<P> {
    issued: ConnectionMap<P, ()>,
}

impl<P: ConnectionPeer> StdConnectionIdGenerator<P> {
    /// The set of identifiers handed out is kept without repetition.
    pub closed spec fn wf(self) -> bool {
        self.issued.wf()
    }

    /// The identifiers handed out so far.
    pub closed spec fn issued(self) -> Set<ConnectionId<P>> {
        self.issued@.dom()
    }

    /// A generator that has handed out nothing.
    pub fn new() -> (generator: Self)
        ensures
            generator.wf(),
            generator.issued() == Set::<ConnectionId<P>>::empty(),
    {
        StdConnectionIdGenerator { issued: ConnectionMap::new() }
    }

    /// Hands out the identifier that receives under the number drawn, unless it was handed out
    /// before.
    pub fn offer(&mut self, peer: P, is_initiator: bool, draw: u16) -> (cid: Option<
        ConnectionId<P>,
    >)
        requires
            old(self).wf(),
        ensures
            final(self).wf(),
            ({
                let offered = cid_for(peer, is_initiator, draw);
                if old(self).issued().contains(offered) {
                    cid is None && final(self).issued() == old(self).issued()
                } else {
                    cid == Some(offered) && final(self).issued() == old(self).issued().insert(
                        offered,
                    )
                }
            }),
    {
        let send: u16 = if is_initiator {
            draw.wrapping_add(1)
        } else {
            draw.wrapping_sub(1)
        };
        let cid = ConnectionId { send, recv: draw, peer };
        if self.issued.contains_key(&cid) {
            return None;
        }
        let ghost before = self.issued@;
        self.issued.insert(cid.duplicate(), ());
        assert(before.insert(cid, ()).dom() =~= before.dom().insert(cid));
        Some(cid)
    }

    /// Hands out the first identifier that was not handed out before, with the receiving numbers
    /// tried from the number drawn on; `None` if all identifiers for the peer are taken.
    pub fn issue(&mut self, peer: P, is_initiator: bool, draw: u16) -> (cid: Option<
        ConnectionId<P>,
    >)
        requires
            old(self).wf(),
        ensures
            final(self).wf(),
            match cid {
                Some(cid) => {
                    &&& cid == cid_for(peer, is_initiator, cid.recv)
                    &&& !old(self).issued().contains(cid)
                    &&& forall|steps: int|
                        0 <= steps < distance(draw, cid.recv) ==> old(self).issued().contains(
                            cid_for(peer, is_initiator, #[trigger] nth_after(draw, steps)),
                        )
                    &&& final(self).issued() == old(self).issued().insert(cid)
                },
                None => {
                    &&& forall|recv: u16|
                        old(self).issued().contains(#[trigger] cid_for(peer, is_initiator, recv))
                    &&& final(self).issued() == old(self).issued()
                },
            },
    {
        let ghost before = self.issued();
        let mut step: u32 = 0;
        while step < 0x1_0000
            invariant
                self.wf(),
                before == old(self).issued(),
                self.issued() == before,
                step <= 0x1_0000,
                forall|steps: int|
                    0 <= steps < step ==> before.contains(
                        cid_for(peer, is_initiator, #[trigger] nth_after(draw, steps)),
                    ),
            decreases 0x1_0000 - step,
        {
            let recv: u16 = draw.wrapping_add(step as u16);
            assert(recv == nth_after(draw, step as int));
            assert(distance(draw, recv) == step);
            if let Some(cid) = self.offer(peer.duplicate(), is_initiator, recv) {
                return Some(cid);
            }
            step = step + 1;
        }
        assert forall|recv: u16|
            before.contains(#[trigger] cid_for(peer, is_initiator, recv)) by {
            assert(recv == nth_after(draw, distance(draw, recv)));
        }
        None
    }
}

/// The two ends of a connection agree: what one end sends under, the other receives under, and
/// the identifiers that each forms from its own receiving number are mirror images.
pub proof fn law_ends_mirror<P>(here: P, there: P, is_initiator: bool, recv: u16)
    ensures
        ({
            let near = cid_for(there, is_initiator, recv);
            let far = cid_for(here, !is_initiator, near.send);
            far.recv == near.send && far.send == near.recv
        }),
{
}

/// Whoever initiates a connection sends under the number after the one it receives under, and the
/// other end under the number before. Different receiving numbers make different identifiers.
pub proof fn law_identifiers<P>(peer: P, recv: u16, other: u16)
    ensures
        cid_for(peer, true, recv).recv == recv,
        cid_for(peer, false, recv).recv == recv,
        cid_for(peer, true, recv).send == nth_after(recv, 1),
        cid_for(peer, false, recv).send == nth_after(recv, -1),
        cid_for(peer, true, recv).peer == peer,
        cid_for(peer, false, recv).peer == peer,
        cid_for(peer, true, recv) == cid_for(peer, true, other) ==> recv == other,
        cid_for(peer, true, recv) != cid_for(peer, false, other),
{
}

} // verus!
