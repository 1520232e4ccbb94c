//! The decisions of a socket: to which connection a packet belongs, and what each event leads to.

use vstd::prelude::*;

use crate::cid::{cid_for, ConnectionId, ConnectionMap, ConnectionPeer};
use crate::packet::{Packet, PacketType};
use crate::seq::nth_after;

verus! {

/// The ways to read the identifiers of a connection off a packet.
#[derive(Clone, Copy, Debug, PartialEq, Eq, Structural)]
pub enum IdType {
    RecvId,
    SendIdWeInitiated,
    SendIdPeerInitiated,
}

/// The identifiers of the connection that a packet from `src` belongs to, read one of three ways.
pub open spec fn packet_cid<P>(packet: Packet, src: P, id_type: IdType) -> ConnectionId<P> {
    let id = packet.conn_id;
    match id_type {
        IdType::RecvId => if packet.packet_type == PacketType::Syn {
            ConnectionId { send: id, recv: id.wrapping_add(1), peer: src }
        } else {
            ConnectionId { send: id.wrapping_sub(1), recv: id, peer: src }
        },
        IdType::SendIdWeInitiated => ConnectionId {
            send: id.wrapping_add(1),
            recv: id,
            peer: src,
        },
        IdType::SendIdPeerInitiated => ConnectionId {
            send: id,
            recv: id.wrapping_sub(1),
            peer: src,
        },
    }
}

/// The identifiers of the connection that a packet from `src` belongs to, read one of three ways.
pub fn cid_from_packet<P: ConnectionPeer>(packet: &Packet, src: &P, id_type: IdType) -> (cid:
    ConnectionId<P>)
    ensures
        cid == packet_cid(*packet, *src, id_type),
{
    match id_type {
        IdType::RecvId => {
            let (send, recv) = match packet.packet_type() {
                PacketType::Syn => (packet.conn_id(), packet.conn_id().wrapping_add(1)),
                PacketType::State | PacketType::Data | PacketType::Fin | PacketType::Reset => (
                    packet.conn_id().wrapping_sub(1),
                    packet.conn_id(),
                ),
            };
            ConnectionId { send, recv, peer: src.duplicate() }
        },
        IdType::SendIdWeInitiated => {
            let (send, recv) = (packet.conn_id().wrapping_add(1), packet.conn_id());
            ConnectionId { send, recv, peer: src.duplicate() }
        },
        IdType::SendIdPeerInitiated => {
            let (send, recv) = (packet.conn_id(), packet.conn_id().wrapping_sub(1));
            ConnectionId { send, recv, peer: src.duplicate() }
        },
    }
}

/// What to do with a packet that arrived.
pub enum PacketAction<P, A> {
    /// Hand the packet to the open connection.
    Deliver { cid: ConnectionId<P>, packet: Packet },
    /// Open a connection for the request that was waiting for it.
    Open { cid: ConnectionId<P>, accept: A, syn: Packet },
    /// Nothing: the packet waits for a request.
    Queued,
    /// Nothing: the packet belongs to no connection.
    Unroutable { packet: Packet },
}

/// What to do with a request to accept a connection.
pub enum AcceptAction<P, A> {
    /// Open a connection for the request.
    Open { cid: ConnectionId<P>, accept: A, syn: Packet },
    /// Nothing: the request waits for a packet.
    Waiting,
}

/// The reasons for which a connection cannot be had.
#[derive(Clone, Copy, Debug, PartialEq, Eq)]
pub enum SocketError<E> {
    NotConnected,
    TimedOut,
    ConnectionAborted,
    ConnectionIdUnavailable,
    /// The connection itself failed.
    Failed(E),
}

/// Open connections, requests that wait for a packet, and packets that wait for a request.
#[verifier::ext_equal]
#[verifier::reject_recursive_types(P)]
pub struct SocketView<P, C, A> {
    pub conns: Map<ConnectionId<P>, C>,
    pub awaiting: Map<ConnectionId<P>, A>,
    pub incoming: Map<ConnectionId<P>, Packet>,
}

impl<P, C, A> SocketView<P, C, A> {
    /// The open connection that a packet belongs to: the first of the three readings under which
    /// one is open.
    pub open spec fn route(self, packet: Packet, src: P) -> Option<ConnectionId<P>> {
        let accepted = packet_cid(packet, src, IdType::RecvId);
        let we_init = packet_cid(packet, src, IdType::SendIdWeInitiated);
        let peer_init = packet_cid(packet, src, IdType::SendIdPeerInitiated);
        if self.conns.contains_key(accepted) {
            Some(accepted)
        } else if self.conns.contains_key(we_init) {
            Some(we_init)
        } else if self.conns.contains_key(peer_init) {
            Some(peer_init)
        } else {
            None
        }
    }

    /// What a packet from `src` leads to, and the state after it.
    pub open spec fn after_packet(self, packet: Packet, src: P) -> (Self, PacketAction<P, A>) {
        let cid = packet_cid(packet, src, IdType::RecvId);
        match self.route(packet, src) {
            Some(open) => (self, PacketAction::Deliver { cid: open, packet }),
            None => if packet.packet_type != PacketType::Syn {
                (self, PacketAction::Unroutable { packet })
            } else if self.awaiting.contains_key(cid) {
                (
                    SocketView { awaiting: self.awaiting.remove(cid), ..self },
                    PacketAction::Open { cid, accept: self.awaiting[cid], syn: packet },
                )
            } else {
                (
                    SocketView { incoming: self.incoming.insert(cid, packet), ..self },
                    PacketAction::Queued,
                )
            },
        }
    }

    /// What a request to accept the connection `cid` leads to, and the state after it.
    pub open spec fn after_accept(self, accept: A, cid: ConnectionId<P>) -> (
        Self,
        AcceptAction<P, A>,
    ) {
        if self.incoming.contains_key(cid) {
            (
                SocketView { incoming: self.incoming.remove(cid), ..self },
                AcceptAction::Open { cid, accept, syn: self.incoming[cid] },
            )
        } else {
            (
                SocketView { awaiting: self.awaiting.insert(cid, accept), ..self },
                AcceptAction::Waiting,
            )
        }
    }
}

/// The state of a socket: `C` is the channel to a connection, `A` a request to accept one.
pub struct SocketState<P, C, A> {
    conns: ConnectionMap<P, C>,
    awaiting: ConnectionMap<P, A>,
    incoming: ConnectionMap<P, Packet>,
}

impl<P, C, A> View for SocketState<P, C, A> {
    type V = SocketView<P, C, A>;

    closed spec fn view(&self) -> SocketView<P, C, A> {
        SocketView { conns: self.conns@, awaiting: self.awaiting@, incoming: self.incoming@ }
    }
}

impl<P: ConnectionPeer, C, A> SocketState<P, C, A> {
    /// The maps are well formed.
    pub closed spec fn wf(self) -> bool {
        self.conns.wf() && self.awaiting.wf() && self.incoming.wf()
    }

    /// A socket without connections.
    pub fn new() -> (state: Self)
        ensures
            state.wf(),
            state@ == (SocketView::<P, C, A> {
                conns: Map::empty(),
                awaiting: Map::empty(),
                incoming: Map::empty(),
            }),
    {
        SocketState {
            conns: ConnectionMap::new(),
            awaiting: ConnectionMap::new(),
            incoming: ConnectionMap::new(),
        }
    }

    /// The number of connections currently open, both inbound and outbound.
    pub fn num_connections(&self) -> (count: usize)
        requires
            self.wf(),
        ensures
            self@.conns.dom().finite(),
            count == self@.conns.dom().len(),
    {
        self.conns.len()
    }

    /// Decides what to do with a packet from `src`.
    pub fn on_packet(&mut self, packet: Packet, src: &P) -> (action: PacketAction<P, A>)
        requires
            old(self).wf(),
        ensures
            final(self).wf(),
            (final(self)@, action) == old(self)@.after_packet(packet, *src),
    {
        let peer_init_cid = cid_from_packet(&packet, src, IdType::SendIdPeerInitiated);
        let we_init_cid = cid_from_packet(&packet, src, IdType::SendIdWeInitiated);
        let cid = cid_from_packet(&packet, src, IdType::RecvId);
        if self.conns.contains_key(&cid) {
            return PacketAction::Deliver { cid, packet };
        }
        if self.conns.contains_key(&we_init_cid) {
            return PacketAction::Deliver { cid: we_init_cid, packet };
        }
        if self.conns.contains_key(&peer_init_cid) {
            return PacketAction::Deliver { cid: peer_init_cid, packet };
        }
        if packet.packet_type() != PacketType::Syn {
            return PacketAction::Unroutable { packet };
        }
        let ghost before = self@;
        match self.awaiting.remove(&cid) {
            Some(accept) => PacketAction::Open { cid, accept, syn: packet },
            None => {
                assert(self.awaiting@ =~= before.awaiting);
                self.incoming.insert(cid, packet);
                PacketAction::Queued
            },
        }
    }

    /// Whether a packet waits for a request; requests are taken up only while one does.
    pub fn has_incoming(&self) -> (some: bool)
        requires
            self.wf(),
        ensures
            some == (self@.incoming != Map::<ConnectionId<P>, Packet>::empty()),
    {
        !self.incoming.is_empty()
    }

    /// Decides what to do with a request to accept a connection: the one with the given
    /// identifiers, or else any for which a packet waits.
    pub fn on_accept(&mut self, accept: A, cid: Option<ConnectionId<P>>) -> (action: AcceptAction<
        P,
        A,
    >)
        requires
            old(self).wf(),
            cid is None ==> old(self)@.incoming != Map::<ConnectionId<P>, Packet>::empty(),
        ensures
            final(self).wf(),
            match cid {
                Some(cid) => (final(self)@, action) == old(self)@.after_accept(accept, cid),
                None => exists|any: ConnectionId<P>| #[trigger]
                    old(self)@.incoming.contains_key(any) && (final(self)@, action) == old(
                        self,
                    )@.after_accept(accept, any),
            },
    {
        let cid = match cid {
            Some(cid) => cid,
            None => match self.incoming.any_key() {
                Some(any) => any,
                None => {
                    return AcceptAction::Waiting;
                },
            },
        };
        let ghost before = self@;
        match self.incoming.remove(&cid) {
            Some(syn) => AcceptAction::Open { cid, accept, syn },
            None => {
                assert(self.incoming@ =~= before.incoming);
                self.awaiting.insert(cid, accept);
                AcceptAction::Waiting
            },
        }
    }

    /// Notes the channel of a connection that is opened; a channel noted before is dropped.
    pub fn open(&mut self, cid: ConnectionId<P>, channel: C)
        requires
            old(self).wf(),
        ensures
            final(self).wf(),
            final(self)@ == (SocketView {
                conns: old(self)@.conns.insert(cid, channel),
                ..old(self)@
            }),
    {
        self.conns.insert(cid, channel);
    }

    /// Notes the channel of a connection that is opened, unless its identifiers are in use.
    pub fn open_with_cid<E>(&mut self, cid: ConnectionId<P>, channel: C) -> (result: Result<
        (),
        SocketError<E>,
    >)
        requires
            old(self).wf(),
        ensures
            final(self).wf(),
            if old(self)@.conns.contains_key(cid) {
                result == Err::<(), SocketError<E>>(SocketError::ConnectionIdUnavailable)
                    && final(self)@ == old(self)@
            } else {
                result is Ok && final(self)@ == (SocketView {
                    conns: old(self)@.conns.insert(cid, channel),
                    ..old(self)@
                })
            },
    {
        if self.conns.contains_key(&cid) {
            return Err(SocketError::ConnectionIdUnavailable);
        }
        self.open(cid, channel);
        Ok(())
    }

    /// Forgets a connection that has shut down.
    pub fn close(&mut self, cid: &ConnectionId<P>)
        requires
            old(self).wf(),
        ensures
            final(self).wf(),
            final(self)@ == (SocketView { conns: old(self)@.conns.remove(*cid), ..old(self)@ }),
    {
        self.conns.remove(cid);
    }

    /// The channel of an open connection.
    pub fn channel(&self, cid: &ConnectionId<P>) -> (channel: Option<&C>)
        requires
            self.wf(),
        ensures
            match channel {
                Some(channel) => self@.conns.contains_key(*cid) && self@.conns[*cid] == *channel,
                None => !self@.conns.contains_key(*cid),
            },
    {
        self.conns.get(cid)
    }

    /// The identifiers of the open connections, in some order.
    pub closed spec fn order(self) -> Seq<ConnectionId<P>> {
        self.conns.order()
    }

    /// The channels of all open connections, each once.
    pub fn channels(&self) -> (channels: Vec<&C>)
        requires
            self.wf(),
        ensures
            self.order().no_duplicates(),
            forall|cid: ConnectionId<P>| #[trigger]
                self@.conns.contains_key(cid) <==> self.order().contains(cid),
            channels@.len() == self.order().len(),
            forall|i: int|
                0 <= i < channels@.len() ==> *(#[trigger] channels@[i])
                    == self@.conns[self.order()[i]],
    {
        self.conns.values()
    }
}

/// What a request to accept comes to once it is answered, or once no answer can come any more.
pub fn accepted<S, E>(answer: Option<Result<S, E>>) -> (result: Result<S, SocketError<E>>)
    ensures
        result == match answer {
            Some(Ok(stream)) => Ok(stream),
            Some(Err(error)) => Err(SocketError::Failed(error)),
            None => Err(SocketError::TimedOut),
        },
{
    match answer {
        Some(Ok(stream)) => Ok(stream),
        Some(Err(error)) => Err(SocketError::Failed(error)),
        None => Err(SocketError::TimedOut),
    }
}

/// What an outbound connection comes to once the handshake has ended, or has been given up.
pub fn connected<S, E>(stream: S, handshake: Option<Result<(), E>>) -> (result: Result<
    S,
    SocketError<E>,
>)
    ensures
        result == match handshake {
            Some(Ok(_)) => Ok(stream),
            Some(Err(error)) => Err(SocketError::Failed(error)),
            None => Err(SocketError::TimedOut),
        },
{
    match handshake {
        Some(Ok(_)) => Ok(stream),
        Some(Err(error)) => Err(SocketError::Failed(error)),
        None => Err(SocketError::TimedOut),
    }
}

/// What an inbound connection comes to once the handshake has ended, or has been given up.
pub fn await_connected<S, E>(stream: S, handshake: Option<Result<(), E>>) -> (result: Result<
    S,
    SocketError<E>,
>)
    ensures
        result == match handshake {
            Some(Ok(_)) => Ok(stream),
            Some(Err(error)) => Err(SocketError::Failed(error)),
            None => Err(SocketError::ConnectionAborted),
        },
{
    match handshake {
        Some(Ok(_)) => Ok(stream),
        Some(Err(error)) => Err(SocketError::Failed(error)),
        None => Err(SocketError::ConnectionAborted),
    }
}

/// The connection opened for a SYN gets every later packet that the same peer sends under the
/// number after that of the SYN, and a repeated SYN as well.
pub proof fn law_peer_reaches_accepted_connection<P, C, A>(
    state: SocketView<P, C, A>,
    src: P,
    syn: Packet,
    channel: C,
    packet: Packet,
)
    requires
        syn.packet_type == PacketType::Syn,
        packet.packet_type == PacketType::Syn && packet.conn_id == syn.conn_id
            || packet.packet_type != PacketType::Syn && packet.conn_id == syn.conn_id.wrapping_add(
            1,
        ),
    ensures
        ({
            let cid = packet_cid(syn, src, IdType::RecvId);
            let open = SocketView { conns: state.conns.insert(cid, channel), ..state };
            open.after_packet(packet, src) == (
                open,
                PacketAction::<P, A>::Deliver { cid, packet },
            )
        }),
{
}

/// The connection that was initiated here gets every packet that the peer sends under the number
/// that it receives under, unless a connection that the peer initiated has that number, too.
pub proof fn law_peer_reaches_initiated_connection<P, C, A>(
    state: SocketView<P, C, A>,
    peer: P,
    recv: u16,
    packet: Packet,
)
    requires
        state.conns.contains_key(cid_for(peer, true, recv)),
        packet.conn_id == recv,
        !state.conns.contains_key(packet_cid(packet, peer, IdType::RecvId)),
    ensures
        state.route(packet, peer) == Some(cid_for(peer, true, recv)),
        state.after_packet(packet, peer) == (
            state,
            PacketAction::<P, A>::Deliver { cid: cid_for(peer, true, recv), packet },
        ),
{
}

/// A packet is only ever delivered to a connection with the peer that sent it, and that is open.
pub proof fn law_route_is_open_with_sender<P, C, A>(
    state: SocketView<P, C, A>,
    packet: Packet,
    src: P,
)
    ensures
        match state.route(packet, src) {
            Some(cid) => state.conns.contains_key(cid) && cid.peer == src,
            None => true,
        },
{
}

/// A request for a connection and the SYN for it may come in either order: both ways the same
/// connection is opened for the same request with the same SYN, and the state is as before.
pub proof fn law_request_and_syn_commute<P, C, A>(
    state: SocketView<P, C, A>,
    accept: A,
    syn: Packet,
    src: P,
)
    requires
        syn.packet_type == PacketType::Syn,
        state.route(syn, src) is None,
        !state.awaiting.contains_key(packet_cid(syn, src, IdType::RecvId)),
        !state.incoming.contains_key(packet_cid(syn, src, IdType::RecvId)),
    ensures
        ({
            let cid = packet_cid(syn, src, IdType::RecvId);
            let (requested, first) = state.after_accept(accept, cid);
            let (arrived, second) = state.after_packet(syn, src);
            &&& first == AcceptAction::<P, A>::Waiting
            &&& second == PacketAction::<P, A>::Queued
            &&& requested.after_packet(syn, src) == (
                state,
                PacketAction::<P, A>::Open { cid, accept, syn },
            )
            &&& arrived.after_accept(accept, cid) == (
                state,
                AcceptAction::<P, A>::Open { cid, accept, syn },
            )
        }),
{
    let cid = packet_cid(syn, src, IdType::RecvId);
    let (requested, first) = state.after_accept(accept, cid);
    let (arrived, second) = state.after_packet(syn, src);
    assert(requested.awaiting.remove(cid) =~= state.awaiting);
    assert(arrived.incoming.remove(cid) =~= state.incoming);
}

/// A connection that is opened counts once and one that is closed no longer: opening fresh
/// identifiers adds one to the number of connections, and closing them gives the state back.
pub proof fn law_open_then_close<P, C, A>(
    state: SocketView<P, C, A>,
    cid: ConnectionId<P>,
    channel: C,
)
    requires
        state.conns.dom().finite(),
        !state.conns.contains_key(cid),
    ensures
        state.conns.insert(cid, channel).dom().len() == state.conns.dom().len() + 1,
        state.conns.insert(cid, channel).remove(cid) == state.conns,
{
    assert(state.conns.insert(cid, channel).remove(cid) =~= state.conns);
}

/// The identifiers that the three readings give, in numbers: a SYN names the number that its
/// receiver sends under, and the receiver receives under the next; any other packet names the
/// number that its receiver receives under, or sends under if the peer initiated the connection.
pub proof fn law_readings<P>(packet: Packet, src: P)
    ensures
        packet.packet_type == PacketType::Syn ==> packet_cid(packet, src, IdType::RecvId) == (
        ConnectionId { send: packet.conn_id, recv: nth_after(packet.conn_id, 1), peer: src }),
        packet.packet_type != PacketType::Syn ==> packet_cid(packet, src, IdType::RecvId) == (
        ConnectionId { send: nth_after(packet.conn_id, -1), recv: packet.conn_id, peer: src }),
        packet_cid(packet, src, IdType::SendIdWeInitiated) == (ConnectionId {
            send: nth_after(packet.conn_id, 1),
            recv: packet.conn_id,
            peer: src,
        }),
        packet_cid(packet, src, IdType::SendIdPeerInitiated) == (ConnectionId {
            send: packet.conn_id,
            recv: nth_after(packet.conn_id, -1),
            peer: src,
        }),
{
}

/// The two ends of a connection understand one another. The SYN of the initiator, which carries
/// the number that it receives under, gives the other end the mirrored identifiers; after that
/// each end finds its own identifiers in the packets that the other sends.
pub proof fn law_handshake<P>(here: P, there: P, recv: u16, syn: Packet, data: Packet, answer: Packet)
    requires
        syn.packet_type == PacketType::Syn,
        syn.conn_id == recv,
        data.packet_type != PacketType::Syn,
        data.conn_id == cid_for(there, true, recv).send,
        answer.packet_type != PacketType::Syn,
        answer.conn_id == packet_cid(syn, here, IdType::RecvId).send,
    ensures
        ({
            let near = cid_for(there, true, recv);
            let far = packet_cid(syn, here, IdType::RecvId);
            &&& near.recv == recv && near.send == nth_after(recv, 1) && near.peer == there
            &&& far.send == near.recv && far.recv == near.send && far.peer == here
            &&& far == cid_for(here, false, far.recv)
            &&& packet_cid(data, here, IdType::RecvId) == far
            &&& packet_cid(answer, there, IdType::SendIdWeInitiated) == near
        }),
{
}

/// A packet belongs to the first open connection among the readings, taken in this order: the one
/// by the number that this end receives under, the one initiated here, the one initiated by the
/// peer. It belongs to none if none of these is open.
pub proof fn law_route_is_the_first_open_reading<P, C, A>(
    state: SocketView<P, C, A>,
    packet: Packet,
    src: P,
)
    ensures
        ({
            let id = packet.conn_id;
            let accepted = if packet.packet_type == PacketType::Syn {
                ConnectionId { send: id, recv: nth_after(id, 1), peer: src }
            } else {
                ConnectionId { send: nth_after(id, -1), recv: id, peer: src }
            };
            let we_init = ConnectionId { send: nth_after(id, 1), recv: id, peer: src };
            let peer_init = ConnectionId { send: id, recv: nth_after(id, -1), peer: src };
            let open = state.conns.dom();
            &&& open.contains(accepted) ==> state.route(packet, src) == Some(accepted)
            &&& !open.contains(accepted) && open.contains(we_init) ==> state.route(packet, src)
                == Some(we_init)
            &&& !open.contains(accepted) && !open.contains(we_init) && open.contains(peer_init)
                ==> state.route(packet, src) == Some(peer_init)
            &&& !open.contains(accepted) && !open.contains(we_init) && !open.contains(peer_init)
                ==> state.route(packet, src) is None
        }),
{
}

/// A packet that has a route is delivered to that connection, whatever its type and whichever
/// reading found it, and changes nothing else. Nothing but a packet with a route is delivered.
pub proof fn law_routed_packet_is_delivered<P, C, A>(
    state: SocketView<P, C, A>,
    packet: Packet,
    src: P,
)
    ensures
        state.route(packet, src) is Some ==> state.after_packet(packet, src) == (
            state,
            PacketAction::<P, A>::Deliver { cid: state.route(packet, src)->Some_0, packet },
        ),
        state.route(packet, src) is None ==> !(state.after_packet(packet, src).1 is Deliver),
{
}

/// A packet is delivered to an open connection with its sender whenever one of the three readings
/// names one.
pub proof fn law_no_packet_of_an_open_connection_is_dropped<P, C, A>(
    state: SocketView<P, C, A>,
    packet: Packet,
    src: P,
    id_type: IdType,
)
    requires
        state.conns.contains_key(packet_cid(packet, src, id_type)),
    ensures
        match state.after_packet(packet, src) {
            (after, PacketAction::Deliver { cid, packet: delivered }) => {
                &&& after == state
                &&& delivered == packet
                &&& cid.peer == src
                &&& state.conns.contains_key(cid)
            },
            _ => false,
        },
{
}

/// Only a SYN ever opens or queues a connection: a packet of any other type without a route leaves
/// the state as it was and is reported.
pub proof fn law_only_a_syn_opens_or_queues<P, C, A>(
    state: SocketView<P, C, A>,
    packet: Packet,
    src: P,
)
    ensures
        state.route(packet, src) is None && packet.packet_type != PacketType::Syn
            ==> state.after_packet(packet, src) == (
            state,
            PacketAction::<P, A>::Unroutable { packet },
        ),
        packet.packet_type == PacketType::Syn ==> !(state.after_packet(
            packet,
            src,
        ).1 is Unroutable),
        state.after_packet(packet, src).1 is Open || state.after_packet(packet, src).1 is Queued
            ==> packet.packet_type == PacketType::Syn && state.route(packet, src) is None,
{
}

/// A SYN without a route takes up the request that waits for its connection, if there is one, and
/// waits for a request else. It touches no other request and no other packet.
pub proof fn law_syn_meets_its_request<P, C, A>(
    state: SocketView<P, C, A>,
    syn: Packet,
    src: P,
    other: ConnectionId<P>,
)
    requires
        syn.packet_type == PacketType::Syn,
        state.route(syn, src) is None,
    ensures
        ({
            let cid = ConnectionId { send: syn.conn_id, recv: nth_after(syn.conn_id, 1), peer: src };
            let (after, action) = state.after_packet(syn, src);
            &&& after.conns == state.conns
            &&& other != cid ==> {
                &&& after.awaiting.contains_key(other) == state.awaiting.contains_key(other)
                &&& state.awaiting.contains_key(other) ==> after.awaiting[other]
                    == state.awaiting[other]
                &&& after.incoming.contains_key(other) == state.incoming.contains_key(other)
                &&& state.incoming.contains_key(other) ==> after.incoming[other]
                    == state.incoming[other]
            }
            &&& state.awaiting.contains_key(cid) ==> {
                &&& action == PacketAction::Open { cid, accept: state.awaiting[cid], syn }
                &&& !after.awaiting.contains_key(cid)
                &&& after.incoming == state.incoming
            }
            &&& !state.awaiting.contains_key(cid) ==> {
                &&& action == PacketAction::<P, A>::Queued
                &&& after.incoming.contains_key(cid) && after.incoming[cid] == syn
                &&& after.awaiting == state.awaiting
            }
        }),
{
}

/// A request takes up the SYN that waits for it, if there is one, and waits for a SYN else. It
/// touches no other request, no other packet and no connection.
pub proof fn law_request_meets_its_syn<P, C, A>(
    state: SocketView<P, C, A>,
    accept: A,
    cid: ConnectionId<P>,
    other: ConnectionId<P>,
)
    ensures
        ({
            let (after, action) = state.after_accept(accept, cid);
            &&& after.conns == state.conns
            &&& other != cid ==> {
                &&& after.awaiting.contains_key(other) == state.awaiting.contains_key(other)
                &&& state.awaiting.contains_key(other) ==> after.awaiting[other]
                    == state.awaiting[other]
                &&& after.incoming.contains_key(other) == state.incoming.contains_key(other)
                &&& state.incoming.contains_key(other) ==> after.incoming[other]
                    == state.incoming[other]
            }
            &&& state.incoming.contains_key(cid) ==> {
                &&& action == AcceptAction::Open { cid, accept, syn: state.incoming[cid] }
                &&& !after.incoming.contains_key(cid)
                &&& after.awaiting == state.awaiting
            }
            &&& !state.incoming.contains_key(cid) ==> {
                &&& action == AcceptAction::<P, A>::Waiting
                &&& after.awaiting.contains_key(cid) && after.awaiting[cid] == accept
                &&& after.incoming == state.incoming
            }
        }),
{
}

/// Every packet that waits for a request is a SYN, and waits under the identifiers that it names.
pub open spec fn only_syns_wait<P, C, A>(state: SocketView<P, C, A>) -> bool {
    forall|cid: ConnectionId<P>| #[trigger]
        state.incoming.contains_key(cid) ==> {
            let syn = state.incoming[cid];
            &&& syn.packet_type == PacketType::Syn
            &&& cid.send == syn.conn_id
            &&& cid.recv == nth_after(syn.conn_id, 1)
        }
}

/// Whatever arrives, every packet that waits is a SYN, and every connection that is opened is
/// opened with a SYN that names its identifiers.
pub proof fn law_connections_open_with_syns<P, C, A>(
    state: SocketView<P, C, A>,
    packet: Packet,
    src: P,
    accept: A,
    cid: ConnectionId<P>,
)
    requires
        only_syns_wait(state),
    ensures
        only_syns_wait(state.after_packet(packet, src).0),
        only_syns_wait(state.after_accept(accept, cid).0),
        match state.after_packet(packet, src).1 {
            PacketAction::Open { cid: opened, accept: _, syn } => {
                &&& syn == packet
                &&& syn.packet_type == PacketType::Syn
                &&& opened.send == syn.conn_id
                &&& opened.recv == nth_after(syn.conn_id, 1)
                &&& opened.peer == src
            },
            _ => true,
        },
        match state.after_accept(accept, cid).1 {
            AcceptAction::Open { cid: opened, accept: taken, syn } => {
                &&& opened == cid
                &&& taken == accept
                &&& syn.packet_type == PacketType::Syn
                &&& opened.send == syn.conn_id
                &&& opened.recv == nth_after(syn.conn_id, 1)
            },
            AcceptAction::Waiting => true,
        },
{
}

/// A connection that was closed gets no packet any more, and every other one gets what it got.
pub proof fn law_closed_connection_gets_nothing<P, C, A>(
    state: SocketView<P, C, A>,
    closed: ConnectionId<P>,
    packet: Packet,
    src: P,
)
    ensures
        ({
            let after = SocketView { conns: state.conns.remove(closed), ..state };
            &&& after.route(packet, src) != Some(closed)
            &&& state.route(packet, src) is Some && state.route(packet, src) != Some(closed)
                ==> after.route(packet, src) == state.route(packet, src)
            &&& state.route(packet, src) is None ==> after.route(packet, src) is None
        }),
{
}

} // verus!
