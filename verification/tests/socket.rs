use utp_rs::cid::{ConnectionId, ConnectionMap, PeerAddr, StdConnectionIdGenerator};
use utp_rs::packet::{Packet, PacketType};
use utp_rs::socket::{
    accepted, await_connected, cid_from_packet, connected, AcceptAction, IdType, PacketAction,
    SocketError, SocketState,
};

type State = SocketState<PeerAddr, u32, &'static str>;

fn addr(port: u16) -> PeerAddr {
    PeerAddr::V4 { ip: 0x7f00_0001, port }
}

fn packet(packet_type: PacketType, conn_id: u16) -> Packet {
    Packet {
        packet_type,
        conn_id,
        ts_micros: 0,
        ts_diff_micros: 0,
        window_size: 0,
        seq_num: 1,
        ack_num: 0,
        selective_ack: None,
        payload: vec![],
    }
}

fn cid(send: u16, recv: u16, port: u16) -> ConnectionId<PeerAddr> {
    ConnectionId { send, recv, peer: addr(port) }
}

fn delivered(action: PacketAction<PeerAddr, &'static str>) -> Option<ConnectionId<PeerAddr>> {
    match action {
        PacketAction::Deliver { cid, .. } => Some(cid),
        _ => None,
    }
}

#[test]
fn test_empty_socket_conn_count() {
    let socket = State::new();
    assert_eq!(socket.num_connections(), 0);
    assert!(!socket.has_incoming());
    assert!(socket.channels().is_empty());
}

#[test]
fn test_socket_reports_two_connections() {
    let mut recv = State::new();
    let mut send = State::new();
    let (recv_addr, send_addr) = (3404, 3405);
    let pairs = [
        (cid(100, 101, send_addr), cid(101, 100, recv_addr)),
        (cid(200, 201, send_addr), cid(201, 200, recv_addr)),
    ];
    for (i, (recv_cid, send_cid)) in pairs.into_iter().enumerate() {
        send.open_with_cid::<()>(send_cid, i as u32).unwrap();
        let syn = packet(PacketType::Syn, send_cid.recv);
        match recv.on_packet(syn, &addr(send_addr)) {
            PacketAction::Queued => {}
            _ => panic!("the SYN waits for a request"),
        }
        match recv.on_accept("request", Some(recv_cid)) {
            AcceptAction::Open { cid, accept, syn } => {
                assert_eq!(cid, recv_cid);
                assert_eq!(accept, "request");
                assert_eq!(syn, packet(PacketType::Syn, send_cid.recv));
                recv.open(cid, i as u32);
            }
            AcceptAction::Waiting => panic!("the SYN has arrived"),
        }
    }

    assert_eq!(recv.num_connections(), 2);
    assert_eq!(send.num_connections(), 2);
}

#[test]
fn cids_from_packets() {
    let src = addr(9);
    let syn = packet(PacketType::Syn, 65_535);
    assert_eq!(cid_from_packet(&syn, &src, IdType::RecvId), cid(65_535, 0, 9));
    for packet_type in [PacketType::Data, PacketType::Fin, PacketType::State, PacketType::Reset] {
        let other = packet(packet_type, 0);
        assert_eq!(cid_from_packet(&other, &src, IdType::RecvId), cid(65_535, 0, 9));
        assert_eq!(cid_from_packet(&other, &src, IdType::SendIdWeInitiated), cid(1, 0, 9));
        assert_eq!(cid_from_packet(&other, &src, IdType::SendIdPeerInitiated), cid(0, 65_535, 9));
    }
}

#[test]
fn packets_reach_their_connection() {
    let mut state = State::new();
    state.open(cid(100, 101, 1), 1);
    state.open(cid(201, 200, 1), 2);
    let data = |conn_id: u16| packet(PacketType::Data, conn_id);
    // A connection that the peer initiated, and a repeated SYN for it.
    assert_eq!(delivered(state.on_packet(data(101), &addr(1))), Some(cid(100, 101, 1)));
    let syn = packet(PacketType::Syn, 100);
    assert_eq!(delivered(state.on_packet(syn, &addr(1))), Some(cid(100, 101, 1)));
    // A connection initiated here.
    assert_eq!(delivered(state.on_packet(data(200), &addr(1))), Some(cid(201, 200, 1)));
    // Read as the identifier that we send under.
    assert_eq!(delivered(state.on_packet(data(201), &addr(1))), Some(cid(201, 200, 1)));
    // From another peer nothing matches.
    match state.on_packet(data(101), &addr(2)) {
        PacketAction::Unroutable { packet } => assert_eq!(packet, data(101)),
        _ => panic!("no connection with that peer"),
    }
    assert_eq!(state.channel(&cid(201, 200, 1)), Some(&2));
    assert_eq!(state.channel(&cid(201, 200, 2)), None);
}

#[test]
fn accepted_reading_comes_first() {
    let mut state = State::new();
    state.open(cid(101, 100, 1), 1);
    let data = packet(PacketType::Data, 100);
    assert_eq!(delivered(state.on_packet(data.clone(), &addr(1))), Some(cid(101, 100, 1)));
    state.open(cid(99, 100, 1), 2);
    assert_eq!(delivered(state.on_packet(data, &addr(1))), Some(cid(99, 100, 1)));
}

#[test]
fn request_before_syn_opens_on_syn() {
    let mut state = State::new();
    let wanted = cid(100, 101, 1);
    match state.on_accept("first", Some(wanted)) {
        AcceptAction::Waiting => {}
        AcceptAction::Open { .. } => panic!("no SYN yet"),
    }
    let syn = packet(PacketType::Syn, 100);
    match state.on_packet(syn.clone(), &addr(1)) {
        PacketAction::Open { cid, accept, syn: opening } => {
            assert_eq!(cid, wanted);
            assert_eq!(accept, "first");
            assert_eq!(opening, syn);
        }
        _ => panic!("a request waits"),
    }
    // The request is used up.
    match state.on_packet(syn, &addr(1)) {
        PacketAction::Queued => {}
        _ => panic!("no request waits any more"),
    }
    assert!(state.has_incoming());
}

#[test]
fn request_without_cid_takes_any_packet() {
    let mut state = State::new();
    for id in [100, 300] {
        state.on_packet(packet(PacketType::Syn, id), &addr(1));
    }
    let mut seen = vec![];
    while state.has_incoming() {
        match state.on_accept("any", None) {
            AcceptAction::Open { cid, syn, .. } => {
                assert_eq!(cid.send, syn.conn_id);
                seen.push(cid.send);
            }
            AcceptAction::Waiting => panic!("a packet waits"),
        }
    }
    seen.sort();
    assert_eq!(seen, vec![100, 300]);
}

#[test]
fn cids_in_use_are_unavailable() {
    let mut state = State::new();
    assert_eq!(state.open_with_cid::<()>(cid(1, 2, 3), 7), Ok(()));
    assert_eq!(
        state.open_with_cid::<()>(cid(1, 2, 3), 8),
        Err(SocketError::ConnectionIdUnavailable)
    );
    assert_eq!(state.channel(&cid(1, 2, 3)), Some(&7));
    state.open(cid(1, 2, 3), 9);
    assert_eq!(state.channels(), vec![&9]);
    state.close(&cid(1, 2, 3));
    assert_eq!(state.num_connections(), 0);
}

#[test]
fn outcomes_of_handshakes() {
    assert_eq!(accepted::<_, ()>(Some(Ok(1))), Ok(1));
    assert_eq!(accepted::<u8, _>(Some(Err("no"))), Err(SocketError::Failed("no")));
    assert_eq!(accepted::<u8, ()>(None), Err(SocketError::TimedOut));
    assert_eq!(connected::<_, ()>(1, Some(Ok(()))), Ok(1));
    assert_eq!(connected(1, Some(Err("no"))), Err(SocketError::Failed("no")));
    assert_eq!(connected::<_, ()>(1, None), Err(SocketError::TimedOut));
    assert_eq!(await_connected::<_, ()>(1, Some(Ok(()))), Ok(1));
    assert_eq!(await_connected(1, Some(Err("no"))), Err(SocketError::Failed("no")));
    assert_eq!(await_connected::<_, ()>(1, None), Err(SocketError::ConnectionAborted));
}

#[test]
fn generator_never_repeats() {
    let mut generator = StdConnectionIdGenerator::new();
    assert_eq!(generator.offer(addr(1), true, 65_535), Some(cid(0, 65_535, 1)));
    assert_eq!(generator.offer(addr(1), false, 0), Some(cid(65_535, 0, 1)));
    assert_eq!(generator.offer(addr(1), true, 65_535), None);
    assert_eq!(generator.offer(addr(2), true, 65_535), Some(cid(0, 65_535, 2)));
}

#[test]
fn generator_issues_the_first_free_identifier() {
    let mut generator = StdConnectionIdGenerator::new();
    assert_eq!(generator.issue(addr(1), true, 65_534), Some(cid(65_535, 65_534, 1)));
    assert_eq!(generator.issue(addr(1), true, 65_534), Some(cid(0, 65_535, 1)));
    assert_eq!(generator.issue(addr(1), true, 65_534), Some(cid(1, 0, 1)));
    assert_eq!(generator.issue(addr(1), false, 65_534), Some(cid(65_533, 65_534, 1)));
    assert_eq!(generator.issue(addr(2), true, 65_535), Some(cid(0, 65_535, 2)));
    assert_eq!(generator.offer(addr(1), true, 0), None);
}

#[test]
fn connection_maps() {
    let mut map = ConnectionMap::new();
    assert!(map.is_empty());
    assert_eq!(map.insert(cid(1, 2, 3), 'a'), None);
    assert_eq!(map.insert(cid(1, 2, 4), 'b'), None);
    assert_eq!(map.insert(cid(1, 2, 3), 'c'), Some('a'));
    assert_eq!(map.len(), 2);
    assert_eq!(map.get(&cid(1, 2, 3)), Some(&'c'));
    assert_eq!(map.remove(&cid(1, 2, 4)), Some('b'));
    assert_eq!(map.remove(&cid(1, 2, 4)), None);
    assert_eq!(map.any_key(), Some(cid(1, 2, 3)));
    assert_eq!(map.values(), vec![&'c']);
}
