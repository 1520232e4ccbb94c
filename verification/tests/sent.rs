use std::collections::BTreeSet;

use delay_map::HashMapDelay;
use quickcheck::{quickcheck, TestResult};

use utp_rs::congestion::{Config, Controller};
use utp_rs::packet::{Packet, PacketType, SelectiveAck};
use utp_rs::sent::{SentPacket, SentPackets, SentPacketsError, LOSS_THRESHOLD};
use utp_rs::time::{Duration, Instant};

const DELAY: Duration = Duration { nanos: 100_000_000 };

fn at(nanos: u64) -> Instant {
    Instant { nanos }
}

fn sent_packets(next_seq_num: u16) -> SentPackets {
    SentPackets::new(next_seq_num, Controller::new(Config::default()))
}

fn no_waiting() -> HashMapDelay<u16, Packet> {
    HashMapDelay::new(std::time::Duration::from_secs(1))
}

fn send(sent: &mut SentPackets, count: usize) {
    for i in 0..count {
        let seq_num = sent.next_seq_num();
        sent.on_transmit(seq_num, PacketType::Data, Some(vec![0]), 1, at(i as u64));
    }
}

fn data_packet(seq_num: u16) -> Packet {
    Packet {
        packet_type: PacketType::Data,
        conn_id: 1,
        ts_micros: 0,
        ts_diff_micros: 0,
        window_size: 0,
        seq_num,
        ack_num: 0,
        selective_ack: None,
        payload: vec![0],
    }
}

fn numbers_in_flight(sent: &SentPackets) -> Vec<u16> {
    let start = sent.next_sequence_number.wrapping_sub(sent.current_packet_window);
    (0..sent.current_packet_window)
        .map(|i| sent.outgoing_packets.get(start.wrapping_add(i) as usize).unwrap().seq_num)
        .collect()
}

fn next_seq_num_prop(next_seq_num: u16, len: u8) -> TestResult {
    let mut sent_packets = sent_packets(next_seq_num);
    if len == 0 {
        return TestResult::from_bool(sent_packets.next_seq_num() == next_seq_num.wrapping_add(1));
    }

    let final_seq_num = next_seq_num.wrapping_add(u16::from(len));
    let transmission = at(7);
    for step in 1..=u16::from(len) {
        let seq_num = next_seq_num.wrapping_add(step);
        sent_packets.outgoing_packets.put(
            seq_num as usize,
            SentPacket {
                seq_num,
                packet_type: PacketType::Data,
                data: None,
                transmission,
                acks: Default::default(),
                retransmissions: Default::default(),
                need_resend: false,
            },
        );
        sent_packets.next_sequence_number = seq_num.wrapping_add(1);
        sent_packets.current_packet_window = sent_packets.current_packet_window.wrapping_add(1);
    }

    TestResult::from_bool(sent_packets.next_seq_num() == final_seq_num.wrapping_add(1))
}

#[test]
fn next_seq_num() {
    quickcheck(next_seq_num_prop as fn(u16, u8) -> TestResult)
}

#[test]
fn on_transmit_initial() {
    let next_seq_num = u16::MAX;
    let mut sent_packets = sent_packets(next_seq_num);

    let seq_num = sent_packets.next_seq_num();
    let data = vec![0];
    let len = data.len() as u32;
    let now = at(11);
    sent_packets.on_transmit(seq_num, PacketType::Data, Some(data), len, now);

    assert_eq!(sent_packets.current_packet_window, 1);

    let packet = &sent_packets
        .outgoing_packets
        .get(sent_packets.next_seq_num().wrapping_sub(1) as usize)
        .unwrap();
    assert_eq!(packet.seq_num, seq_num);
    assert_eq!(packet.transmission, now);
    assert!(packet.acks.is_empty());
    assert!(packet.retransmissions.is_empty());
}

#[test]
fn on_transmit_retransmit() {
    let init_seq_num = u16::MAX;
    let mut sent_packets = sent_packets(init_seq_num);

    let seq_num = sent_packets.next_seq_num();
    let data = vec![0];
    let len = data.len() as u32;
    let first = at(11);
    let second = at(12);
    sent_packets.on_transmit(seq_num, PacketType::Data, Some(data.clone()), len, first);
    sent_packets.on_transmit(seq_num, PacketType::Data, Some(data), len, second);

    assert_eq!(sent_packets.current_packet_window, 1);

    let packet = &sent_packets
        .outgoing_packets
        .get(sent_packets.next_seq_num().wrapping_sub(1) as usize)
        .unwrap();
    assert_eq!(packet.seq_num, seq_num);
    assert_eq!(packet.transmission, first);
    assert!(packet.acks.is_empty());
    assert_eq!(packet.retransmissions.len(), 1);
    assert_eq!(packet.retransmissions[0], second);
}

#[test]
fn on_selective_ack() {
    let next_seq_num = u16::MAX;
    let mut sent_packets = sent_packets(next_seq_num);
    let mut unacked = no_waiting();

    let data = vec![0];
    let len = data.len() as u32;

    const COUNT: usize = 10;
    for _ in 0..COUNT {
        let now = at(1);
        let seq_num = sent_packets.next_seq_num();
        sent_packets.on_transmit(seq_num, PacketType::Data, Some(data.clone()), len, now);
    }

    const SACK_LEN: usize = COUNT - 2;
    let mut acked = vec![false; SACK_LEN];
    for (i, ack) in acked.iter_mut().enumerate() {
        if i % 2 == 0 {
            *ack = true;
        }
    }
    let selective_ack = SelectiveAck::new(acked);

    let now = at(2);
    sent_packets
        .on_ack(
            next_seq_num.wrapping_add(1),
            Some(&selective_ack),
            DELAY,
            now,
            &mut unacked,
        )
        .unwrap();
    for i in 2..COUNT {
        let is_empty = i % 2 == 0;
        assert_eq!(
            sent_packets
                .outgoing_packets
                .get(next_seq_num.wrapping_add(i as u16) as usize)
                .unwrap()
                .acks
                .is_empty(),
            is_empty
        );
    }
}

#[test]
fn detect_lost_packets() {
    let next_seq_num = u16::MAX;
    let mut sent_packets = sent_packets(next_seq_num);
    let mut unacked = no_waiting();

    let data = vec![0];
    let len = data.len() as u32;

    const COUNT: usize = 10;
    const START: usize = COUNT - LOSS_THRESHOLD;
    for i in 0..COUNT {
        let now = at(i as u64);
        let seq_num = sent_packets.next_seq_num();
        sent_packets.on_transmit(seq_num, PacketType::Data, Some(data.clone()), len, now);

        if i >= START {
            sent_packets.ack(seq_num, DELAY, now, &mut unacked);
        }
    }

    let lost = sent_packets.detect_lost_packets();
    for i in 0..START {
        let packet = &sent_packets.outgoing_packets.get(i).unwrap();
        assert!(lost.contains(&packet.seq_num));
    }
    assert_eq!(lost, BTreeSet::from([0, 1, 2, 3, 4, 5, 6]));
}

#[test]
fn ack() {
    let next_seq_num = u16::MAX;
    let mut sent_packets = sent_packets(next_seq_num);
    let mut unacked = no_waiting();

    let seq_num = sent_packets.next_seq_num();
    let data = vec![0];
    let len = data.len() as u32;
    let now = at(3);
    sent_packets.on_transmit(seq_num, PacketType::Data, Some(data), len, now);

    let now = at(4);
    sent_packets.ack(seq_num, DELAY, now, &mut unacked);

    let packet = sent_packets.outgoing_packets.get(seq_num as usize).unwrap();

    assert_eq!(packet.acks.len(), 1);
    assert_eq!(packet.acks[0], now);
}

#[test]
fn ack_prior_unacked() {
    let next_seq_num = u16::MAX;
    let mut sent_packets = sent_packets(next_seq_num);
    let mut unacked = no_waiting();

    let data = vec![0];
    let len = data.len() as u32;

    const COUNT: usize = 10;
    for _ in 0..COUNT {
        let now = at(1);
        let seq_num = sent_packets.next_seq_num();
        sent_packets.on_transmit(seq_num, PacketType::Data, Some(data.clone()), len, now);
    }

    const ACK_NUM: u16 = 3;
    assert!(usize::from(ACK_NUM) < COUNT);
    assert!(COUNT - usize::from(ACK_NUM) > 2);

    let now = at(2);
    sent_packets.ack_prior_unacked(ACK_NUM, DELAY, now, &mut unacked);
    for i in 0..usize::from(ACK_NUM) {
        assert_eq!(sent_packets.outgoing_packets.get(i).unwrap().acks.len(), 1);
    }
    for i in usize::from(ACK_NUM)..COUNT {
        assert!(sent_packets.outgoing_packets.get(i).unwrap().acks.is_empty());
    }
}

#[test]
fn ack_prior_unacked_across_the_wrap() {
    let mut sent = sent_packets(65_532);
    let mut unacked = no_waiting();
    send(&mut sent, 6);
    assert_eq!(numbers_in_flight(&sent), vec![65_533, 65_534, 65_535, 0, 1, 2]);

    sent.ack_prior_unacked(1, DELAY, at(9), &mut unacked);
    for (seq_num, acks) in [(65_533, 1), (65_534, 1), (65_535, 1), (0, 1), (1, 0), (2, 0)] {
        assert_eq!(sent.outgoing_packets.get(seq_num).unwrap().acks.len(), acks);
    }
}

#[test]
fn every_packet_in_flight_precedes_the_next() {
    let mut sent = sent_packets(65_533);
    let mut unacked = no_waiting();
    send(&mut sent, 4);
    sent.ack_prior_unacked(sent.next_seq_num(), DELAY, at(9), &mut unacked);
    for seq_num in [65_534, 65_535, 0, 1] {
        assert_eq!(sent.outgoing_packets.get(seq_num).unwrap().acks, vec![at(9)]);
    }

    // The flight moves on with the next acknowledgement.
    assert_eq!(sent.first_unacked_seq_num(), Some(65_534));
    sent.on_ack(65_534, None, DELAY, at(10), &mut unacked).unwrap();
    assert!(!sent.has_unacked_packets());
    assert_eq!(sent.last_ack_num(), Some(1));
}

#[test]
fn acking_the_packet_before_the_flight_acks_nothing() {
    let mut sent = sent_packets(u16::MAX);
    let mut unacked = no_waiting();
    send(&mut sent, 4);
    assert_eq!(sent.on_ack(u16::MAX, None, DELAY, at(5), &mut unacked), Ok(()));
    assert_eq!(numbers_in_flight(&sent), vec![0, 1, 2, 3]);
    assert_eq!(sent.first_unacked_seq_num(), Some(0));
    assert_eq!(sent.last_ack_num(), None);
}

#[test]
fn on_ack_is_cumulative_and_settles() {
    let mut sent = sent_packets(99);
    let mut unacked = no_waiting();
    send(&mut sent, 5);
    assert_eq!(sent.on_ack(102, None, DELAY, at(50), &mut unacked), Ok(()));
    assert_eq!(numbers_in_flight(&sent), vec![103, 104]);
    assert!(sent.outgoing_packets.get(101).is_none());
    assert_eq!(sent.last_ack_num(), Some(102));
    assert_eq!(sent.ack_num(), 102);
    assert_eq!(sent.first_unacked_seq_num(), Some(103));
    assert!(sent.has_unacked_packets());

    // A second acknowledgement of the same packet changes nothing.
    let window = sent.window();
    assert_eq!(sent.on_ack(102, None, DELAY, at(60), &mut unacked), Ok(()));
    assert_eq!(numbers_in_flight(&sent), vec![103, 104]);
    assert_eq!(sent.window(), window);

    assert_eq!(sent.on_ack(104, None, DELAY, at(70), &mut unacked), Ok(()));
    assert_eq!(sent.current_packet_window, 0);
    assert_eq!(sent.next_seq_num(), 105);
    assert_eq!(sent.last_ack_num(), Some(104));
    assert_eq!(sent.first_unacked_seq_num(), None);
    assert!(!sent.has_unacked_packets());
}

#[test]
fn on_ack_outside_the_range_is_refused() {
    let mut sent = sent_packets(99);
    let mut unacked = no_waiting();
    send(&mut sent, 3);
    for ack_num in [103, 104, 97, 0, 40_000] {
        let result = sent.on_ack(ack_num, None, DELAY, at(9), &mut unacked);
        assert_eq!(result, Err(SentPacketsError::InvalidAckNum));
        assert_eq!(numbers_in_flight(&sent), vec![100, 101, 102]);
    }
    for ack_num in [98, 99] {
        assert_eq!(sent.on_ack(ack_num, None, DELAY, at(9), &mut unacked), Ok(()));
        assert_eq!(numbers_in_flight(&sent), vec![100, 101, 102]);
    }
    assert_eq!(SentPacketsError::InvalidAckNum.message(), "invalid ack number");
}

#[test]
fn the_unsent_next_number_is_refused_in_a_full_flight() {
    let mut sent = sent_packets(9);
    let mut unacked = no_waiting();
    for _ in 0..65_534 {
        let seq_num = sent.next_seq_num();
        sent.on_transmit(seq_num, PacketType::Data, None, 0, at(1));
    }
    // The flight is 10..=7, across the wrap; the next number, 8, is also two before it.
    assert_eq!(sent.current_packet_window, 65_534);
    assert_eq!(sent.outgoing_packets.len(), 65_536);
    assert_eq!(sent.next_seq_num(), 8);
    let refused = Err(SentPacketsError::InvalidAckNum);
    assert_eq!(sent.on_ack(8, None, DELAY, at(2), &mut unacked), refused);
    assert_eq!(sent.on_ack(9, None, DELAY, at(2), &mut unacked), Ok(()));
    assert_eq!(sent.current_packet_window, 65_534);

    sent.on_transmit(8, PacketType::Data, None, 0, at(1));
    assert_eq!(sent.current_packet_window, 65_535);
    assert_eq!(sent.on_ack(9, None, DELAY, at(2), &mut unacked), refused);
    assert_eq!(sent.on_ack(10, None, DELAY, at(2), &mut unacked), Ok(()));
    assert_eq!(sent.current_packet_window, 65_534);
    assert_eq!(sent.first_unacked_seq_num(), Some(11));
    assert_eq!(sent.on_ack(8, None, DELAY, at(2), &mut unacked), Ok(()));
    assert_eq!(sent.current_packet_window, 0);
}

#[test]
fn nothing_sent_nothing_acked() {
    let sent = sent_packets(20);
    assert_eq!(sent.last_ack_num(), None);
    assert_eq!(sent.ack_num(), 0);
    assert_eq!(sent.first_unacked_seq_num(), None);
    assert!(!sent.has_unacked_packets());
    assert!(sent.seq_num_range().contains(21));
    assert!(sent.seq_num_range().contains(19));
    assert!(!sent.seq_num_range().contains(18));
    assert!(!sent.seq_num_range().contains(22));
}

#[test]
fn acked_packets_wait_no_longer() {
    let runtime = tokio::runtime::Builder::new_current_thread().enable_time().build().unwrap();
    let _guard = runtime.enter();

    let mut sent = sent_packets(9);
    let mut unacked = no_waiting();
    for _ in 0..4 {
        let seq_num = sent.next_seq_num();
        sent.on_transmit(seq_num, PacketType::Data, Some(vec![0]), 1, at(1));
        unacked.insert(seq_num, data_packet(seq_num));
    }
    sent.on_ack(11, None, DELAY, at(2), &mut unacked).unwrap();
    assert_eq!(unacked.len(), 2);
    assert!(!unacked.contains_key(&10));
    assert!(!unacked.contains_key(&11));
    assert_eq!(unacked.get(&12), Some(&data_packet(12)));
    assert_eq!(unacked.get(&13), Some(&data_packet(13)));
}

#[test]
fn ack_with_nothing_in_flight_ends_the_wait() {
    let runtime = tokio::runtime::Builder::new_current_thread().enable_time().build().unwrap();
    let _guard = runtime.enter();

    let mut sent = sent_packets(9);
    let mut unacked = no_waiting();
    unacked.insert(9, data_packet(9));
    unacked.insert(7, data_packet(7));
    assert_eq!(sent.on_ack(9, None, DELAY, at(2), &mut unacked), Ok(()));
    assert!(!unacked.contains_key(&9));
    assert!(unacked.contains_key(&7));
    assert_eq!(sent.current_packet_window, 0);
    assert_eq!(sent.last_ack_num(), None);
}

#[test]
fn selective_ack_beyond_what_was_sent_is_ignored() {
    let mut sent = sent_packets(9);
    let mut unacked = no_waiting();
    send(&mut sent, 4);
    // 10 acknowledged, 11 missing, 12 and 13 arrived, and bits for packets that were never sent.
    let bits = SelectiveAck::new(vec![true; 40]);
    assert_eq!(bits.acked().len(), 64);
    sent.on_ack(10, Some(&bits), DELAY, at(5), &mut unacked).unwrap();
    assert_eq!(numbers_in_flight(&sent), vec![11, 12, 13]);
    assert!(sent.outgoing_packets.get(11).unwrap().acks.is_empty());
    assert_eq!(sent.outgoing_packets.get(12).unwrap().acks, vec![at(5)]);
    assert_eq!(sent.outgoing_packets.get(13).unwrap().acks, vec![at(5)]);
    assert!(sent.outgoing_packets.get(14).is_none());
    assert_eq!(sent.first_unacked_seq_num(), Some(11));
    assert_eq!(sent.last_ack_num(), Some(10));

    // The missing packet arrives: everything settles.
    sent.on_ack(11, None, DELAY, at(6), &mut unacked).unwrap();
    assert_eq!(sent.current_packet_window, 0);
    assert_eq!(sent.last_ack_num(), Some(13));
}

#[test]
fn duplicate_ack_of_one_packet_is_noted_once() {
    let mut sent = sent_packets(9);
    let mut unacked = no_waiting();
    send(&mut sent, 3);
    sent.ack(11, DELAY, at(5), &mut unacked);
    let window = sent.window();
    sent.ack(11, DELAY, at(6), &mut unacked);
    assert_eq!(sent.outgoing_packets.get(11).unwrap().acks, vec![at(5)]);
    assert_eq!(sent.window(), window);
}

#[test]
fn ack_before_the_flight_spares_the_packet_in_its_slot() {
    let mut sent = sent_packets(9);
    let mut unacked = no_waiting();
    send(&mut sent, 15);
    // The numbers 8 and 24 share a slot.
    assert_eq!(sent.outgoing_packets.len(), 16);
    assert_eq!(sent.on_ack(8, None, DELAY, at(20), &mut unacked), Ok(()));
    assert!(sent.outgoing_packets.get(24).unwrap().acks.is_empty());
    assert_eq!(sent.current_packet_window, 15);
}

#[test]
fn ack_in_flight_takes_what_the_slot_holds() {
    let runtime = tokio::runtime::Builder::new_current_thread().enable_time().build().unwrap();
    let _guard = runtime.enter();

    let mut sent = sent_packets(0);
    let mut unacked = no_waiting();
    send(&mut sent, 1);
    unacked.insert(1, data_packet(1));
    // The packet 1 stands in the slot of 17.
    sent.next_sequence_number = 18;
    sent.ack(17, DELAY, at(5), &mut unacked);
    assert_eq!(sent.outgoing_packets.get(17).unwrap().seq_num, 1);
    assert_eq!(sent.outgoing_packets.get(17).unwrap().acks, vec![at(5)]);
    assert!(!unacked.contains_key(&1));
    sent.on_ack(17, None, DELAY, at(6), &mut unacked).unwrap();
    assert!(!sent.has_unacked_packets());
    assert_eq!(sent.last_ack_num(), Some(17));
}

#[test]
fn many_packets_in_flight_across_the_wrap() {
    for first in [65_500u16, 0, 9, 65_535, 1_000] {
        let mut sent = sent_packets(first.wrapping_sub(1));
        let mut unacked = no_waiting();
        send(&mut sent, 70);
        assert_eq!(sent.outgoing_packets.len(), 128);
        let expected: Vec<u16> = (0..70).map(|i| first.wrapping_add(i)).collect();
        assert_eq!(numbers_in_flight(&sent), expected);
        for i in 0..70u16 {
            let packet = sent.outgoing_packets.get(first.wrapping_add(i) as usize).unwrap();
            assert_eq!(packet.transmission, at(i as u64));
        }
        let middle = first.wrapping_add(33);
        sent.on_ack(middle, None, DELAY, at(100), &mut unacked).unwrap();
        assert_eq!(numbers_in_flight(&sent), expected[34..].to_vec());
        assert_eq!(sent.last_ack_num(), Some(middle));
    }
}

#[test]
fn sending_a_passed_number_stores_it_anew() {
    let mut sent = sent_packets(9);
    let mut unacked = no_waiting();
    send(&mut sent, 3);
    sent.on_ack(10, None, DELAY, at(5), &mut unacked).unwrap();
    assert_eq!(numbers_in_flight(&sent), vec![11, 12]);
    assert!(sent.outgoing_packets.get(10).is_none());

    sent.on_transmit(10, PacketType::Data, Some(vec![7]), 1, at(6));
    assert_eq!(sent.next_seq_num(), 14);
    assert_eq!(sent.current_packet_window, 3);
    assert_eq!(sent.first_unacked_seq_num(), Some(11));
    let packet = sent.outgoing_packets.get(10).unwrap();
    assert_eq!(packet.seq_num, 10);
    assert_eq!(packet.data, Some(vec![7]));
    assert_eq!(packet.transmission, at(6));
    assert!(packet.retransmissions.is_empty());
    assert!(packet.acks.is_empty());
    assert!(sent.outgoing_packets.get(13).is_none());

    // Sent once more, the stored packet notes a retransmission and no number is taken up.
    sent.on_transmit(10, PacketType::Data, Some(vec![7]), 1, at(7));
    assert_eq!(sent.outgoing_packets.get(10).unwrap().retransmissions, vec![at(7)]);
    assert_eq!(sent.next_seq_num(), 14);
    assert_eq!(sent.current_packet_window, 3);

    // Its acknowledgement lets it go and leaves the flight alone.
    assert_eq!(sent.on_ack(10, None, DELAY, at(8), &mut unacked), Ok(()));
    assert!(sent.outgoing_packets.get(10).is_none());
    assert_eq!(sent.current_packet_window, 3);
    assert_eq!(sent.first_unacked_seq_num(), Some(11));

    // The number that nothing was sent under goes with the packets before it.
    assert_eq!(sent.on_ack(12, None, DELAY, at(9), &mut unacked), Ok(()));
    assert_eq!(sent.current_packet_window, 0);
    assert_eq!(sent.last_ack_num(), Some(13));
}

#[test]
fn sending_moves_no_acknowledged_end() {
    let mut sent = sent_packets(9);
    let mut unacked = no_waiting();
    send(&mut sent, 1);
    assert_eq!(sent.last_ack_num(), None);
    sent.on_ack(10, None, DELAY, at(5), &mut unacked).unwrap();
    assert_eq!(sent.last_ack_num(), Some(10));
    assert!(!sent.has_unacked_packets());

    sent.on_transmit(10, PacketType::Data, Some(vec![7]), 1, at(6));
    assert_eq!(sent.next_seq_num(), 12);
    assert_eq!(sent.last_ack_num(), Some(10));
    assert_eq!(sent.ack_num(), 10);
    assert_eq!(sent.first_unacked_seq_num(), Some(11));
    assert!(sent.has_unacked_packets());
    assert!(sent.seq_num_range().contains(9));
    assert!(!sent.seq_num_range().contains(8));

    send(&mut sent, 3);
    assert_eq!(sent.last_ack_num(), Some(10));
    assert_eq!(sent.first_unacked_seq_num(), Some(11));
}

#[test]
fn ack_prior_unacked_meets_a_packet_outside_the_flight() {
    let runtime = tokio::runtime::Builder::new_current_thread().enable_time().build().unwrap();
    let _guard = runtime.enter();

    for (seq_num, met) in [(12, false), (26, false), (27, true), (40, true)] {
        let mut sent = sent_packets(9);
        let mut unacked = no_waiting();
        send(&mut sent, 1);
        sent.on_ack(10, None, DELAY, at(5), &mut unacked).unwrap();
        sent.on_transmit(10, PacketType::Data, Some(vec![7]), 1, at(6));
        unacked.insert(10, data_packet(10));

        // The packet 10 stands in the slot of 26.
        sent.ack_prior_unacked(seq_num, DELAY, at(7), &mut unacked);
        assert_eq!(sent.outgoing_packets.get(10).is_none(), met);
        assert_eq!(unacked.contains_key(&10), !met);
        assert_eq!(sent.current_packet_window, 1);
        assert_eq!(sent.next_seq_num(), 12);
    }
}

#[test]
fn buffer_grows_only_for_new_packets() {
    let mut sent = sent_packets(40);
    let mut unacked = no_waiting();
    assert_eq!(sent.outgoing_packets.len(), 16);
    for i in 0..100 {
        assert!(sent.outgoing_packets.get(i).is_none());
    }

    send(&mut sent, 15);
    assert_eq!(sent.outgoing_packets.len(), 16);
    sent.on_transmit(41, PacketType::Data, Some(vec![0]), 1, at(20));
    assert_eq!(sent.outgoing_packets.len(), 16);
    send(&mut sent, 1);
    assert_eq!(sent.current_packet_window, 16);
    assert_eq!(sent.outgoing_packets.len(), 32);

    sent.ack(50, DELAY, at(21), &mut unacked);
    sent.ack_prior_unacked(45, DELAY, at(21), &mut unacked);
    sent.on_timeout();
    sent.on_lost(49, true);
    sent.on_ack(56, None, DELAY, at(22), &mut unacked).unwrap();
    assert_eq!(sent.current_packet_window, 0);
    assert_eq!(sent.outgoing_packets.len(), 32);
    send(&mut sent, 31);
    assert_eq!(sent.outgoing_packets.len(), 32);
}

#[test]
fn slots_of_passed_numbers_are_empty() {
    let mut sent = sent_packets(65_530);
    let mut unacked = no_waiting();
    send(&mut sent, 12);
    sent.on_ack(2, None, DELAY, at(20), &mut unacked).unwrap();
    for seq_num in [65_531, 65_532, 65_533, 65_534, 65_535, 0, 1, 2] {
        assert!(sent.outgoing_packets.get(seq_num).is_none());
    }
    assert_eq!(numbers_in_flight(&sent), vec![3, 4, 5, 6]);

    // A repeated acknowledgement changes no slot.
    sent.on_ack(2, None, DELAY, at(21), &mut unacked).unwrap();
    assert_eq!(numbers_in_flight(&sent), vec![3, 4, 5, 6]);
    for seq_num in [3, 4, 5, 6] {
        assert!(sent.outgoing_packets.get(seq_num).unwrap().acks.is_empty());
    }
    assert_eq!((0..16).filter(|i| sent.outgoing_packets.get(*i).is_some()).count(), 4);
}

#[test]
fn loss_in_a_buffer_filled_by_hand() {
    let mut sent = sent_packets(0);
    for seq_num in 1..=6u16 {
        let acks = if [3, 5, 6].contains(&seq_num) { vec![at(2)] } else { vec![] };
        sent.outgoing_packets.put(
            seq_num as usize,
            SentPacket {
                seq_num,
                packet_type: PacketType::Data,
                data: None,
                transmission: at(1),
                retransmissions: vec![],
                acks,
                need_resend: false,
            },
        );
    }
    sent.next_sequence_number = 7;
    sent.current_packet_window = 6;
    assert_eq!(sent.detect_lost_packets(), BTreeSet::from([1, 2]));
    assert_eq!(sent.first_unacked_seq_num(), Some(1));
    assert_eq!(sent.last_ack_num(), None);
    assert_eq!(sent.ack_num(), 0);
    assert!(sent.has_unacked_packets());

    // A slot that was emptied does not count as acknowledged.
    sent.outgoing_packets.delete(1);
    assert_eq!(sent.first_unacked_seq_num(), Some(1));
    assert_eq!(sent.last_ack_num(), None);
    assert_eq!(sent.ack_num(), 0);
    sent.outgoing_packets.delete(5);
    assert!(sent.detect_lost_packets().is_empty());
}

#[test]
fn selective_ack_of_the_number_before_the_flight() {
    let mut sent = sent_packets(9);
    let mut unacked = no_waiting();
    send(&mut sent, 5);
    // The packet 9 precedes the flight and 10 is missing: the bits speak of 11, 12 and 13.
    let bits = SelectiveAck::new(vec![true, false, true]);
    sent.on_ack(9, Some(&bits), DELAY, at(8), &mut unacked).unwrap();
    assert_eq!(numbers_in_flight(&sent), vec![10, 11, 12, 13, 14]);
    for (seq_num, acks) in [(10, 0), (11, 1), (12, 0), (13, 1), (14, 0)] {
        assert_eq!(sent.outgoing_packets.get(seq_num).unwrap().acks.len(), acks);
    }

    // Two before the flight, the first bit speaks of the earliest packet.
    let mut sent = sent_packets(9);
    send(&mut sent, 3);
    sent.on_ack(8, Some(&bits), DELAY, at(8), &mut unacked).unwrap();
    assert_eq!(numbers_in_flight(&sent), vec![11, 12]);
    assert!(sent.outgoing_packets.get(11).unwrap().acks.is_empty());
    assert_eq!(sent.outgoing_packets.get(12).unwrap().acks, vec![at(8)]);
}

#[test]
fn ack_prior_unacked_takes_any_number() {
    for (seq_num, acked) in [(20, 4), (14, 4), (13, 3), (10, 0), (9, 0), (8, 0), (7, 0)] {
        let mut sent = sent_packets(9);
        let mut unacked = no_waiting();
        send(&mut sent, 4);
        sent.ack_prior_unacked(seq_num, DELAY, at(9), &mut unacked);
        let acks = (10..14)
            .filter(|i| !sent.outgoing_packets.get(*i).unwrap().acks.is_empty())
            .count();
        assert_eq!(acks, acked);
    }
}

#[test]
fn rtt_counts_from_the_first_retransmission() {
    let mut packet = SentPacket {
        seq_num: 1,
        packet_type: PacketType::Data,
        data: None,
        transmission: at(100),
        retransmissions: vec![],
        acks: vec![],
        need_resend: false,
    };
    assert_eq!(packet.rtt(at(150)), Duration { nanos: 50 });
    assert_eq!(packet.rtt(at(90)), Duration { nanos: 0 });
    packet.retransmissions = vec![at(120), at(140)];
    assert_eq!(packet.rtt(at(150)), Duration { nanos: 30 });
}

#[test]
fn loss_needs_the_threshold() {
    let mut sent = sent_packets(9);
    let mut unacked = no_waiting();
    send(&mut sent, 6);
    sent.ack(13, DELAY, at(9), &mut unacked);
    sent.ack(15, DELAY, at(9), &mut unacked);
    assert!(sent.detect_lost_packets().is_empty());
    sent.ack(12, DELAY, at(9), &mut unacked);
    assert_eq!(sent.detect_lost_packets(), BTreeSet::from([10, 11]));
}

#[test]
fn loss_and_timeout_reach_the_controller() {
    let mut sent = sent_packets(9);
    send(&mut sent, 2);
    assert_eq!(sent.window(), 2046);
    sent.on_lost(10, false);
    assert_eq!(sent.window(), 2047);
    sent.on_lost(11, true);
    assert_eq!(sent.window(), 2047);
    assert_eq!(sent.timeout(), Duration::from_millis(1000));
    sent.on_timeout();
    assert_eq!(sent.timeout(), Duration::from_millis(2000));
    assert_eq!(numbers_in_flight(&sent), vec![10, 11]);
}
