//! Packets in flight: what was sent, what was acknowledged, and what may be sent next.

use std::collections::BTreeSet;

use delay_map::HashMapDelay;
use vstd::prelude::*;

use crate::congestion;
use crate::flight::{reach, Flight, SentPacketView};
use crate::packet::{Packet, PacketType, SelectiveAck};
use crate::seq::{distance, nth_after, CircularRangeInclusive};
use crate::state::{
    is_done, law_orderly_acked, law_orderly_acked_before, law_orderly_acknowledged,
    law_orderly_front, law_orderly_is_numbered, law_orderly_lost, law_orderly_transmitted,
    law_settle_empties_passed_slots, lemma_acked_known, lemma_next_slot_is_empty,
    lemma_settle_keeps_waiting, lemma_transmitted_known, lemma_waiting_is_apart, SendState,
};
use crate::time::{Duration, Instant};
use crate::utils::{grown, grown_size, law_grown_size, SizableCircularBuffer};

verus! {

broadcast use vstd::std_specs::btree::group_btree_axioms;

/// How many later packets must be acknowledged before an unacknowledged one counts as lost.
pub const LOSS_THRESHOLD: usize = 3;

/// The expiring map of the `delay_map` crate.
#[verifier::external_type_specification]
#[verifier::external_body]
#[verifier::reject_recursive_types(K)]
#[verifier::reject_recursive_types(V)]
pub struct ExHashMapDelay<K, V>(HashMapDelay<K, V>) where
    K: std::cmp::Eq + std::hash::Hash + std::clone::Clone,
;

/// The packets that an expiring map holds, by sequence number.
pub uninterp spec fn waiting_packets(unacked: HashMapDelay<u16, Packet>) -> Map<u16, Packet>;

/// Calls `HashMapDelay::remove`, which takes the entry under a key out of the map and returns its
/// value, or returns `None` if there is no such entry. The other entries stay. Entries leave for
/// age only when the map is polled, which this call does not do.
#[verifier::external_body]
fn remove_waiting(unacked: &mut HashMapDelay<u16, Packet>, seq_num: u16) -> (packet: Option<Packet>)
    ensures
        waiting_packets(*final(unacked)) == waiting_packets(*old(unacked)).remove(seq_num),
        packet == (if waiting_packets(*old(unacked)).contains_key(seq_num) {
            Some(waiting_packets(*old(unacked))[seq_num])
        } else {
            None
        }),
{
    unacked.remove(&seq_num)
}

/// A packet that was sent.
#[derive(Clone, Debug)]
pub struct SentPacket {
    pub seq_num: u16,
    pub packet_type: PacketType,
    pub data: Option<Vec<u8>>,
    pub transmission: Instant,
    pub retransmissions: Vec<Instant>,
    pub acks: Vec<Instant>,
    pub need_resend: bool,
}

/// The bytes of a payload, if there is one.
pub open spec fn content(data: Option<Vec<u8>>) -> Option<Seq<u8>> {
    match data {
        Some(bytes) => Some(bytes@),
        None => None,
    }
}

impl View for SentPacket {
    type V = SentPacketView;

    open spec fn view(&self) -> SentPacketView {
        SentPacketView {
            seq_num: self.seq_num,
            packet_type: self.packet_type,
            data: content(self.data),
            transmission: self.transmission,
            retransmissions: self.retransmissions@,
            acks: self.acks@,
            need_resend: self.need_resend,
        }
    }
}

impl SentPacket {
    /// The time from the first retransmission if there was one, else from the transmission, to
    /// `now`; zero if `now` is the earlier instant.
    pub fn rtt(&self, now: Instant) -> (rtt: Duration)
        ensures
            rtt == now.since(self@.measured_from()),
    {
        if self.retransmissions.len() > 0 {
            now.duration_since(self.retransmissions[0])
        } else {
            now.duration_since(self.transmission)
        }
    }
}

/// The reasons for which an acknowledgement is refused.
#[derive(Clone, Copy, Debug, PartialEq, Eq, Structural)]
pub enum SentPacketsError {
    InvalidAckNum,
}

impl SentPacketsError {
    /// The reason in words.
    pub fn message(&self) -> (message: &'static str)
        ensures
            message@ == "invalid ack number"@,
    {
        match self {
            SentPacketsError::InvalidAckNum => "invalid ack number",
        }
    }
}

/// What a slot holds, up to the representation of vectors.
pub open spec fn slot_view(slot: Option<SentPacket>) -> Option<SentPacketView> {
    match slot {
        Some(packet) => Some(packet@),
        None => None,
    }
}

/// What the slots of a buffer hold.
pub open spec fn slot_views(slots: Seq<Option<SentPacket>>) -> Seq<Option<SentPacketView>> {
    Seq::new(slots.len(), |i: int| slot_view(slots[i]))
}

/// The bits of a selective acknowledgement, if there is one.
pub open spec fn selected(selective_ack: Option<&SelectiveAck>) -> Option<Seq<bool>> {
    match selective_ack {
        Some(bits) => Some(bits@),
        None => None,
    }
}

/// The packets that were sent, and what is known of their delivery.
#[derive(Clone, Debug)]
pub struct SentPackets {
    /// The packets that were sent and not let go since, by sequence number.
    pub outgoing_packets: SizableCircularBuffer<SentPacket>,
    /// The sequence number of the next packet to send.
    pub next_sequence_number: u16,
    /// The amount of packets in flight.
    pub current_packet_window: u16,
    /// Whether the flight has moved past a number.
    pub settled: bool,
    /// What limits how much may be in flight.
    pub congestion_ctrl: congestion::Controller,
}

impl SentPackets {
    /// The first sequence number in flight, or the next number if none is.
    pub open spec fn start(self) -> u16 {
        nth_after(self.next_sequence_number, -(self.current_packet_window as int))
    }

    /// The state of the controller.
    pub open spec fn controller(self) -> congestion::State {
        self.congestion_ctrl@
    }

    /// The whole state, together with the packets that wait for an acknowledgement.
    pub open spec fn state(self, waiting: Map<u16, Packet>) -> SendState {
        SendState {
            next: self.next_sequence_number,
            window: self.current_packet_window,
            slots: slot_views(self.outgoing_packets@),
            settled: self.settled,
            controller: self.controller(),
            waiting,
        }
    }

    /// The buffer and the controller are well formed, and the controller knows every packet held.
    pub open spec fn wf(self) -> bool {
        &&& self.outgoing_packets.wf()
        &&& self.congestion_ctrl.wf()
        &&& self.state(Map::empty()).all_known()
    }

    /// The buffer holds the packets in flight, each under its number, and nothing else.
    pub open spec fn orderly(self) -> bool {
        self.state(Map::empty()).orderly()
    }

    /// The packets in flight of an orderly state, from the earliest on.
    pub open spec fn packets(self) -> Seq<SentPacketView> {
        self.state(Map::empty()).packets()
    }

    /// The flight that an orderly state stands for.
    pub open spec fn flight(self, waiting: Map<u16, Packet>) -> Flight {
        self.state(waiting).flight()
    }

    /// Whether a state is orderly, and its packets, do not depend on what waits.
    proof fn lemma_waiting(self, waiting: Map<u16, Packet>)
        ensures
            self.state(waiting).orderly() == self.orderly(),
            self.state(waiting).all_known() == self.state(Map::empty()).all_known(),
            self.state(waiting).packets() == self.packets(),
    {
        lemma_waiting_is_apart(self.state(Map::empty()), waiting);
    }

    /// Two states with the same slots and numbers are alike orderly.
    proof fn lemma_same_slots(self, before: Self)
        requires
            self.outgoing_packets@ == before.outgoing_packets@,
            self.next_sequence_number == before.next_sequence_number,
            self.current_packet_window == before.current_packet_window,
        ensures
            self.orderly() == before.orderly(),
            self.packets() == before.packets(),
    {
        let one = self.state(Map::empty());
        let other = before.state(Map::empty());
        assert(forall|i: int| #[trigger] one.held(i) == other.held(i));
        assert(forall|i: int| one.held(i) == #[trigger] other.held(i));
        assert(one.packets() =~= other.packets());
        if one.orderly() {
            assert(other.orderly());
        }
    }

    /// Nothing sent yet. The first packet to send has the number after `next_sequence_number`.
    pub fn new(next_sequence_number: u16, congestion_ctrl: congestion::Controller) -> (sent: Self)
        requires
            congestion_ctrl.wf(),
        ensures
            sent.wf(),
            sent.orderly(),
            sent.next_sequence_number == nth_after(next_sequence_number, 1),
            sent.current_packet_window == 0,
            sent.outgoing_packets@ == Seq::new(16, |i: int| None::<SentPacket>),
            sent.outgoing_packets@.len() == 16,
            sent.flight(Map::empty()) == (Flight {
                next: nth_after(next_sequence_number, 1),
                packets: Seq::empty(),
                settled: false,
                controller: congestion_ctrl@,
                waiting: Map::empty(),
            }),
    {
        let sent = SentPackets {
            outgoing_packets: SizableCircularBuffer::new(),
            next_sequence_number: next_sequence_number.wrapping_add(1),
            current_packet_window: 0,
            settled: false,
            congestion_ctrl,
        };
        assert(sent.packets() =~= Seq::<SentPacketView>::empty());
        sent
    }

    /// The sequence number of the next packet to send.
    pub fn next_seq_num(&self) -> (seq_num: u16)
        ensures
            seq_num == self.next_sequence_number,
    {
        self.next_sequence_number
    }

    /// The first sequence number in flight, or the next number if none is.
    fn earliest(&self) -> (seq_num: u16)
        ensures
            seq_num == self.start(),
    {
        self.next_sequence_number.wrapping_sub(self.current_packet_window)
    }

    /// The numbers that may be sent: from two before the earliest in flight to the next.
    pub fn seq_num_range(&self) -> (range: CircularRangeInclusive)
        ensures
            range.first() == nth_after(self.start(), -2),
            range.last() == self.next_sequence_number,
    {
        CircularRangeInclusive::new(
            self.next_sequence_number.wrapping_sub(self.current_packet_window).wrapping_sub(2),
            self.next_sequence_number,
        )
    }

    /// The retransmission timeout.
    pub fn timeout(&self) -> (timeout: Duration)
        ensures
            timeout == self.controller().timeout,
    {
        self.congestion_ctrl.timeout()
    }

    /// Tells the controller of a timeout; the packets stay as they are.
    pub fn on_timeout(&mut self)
        requires
            old(self).wf(),
        ensures
            final(self).wf(),
            final(self).outgoing_packets@ == old(self).outgoing_packets@,
            final(self).state(Map::empty()) == (SendState {
                controller: old(self).controller().timed_out(),
                ..old(self).state(Map::empty())
            }),
            old(self).orderly() ==> final(self).orderly() && final(self).flight(Map::empty()) == (
            Flight {
                controller: old(self).controller().timed_out(),
                ..old(self).flight(Map::empty())
            }),
    {
        let ghost before = *self;
        self.congestion_ctrl.on_timeout();
        proof {
            self.lemma_same_slots(before);
            assert(forall|i: int| #[trigger]
                self.state(Map::empty()).slots[i] == before.state(Map::empty()).slots[i]);
        }
    }

    /// The bytes that may still be sent.
    pub fn window(&self) -> (bytes: u32)
        requires
            self.congestion_ctrl.wf(),
        ensures
            bytes == self.controller().available(),
    {
        self.congestion_ctrl.bytes_available_in_window()
    }

    /// Notes a retransmission on the packet in the slot of a number, if there is one.
    fn note_retransmission(&mut self, seq_num: u16, now: Instant) -> (noted: bool)
        requires
            old(self).outgoing_packets.wf(),
        ensures
            final(self).outgoing_packets.wf(),
            final(self).outgoing_packets@.len() == old(self).outgoing_packets@.len(),
            noted == (old(self).state(Map::empty()).slot(seq_num) is Some),
            final(self).state(Map::empty()) == match old(self).state(Map::empty()).slot(seq_num) {
                Some(packet) => old(self).state(Map::empty()).with_slot(
                    seq_num,
                    Some(packet.sent_again(now)),
                ),
                None => old(self).state(Map::empty()),
            },
            final(self).congestion_ctrl == old(self).congestion_ctrl,
    {
        let ghost before = *self;
        let noted = match self.outgoing_packets.get_mut(seq_num as usize) {
            Some(sent) => {
                sent.retransmissions.push(now);
                true
            },
            None => false,
        };
        proof {
            let n = before.outgoing_packets@.len() as int;
            let place = seq_num as int % n;
            if noted {
                let packet = before.state(Map::empty()).slot(seq_num)->Some_0;
                assert(self.outgoing_packets@[place]->Some_0@ =~= packet.sent_again(now));
                assert(self.state(Map::empty()).slots =~= before.state(Map::empty()).with_slot(
                    seq_num,
                    Some(packet.sent_again(now)),
                ).slots);
            } else {
                assert(self.state(Map::empty()).slots =~= before.state(Map::empty()).slots);
            }
        }
        noted
    }

    /// Stores a new packet, which counts as one more in flight.
    fn store(&mut self, sent: SentPacket)
        requires
            old(self).outgoing_packets.wf(),
            old(self).current_packet_window < u16::MAX,
        ensures
            final(self).outgoing_packets.wf(),
            final(self).state(Map::empty()) == (SendState {
                next: nth_after(old(self).next_sequence_number, 1),
                window: (old(self).current_packet_window + 1) as u16,
                slots: grown(
                    old(self).state(Map::empty()).slots,
                    sent.seq_num as int,
                    old(self).current_packet_window + 1,
                ),
                ..old(self).state(Map::empty())
            }).with_slot(sent.seq_num, Some(sent@)),
            final(self).outgoing_packets@.len() == grown_size(
                old(self).outgoing_packets@.len(),
                (old(self).current_packet_window + 1) as nat,
            ),
            final(self).congestion_ctrl == old(self).congestion_ctrl,
    {
        let ghost before = *self;
        let ghost window = self.current_packet_window + 1;
        let seq_num: u16 = sent.seq_num;
        self.current_packet_window = self.current_packet_window + 1;
        self.outgoing_packets.ensure_size(seq_num as usize, self.current_packet_window as usize);
        let ghost room = self.outgoing_packets@;
        proof {
            let grown_views = grown(slot_views(before.outgoing_packets@), seq_num as int, window);
            let base = seq_num - window;
            let n = before.outgoing_packets@.len() as int;
            assert forall|slot: int| 0 <= slot < room.len() implies #[trigger] slot_views(
                room,
            )[slot] == grown_views[slot] by {
                if window >= n {
                    let i = (slot - base) % (room.len() as int);
                    assert(0 <= (base + i) % n < n);
                }
            }
            assert(slot_views(room) =~= grown_views);
        }
        self.outgoing_packets.put(seq_num as usize, sent);
        self.next_sequence_number = self.next_sequence_number.wrapping_add(1);
        assert(slot_views(self.outgoing_packets@) =~= slot_views(room).update(
            seq_num as int % (room.len() as int),
            Some(sent@),
        ));
    }

    /// Records that a packet is sent, for the first time or again.
    ///
    /// `seq_num` is the number of the next packet or of a packet sent before. A packet sent for
    /// the first time must fit in the window. If the slot of the number is empty, the packet is
    /// stored and counted as a new one, even if it was sent before.
    pub fn on_transmit(
        &mut self,
        seq_num: u16,
        packet_type: PacketType,
        data: Option<Vec<u8>>,
        len: u32,
        now: Instant,
    )
        requires
            old(self).wf(),
            old(self).state(Map::empty()).may_send(seq_num, len),
        ensures
            final(self).wf(),
            final(self).state(Map::empty()) == old(self).state(Map::empty()).transmitted(
                seq_num,
                packet_type,
                content(data),
                len,
                now,
            ),
            final(self).outgoing_packets@.len() == if old(self).state(Map::empty()).slot(
                seq_num,
            ) is None {
                grown_size(
                    old(self).outgoing_packets@.len(),
                    (old(self).current_packet_window + 1) as nat,
                )
            } else {
                old(self).outgoing_packets@.len()
            },
            final(self).outgoing_packets@.len() >= old(self).outgoing_packets@.len(),
            final(self).start() == old(self).start(),
            final(self).state(Map::empty()).last_acked() == old(self).state(
                Map::empty(),
            ).last_acked(),
            old(self).orderly() && (seq_num == old(self).next_sequence_number || old(self).state(
                Map::empty(),
            ).in_window(seq_num)) ==> {
                &&& final(self).orderly()
                &&& final(self).flight(Map::empty()) == old(self).flight(Map::empty()).transmitted(
                    seq_num,
                    packet_type,
                    content(data),
                    len,
                    now,
                )
                &&& final(self).outgoing_packets@.len() == if seq_num == old(
                    self,
                ).next_sequence_number {
                    grown_size(
                        old(self).outgoing_packets@.len(),
                        final(self).current_packet_window as nat,
                    )
                } else {
                    old(self).outgoing_packets@.len()
                }
                &&& final(self).current_packet_window < old(self).outgoing_packets@.len()
                    ==> final(self).outgoing_packets@.len() == old(self).outgoing_packets@.len()
                &&& final(self).current_packet_window >= old(self).outgoing_packets@.len()
                    ==> final(self).outgoing_packets@.len() == 2 * old(
                    self,
                ).outgoing_packets@.len()
            },
    {
        let ghost before = self.state(Map::empty());
        let ghost bytes = content(data);
        proof {
            if before.orderly() && before.in_window(seq_num) {
                law_orderly_is_numbered(before, distance(before.start(), seq_num));
                assert(before.slots[seq_num as int % (before.slots.len() as int)] is Some);
            }
        }
        let is_retransmission = self.next_sequence_number != seq_num;
        if !self.note_retransmission(seq_num, now) {
            let sent = SentPacket {
                seq_num,
                packet_type,
                data,
                transmission: now,
                retransmissions: Vec::new(),
                acks: Vec::new(),
                need_resend: false,
            };
            assert(sent@ =~= SentPacketView::fresh(seq_num, packet_type, bytes, now));
            self.store(sent);
        }
        let transmit = if is_retransmission {
            congestion::Transmit::Retransmission
        } else {
            congestion::Transmit::Initial { bytes: len }
        };
        let result = self.congestion_ctrl.on_transmit(seq_num, transmit);
        proof {
            assert(result is Ok);
            lemma_transmitted_known(before, seq_num, packet_type, bytes, len, now);
            let after = self.state(Map::empty());
            assert(after == before.transmitted(seq_num, packet_type, bytes, len, now));
            law_grown_size(before.slots.len(), (before.window + 1) as nat);
            reveal_with_fuel(grown_size, 2);
            if before.orderly() && (seq_num == before.next || before.in_window(seq_num)) {
                if seq_num == before.next {
                    lemma_next_slot_is_empty(before);
                }
                law_orderly_transmitted(before, seq_num, packet_type, bytes, len, now);
            }
        }
    }

    /// Notes an acknowledgement on the packet in the slot of a number.
    fn note_ack(&mut self, seq_num: u16, now: Instant)
        requires
            old(self).outgoing_packets.wf(),
            old(self).state(Map::empty()).slot(seq_num) is Some,
        ensures
            final(self).outgoing_packets.wf(),
            final(self).outgoing_packets@.len() == old(self).outgoing_packets@.len(),
            final(self).state(Map::empty()) == old(self).state(Map::empty()).with_slot(
                seq_num,
                Some(old(self).state(Map::empty()).slot(seq_num)->Some_0.acked_at(now)),
            ),
            final(self).congestion_ctrl == old(self).congestion_ctrl,
    {
        let ghost before = *self;
        match self.outgoing_packets.get_mut(seq_num as usize) {
            Some(sent) => {
                sent.acks.push(now);
            },
            None => {},
        }
        proof {
            let place = seq_num as int % (before.outgoing_packets@.len() as int);
            let packet = before.state(Map::empty()).slot(seq_num)->Some_0;
            assert(self.outgoing_packets@[place]->Some_0@ =~= packet.acked_at(now));
            assert(self.state(Map::empty()).slots =~= before.state(Map::empty()).with_slot(
                seq_num,
                Some(packet.acked_at(now)),
            ).slots);
        }
    }

    /// Empties the slot of a number.
    fn empty_slot(&mut self, seq_num: u16)
        requires
            old(self).outgoing_packets.wf(),
        ensures
            final(self).outgoing_packets.wf(),
            final(self).outgoing_packets@.len() == old(self).outgoing_packets@.len(),
            final(self).state(Map::empty()) == old(self).state(Map::empty()).with_slot(
                seq_num,
                None,
            ),
            final(self).congestion_ctrl == old(self).congestion_ctrl,
    {
        let ghost before = *self;
        self.outgoing_packets.delete(seq_num as usize);
        assert(self.state(Map::empty()).slots =~= before.state(Map::empty()).with_slot(
            seq_num,
            None,
        ).slots);
    }

    /// Acknowledges one packet that was sent.
    ///
    /// The packet in the slot of a number in flight is taken to be meant, and notes the
    /// acknowledgement with `now`. Outside the flight only a packet with that very number is, and
    /// it is let go. The first acknowledgement of a packet is reported to the controller and ends
    /// the wait for it in `unacked`. A later one changes nothing.
    pub fn ack(
        &mut self,
        seq_num: u16,
        delay: Duration,
        now: Instant,
        unacked: &mut HashMapDelay<u16, Packet>,
    )
        requires
            old(self).wf(),
            old(self).state(Map::empty()).acceptable(seq_num),
        ensures
            final(self).wf(),
            final(self).state(waiting_packets(*final(unacked))) == old(self).state(
                waiting_packets(*old(unacked)),
            ).acked(seq_num, delay, now),
            final(self).next_sequence_number == old(self).next_sequence_number,
            final(self).current_packet_window == old(self).current_packet_window,
            final(self).outgoing_packets@.len() == old(self).outgoing_packets@.len(),
            old(self).orderly() ==> {
                &&& final(self).orderly()
                &&& final(self).flight(waiting_packets(*final(unacked))) == old(self).flight(
                    waiting_packets(*old(unacked)),
                ).acked(seq_num, delay, now)
            },
    {
        self.ack_held(seq_num, delay, now, unacked);
    }

    /// Acknowledges one packet, if it is held.
    ///
    /// The packet in the slot of a number in flight is taken to be meant, and notes the
    /// acknowledgement with `now`. Outside the flight only a packet with that very number is, and
    /// it is let go. The first acknowledgement of a packet is reported to the controller and ends
    /// the wait for it in `unacked`. A later one changes nothing.
    fn ack_held(
        &mut self,
        seq_num: u16,
        delay: Duration,
        now: Instant,
        unacked: &mut HashMapDelay<u16, Packet>,
    )
        requires
            old(self).wf(),
        ensures
            final(self).wf(),
            final(self).state(waiting_packets(*final(unacked))) == old(self).state(
                waiting_packets(*old(unacked)),
            ).acked(seq_num, delay, now),
            final(self).next_sequence_number == old(self).next_sequence_number,
            final(self).current_packet_window == old(self).current_packet_window,
            final(self).outgoing_packets@.len() == old(self).outgoing_packets@.len(),
            old(self).orderly() ==> {
                &&& final(self).orderly()
                &&& final(self).flight(waiting_packets(*final(unacked))) == old(self).flight(
                    waiting_packets(*old(unacked)),
                ).acked(seq_num, delay, now)
            },
    {
        let ghost before = *self;
        let ghost state = self.state(waiting_packets(*unacked));
        let in_flight = seq_num.wrapping_sub(self.earliest()) < self.current_packet_window;
        let found: Option<(u16, Duration)> = match self.outgoing_packets.get(seq_num as usize) {
            Some(packet) => if (in_flight || packet.seq_num == seq_num) && packet.acks.len() == 0 {
                Some((packet.seq_num, packet.rtt(now)))
            } else {
                None
            },
            None => None,
        };
        if let Some((number, rtt)) = found {
            assert(state.slots[seq_num as int % (state.slots.len() as int)] is Some);
            assert(before.state(Map::empty()).slots[seq_num as int % (state.slots.len() as int)]
                == state.slot(seq_num));
            let result = self.congestion_ctrl.on_ack(
                number,
                congestion::Ack { delay, rtt, received_at: now },
            );
            assert(result is Ok);
            if in_flight {
                self.note_ack(seq_num, now);
            } else {
                self.empty_slot(seq_num);
            }
            remove_waiting(unacked, number);
        }
        proof {
            let after = self.state(waiting_packets(*unacked));
            assert(after == state.acked(seq_num, delay, now));
            before.lemma_waiting(state.waiting);
            self.lemma_waiting(after.waiting);
            lemma_acked_known(state, seq_num, delay, now);
            if state.orderly() {
                law_orderly_acked(state, seq_num, delay, now);
            }
        }
    }

    /// Acknowledges the packets that precede `seq_num` and are not acknowledged yet: those in the
    /// slots of the numbers from the start of the flight to the one before `seq_num`.
    ///
    /// None precede the two numbers before the flight. A number far from the flight counts as
    /// later exactly if it is larger than the earliest in flight.
    pub fn ack_prior_unacked(
        &mut self,
        seq_num: u16,
        delay: Duration,
        now: Instant,
        unacked: &mut HashMapDelay<u16, Packet>,
    )
        requires
            old(self).wf(),
        ensures
            final(self).wf(),
            final(self).state(waiting_packets(*final(unacked))) == old(self).state(
                waiting_packets(*old(unacked)),
            ).acked_before(seq_num, delay, now),
            final(self).next_sequence_number == old(self).next_sequence_number,
            final(self).current_packet_window == old(self).current_packet_window,
            final(self).outgoing_packets@.len() == old(self).outgoing_packets@.len(),
            old(self).orderly() ==> {
                &&& final(self).orderly()
                &&& final(self).flight(waiting_packets(*final(unacked))) == old(self).flight(
                    waiting_packets(*old(unacked)),
                ).acked_before(seq_num, delay, now)
            },
    {
        let ghost before = *self;
        let ghost state = self.state(waiting_packets(*unacked));
        let start: u16 = self.earliest();
        let window: u16 = self.current_packet_window;
        let place: u16 = seq_num.wrapping_sub(start);
        let count: u16 = if place <= window || place < 0xfffe && seq_num > start {
            place
        } else {
            0
        };
        assert(count == reach(state.start(), state.window as int, seq_num));
        let mut i: u16 = 0;
        while i < count
            invariant
                i <= count,
                self.wf(),
                self.current_packet_window == window,
                self.start() == start,
                state.start() == start,
                self.next_sequence_number == before.next_sequence_number,
                window == before.current_packet_window,
                self.outgoing_packets@.len() == before.outgoing_packets@.len(),
                self.state(waiting_packets(*unacked)) == state.acked_earliest(
                    i as nat,
                    delay,
                    now,
                ),
            decreases count - i,
        {
            let ghost current = self.state(waiting_packets(*unacked));
            let seq_num: u16 = start.wrapping_add(i);
            assert(seq_num == state.number(i as int));
            let held: Option<u16> = match self.outgoing_packets.get(seq_num as usize) {
                Some(packet) => Some(packet.seq_num),
                None => None,
            };
            proof {
                let n = current.slots.len() as int;
                assert(0 <= seq_num as int % n < n);
            }
            if let Some(number) = held {
                self.ack_held(number, delay, now, unacked);
            }
            assert(self.state(waiting_packets(*unacked)) == current.acked_slot(
                seq_num,
                delay,
                now,
            ));
            i = i + 1;
        }
        proof {
            let after = self.state(waiting_packets(*unacked));
            before.lemma_waiting(state.waiting);
            self.lemma_waiting(after.waiting);
            if state.orderly() {
                law_orderly_acked_before(state, seq_num, delay, now);
            }
        }
    }

    /// Whether a number is one that was sent: in flight, or at most two before.
    fn was_sent(&self, seq_num: u16) -> (sent: bool)
        ensures
            sent == self.state(Map::empty()).acceptable(seq_num),
    {
        let place: u16 = seq_num.wrapping_sub(self.earliest());
        place < self.current_packet_window || place >= 0xfffe && place
            != self.current_packet_window
    }

    /// Acknowledges `ack_num` and the later packets that the selective bits name.
    fn on_selective_ack(
        &mut self,
        ack_num: u16,
        selective_ack: &SelectiveAck,
        delay: Duration,
        now: Instant,
        unacked: &mut HashMapDelay<u16, Packet>,
    )
        requires
            old(self).wf(),
            old(self).state(Map::empty()).acceptable(ack_num),
        ensures
            final(self).wf(),
            final(self).state(waiting_packets(*final(unacked))) == old(self).state(
                waiting_packets(*old(unacked)),
            ).acked(ack_num, delay, now).acked_by_bits(
                nth_after(ack_num, 2),
                selective_ack@,
                delay,
                now,
            ),
            final(self).next_sequence_number == old(self).next_sequence_number,
            final(self).current_packet_window == old(self).current_packet_window,
            final(self).outgoing_packets@.len() == old(self).outgoing_packets@.len(),
    {
        let ghost before = *self;
        self.ack(ack_num, delay, now, unacked);
        let bits = selective_ack.acked();
        // The first bit stands for the packet two after `ack_num`, since the packet right after
        // `ack_num` is taken to be missing.
        let mut sack_num: u16 = ack_num.wrapping_add(2);
        let ghost goal = self.state(waiting_packets(*unacked)).acked_by_bits(
            nth_after(ack_num, 2),
            bits@,
            delay,
            now,
        );
        let mut i: usize = 0;
        assert(bits@.skip(0) == bits@);
        while i < bits.len()
            invariant_except_break
                i <= bits@.len(),
                goal == self.state(waiting_packets(*unacked)).acked_by_bits(
                    sack_num,
                    bits@.skip(i as int),
                    delay,
                    now,
                ),
            invariant
                self.wf(),
                self.next_sequence_number == before.next_sequence_number,
                self.current_packet_window == before.current_packet_window,
                self.outgoing_packets@.len() == before.outgoing_packets@.len(),
            ensures
                self.state(waiting_packets(*unacked)) == goal,
            decreases bits@.len() - i,
        {
            assert(bits@.skip(i as int).first() == bits@[i as int]);
            assert(bits@.skip(i as int).drop_first() == bits@.skip(i + 1));
            // The bits are padded to whole groups, so they may reach beyond what was sent.
            if !self.was_sent(sack_num) {
                break;
            }
            if bits[i] {
                self.ack(sack_num, delay, now, unacked);
            }
            sack_num = sack_num.wrapping_add(1);
            i = i + 1;
        }
    }

    /// Acknowledges `ack_num`, the later packets that selective bits name, and the packets before.
    fn on_ack_num(
        &mut self,
        ack_num: u16,
        selective_ack: Option<&SelectiveAck>,
        delay: Duration,
        now: Instant,
        unacked: &mut HashMapDelay<u16, Packet>,
    )
        requires
            old(self).wf(),
            old(self).state(Map::empty()).acceptable(ack_num),
        ensures
            final(self).wf(),
            final(self).state(waiting_packets(*final(unacked))) == old(self).state(
                waiting_packets(*old(unacked)),
            ).acked_all(ack_num, selected(selective_ack), delay, now),
            final(self).next_sequence_number == old(self).next_sequence_number,
            final(self).current_packet_window == old(self).current_packet_window,
            final(self).outgoing_packets@.len() == old(self).outgoing_packets@.len(),
    {
        match selective_ack {
            Some(bits) => self.on_selective_ack(ack_num, bits, delay, now, unacked),
            None => self.ack(ack_num, delay, now, unacked),
        }
        // An acknowledgement of `ack_num` covers all sequence numbers before it.
        self.ack_prior_unacked(ack_num, delay, now, unacked);
    }

    /// Whether the head of the flight may move past its first number.
    fn head_is_done(&self) -> (done: bool)
        requires
            self.outgoing_packets.wf(),
        ensures
            done == is_done(self.state(Map::empty()).slot(self.start())),
    {
        match self.outgoing_packets.get(self.earliest() as usize) {
            Some(packet) => packet.acks.len() > 0,
            None => true,
        }
    }

    /// Lets what is done with at the head of the flight go.
    fn settle(&mut self)
        requires
            old(self).wf(),
        ensures
            final(self).wf(),
            final(self).state(Map::empty()) == old(self).state(Map::empty()).settle(),
            final(self).outgoing_packets@.len() == old(self).outgoing_packets@.len(),
    {
        let ghost before = *self;
        while self.current_packet_window > 0 && self.head_is_done()
            invariant
                self.wf(),
                self.outgoing_packets@.len() == before.outgoing_packets@.len(),
                self.state(Map::empty()).settle() == before.state(Map::empty()).settle(),
            decreases self.current_packet_window,
        {
            let ghost current = self.state(Map::empty());
            let seq_num: u16 = self.earliest();
            self.empty_slot(seq_num);
            self.current_packet_window = self.current_packet_window - 1;
            self.settled = true;
            proof {
                let after = self.state(Map::empty());
                assert(after.settle() == current.settle());
                assert forall|i: int| 0 <= i < after.slots.len() implies match #[trigger]
                after.slots[i] {
                    Some(packet) => after.controller.knows(packet.seq_num),
                    None => true,
                } by {
                    assert(match current.slots[i] {
                        Some(packet) => current.controller.knows(packet.seq_num),
                        None => true,
                    });
                }
            }
        }
    }

    /// Handles an acknowledgement for the packet `ack_num`, with selective bits if there are any.
    ///
    /// Fails, and changes nothing, if `ack_num` lies outside the numbers that were sent.
    pub fn on_ack(
        &mut self,
        ack_num: u16,
        selective_ack: Option<&SelectiveAck>,
        delay: Duration,
        now: Instant,
        unacked: &mut HashMapDelay<u16, Packet>,
    ) -> (result: Result<(), SentPacketsError>)
        requires
            old(self).wf(),
        ensures
            final(self).wf(),
            result == (if old(self).state(Map::empty()).acceptable(ack_num) {
                Ok::<(), SentPacketsError>(())
            } else {
                Err(SentPacketsError::InvalidAckNum)
            }),
            result is Err ==> *final(self) == *old(self) && *final(unacked) == *old(unacked),
            result is Ok ==> final(self).state(waiting_packets(*final(unacked))) == old(
                self,
            ).state(waiting_packets(*old(unacked))).acknowledged(
                ack_num,
                selected(selective_ack),
                delay,
                now,
            ),
            old(self).current_packet_window == 0 ==> *final(self) == *old(self),
            result is Ok && final(self).current_packet_window > 0 ==> !is_done(
                final(self).state(Map::empty()).slot(final(self).start()),
            ),
            final(self).next_sequence_number == old(self).next_sequence_number,
            final(self).current_packet_window <= old(self).current_packet_window,
            forall|i: int|
                0 <= i < old(self).current_packet_window - final(self).current_packet_window
                    ==> final(self).outgoing_packets.at(
                    #[trigger] nth_after(old(self).start(), i) as int,
                ) is None,
            final(self).outgoing_packets@.len() == old(self).outgoing_packets@.len(),
            old(self).orderly() ==> {
                &&& final(self).orderly()
                &&& result is Ok ==> final(self).flight(waiting_packets(*final(unacked))) == old(
                    self,
                ).flight(waiting_packets(*old(unacked))).acknowledged(
                    ack_num,
                    selected(selective_ack),
                    delay,
                    now,
                )
            },
    {
        let ghost before = *self;
        let ghost state = self.state(waiting_packets(*unacked));
        if !self.was_sent(ack_num) {
            return Err(SentPacketsError::InvalidAckNum);
        }
        if self.current_packet_window != 0 {
            self.on_ack_num(ack_num, selective_ack, delay, now, unacked);
            let ghost current = *self;
            self.settle();
            proof {
                lemma_settle_keeps_waiting(current.state(Map::empty()), waiting_packets(*unacked));
                let settled = self.state(Map::empty());
                law_settle_empties_passed_slots(current.state(Map::empty()));
                assert forall|i: int|
                    0 <= i < before.current_packet_window
                        - self.current_packet_window implies self.outgoing_packets.at(
                    #[trigger] nth_after(before.start(), i) as int,
                ) is None by {
                    let seq_num = nth_after(before.start(), i);
                    assert(current.state(Map::empty()).number(i) == seq_num);
                    assert(settled.slot(seq_num) is None);
                    let n = self.outgoing_packets@.len() as int;
                    assert(0 <= seq_num as int % n < n);
                }
            }
        } else {
            remove_waiting(unacked, ack_num);
        }
        proof {
            let after = self.state(waiting_packets(*unacked));
            assert(after == state.acknowledged(ack_num, selected(selective_ack), delay, now));
            before.lemma_waiting(state.waiting);
            self.lemma_waiting(after.waiting);
            if state.orderly() {
                law_orderly_acknowledged(state, ack_num, selected(selective_ack), delay, now);
            }
        }
        Ok(())
    }

    /// The sequence numbers of the lost packets.
    ///
    /// A packet is lost if it has not been acknowledged and at least `LOSS_THRESHOLD` packets sent
    /// after it have been.
    pub fn detect_lost_packets(&self) -> (lost: BTreeSet<u16>)
        requires
            self.outgoing_packets.wf(),
        ensures
            forall|seq_num: u16| #[trigger]
                lost@.contains(seq_num) <==> exists|i: int| #[trigger]
                    self.state(Map::empty()).lost(i, seq_num),
            self.orderly() ==> forall|seq_num: u16| #[trigger]
                lost@.contains(seq_num) <==> {
                    let flight = self.flight(Map::empty());
                    flight.in_flight(seq_num) && flight.lost(flight.place(seq_num))
                },
    {
        let ghost state = self.state(Map::empty());
        let mut acked: usize = 0;
        let mut lost: BTreeSet<u16> = BTreeSet::new();
        let mut place: u16 = self.current_packet_window;
        while place > 0
            invariant
                self.outgoing_packets.wf(),
                state == self.state(Map::empty()),
                place <= self.current_packet_window,
                acked == state.acked_from(place as nat),
                acked <= self.current_packet_window - place,
                forall|seq_num: u16| #[trigger]
                    lost@.contains(seq_num) <==> exists|i: int|
                        place <= i && #[trigger] state.lost(i, seq_num),
            decreases place,
        {
            let ghost found = lost@;
            let ghost above = place as int;
            place = place - 1;
            let seq_num: u16 = self.earliest().wrapping_add(place);
            assert(seq_num == state.number(place as int));
            let ghost slot = state.slot(seq_num);
            if let Some(packet) = self.outgoing_packets.get(seq_num as usize) {
                assert(slot == Some(packet@));
                if packet.acks.len() > 0 {
                    acked = acked + 1;
                } else if acked >= LOSS_THRESHOLD {
                    lost.insert(packet.seq_num);
                }
            }
            assert forall|other: u16| #[trigger]
                lost@.contains(other) <==> exists|i: int|
                    place <= i && #[trigger] state.lost(i, other) by {
                if found.contains(other) {
                    let i = choose|i: int| above <= i && #[trigger] state.lost(i, other);
                    assert(place <= i && state.lost(i, other));
                }
                if lost@.contains(other) && !found.contains(other) {
                    assert(state.lost(place as int, other));
                }
                if exists|i: int| place <= i && #[trigger] state.lost(i, other) {
                    let i = choose|i: int| place <= i && #[trigger] state.lost(i, other);
                    if i >= above {
                        assert(found.contains(other));
                    }
                }
            }
        }
        proof {
            assert forall|seq_num: u16| #[trigger]
                lost@.contains(seq_num) <==> exists|i: int| #[trigger]
                    state.lost(i, seq_num) by {
                if exists|i: int| #[trigger] state.lost(i, seq_num) {
                    let i = choose|i: int| #[trigger] state.lost(i, seq_num);
                    assert(0 <= i && state.lost(i, seq_num));
                }
            }
            if state.orderly() {
                let flight = self.flight(Map::empty());
                assert(flight.start() == state.start());
                assert forall|seq_num: u16| #[trigger] lost@.contains(seq_num) <==> {
                    flight.in_flight(seq_num) && flight.lost(flight.place(seq_num))
                } by {
                    if lost@.contains(seq_num) {
                        let i = choose|i: int| #[trigger] state.lost(i, seq_num);
                        law_orderly_lost(state, i, seq_num);
                        assert(flight.place(seq_num) == i);
                    }
                    if flight.in_flight(seq_num) && flight.lost(flight.place(seq_num)) {
                        law_orderly_lost(state, flight.place(seq_num), seq_num);
                        assert(state.number(flight.place(seq_num)) == seq_num);
                        assert(state.lost(flight.place(seq_num), seq_num));
                    }
                }
            }
        }
        lost
    }

    /// Tells the controller that a packet was lost; the packets stay as they are.
    ///
    /// `seq_num` is the number of a packet that was sent.
    pub fn on_lost(&mut self, seq_num: u16, retransmitting: bool)
        requires
            old(self).wf(),
            ({
                let first = nth_after(old(self).start(), -2);
                distance(first, seq_num) <= distance(first, old(self).next_sequence_number)
            }),
            old(self).controller().knows(seq_num),
        ensures
            final(self).wf(),
            final(self).outgoing_packets@ == old(self).outgoing_packets@,
            final(self).state(Map::empty()) == (SendState {
                controller: old(self).controller().lost(seq_num, retransmitting)->Ok_0,
                ..old(self).state(Map::empty())
            }),
            old(self).orderly() ==> final(self).orderly() && final(self).flight(Map::empty()) == (
            Flight {
                controller: old(self).controller().lost(seq_num, retransmitting)->Ok_0,
                ..old(self).flight(Map::empty())
            }),
    {
        let ghost before = *self;
        let result = self.congestion_ctrl.on_lost_packet(seq_num, retransmitting);
        proof {
            assert(result is Ok);
            self.lemma_same_slots(before);
            assert forall|i: int| 0 <= i < self.state(Map::empty()).slots.len() implies match
            #[trigger] self.state(Map::empty()).slots[i] {
                Some(packet) => self.controller().knows(packet.seq_num),
                None => true,
            } by {
                assert(self.state(Map::empty()).slots[i] == before.state(Map::empty()).slots[i]);
            }
        }
    }

    /// The last number in the contiguous run of acknowledged ones: the number right before the
    /// flight, which `on_ack` moves past what has been acknowledged.
    ///
    /// `None` if the flight has not moved yet.
    pub fn last_ack_num(&self) -> (seq_num: Option<u16>)
        ensures
            seq_num == self.state(Map::empty()).last_acked(),
            self.orderly() ==> seq_num == self.flight(Map::empty()).last_acked(),
    {
        proof {
            if self.orderly() {
                law_orderly_front(self.state(Map::empty()));
            }
        }
        if self.settled {
            Some(self.earliest().wrapping_sub(1))
        } else {
            None
        }
    }

    /// The first number that has not been acknowledged: the number that the flight starts with,
    /// which `on_ack` moves past what has been acknowledged.
    ///
    /// `None` if nothing is in flight.
    pub fn first_unacked_seq_num(&self) -> (seq_num: Option<u16>)
        ensures
            seq_num == self.state(Map::empty()).first_unacked(),
            self.orderly() ==> seq_num == self.flight(Map::empty()).first_unacked(),
    {
        proof {
            if self.orderly() {
                law_orderly_front(self.state(Map::empty()));
            }
        }
        if self.current_packet_window > 0 {
            Some(self.earliest())
        } else {
            None
        }
    }

    /// The last number in the contiguous run of acknowledged ones, or zero if the flight has not
    /// moved yet.
    pub fn ack_num(&self) -> (seq_num: u16)
        ensures
            seq_num == match self.state(Map::empty()).last_acked() {
                Some(last) => last,
                None => 0,
            },
            self.orderly() ==> seq_num == match self.flight(Map::empty()).last_acked() {
                Some(last) => last,
                None => 0,
            },
    {
        match self.last_ack_num() {
            Some(last) => last,
            None => 0,
        }
    }

    /// Whether some number has not been acknowledged.
    pub fn has_unacked_packets(&self) -> (unacked: bool)
        ensures
            unacked == (self.state(Map::empty()).first_unacked() is Some),
            self.orderly() ==> unacked == (self.flight(Map::empty()).first_unacked() is Some),
    {
        self.first_unacked_seq_num().is_some()
    }
}

} // verus!
