//! The packets in flight as one run of consecutive numbers, and what each event makes of it.

use vstd::prelude::*;

use crate::congestion;
use crate::packet::{Packet, PacketType};
use crate::sent::LOSS_THRESHOLD;
use crate::seq::{distance, nth_after};
use crate::time::{Duration, Instant};

verus! {

/// What a sent packet is, up to the representation of its vectors.
#[verifier::ext_equal]
pub struct SentPacketView {
    pub seq_num: u16,
    pub packet_type: PacketType,
    pub data: Option<Seq<u8>>,
    pub transmission: Instant,
    pub retransmissions: Seq<Instant>,
    pub acks: Seq<Instant>,
    pub need_resend: bool,
}

impl SentPacketView {
    /// Whether an acknowledgement for the packet has arrived.
    pub open spec fn is_acked(self) -> bool {
        self.acks.len() > 0
    }

    /// The instant from which the round trip is measured: the first retransmission if there was
    /// one, else the transmission.
    pub open spec fn measured_from(self) -> Instant {
        if self.retransmissions.len() > 0 {
            self.retransmissions[0]
        } else {
            self.transmission
        }
    }

    /// The packet as it is when it is sent for the first time.
    pub open spec fn fresh(
        seq_num: u16,
        packet_type: PacketType,
        data: Option<Seq<u8>>,
        now: Instant,
    ) -> SentPacketView {
        SentPacketView {
            seq_num,
            packet_type,
            data,
            transmission: now,
            retransmissions: Seq::empty(),
            acks: Seq::empty(),
            need_resend: false,
        }
    }

    /// The packet after it was sent again.
    pub open spec fn sent_again(self, now: Instant) -> SentPacketView {
        SentPacketView { retransmissions: self.retransmissions.push(now), ..self }
    }

    /// The packet after it was acknowledged.
    pub open spec fn acked_at(self, now: Instant) -> SentPacketView {
        SentPacketView { acks: self.acks.push(now), ..self }
    }
}

/// Whether a number is one that was sent, with `count` packets in flight from `start` on: it is in
/// flight, or at most two before, and not the number of the next packet.
pub open spec fn acceptable(start: u16, count: int, seq_num: u16) -> bool {
    let place = distance(start, seq_num);
    place < count || place >= 0xfffe && place != count
}

/// How many numbers from `start` on, with `count` packets in flight, lie before a number.
///
/// None do before the two numbers before the flight. A number that lies neither in the flight,
/// nor right before or after it, counts as later exactly if it is larger than `start`.
pub open spec fn reach(start: u16, count: int, seq_num: u16) -> nat {
    let place = distance(start, seq_num);
    if place <= count || place < 0xfffe && seq_num > start {
        place as nat
    } else {
        0
    }
}

/// How many of `count` packets in flight from `start` on precede a number.
pub open spec fn preceding(start: u16, count: int, seq_num: u16) -> nat {
    if reach(start, count, seq_num) < count {
        reach(start, count, seq_num)
    } else {
        count as nat
    }
}

/// The packets in flight, the controller, and the packets that wait for an acknowledgement.
#[verifier::ext_equal]
pub struct Flight {
    /// The sequence number of the next packet to send.
    pub next: u16,
    /// The packets from the earliest in flight to the latest sent.
    pub packets: Seq<SentPacketView>,
    /// Whether an acknowledged packet has left the flight.
    pub settled: bool,
    pub controller: congestion::State,
    pub waiting: Map<u16, Packet>,
}

/// How many of the packets are acknowledged.
pub open spec fn count_acked(packets: Seq<SentPacketView>) -> nat
    decreases packets.len(),
{
    if packets.len() == 0 {
        0
    } else {
        count_acked(packets.drop_first()) + if packets.first().is_acked() {
            1nat
        } else {
            0
        }
    }
}

impl Flight {
    /// The sequence number of the earliest packet in flight, or of the next packet if none is.
    pub open spec fn start(self) -> u16 {
        nth_after(self.next, -(self.packets.len() as int))
    }

    /// The sequence number of the `i`-th packet in flight.
    pub open spec fn number(self, i: int) -> u16 {
        nth_after(self.start(), i)
    }

    /// The place of a sequence number, counted from the earliest packet in flight.
    pub open spec fn place(self, seq_num: u16) -> int {
        distance(self.start(), seq_num)
    }

    /// Whether a sequence number belongs to a packet in flight.
    pub open spec fn in_flight(self, seq_num: u16) -> bool {
        self.place(seq_num) < self.packets.len()
    }

    /// Whether a sequence number is one that was sent: in flight, or at most two before.
    pub open spec fn acceptable(self, seq_num: u16) -> bool {
        acceptable(self.start(), self.packets.len() as int, seq_num)
    }

    /// The flight after the next packet was sent, or a packet in flight was sent again: the next
    /// packet is added, and a packet in flight notes the retransmission.
    pub open spec fn transmitted(
        self,
        seq_num: u16,
        packet_type: PacketType,
        data: Option<Seq<u8>>,
        len: u32,
        now: Instant,
    ) -> Flight
        recommends
            seq_num == self.next || self.in_flight(seq_num),
    {
        if seq_num == self.next {
            Flight {
                next: nth_after(self.next, 1),
                packets: self.packets.push(SentPacketView::fresh(seq_num, packet_type, data, now)),
                controller: self.controller.transmitted(
                    seq_num,
                    congestion::Transmit::Initial { bytes: len },
                )->Ok_0,
                ..self
            }
        } else {
            Flight {
                packets: self.packets.update(
                    self.place(seq_num),
                    self.packets[self.place(seq_num)].sent_again(now),
                ),
                controller: self.controller.transmitted(
                    seq_num,
                    congestion::Transmit::Retransmission,
                )->Ok_0,
                ..self
            }
        }
    }

    /// The flight after one packet was acknowledged: the first acknowledgement of a packet in
    /// flight is noted, reported to the controller, and ends the wait for it. Nothing else counts.
    pub open spec fn acked(self, seq_num: u16, delay: Duration, now: Instant) -> Flight {
        let place = self.place(seq_num);
        if self.in_flight(seq_num) && !self.packets[place].is_acked() {
            let sent = self.packets[place];
            Flight {
                packets: self.packets.update(place, sent.acked_at(now)),
                controller: self.controller.acknowledged(
                    seq_num,
                    congestion::Ack {
                        delay,
                        rtt: now.since(sent.measured_from()),
                        received_at: now,
                    },
                )->Ok_0,
                waiting: self.waiting.remove(seq_num),
                ..self
            }
        } else {
            self
        }
    }

    /// The flight after the `n` earliest packets were acknowledged.
    pub open spec fn acked_earliest(self, n: nat, delay: Duration, now: Instant) -> Flight
        decreases n,
    {
        if n == 0 {
            self
        } else {
            self.acked_earliest((n - 1) as nat, delay, now).acked(
                self.number(n - 1),
                delay,
                now,
            )
        }
    }

    /// The flight after the packets before `seq_num` were acknowledged.
    pub open spec fn acked_before(self, seq_num: u16, delay: Duration, now: Instant) -> Flight {
        self.acked_earliest(
            preceding(self.start(), self.packets.len() as int, seq_num),
            delay,
            now,
        )
    }

    /// One selective bit, applied on its own.
    pub open spec fn acked_by_bit(
        self,
        seq_num: u16,
        bit: bool,
        delay: Duration,
        now: Instant,
    ) -> Flight {
        if bit {
            self.acked(seq_num, delay, now)
        } else {
            self
        }
    }

    /// The flight after selective bits were applied to the numbers from `seq_num` on, up to the
    /// first that was not sent.
    pub open spec fn acked_by_bits(
        self,
        seq_num: u16,
        bits: Seq<bool>,
        delay: Duration,
        now: Instant,
    ) -> Flight
        decreases bits.len(),
    {
        if bits.len() == 0 || !self.acceptable(seq_num) {
            self
        } else {
            self.acked_by_bit(seq_num, bits.first(), delay, now).acked_by_bits(
                nth_after(seq_num, 1),
                bits.drop_first(),
                delay,
                now,
            )
        }
    }

    /// The flight without the acknowledged packets at its head.
    pub open spec fn settle(self) -> Flight
        decreases self.packets.len(),
    {
        if self.packets.len() > 0 && self.packets.first().is_acked() {
            Flight { packets: self.packets.drop_first(), settled: true, ..self }.settle()
        } else {
            self
        }
    }

    /// The flight after the packet `ack_num` and, if given, the packets that selective bits name
    /// were acknowledged, and all packets before `ack_num` with them.
    pub open spec fn acked_all(
        self,
        ack_num: u16,
        selective_ack: Option<Seq<bool>>,
        delay: Duration,
        now: Instant,
    ) -> Flight {
        let direct = self.acked(ack_num, delay, now);
        let selected = match selective_ack {
            Some(bits) => direct.acked_by_bits(nth_after(ack_num, 2), bits, delay, now),
            None => direct,
        };
        selected.acked_before(ack_num, delay, now)
    }

    /// The flight after an acceptable acknowledgement. With nothing in flight it only ends the
    /// wait for the packet that it names.
    pub open spec fn acknowledged(
        self,
        ack_num: u16,
        selective_ack: Option<Seq<bool>>,
        delay: Duration,
        now: Instant,
    ) -> Flight {
        if self.packets.len() == 0 {
            Flight { waiting: self.waiting.remove(ack_num), ..self }
        } else {
            self.acked_all(ack_num, selective_ack, delay, now).settle()
        }
    }

    /// Whether the `i`-th packet in flight is lost: unacknowledged, with at least the threshold
    /// number of later packets acknowledged.
    pub open spec fn lost(self, i: int) -> bool {
        &&& 0 <= i < self.packets.len()
        &&& !self.packets[i].is_acked()
        &&& count_acked(self.packets.skip(i + 1)) >= LOSS_THRESHOLD
    }

    /// The number right before the flight, which ends the run of acknowledged numbers, if the
    /// flight has moved.
    pub open spec fn last_acked(self) -> Option<u16> {
        if self.settled {
            Some(self.number(-1))
        } else {
            None
        }
    }

    /// The number that the flight starts with, if there is a packet in flight.
    pub open spec fn first_unacked(self) -> Option<u16> {
        if self.packets.len() > 0 {
            Some(self.start())
        } else {
            None
        }
    }
}

} // verus!
