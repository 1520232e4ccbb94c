//! What was sent, slot by slot, and what each event makes of it.
//!
//! A slot is addressed by sequence number modulo the number of slots. As long as only the next
//! packet and packets in flight are sent, the slots hold one run of consecutive numbers: the
//! state is orderly, and `Flight` says all there is to say of it.

use vstd::arithmetic::div_mod::{lemma_fundamental_div_mod, lemma_mod_multiples_vanish};
use vstd::arithmetic::power2::is_pow2;
use vstd::prelude::*;

use crate::congestion;
use crate::flight::{acceptable, count_acked, reach, Flight, SentPacketView};
use crate::packet::{Packet, PacketType};
use crate::sent::LOSS_THRESHOLD;
use crate::seq::{distance, nth_after};
use crate::time::{Duration, Instant};
use crate::utils::{
    grown, grown_size, law_grown_size, lemma_power_divides, lemma_slot_injective,
    lemma_slot_offset,
};

verus! {

/// What was sent, the controller, and the packets that wait for an acknowledgement.
#[verifier::ext_equal]
pub struct SendState {
    /// The sequence number of the next packet to send.
    pub next: u16,
    /// How many numbers before the next one are in flight.
    pub window: u16,
    pub slots: Seq<Option<SentPacketView>>,
    /// Whether the flight has moved past a number.
    pub settled: bool,
    pub controller: congestion::State,
    pub waiting: Map<u16, Packet>,
}

/// Whether the head of the flight may pass a slot: its packet is acknowledged, or it holds none.
pub open spec fn is_done(slot: Option<SentPacketView>) -> bool {
    match slot {
        Some(packet) => packet.is_acked(),
        None => true,
    }
}

impl SendState {
    /// The first number in flight, or the next number if none is.
    pub open spec fn start(self) -> u16 {
        nth_after(self.next, -(self.window as int))
    }

    /// The `i`-th number in flight.
    pub open spec fn number(self, i: int) -> u16 {
        nth_after(self.start(), i)
    }

    /// Whether a number is in flight.
    pub open spec fn in_window(self, seq_num: u16) -> bool {
        distance(self.start(), seq_num) < self.window
    }

    /// Whether a number is one that was sent: in flight, or at most two before.
    pub open spec fn acceptable(self, seq_num: u16) -> bool {
        acceptable(self.start(), self.window as int, seq_num)
    }

    /// What the slot that a number addresses holds.
    pub open spec fn at(self, number: int) -> Option<SentPacketView> {
        self.slots[number % (self.slots.len() as int)]
    }

    /// What the slot of a sequence number holds.
    pub open spec fn slot(self, seq_num: u16) -> Option<SentPacketView> {
        self.at(seq_num as int)
    }

    /// The state with the slot of a sequence number replaced.
    pub open spec fn with_slot(self, seq_num: u16, slot: Option<SentPacketView>) -> SendState {
        SendState {
            slots: self.slots.update(seq_num as int % (self.slots.len() as int), slot),
            ..self
        }
    }

    /// The controller knows every packet that a slot holds.
    pub open spec fn all_known(self) -> bool {
        forall|i: int|
            0 <= i < self.slots.len() ==> match #[trigger] self.slots[i] {
                Some(packet) => self.controller.knows(packet.seq_num),
                None => true,
            }
    }

    /// Whether a packet may be sent under a number.
    ///
    /// The number is the next one or at most two before those in flight or one of them. Under the
    /// next number the packet must fit in the window; any other number must have been sent before.
    pub open spec fn may_send(self, seq_num: u16, len: u32) -> bool {
        let first = nth_after(self.start(), -2);
        &&& distance(first, seq_num) <= distance(first, self.next)
        &&& if seq_num == self.next {
            len <= self.controller.available()
        } else {
            self.controller.knows(seq_num) || self.orderly() && self.in_window(seq_num)
        }
        &&& self.slot(seq_num) is None ==> self.window < u16::MAX
    }

    /// The state after a packet was sent.
    ///
    /// A packet in the slot of the number notes a retransmission. An empty slot gets a new packet:
    /// it counts as one more in flight, and the next number moves on by one, also where the packet
    /// goes out under an earlier number. To the controller only the next number is new.
    pub open spec fn transmitted(
        self,
        seq_num: u16,
        packet_type: PacketType,
        data: Option<Seq<u8>>,
        len: u32,
        now: Instant,
    ) -> SendState {
        let transmit = if seq_num == self.next {
            congestion::Transmit::Initial { bytes: len }
        } else {
            congestion::Transmit::Retransmission
        };
        let sent = match self.slot(seq_num) {
            Some(packet) => self.with_slot(seq_num, Some(packet.sent_again(now))),
            None => SendState {
                next: nth_after(self.next, 1),
                window: (self.window + 1) as u16,
                slots: grown(self.slots, seq_num as int, self.window + 1),
                ..self
            }.with_slot(
                seq_num,
                Some(SentPacketView::fresh(seq_num, packet_type, data, now)),
            ),
        };
        SendState {
            controller: self.controller.transmitted(seq_num, transmit)->Ok_0,
            ..sent
        }
    }

    /// The state after one number was acknowledged.
    ///
    /// The packet in the slot of a number in flight is taken to be meant, and notes the
    /// acknowledgement. Outside the flight only a packet with that very number is, and it is let
    /// go. The first acknowledgement of a packet is reported to the controller and ends the wait
    /// for it.
    pub open spec fn acked(self, seq_num: u16, delay: Duration, now: Instant) -> SendState {
        match self.slot(seq_num) {
            Some(sent) => if (self.in_window(seq_num) || sent.seq_num == seq_num)
                && !sent.is_acked() {
                let slot = if self.in_window(seq_num) {
                    Some(sent.acked_at(now))
                } else {
                    None
                };
                SendState {
                    controller: self.controller.acknowledged(
                        sent.seq_num,
                        congestion::Ack {
                            delay,
                            rtt: now.since(sent.measured_from()),
                            received_at: now,
                        },
                    )->Ok_0,
                    waiting: self.waiting.remove(sent.seq_num),
                    ..self.with_slot(seq_num, slot)
                }
            } else {
                self
            },
            None => self,
        }
    }

    /// The state after the packet that the slot of a number holds, if any, was acknowledged under
    /// its own number.
    pub open spec fn acked_slot(self, seq_num: u16, delay: Duration, now: Instant) -> SendState {
        match self.slot(seq_num) {
            Some(packet) => self.acked(packet.seq_num, delay, now),
            None => self,
        }
    }

    /// The state after the packets in the slots of the `n` numbers from the start of the flight on
    /// were acknowledged.
    pub open spec fn acked_earliest(self, n: nat, delay: Duration, now: Instant) -> SendState
        decreases n,
    {
        if n == 0 {
            self
        } else {
            self.acked_earliest((n - 1) as nat, delay, now).acked_slot(
                self.number(n - 1),
                delay,
                now,
            )
        }
    }

    /// The state after the packets in the slots of the numbers from the start of the flight to the
    /// one before `seq_num` were acknowledged.
    pub open spec fn acked_before(self, seq_num: u16, delay: Duration, now: Instant) -> SendState {
        self.acked_earliest(reach(self.start(), self.window as int, seq_num), delay, now)
    }

    /// One selective bit, applied on its own.
    pub open spec fn acked_by_bit(
        self,
        seq_num: u16,
        bit: bool,
        delay: Duration,
        now: Instant,
    ) -> SendState {
        if bit {
            self.acked(seq_num, delay, now)
        } else {
            self
        }
    }

    /// The state after selective bits were applied to the numbers from `seq_num` on, up to the
    /// first that was not sent.
    pub open spec fn acked_by_bits(
        self,
        seq_num: u16,
        bits: Seq<bool>,
        delay: Duration,
        now: Instant,
    ) -> SendState
        decreases bits.len(),
    {
        if bits.len() == 0 || !self.acceptable(seq_num) {
            self
        } else {
            self.acked_by_bit(seq_num, bits.first(), delay, now).acked_by_bits(
                nth_after(seq_num, 1),
                bits.drop_first(),
                delay,
                now,
            )
        }
    }

    /// The state without the numbers at the head of the flight that are done with.
    pub open spec fn settle(self) -> SendState
        decreases self.window,
    {
        if self.window > 0 && is_done(self.slot(self.start())) {
            SendState {
                window: (self.window - 1) as u16,
                settled: true,
                ..self.with_slot(self.start(), None)
            }.settle()
        } else {
            self
        }
    }

    /// The state after `ack_num` and, if given, the numbers that selective bits name were
    /// acknowledged, and all numbers in flight before `ack_num` with them.
    pub open spec fn acked_all(
        self,
        ack_num: u16,
        selective_ack: Option<Seq<bool>>,
        delay: Duration,
        now: Instant,
    ) -> SendState {
        let direct = self.acked(ack_num, delay, now);
        let selected = match selective_ack {
            Some(bits) => direct.acked_by_bits(nth_after(ack_num, 2), bits, delay, now),
            None => direct,
        };
        selected.acked_before(ack_num, delay, now)
    }

    /// The state after an acceptable acknowledgement. With nothing in flight it only ends the
    /// wait for the packet that it names.
    pub open spec fn acknowledged(
        self,
        ack_num: u16,
        selective_ack: Option<Seq<bool>>,
        delay: Duration,
        now: Instant,
    ) -> SendState {
        if self.window == 0 {
            SendState { waiting: self.waiting.remove(ack_num), ..self }
        } else {
            self.acked_all(ack_num, selective_ack, delay, now).settle()
        }
    }

    /// The number right before the flight, which ends the run of acknowledged numbers, if the
    /// flight has moved.
    pub open spec fn last_acked(self) -> Option<u16> {
        if self.settled {
            Some(self.number(-1))
        } else {
            None
        }
    }

    /// The number that the flight starts with, if any number is in flight.
    pub open spec fn first_unacked(self) -> Option<u16> {
        if self.window > 0 {
            Some(self.start())
        } else {
            None
        }
    }

    /// How many numbers from the `i`-th in flight on have an acknowledged packet in their slot.
    pub open spec fn acked_from(self, i: nat) -> nat
        decreases self.window - i,
    {
        if i < self.window {
            self.acked_from(i + 1) + match self.slot(self.number(i as int)) {
                Some(packet) => if packet.is_acked() {
                    1nat
                } else {
                    0
                },
                None => 0,
            }
        } else {
            0
        }
    }

    /// Whether the packet in the slot of the `i`-th number in flight is lost and has this number:
    /// it is unacknowledged, and at least the threshold number of later packets is acknowledged.
    pub open spec fn lost(self, i: int, seq_num: u16) -> bool {
        &&& 0 <= i < self.window
        &&& match self.slot(self.number(i)) {
            Some(packet) => packet.seq_num == seq_num && !packet.is_acked(),
            None => false,
        }
        &&& self.acked_from((i + 1) as nat) >= LOSS_THRESHOLD
    }

    /// What is held `i` places after the first number in flight.
    pub open spec fn held(self, i: int) -> Option<SentPacketView> {
        self.at(self.start() + i)
    }

    /// The number of slots is a power of two from 16 to 2^16.
    pub open spec fn sized(self) -> bool {
        &&& is_pow2(self.slots.len() as int)
        &&& 16 <= self.slots.len() <= 0x1_0000
    }

    /// The slots hold the packets in flight, each under its number, and nothing else.
    pub open spec fn orderly(self) -> bool {
        &&& self.sized()
        &&& self.window < self.slots.len()
        &&& forall|i: int|
            #![trigger self.held(i)]
            0 <= i < self.slots.len() ==> match self.held(i) {
                Some(packet) => i < self.window && packet.seq_num == self.number(i),
                None => i >= self.window,
            }
    }

    /// The packets in flight, from the earliest on.
    pub open spec fn packets(self) -> Seq<SentPacketView> {
        Seq::new(self.window as nat, |i: int| self.held(i)->Some_0)
    }

    /// The flight that an orderly state stands for.
    pub open spec fn flight(self) -> Flight {
        Flight {
            next: self.next,
            packets: self.packets(),
            settled: self.settled,
            controller: self.controller,
            waiting: self.waiting,
        }
    }
}

/// Numbers that are the same but for a turn of 2^16 address the same slot.
proof fn lemma_same_slot(state: SendState, a: int, b: int)
    requires
        state.sized(),
        a == b || a == b + 0x1_0000 || b == a + 0x1_0000,
    ensures
        a % (state.slots.len() as int) == b % (state.slots.len() as int),
        state.at(a) == state.at(b),
{
    let n = state.slots.len() as int;
    assert(is_pow2(0x1_0000int)) by {
        reveal_with_fuel(is_pow2, 18);
    }
    lemma_power_divides(n as nat, 0x1_0000);
    lemma_fundamental_div_mod(0x1_0000, n);
    let c = 0x1_0000int / n;
    lemma_mod_multiples_vanish(c, a, n);
    lemma_mod_multiples_vanish(c, b, n);
}

/// A number and the one a whole turn of the buffer later address the same slot.
proof fn lemma_turn(state: SendState, a: int)
    requires
        state.sized(),
    ensures
        state.at(a + state.slots.len()) == state.at(a),
{
    lemma_mod_multiples_vanish(1, a, state.slots.len() as int);
}

/// The slot of the number at a place.
proof fn lemma_slot_at(state: SendState, i: int)
    requires
        state.sized(),
        -0x1_0000 <= i <= 0x1_0000,
    ensures
        state.slot(state.number(i)) == state.held(i),
{
    lemma_same_slot(state, state.number(i) as int, state.start() + i);
}

/// Every slot has a place.
proof fn lemma_place_of_slot(state: SendState, slot: int) -> (i: int)
    requires
        0 <= slot < state.slots.len(),
    ensures
        0 <= i < state.slots.len(),
        state.held(i) == state.slots[slot],
{
    lemma_slot_offset(state.start() as int, slot, state.slots.len() as int);
    (slot - state.start()) % (state.slots.len() as int)
}

/// Changing the slot of one place leaves the other places alone.
proof fn lemma_held_update(state: SendState, place: int, slot: Option<SentPacketView>)
    requires
        state.sized(),
        0 <= place < state.slots.len(),
    ensures
        forall|i: int|
            #![trigger state.with_slot(state.number(place), slot).held(i)]
            0 <= i < state.slots.len() ==> state.with_slot(state.number(place), slot).held(i) == (
            if i == place {
                slot
            } else {
                state.held(i)
            }),
{
    let n = state.slots.len() as int;
    let start = state.start();
    let after = state.with_slot(state.number(place), slot);
    lemma_same_slot(state, state.number(place) as int, start + place);
    assert forall|i: int| #![trigger after.held(i)] 0 <= i < n implies after.held(i) == (if i
        == place {
        slot
    } else {
        state.held(i)
    }) by {
        if (start + i) % n == (start + place) % n {
            lemma_slot_injective(start as int, i, place, n);
        }
    }
}

/// In an orderly state the slot of a number in flight holds the packet with that number, and the
/// slot of any other number holds no packet with that number.
proof fn lemma_lookup(state: SendState, seq_num: u16)
    requires
        state.orderly(),
    ensures
        state.in_window(seq_num) ==> {
            let place = distance(state.start(), seq_num);
            &&& seq_num == state.number(place)
            &&& state.slot(seq_num) == Some(state.packets()[place])
            &&& state.packets()[place].seq_num == seq_num
        },
        !state.in_window(seq_num) ==> match state.slot(seq_num) {
            Some(packet) => packet.seq_num != seq_num,
            None => true,
        },
{
    let place = distance(state.start(), seq_num);
    if state.in_window(seq_num) {
        lemma_slot_at(state, place);
        assert(state.held(place) is Some);
    } else {
        let n = state.slots.len() as int;
        let i = lemma_place_of_slot(state, seq_num as int % n);
        assert(state.held(i) == state.slot(seq_num));
    }
}

/// Another record in place of that of a packet in flight.
proof fn lemma_replaced(state: SendState, place: int, packet: SentPacketView)
    requires
        state.orderly(),
        0 <= place < state.window,
        packet.seq_num == state.number(place),
    ensures
        state.with_slot(state.number(place), Some(packet)).orderly(),
        state.with_slot(state.number(place), Some(packet)).packets() == state.packets().update(
            place,
            packet,
        ),
{
    let after = state.with_slot(state.number(place), Some(packet));
    lemma_held_update(state, place, Some(packet));
    assert forall|i: int| #![trigger after.held(i)] 0 <= i < after.slots.len() implies match after.held(
        i,
    ) {
        Some(packet) => i < after.window && packet.seq_num == after.number(i),
        None => i >= after.window,
    } by {
        assert(state.held(i) is Some <==> i < state.window);
    }
    assert forall|i: int| 0 <= i < state.window implies #[trigger] after.packets()[i]
        == state.packets().update(place, packet)[i] by {
        assert(after.held(i) == (if i == place {
            Some(packet)
        } else {
            state.held(i)
        }));
    }
    assert(after.packets() =~= state.packets().update(place, packet));
}

/// What one place holds after a full buffer has doubled around a run.
proof fn lemma_place_grown(before: SendState, after: SendState, base: int, i: int)
    requires
        before.sized(),
        after.sized(),
        after.next == before.next,
        after.window == before.window,
        before.slots.len() < after.slots.len(),
        0 <= i < after.slots.len(),
        base + 1 == before.start() || base + 1 == before.start() - 0x1_0000,
        before.held(before.slots.len() - 1) is None,
        forall|j: int|
            #![trigger after.at(base + j)]
            0 <= j < after.slots.len() ==> after.at(base + j) == (if j < before.slots.len() {
                before.at(base + j)
            } else {
                None
            }),
    ensures
        after.held(i) == (if i < before.slots.len() - 1 {
            before.held(i)
        } else {
            None
        }),
{
    let n = before.slots.len() as int;
    let m = after.slots.len() as int;
    let start = before.start();
    if i + 1 < m {
        lemma_same_slot(after, start + i, base + (i + 1));
        if i + 1 < n {
            lemma_same_slot(before, start + i, base + (i + 1));
        }
        assert(after.at(base + (i + 1)) == (if i + 1 < n {
            before.at(base + (i + 1))
        } else {
            None
        }));
    } else {
        lemma_same_slot(after, start + i, base + m);
        lemma_turn(after, base);
        assert(after.at(base + 0) == before.at(base + 0));
        lemma_turn(before, base);
        lemma_same_slot(before, base + n, start + (n - 1));
    }
}

/// Room for the next packet keeps an orderly run where it is.
proof fn lemma_grown(state: SendState)
    requires
        state.orderly(),
        state.window < u16::MAX,
    ensures
        ({
            let after = SendState {
                slots: grown(state.slots, state.next as int, state.window + 1),
                ..state
            };
            &&& after.orderly()
            &&& after.window + 1 < after.slots.len()
            &&& after.packets() == state.packets()
            &&& after.slots.len() == grown_size(state.slots.len(), (state.window + 1) as nat)
        }),
{
    let n = state.slots.len() as int;
    let count = state.window as int;
    let after = SendState { slots: grown(state.slots, state.next as int, count + 1), ..state };
    let m = grown_size(n as nat, (count + 1) as nat) as int;
    law_grown_size(n as nat, (count + 1) as nat);
    if count + 1 >= n {
        assert(m == 2 * n) by {
            reveal_with_fuel(grown_size, 3);
        }
        assert(n <= 0x8000) by {
            if n > 0x8000 {
                assert(is_pow2(0x8000int)) by {
                    reveal_with_fuel(is_pow2, 17);
                }
                lemma_power_divides(0x8000, n as nat);
            }
        }
        let base = state.next - (count + 1);
        assert forall|j: int| #![trigger after.at(base + j)] 0 <= j < m implies after.at(base + j)
            == (if j < n {
            state.at(base + j)
        } else {
            None
        }) by {
            lemma_slot_offset(base, j, m);
        }
        assert(state.held(n - 1) is None);
        assert forall|i: int| #![trigger after.held(i)] 0 <= i < m implies after.held(i) == (if i
            < count {
            state.held(i)
        } else {
            None
        }) by {
            lemma_place_grown(state, after, base, i);
        }
    }
    assert forall|i: int| #![trigger after.held(i)] 0 <= i < m implies match after.held(i) {
        Some(packet) => i < count && packet.seq_num == after.number(i),
        None => i >= count,
    } by {
        if i < n {
            assert(state.held(i) is Some <==> i < count);
        }
    }
    assert forall|i: int| 0 <= i < count implies #[trigger] after.packets()[i]
        == state.packets()[i] by {
        assert(after.held(i) == state.held(i));
    }
    assert(after.packets() =~= state.packets());
}

/// In an orderly state the slot of the next number is empty.
pub(crate) proof fn lemma_next_slot_is_empty(state: SendState)
    requires
        state.orderly(),
    ensures
        state.slot(state.next) is None,
{
    assert(state.number(state.window as int) == state.next);
    lemma_slot_at(state, state.window as int);
}

/// Sending keeps the controller informed of every packet held.
pub(crate) proof fn lemma_transmitted_known(
    state: SendState,
    seq_num: u16,
    packet_type: PacketType,
    data: Option<Seq<u8>>,
    len: u32,
    now: Instant,
)
    requires
        state.all_known(),
        state.slots.len() > 0,
        is_pow2(state.slots.len() as int),
        state.window < u16::MAX || state.slot(seq_num) is Some,
        if seq_num == state.next {
            len <= state.controller.available()
        } else {
            state.controller.knows(seq_num)
        },
    ensures
        state.transmitted(seq_num, packet_type, data, len, now).all_known(),
{
    let after = state.transmitted(seq_num, packet_type, data, len, now);
    let n = state.slots.len() as int;
    let window = state.window + 1;
    law_grown_size(n as nat, window as nat);
    assert forall|known: u16| #[trigger]
        state.controller.knows(known) implies after.controller.knows(known) by {}
    assert(after.controller.knows(seq_num));
    assert forall|i: int| 0 <= i < after.slots.len() implies match #[trigger] after.slots[i] {
        Some(packet) => after.controller.knows(packet.seq_num),
        None => true,
    } by {
        match state.slot(seq_num) {
            Some(packet) => {
                assert(state.slots[seq_num as int % n] == Some(packet));
                assert(match state.slots[i] {
                    Some(packet) => state.controller.knows(packet.seq_num),
                    None => true,
                });
            },
            None => {
                if window >= n {
                    let base = seq_num - window;
                    let j = (i - base) % (after.slots.len() as int);
                    assert(0 <= (base + j) % n < n);
                    assert(match state.slots[(base + j) % n] {
                        Some(packet) => state.controller.knows(packet.seq_num),
                        None => true,
                    });
                } else {
                    assert(match state.slots[i] {
                        Some(packet) => state.controller.knows(packet.seq_num),
                        None => true,
                    });
                }
            },
        }
    }
}

/// Acknowledging keeps the controller informed of every packet held.
pub(crate) proof fn lemma_acked_known(state: SendState, seq_num: u16, delay: Duration, now: Instant)
    requires
        state.all_known(),
        state.slots.len() > 0,
    ensures
        state.acked(seq_num, delay, now).all_known(),
{
    let after = state.acked(seq_num, delay, now);
    assert(state.slots[seq_num as int % (state.slots.len() as int)] == state.slot(seq_num));
    assert forall|i: int| 0 <= i < after.slots.len() implies match #[trigger] after.slots[i] {
        Some(packet) => after.controller.knows(packet.seq_num),
        None => true,
    } by {
        assert(match state.slots[i] {
            Some(packet) => state.controller.knows(packet.seq_num),
            None => true,
        });
    }
}

/// Sending the next packet, or a packet in flight again, keeps an orderly state so.
pub proof fn law_orderly_transmitted(
    state: SendState,
    seq_num: u16,
    packet_type: PacketType,
    data: Option<Seq<u8>>,
    len: u32,
    now: Instant,
)
    requires
        state.orderly(),
        seq_num == state.next && state.window < u16::MAX || state.in_window(seq_num),
    ensures
        ({
            let after = state.transmitted(seq_num, packet_type, data, len, now);
            &&& after.orderly()
            &&& after.flight() == state.flight().transmitted(seq_num, packet_type, data, len, now)
            &&& after.slots.len() == if seq_num == state.next {
                grown_size(state.slots.len(), (state.window + 1) as nat)
            } else {
                state.slots.len()
            }
        }),
{
    let after = state.transmitted(seq_num, packet_type, data, len, now);
    let count = state.window as int;
    assert(state.flight().start() == state.start());
    if state.in_window(seq_num) {
        let place = distance(state.start(), seq_num);
        lemma_lookup(state, seq_num);
        let packet = state.packets()[place].sent_again(now);
        lemma_replaced(state, place, packet);
        let noted = state.with_slot(seq_num, Some(packet));
        assert forall|i: int| #![trigger after.held(i)] 0 <= i < after.slots.len() implies
            after.held(i) == noted.held(i) by {}
        assert(after.packets() =~= noted.packets());
    } else {
        lemma_slot_at(state, count);
        assert(state.number(count) == seq_num);
        assert(state.held(count) is None);
        lemma_grown(state);
        let room = SendState { slots: grown(state.slots, seq_num as int, count + 1), ..state };
        let packet = SentPacketView::fresh(seq_num, packet_type, data, now);
        let put = room.with_slot(room.number(count), Some(packet));
        lemma_held_update(room, count, Some(packet));
        assert(after.start() == state.start());
        assert(after.slots == put.slots);
        assert forall|i: int| #![trigger after.held(i)] 0 <= i < after.slots.len() implies match after.held(
            i,
        ) {
            Some(packet) => i < count + 1 && packet.seq_num == after.number(i),
            None => i >= count + 1,
        } by {
            assert(after.held(i) == put.held(i));
            assert(room.held(i) is Some <==> i < count);
        }
        assert forall|i: int| 0 <= i < count + 1 implies #[trigger] after.packets()[i]
            == state.packets().push(packet)[i] by {
            assert(after.held(i) == put.held(i));
            if i < count {
                assert(room.packets()[i] == state.packets()[i]);
            }
        }
        assert(after.packets() =~= state.packets().push(packet));
    }
}

/// Acknowledging one number keeps an orderly state so.
pub proof fn law_orderly_acked(state: SendState, seq_num: u16, delay: Duration, now: Instant)
    requires
        state.orderly(),
    ensures
        state.acked(seq_num, delay, now).orderly(),
        state.acked(seq_num, delay, now).flight() == state.flight().acked(seq_num, delay, now),
        state.acked(seq_num, delay, now).next == state.next,
        state.acked(seq_num, delay, now).window == state.window,
        state.acked(seq_num, delay, now).slots.len() == state.slots.len(),
{
    let after = state.acked(seq_num, delay, now);
    let place = distance(state.start(), seq_num);
    assert(state.flight().start() == state.start());
    lemma_lookup(state, seq_num);
    if state.in_window(seq_num) && !state.packets()[place].is_acked() {
        let packet = state.packets()[place].acked_at(now);
        lemma_replaced(state, place, packet);
        let noted = state.with_slot(seq_num, Some(packet));
        assert forall|i: int| #![trigger after.held(i)] 0 <= i < after.slots.len() implies
            after.held(i) == noted.held(i) by {}
        assert(after.packets() =~= noted.packets());
    }
}

/// What any slot of an orderly state holds is a packet in flight.
proof fn lemma_slot_is_in_flight(state: SendState, seq_num: u16)
    requires
        state.orderly(),
    ensures
        match state.slot(seq_num) {
            Some(packet) => {
                &&& state.in_window(packet.seq_num)
                &&& state.packets()[distance(state.start(), packet.seq_num)] == packet
            },
            None => true,
        },
{
    let n = state.slots.len() as int;
    let i = lemma_place_of_slot(state, seq_num as int % n);
    assert(state.held(i) == state.slot(seq_num));
    if state.held(i) is Some {
        assert(distance(state.start(), state.number(i)) == i);
    }
}

/// Acknowledging the packets from the start of the flight on keeps an orderly state so, and
/// beyond the flight there is nothing to acknowledge.
pub proof fn law_orderly_acked_earliest(state: SendState, n: nat, delay: Duration, now: Instant)
    requires
        state.orderly(),
    ensures
        state.acked_earliest(n, delay, now).orderly(),
        state.acked_earliest(n, delay, now).flight() == state.flight().acked_earliest(
            if n < state.window {
                n
            } else {
                state.window as nat
            },
            delay,
            now,
        ),
        state.acked_earliest(n, delay, now).next == state.next,
        state.acked_earliest(n, delay, now).window == state.window,
        state.acked_earliest(n, delay, now).slots.len() == state.slots.len(),
        forall|i: int|
            0 <= i < n && i < state.window ==> (#[trigger] state.acked_earliest(
                n,
                delay,
                now,
            ).packets()[i]).is_acked(),
    decreases n,
{
    if n > 0 {
        law_orderly_acked_earliest(state, (n - 1) as nat, delay, now);
        let before = state.acked_earliest((n - 1) as nat, delay, now);
        let after = state.acked_earliest(n, delay, now);
        let number = state.number(n - 1);
        assert(state.flight().start() == state.start());
        assert(before.start() == state.start());
        if n - 1 < state.window {
            assert(distance(state.start(), number) == n - 1);
            lemma_lookup(before, number);
            law_orderly_acked(before, number, delay, now);
            assert(after == before.acked(number, delay, now));
            assert(after.packets() == before.flight().acked(number, delay, now).packets);
            assert forall|i: int| 0 <= i < n && i < state.window implies (#[trigger]
            after.packets()[i]).is_acked() by {
                if i < n - 1 {
                    assert(before.packets()[i].is_acked());
                }
            }
        } else {
            lemma_slot_is_in_flight(before, number);
            if before.slot(number) is Some {
                let packet = before.slot(number)->Some_0;
                let place = distance(before.start(), packet.seq_num);
                assert(before.packets()[place].is_acked());
                lemma_lookup(before, packet.seq_num);
            }
            assert(after == before);
        }
    }
}

/// Acknowledging the packets before a number keeps an orderly state so, and acknowledges those in
/// flight.
pub proof fn law_orderly_acked_before(
    state: SendState,
    seq_num: u16,
    delay: Duration,
    now: Instant,
)
    requires
        state.orderly(),
    ensures
        state.acked_before(seq_num, delay, now).orderly(),
        state.acked_before(seq_num, delay, now).flight() == state.flight().acked_before(
            seq_num,
            delay,
            now,
        ),
        state.acked_before(seq_num, delay, now).next == state.next,
        state.acked_before(seq_num, delay, now).window == state.window,
        state.acked_before(seq_num, delay, now).slots.len() == state.slots.len(),
{
    assert(state.flight().start() == state.start());
    assert(state.flight().packets.len() == state.window);
    law_orderly_acked_earliest(
        state,
        reach(state.start(), state.window as int, seq_num),
        delay,
        now,
    );
}

/// Selective bits keep an orderly state so.
pub proof fn law_orderly_acked_by_bits(
    state: SendState,
    seq_num: u16,
    bits: Seq<bool>,
    delay: Duration,
    now: Instant,
)
    requires
        state.orderly(),
    ensures
        state.acked_by_bits(seq_num, bits, delay, now).orderly(),
        state.acked_by_bits(seq_num, bits, delay, now).flight() == state.flight().acked_by_bits(
            seq_num,
            bits,
            delay,
            now,
        ),
        state.acked_by_bits(seq_num, bits, delay, now).next == state.next,
        state.acked_by_bits(seq_num, bits, delay, now).window == state.window,
        state.acked_by_bits(seq_num, bits, delay, now).slots.len() == state.slots.len(),
    decreases bits.len(),
{
    assert(state.flight().start() == state.start());
    if bits.len() > 0 && state.acceptable(seq_num) {
        law_orderly_acked(state, seq_num, delay, now);
        law_orderly_acked_by_bits(
            state.acked_by_bit(seq_num, bits.first(), delay, now),
            nth_after(seq_num, 1),
            bits.drop_first(),
            delay,
            now,
        );
    }
}

/// What waits has no part in a state being orderly, nor in its packets.
pub(crate) proof fn lemma_waiting_is_apart(state: SendState, waiting: Map<u16, Packet>)
    ensures
        (SendState { waiting, ..state }).orderly() == state.orderly(),
        (SendState { waiting, ..state }).packets() == state.packets(),
{
    let other = SendState { waiting, ..state };
    assert(forall|i: int| #[trigger] other.held(i) == state.held(i));
    assert(forall|i: int| other.held(i) == #[trigger] state.held(i));
    assert(other.packets() =~= state.packets());
    if other.orderly() {
        assert(state.orderly());
    }
}

/// What waits has no part in settling.
pub(crate) proof fn lemma_settle_keeps_waiting(state: SendState, waiting: Map<u16, Packet>)
    ensures
        (SendState { waiting, ..state }).settle() == (SendState { waiting, ..state.settle() }),
    decreases state.window,
{
    let other = SendState { waiting, ..state };
    assert(other.slot(other.start()) == state.slot(state.start()));
    if state.window > 0 && is_done(state.slot(state.start())) {
        lemma_settle_keeps_waiting(
            SendState {
                window: (state.window - 1) as u16,
                settled: true,
                ..state.with_slot(state.start(), None)
            },
            waiting,
        );
    }
}

/// Settling moves the head of the flight only forward, empties the slot of every number it
/// passes, and fills none. It leaves an unacknowledged packet at the head, if a number is left.
pub proof fn law_settle_empties_passed_slots(state: SendState)
    requires
        state.slots.len() > 0,
    ensures
        state.settle().next == state.next,
        state.settle().window <= state.window,
        state.settle().slots.len() == state.slots.len(),
        state.settle().window > 0 ==> match state.settle().slot(state.settle().start()) {
            Some(packet) => !packet.is_acked(),
            None => false,
        },
        state.settle().settled == (state.settled || state.settle().window < state.window),
        state.settle().controller == state.controller,
        state.settle().waiting == state.waiting,
        forall|i: int|
            0 <= i < state.window - state.settle().window ==> match state.slot(
                #[trigger] state.number(i),
            ) {
                Some(packet) => packet.acks.len() > 0,
                None => true,
            },
        forall|slot: int|
            0 <= slot < state.slots.len() && (forall|i: int|
                0 <= i < state.window - state.settle().window ==> #[trigger] state.number(i) as int
                    % (state.slots.len() as int) != slot) ==> #[trigger] state.settle().slots[slot]
                == state.slots[slot],
        forall|seq_num: u16| #[trigger]
            state.settle().slot(seq_num) is None || state.settle().slot(seq_num) == state.slot(
                seq_num,
            ),
        forall|i: int|
            0 <= i < state.window - state.settle().window ==> state.settle().slot(
                #[trigger] state.number(i),
            ) is None,
    decreases state.window,
{
    if state.window > 0 && is_done(state.slot(state.start())) {
        let rest = SendState {
            window: (state.window - 1) as u16,
            settled: true,
            ..state.with_slot(state.start(), None)
        };
        law_settle_empties_passed_slots(rest);
        let n = state.slots.len() as int;
        assert forall|seq_num: u16| #[trigger]
            rest.slot(seq_num) is None || rest.slot(seq_num) == state.slot(seq_num) by {
            assert(0 <= seq_num as int % n < n);
        }
        assert forall|i: int|
            0 <= i < state.window - state.settle().window implies match state.slot(
            #[trigger] state.number(i),
        ) {
            Some(packet) => packet.acks.len() > 0,
            None => true,
        } by {
            if i == 0 {
                assert(state.number(0) == state.start());
            } else {
                assert(state.number(i) == rest.number(i - 1));
                assert(0 <= state.number(i) as int % n < n);
                if state.number(i) as int % n != state.start() as int % n {
                    assert(rest.slot(state.number(i)) == state.slot(state.number(i)));
                }
            }
        }
        assert forall|slot: int|
            0 <= slot < state.slots.len() && (forall|i: int|
                0 <= i < state.window - state.settle().window ==> #[trigger] state.number(i) as int
                    % (state.slots.len() as int) != slot) implies #[trigger]
            state.settle().slots[slot] == state.slots[slot] by {
            assert(state.number(0) == state.start());
            assert(slot != state.start() as int % n);
            assert forall|i: int| 0 <= i < rest.window - rest.settle().window implies #[trigger]
                rest.number(i) as int % n != slot by {
                assert(rest.number(i) == state.number(i + 1));
            }
            assert(rest.settle().slots[slot] == rest.slots[slot]);
        }
        assert forall|seq_num: u16| #[trigger]
            state.settle().slot(seq_num) is None || state.settle().slot(seq_num) == state.slot(
                seq_num,
            ) by {
            assert(rest.slot(seq_num) is None || rest.slot(seq_num) == state.slot(seq_num));
        }
        assert forall|i: int|
            0 <= i < state.window - state.settle().window implies state.settle().slot(
            #[trigger] state.number(i),
        ) is None by {
            if i == 0 {
                assert(state.number(0) == state.start());
                assert(0 <= state.start() as int % n < n);
                assert(rest.slot(state.start()) is None);
                assert(rest.settle().slot(state.start()) is None);
            } else {
                assert(state.number(i) == rest.number(i - 1));
            }
        }
    }
}

/// The head of an orderly state that is done with, let go.
proof fn lemma_popped(state: SendState)
    requires
        state.orderly(),
        state.window > 0,
        is_done(state.slot(state.start())),
    ensures
        ({
            let after = SendState {
                window: (state.window - 1) as u16,
                settled: true,
                ..state.with_slot(state.start(), None)
            };
            &&& state.packets().first().is_acked()
            &&& after.orderly()
            &&& after.packets() == state.packets().drop_first()
        }),
{
    let n = state.slots.len() as int;
    let count = state.window as int;
    let start = state.start();
    let emptied = state.with_slot(start, None);
    let after = SendState { window: (count - 1) as u16, settled: true, ..emptied };
    assert(state.number(0) == start);
    lemma_slot_at(state, 0);
    assert(state.held(0) is Some);
    lemma_held_update(state, 0, None);
    let later = after.start();
    assert(later == nth_after(start, 1));
    assert forall|i: int| #![trigger after.held(i)] 0 <= i < n implies after.held(i) == (if i + 1
        < n {
        state.held(i + 1)
    } else {
        None
    }) by {
        lemma_same_slot(emptied, later + i, start + (i + 1));
        if i + 1 < n {
            assert(emptied.held(i + 1) == state.held(i + 1));
        } else {
            lemma_turn(emptied, start as int);
            assert(emptied.held(0) is None);
        }
    }
    assert forall|i: int| #![trigger after.held(i)] 0 <= i < n implies match after.held(i) {
        Some(packet) => i < count - 1 && packet.seq_num == after.number(i),
        None => i >= count - 1,
    } by {
        if i + 1 < n {
            assert(state.held(i + 1) is Some <==> i + 1 < count);
            assert(after.number(i) == state.number(i + 1));
        }
    }
    assert forall|i: int| 0 <= i < count - 1 implies #[trigger] after.packets()[i]
        == state.packets().drop_first()[i] by {
        assert(after.held(i) == state.held(i + 1));
    }
    assert(after.packets() =~= state.packets().drop_first());
}

/// Letting go of what is done with at the head keeps an orderly state so.
pub proof fn law_orderly_settle(state: SendState)
    requires
        state.orderly(),
    ensures
        state.settle().orderly(),
        state.settle().flight() == state.flight().settle(),
        state.settle().next == state.next,
        state.settle().window <= state.window,
        state.settle().slots.len() == state.slots.len(),
    decreases state.window,
{
    if state.window > 0 {
        assert(state.number(0) == state.start());
        lemma_slot_at(state, 0);
        assert(state.held(0) is Some);
        if is_done(state.slot(state.start())) {
            lemma_popped(state);
            let after = SendState {
                window: (state.window - 1) as u16,
                settled: true,
                ..state.with_slot(state.start(), None)
            };
            law_orderly_settle(after);
            assert(after.flight() == (Flight {
                packets: state.packets().drop_first(),
                settled: true,
                ..state.flight()
            }));
        }
    }
}

/// An acknowledgement keeps an orderly state so.
pub proof fn law_orderly_acknowledged(
    state: SendState,
    ack_num: u16,
    selective_ack: Option<Seq<bool>>,
    delay: Duration,
    now: Instant,
)
    requires
        state.orderly(),
    ensures
        state.acknowledged(ack_num, selective_ack, delay, now).orderly(),
        state.acknowledged(ack_num, selective_ack, delay, now).flight()
            == state.flight().acknowledged(ack_num, selective_ack, delay, now),
        state.acknowledged(ack_num, selective_ack, delay, now).next == state.next,
        state.acknowledged(ack_num, selective_ack, delay, now).window <= state.window,
        state.acknowledged(ack_num, selective_ack, delay, now).slots.len() == state.slots.len(),
{
    if state.window == 0 {
        let after = SendState { waiting: state.waiting.remove(ack_num), ..state };
        assert forall|i: int| #![trigger after.held(i)] 0 <= i < after.slots.len() implies
            after.held(i) == state.held(i) by {}
        assert(after.packets() =~= state.packets());
    } else {
        law_orderly_acked(state, ack_num, delay, now);
        let direct = state.acked(ack_num, delay, now);
        let selected = match selective_ack {
            Some(bits) => direct.acked_by_bits(nth_after(ack_num, 2), bits, delay, now),
            None => direct,
        };
        if selective_ack is Some {
            law_orderly_acked_by_bits(
                direct,
                nth_after(ack_num, 2),
                selective_ack->Some_0,
                delay,
                now,
            );
        }
        law_orderly_acked_before(selected, ack_num, delay, now);
        law_orderly_settle(selected.acked_before(ack_num, delay, now));
    }
}

/// In an orderly state the numbers before the flight have empty slots, as far as the slots go
/// round.
pub proof fn law_slots_before_flight_are_empty(state: SendState, steps: int)
    requires
        state.orderly(),
        0 < steps <= state.slots.len() - state.window,
    ensures
        state.slot(nth_after(state.start(), -steps)) is None,
{
    let n = state.slots.len() as int;
    lemma_slot_at(state, -steps);
    lemma_turn(state, state.start() - steps);
    assert(state.held(n - steps) is None);
}

/// The acknowledged packets of an orderly state are those of its flight.
proof fn lemma_acked_from(state: SendState, i: nat)
    requires
        state.orderly(),
        i <= state.window,
    ensures
        state.acked_from(i) == count_acked(state.packets().skip(i as int)),
    decreases state.window - i,
{
    let rest = state.packets().skip(i as int);
    if i < state.window {
        lemma_slot_at(state, i as int);
        assert(state.held(i as int) is Some);
        assert(rest.first() == state.packets()[i as int]);
        assert(rest.drop_first() == state.packets().skip((i + 1) as int));
        lemma_acked_from(state, i + 1);
    }
}

/// What is acknowledged and what is not is the same of an orderly state and of its flight.
pub proof fn law_orderly_front(state: SendState)
    requires
        state.orderly(),
    ensures
        state.last_acked() == state.flight().last_acked(),
        state.first_unacked() == state.flight().first_unacked(),
{
    assert(state.flight().start() == state.start());
}

/// What is lost is the same of an orderly state and of its flight.
pub proof fn law_orderly_lost(state: SendState, i: int, seq_num: u16)
    requires
        state.orderly(),
        0 <= i < state.window,
    ensures
        state.lost(i, seq_num) <==> seq_num == state.number(i) && state.flight().lost(i),
{
    lemma_slot_at(state, i);
    assert(state.held(i) is Some);
    assert(state.packets()[i] == state.held(i)->Some_0);
    lemma_acked_from(state, (i + 1) as nat);
}

/// An orderly state is determined by its flight and the number of its slots.
pub proof fn law_flight_determines_orderly_state(one: SendState, other: SendState)
    requires
        one.orderly(),
        other.orderly(),
        one.flight() == other.flight(),
        one.slots.len() == other.slots.len(),
    ensures
        one == other,
{
    let n = one.slots.len() as int;
    assert(one.packets().len() == one.window && other.packets().len() == other.window);
    assert forall|slot: int| 0 <= slot < n implies #[trigger] one.slots[slot]
        == other.slots[slot] by {
        let i = (slot - one.start()) % n;
        lemma_slot_offset(one.start() as int, slot, n);
        assert(one.held(i) == one.slots[slot]);
        assert(other.held(i) == other.slots[slot]);
        if i < one.window {
            assert(one.packets()[i] == other.packets()[i]);
        }
    }
    assert(one.slots =~= other.slots);
}

/// The packets in flight of an orderly state carry consecutive numbers that end right before the
/// next one, and each is found under its number.
pub proof fn law_orderly_is_numbered(state: SendState, i: int)
    requires
        state.orderly(),
        0 <= i < state.window,
    ensures
        state.packets()[i].seq_num == state.number(i),
        state.number(state.window as int) == state.next,
        state.slot(state.number(i)) == Some(state.packets()[i]),
{
    lemma_slot_at(state, i);
    assert(state.held(i) is Some);
}

} // verus!
