//! What holds of the packets that were sent over several calls.

use vstd::prelude::*;

use crate::flight::{count_acked, Flight, SentPacketView};
use crate::packet::PacketType;
use crate::sent::LOSS_THRESHOLD;
use crate::seq::nth_after;
use crate::state::{
    law_flight_determines_orderly_state, law_orderly_acknowledged, lemma_waiting_is_apart,
    SendState,
};
use crate::time::{Duration, Instant};
use crate::utils::law_grown_size;

verus! {

/// How many packets are acknowledged before the first that is not.
pub open spec fn leading_acked(packets: Seq<SentPacketView>) -> nat
    decreases packets.len(),
{
    if packets.len() > 0 && packets.first().is_acked() {
        1 + leading_acked(packets.drop_first())
    } else {
        0
    }
}

/// The place of the number at a place is that place.
pub(crate) proof fn lemma_place_of_number(flight: Flight, i: int)
    requires
        0 <= i < 0x1_0000,
    ensures
        flight.place(flight.number(i)) == i,
{
}

/// The number at the place of a number is that number.
pub(crate) proof fn lemma_number_of_place(flight: Flight, seq_num: u16)
    ensures
        flight.number(flight.place(seq_num)) == seq_num,
{
}

/// What one acknowledgement leaves of each packet.
pub(crate) proof fn lemma_acked_effect(flight: Flight, seq_num: u16, delay: Duration, now: Instant)
    ensures
        flight.acked(seq_num, delay, now).next == flight.next,
        flight.acked(seq_num, delay, now).settled == flight.settled,
        flight.acked(seq_num, delay, now).packets.len() == flight.packets.len(),
        flight.in_flight(seq_num) ==> flight.acked(seq_num, delay, now).packets[flight.place(
            seq_num,
        )].is_acked(),
        forall|i: int|
            0 <= i < flight.packets.len() ==> {
                let after = #[trigger] flight.acked(seq_num, delay, now).packets[i];
                &&& flight.packets[i].is_acked() ==> after.is_acked()
                &&& i != flight.place(seq_num) ==> after == flight.packets[i]
            },
        forall|number: u16| #[trigger]
            flight.acked(seq_num, delay, now).waiting.contains_key(number)
                ==> flight.waiting.contains_key(number),
        flight.in_flight(seq_num) && !flight.packets[flight.place(seq_num)].is_acked()
            ==> !flight.acked(seq_num, delay, now).waiting.contains_key(seq_num),
{
}

/// What acknowledging the earliest packets leaves of each packet.
pub(crate) proof fn lemma_acked_earliest_effect(flight: Flight, n: nat, delay: Duration, now: Instant)
    requires
        n <= flight.packets.len() <= u16::MAX,
    ensures
        flight.acked_earliest(n, delay, now).next == flight.next,
        flight.acked_earliest(n, delay, now).settled == flight.settled,
        flight.acked_earliest(n, delay, now).packets.len() == flight.packets.len(),
        forall|i: int|
            0 <= i < flight.packets.len() ==> {
                let after = #[trigger] flight.acked_earliest(n, delay, now).packets[i];
                &&& i < n || flight.packets[i].is_acked() ==> after.is_acked()
                &&& i >= n ==> after == flight.packets[i]
            },
        forall|number: u16| #[trigger]
            flight.acked_earliest(n, delay, now).waiting.contains_key(number)
                ==> flight.waiting.contains_key(number),
        forall|i: int|
            0 <= i < n && !flight.packets[i].is_acked() ==> !flight.acked_earliest(
                n,
                delay,
                now,
            ).waiting.contains_key(#[trigger] flight.number(i)),
    decreases n,
{
    if n > 0 {
        let m = (n - 1) as nat;
        lemma_acked_earliest_effect(flight, m, delay, now);
        let current = flight.acked_earliest(m, delay, now);
        let seq_num = flight.number(n - 1);
        assert(current.start() == flight.start());
        lemma_place_of_number(flight, n - 1);
        assert(current.place(seq_num) == n - 1);
        lemma_acked_effect(current, seq_num, delay, now);
        assert forall|i: int| 0 <= i < flight.packets.len() implies ({
            let after = #[trigger] flight.acked_earliest(n, delay, now).packets[i];
            &&& i < n || flight.packets[i].is_acked() ==> after.is_acked()
            &&& i >= n ==> after == flight.packets[i]
        }) by {
            assert(current.acked(seq_num, delay, now).packets[i]
                == flight.acked_earliest(n, delay, now).packets[i]);
            assert(current.packets[i] == flight.acked_earliest(m, delay, now).packets[i]);
        }
        assert forall|i: int|
            0 <= i < n && !flight.packets[i].is_acked() implies !flight.acked_earliest(
            n,
            delay,
            now,
        ).waiting.contains_key(#[trigger] flight.number(i)) by {
            if i == n - 1 {
                assert(current.packets[n - 1] == flight.packets[n - 1]);
            }
        }
    }
}

/// What selective bits leave of each packet.
pub(crate) proof fn lemma_acked_by_bits_effect(
    flight: Flight,
    seq_num: u16,
    bits: Seq<bool>,
    delay: Duration,
    now: Instant,
)
    ensures
        flight.acked_by_bits(seq_num, bits, delay, now).next == flight.next,
        flight.acked_by_bits(seq_num, bits, delay, now).settled == flight.settled,
        flight.acked_by_bits(seq_num, bits, delay, now).packets.len() == flight.packets.len(),
        forall|i: int|
            0 <= i < flight.packets.len() && flight.packets[i].is_acked()
                ==> #[trigger] flight.acked_by_bits(seq_num, bits, delay, now).packets[i].is_acked(),
        forall|number: u16| #[trigger]
            flight.acked_by_bits(seq_num, bits, delay, now).waiting.contains_key(number)
                ==> flight.waiting.contains_key(number),
    decreases bits.len(),
{
    if bits.len() > 0 && flight.acceptable(seq_num) {
        let current = flight.acked_by_bit(seq_num, bits.first(), delay, now);
        lemma_acked_effect(flight, seq_num, delay, now);
        lemma_acked_by_bits_effect(current, nth_after(seq_num, 1), bits.drop_first(), delay, now);
        assert forall|i: int|
            0 <= i < flight.packets.len() && flight.packets[i].is_acked()
            implies #[trigger] flight.acked_by_bits(seq_num, bits, delay, now).packets[i].is_acked() by {
            if bits.first() {
                assert(flight.acked(seq_num, delay, now).packets[i].is_acked());
            }
            assert(current.packets[i].is_acked());
        }
    }
}

/// Packets that are all acknowledged are among the leading ones.
proof fn lemma_leading_at_least(packets: Seq<SentPacketView>, n: nat)
    requires
        n <= packets.len(),
        forall|i: int| 0 <= i < n ==> (#[trigger] packets[i]).is_acked(),
    ensures
        leading_acked(packets) >= n,
    decreases packets.len(),
{
    if n > 0 {
        assert(packets[0].is_acked());
        assert forall|i: int| 0 <= i < n - 1 implies (#[trigger]
        packets.drop_first()[i]).is_acked() by {
            assert(packets[i + 1].is_acked());
        }
        lemma_leading_at_least(packets.drop_first(), (n - 1) as nat);
    }
}

/// The leading packets are acknowledged, and the one after them is not.
pub(crate) proof fn lemma_leading(packets: Seq<SentPacketView>)
    ensures
        leading_acked(packets) <= packets.len(),
        forall|i: int| 0 <= i < leading_acked(packets) ==> (#[trigger] packets[i]).is_acked(),
        leading_acked(packets) < packets.len()
            ==> !packets[leading_acked(packets) as int].is_acked(),
    decreases packets.len(),
{
    if packets.len() > 0 && packets.first().is_acked() {
        let rest = packets.drop_first();
        lemma_leading(rest);
        assert forall|i: int| 0 <= i < leading_acked(packets) implies (#[trigger]
        packets[i]).is_acked() by {
            if i > 0 {
                assert(rest[i - 1].is_acked());
            }
        }
    }
}

/// Settling drops the leading acknowledged packets and nothing else.
pub(crate) proof fn lemma_settle(flight: Flight)
    ensures
        flight.settle() == (Flight {
            packets: flight.packets.skip(leading_acked(flight.packets) as int),
            settled: flight.settled || leading_acked(flight.packets) > 0,
            ..flight
        }),
        leading_acked(flight.settle().packets) == 0,
    decreases flight.packets.len(),
{
    if flight.packets.len() > 0 && flight.packets.first().is_acked() {
        let rest = Flight { packets: flight.packets.drop_first(), settled: true, ..flight };
        lemma_settle(rest);
        lemma_leading(rest.packets);
        assert(rest.packets.skip(leading_acked(rest.packets) as int) == flight.packets.skip(
            leading_acked(flight.packets) as int,
        ));
    } else {
        assert(flight.packets.skip(0) == flight.packets);
    }
}

/// The number after a number is at the next place, and the number after the last packet is next.
pub(crate) proof fn lemma_number_steps(flight: Flight, place: int)
    requires
        0 <= place <= flight.packets.len() <= u16::MAX,
    ensures
        flight.number(place) == flight.next <==> place == flight.packets.len(),
        flight.acceptable(flight.number(place)) <==> place < flight.packets.len(),
        nth_after(flight.number(place), 1) == flight.number(place + 1),
{
}

/// A packet that the head of a flight has passed is not in flight.
proof fn lemma_passed(flight: Flight, after: Flight, i: int)
    requires
        flight.packets.len() <= u16::MAX,
        after.next == flight.next,
        0 <= i,
        after.packets.len() + i < flight.packets.len(),
    ensures
        !after.in_flight(flight.number(i)),
{
}

/// What selective bits do to the packets from a place on.
pub(crate) proof fn lemma_bits_from(
    flight: Flight,
    place: int,
    bits: Seq<bool>,
    delay: Duration,
    now: Instant,
    k: int,
)
    requires
        flight.packets.len() <= u16::MAX,
        0 <= place,
        0 <= k < bits.len(),
        place + k < flight.packets.len(),
    ensures
        ({
            let after = flight.acked_by_bits(flight.number(place), bits, delay, now);
            let sent = flight.packets[place + k];
            &&& after.packets.len() == flight.packets.len()
            &&& bits[k] ==> after.packets[place + k].is_acked()
            &&& bits[k] && !sent.is_acked() ==> !after.waiting.contains_key(
                flight.number(place + k),
            )
            &&& !bits[k] ==> after.packets[place + k] == sent
        }),
    decreases bits.len(),
{
    let seq_num = flight.number(place);
    let after = flight.acked_by_bits(seq_num, bits, delay, now);
    let current = flight.acked_by_bit(seq_num, bits.first(), delay, now);
    let rest = bits.drop_first();
    lemma_place_of_number(flight, place);
    lemma_number_steps(flight, place);
    lemma_acked_effect(flight, seq_num, delay, now);
    assert(current.start() == flight.start());
    lemma_acked_by_bits_effect(current, nth_after(seq_num, 1), rest, delay, now);
    assert(after == current.acked_by_bits(nth_after(seq_num, 1), rest, delay, now));
    if k == 0 {
        lemma_bits_before(current, place + 1, rest, delay, now, place);
    } else {
        if bits.first() {
            assert(flight.acked(seq_num, delay, now).packets[place + k] == flight.packets[place
                + k]);
        }
        assert(current.packets[place + k] == flight.packets[place + k]);
        lemma_bits_from(current, place + 1, rest, delay, now, k - 1);
        assert(bits[k] == rest[k - 1]);
    }
}

/// Selective bits leave the packets before their place alone.
pub(crate) proof fn lemma_bits_before(
    flight: Flight,
    place: int,
    bits: Seq<bool>,
    delay: Duration,
    now: Instant,
    i: int,
)
    requires
        flight.packets.len() <= u16::MAX,
        0 <= i < place <= flight.packets.len(),
    ensures
        flight.acked_by_bits(flight.number(place), bits, delay, now).packets[i]
            == flight.packets[i],
    decreases bits.len(),
{
    let seq_num = flight.number(place);
    lemma_number_steps(flight, place);
    if bits.len() > 0 && flight.acceptable(seq_num) {
        let current = flight.acked_by_bit(seq_num, bits.first(), delay, now);
        lemma_place_of_number(flight, place);
        lemma_acked_effect(flight, seq_num, delay, now);
        assert(current.start() == flight.start());
        if bits.first() {
            assert(flight.acked(seq_num, delay, now).packets[i] == flight.packets[i]);
        }
        lemma_bits_before(current, place + 1, bits.drop_first(), delay, now, i);
    }
}

/// An acknowledgement is cumulative: once a packet in flight is acknowledged, it and all packets
/// before it have left the flight, and none of those that were unacknowledged waits any longer.
/// The numbering of what comes next does not change.
pub proof fn law_ack_is_cumulative(
    flight: Flight,
    ack_num: u16,
    selective_ack: Option<Seq<bool>>,
    delay: Duration,
    now: Instant,
)
    requires
        flight.packets.len() <= u16::MAX,
        flight.in_flight(ack_num),
    ensures
        ({
            let after = flight.acknowledged(ack_num, selective_ack, delay, now);
            &&& after.next == flight.next
            &&& after.settled
            &&& after.packets.len() + flight.place(ack_num) < flight.packets.len()
            &&& forall|i: int|
                0 <= i <= flight.place(ack_num) ==> !after.in_flight(#[trigger] flight.number(i))
            &&& forall|i: int|
                0 <= i <= flight.place(ack_num) && !flight.packets[i].is_acked()
                    ==> !after.waiting.contains_key(#[trigger] flight.number(i))
        }),
{
    let place = flight.place(ack_num);
    lemma_selected(flight, ack_num, selective_ack, delay, now);
    let direct = flight.acked(ack_num, delay, now);
    let selected = match selective_ack {
        Some(bits) => direct.acked_by_bits(nth_after(ack_num, 2), bits, delay, now),
        None => direct,
    };
    let all = selected.acked_earliest(place as nat, delay, now);
    lemma_acked_earliest_effect(selected, place as nat, delay, now);
    assert(all == flight.acked_all(ack_num, selective_ack, delay, now));
    assert forall|i: int| 0 <= i < place + 1 implies (#[trigger] all.packets[i]).is_acked() by {
        assert(selected.acked_earliest(place as nat, delay, now).packets[i].is_acked());
    }
    lemma_leading_at_least(all.packets, (place + 1) as nat);
    lemma_leading(all.packets);
    lemma_settle(all);
    let after = all.settle();
    assert(after == flight.acknowledged(ack_num, selective_ack, delay, now));
    assert forall|i: int| 0 <= i <= place implies !after.in_flight(
        #[trigger] flight.number(i),
    ) by {
        lemma_passed(flight, after, i);
    }
    assert forall|i: int|
        0 <= i <= place && !flight.packets[i].is_acked() implies !after.waiting.contains_key(
        #[trigger] flight.number(i),
    ) by {
        if i == place {
            lemma_number_of_place(flight, ack_num);
        } else {
            lemma_waits_while_unacked(flight, ack_num, selective_ack, delay, now, i);
            assert(selected.number(i) == flight.number(i));
        }
    }
}

/// The flight before the packets preceding `ack_num` are acknowledged.
proof fn lemma_selected(
    flight: Flight,
    ack_num: u16,
    selective_ack: Option<Seq<bool>>,
    delay: Duration,
    now: Instant,
)
    requires
        flight.in_flight(ack_num),
    ensures
        ({
            let direct = flight.acked(ack_num, delay, now);
            let selected = match selective_ack {
                Some(bits) => direct.acked_by_bits(nth_after(ack_num, 2), bits, delay, now),
                None => direct,
            };
            &&& selected.next == flight.next
            &&& selected.settled == flight.settled
            &&& selected.packets.len() == flight.packets.len()
            &&& selected.start() == flight.start()
            &&& selected.packets[flight.place(ack_num)].is_acked()
            &&& !flight.packets[flight.place(ack_num)].is_acked() ==> !selected.waiting.contains_key(
                ack_num,
            )
        }),
{
    let direct = flight.acked(ack_num, delay, now);
    lemma_acked_effect(flight, ack_num, delay, now);
    assert(direct.packets[flight.place(ack_num)].is_acked());
    if selective_ack is Some {
        lemma_acked_by_bits_effect(direct, nth_after(ack_num, 2), selective_ack->Some_0, delay, now);
    }
}

/// Before the packets preceding `ack_num` are acknowledged, each is untouched or waits no longer.
proof fn lemma_waits_while_unacked(
    flight: Flight,
    ack_num: u16,
    selective_ack: Option<Seq<bool>>,
    delay: Duration,
    now: Instant,
    i: int,
)
    requires
        flight.packets.len() <= u16::MAX,
        flight.in_flight(ack_num),
        0 <= i < flight.place(ack_num),
        !flight.packets[i].is_acked(),
    ensures
        ({
            let direct = flight.acked(ack_num, delay, now);
            let selected = match selective_ack {
                Some(bits) => direct.acked_by_bits(nth_after(ack_num, 2), bits, delay, now),
                None => direct,
            };
            !selected.packets[i].is_acked() || !selected.waiting.contains_key(flight.number(i))
        }),
{
    let direct = flight.acked(ack_num, delay, now);
    lemma_acked_effect(flight, ack_num, delay, now);
    assert(direct.packets[i] == flight.packets[i]);
    assert(direct.start() == flight.start());
    if selective_ack is Some {
        lemma_bits_settle_wait(direct, nth_after(ack_num, 2), selective_ack->Some_0, delay, now, i);
    }
}

/// A packet that selective bits acknowledge waits no longer.
proof fn lemma_bits_settle_wait(
    flight: Flight,
    seq_num: u16,
    bits: Seq<bool>,
    delay: Duration,
    now: Instant,
    i: int,
)
    requires
        flight.packets.len() <= u16::MAX,
        0 <= i < flight.packets.len(),
        !flight.packets[i].is_acked(),
    ensures
        ({
            let after = flight.acked_by_bits(seq_num, bits, delay, now);
            !after.packets[i].is_acked() || !after.waiting.contains_key(flight.number(i))
        }),
    decreases bits.len(),
{
    if bits.len() > 0 && flight.acceptable(seq_num) {
        let current = flight.acked_by_bit(seq_num, bits.first(), delay, now);
        lemma_acked_effect(flight, seq_num, delay, now);
        lemma_number_of_place(flight, seq_num);
        assert(current.start() == flight.start());
        if current.packets[i].is_acked() {
            assert(flight.place(seq_num) == i);
            lemma_acked_by_bits_effect(
                current,
                nth_after(seq_num, 1),
                bits.drop_first(),
                delay,
                now,
            );
        } else {
            lemma_bits_settle_wait(
                current,
                nth_after(seq_num, 1),
                bits.drop_first(),
                delay,
                now,
                i,
            );
        }
    }
}

/// After an acknowledgement of packets in flight the packet that the flight starts with is not
/// acknowledged, if any remains.
pub proof fn law_flight_starts_unacked(
    flight: Flight,
    ack_num: u16,
    selective_ack: Option<Seq<bool>>,
    delay: Duration,
    now: Instant,
)
    requires
        0 < flight.packets.len() <= u16::MAX,
    ensures
        ({
            let after = flight.acknowledged(ack_num, selective_ack, delay, now);
            match after.first_unacked() {
                Some(first) => first == after.start() && !after.packets[0].is_acked(),
                None => after.packets.len() == 0,
            }
        }),
{
    let all = flight.acked_all(ack_num, selective_ack, delay, now);
    lemma_settle(all);
    lemma_leading(all.settle().packets);
}

/// Sending keeps an unacknowledged packet at the start of the flight.
pub proof fn law_sending_keeps_the_start_unacked(
    flight: Flight,
    seq_num: u16,
    packet_type: PacketType,
    data: Option<Seq<u8>>,
    len: u32,
    now: Instant,
)
    requires
        flight.packets.len() < u16::MAX,
        seq_num == flight.next || flight.in_flight(seq_num),
        flight.packets.len() > 0 ==> !flight.packets[0].is_acked(),
    ensures
        ({
            let after = flight.transmitted(seq_num, packet_type, data, len, now);
            after.packets.len() > 0 && !after.packets[0].is_acked()
        }),
{
}

/// Sending, under whatever number, moves neither the end of the acknowledged run nor the start of
/// the flight.
pub proof fn law_sending_keeps_what_is_acked(
    state: SendState,
    seq_num: u16,
    packet_type: PacketType,
    data: Option<Seq<u8>>,
    len: u32,
    now: Instant,
)
    requires
        state.window < u16::MAX,
    ensures
        state.transmitted(seq_num, packet_type, data, len, now).last_acked() == state.last_acked(),
        state.transmitted(seq_num, packet_type, data, len, now).start() == state.start(),
{
}

/// Storing a packet leaves something unacknowledged: from then on a number is in flight.
pub proof fn law_sending_leaves_something_unacked(
    state: SendState,
    seq_num: u16,
    packet_type: PacketType,
    data: Option<Seq<u8>>,
    len: u32,
    now: Instant,
)
    requires
        state.window < u16::MAX,
        state.slot(seq_num) is None,
    ensures
        state.transmitted(seq_num, packet_type, data, len, now).first_unacked() == Some(
            state.start(),
        ),
{
}

/// Acknowledging the packet sent last empties the flight, and then the last acknowledged number
/// is the one before the next.
pub proof fn law_last_ack_empties_flight(
    flight: Flight,
    selective_ack: Option<Seq<bool>>,
    delay: Duration,
    now: Instant,
)
    requires
        0 < flight.packets.len() <= u16::MAX,
    ensures
        ({
            let after = flight.acknowledged(nth_after(flight.next, -1), selective_ack, delay, now);
            &&& after.packets.len() == 0
            &&& after.next == flight.next
            &&& after.first_unacked() is None
            &&& after.last_acked() == Some(nth_after(flight.next, -1))
        }),
{
    let ack_num = nth_after(flight.next, -1);
    assert(flight.place(ack_num) == flight.packets.len() - 1);
    law_ack_is_cumulative(flight, ack_num, selective_ack, delay, now);
    let after = flight.acknowledged(ack_num, selective_ack, delay, now);
    assert(after.number(-1) == ack_num);
}

/// Acknowledging a packet again is refused, or changes neither the packets in flight nor the
/// controller, and nothing at all if the packet was unacknowledged before.
pub proof fn law_repeated_ack_changes_nothing(
    flight: Flight,
    ack_num: u16,
    delay: Duration,
    now: Instant,
    later_delay: Duration,
    later: Instant,
)
    requires
        flight.packets.len() <= u16::MAX,
        flight.in_flight(ack_num),
    ensures
        ({
            let once = flight.acknowledged(ack_num, None, delay, now);
            let twice = if once.acceptable(ack_num) {
                once.acknowledged(ack_num, None, later_delay, later)
            } else {
                once
            };
            &&& twice.next == once.next
            &&& twice.packets == once.packets
            &&& twice.settled == once.settled
            &&& twice.controller == once.controller
            &&& !flight.packets[flight.place(ack_num)].is_acked() ==> twice == once
        }),
{
    let once = flight.acknowledged(ack_num, None, delay, now);
    law_ack_is_cumulative(flight, ack_num, None, delay, now);
    lemma_number_of_place(flight, ack_num);
    assert(!once.in_flight(flight.number(flight.place(ack_num))));
    if once.packets.len() == 0 {
        if !flight.packets[flight.place(ack_num)].is_acked() {
            assert(!once.waiting.contains_key(flight.number(flight.place(ack_num))));
            assert(once.waiting.remove(ack_num) =~= once.waiting);
        }
    } else if once.acceptable(ack_num) {
        let all = flight.acked_all(ack_num, None, delay, now);
        lemma_settle(all);
        assert(once.acked_all(ack_num, None, later_delay, later) == once);
        lemma_settle(once);
        assert(once.packets.skip(0) == once.packets);
    }
}

/// Acknowledging a packet again leaves every slot of an orderly state as it was.
pub proof fn law_repeated_ack_keeps_slots(
    state: SendState,
    ack_num: u16,
    delay: Duration,
    now: Instant,
    later_delay: Duration,
    later: Instant,
)
    requires
        state.orderly(),
        state.in_window(ack_num),
    ensures
        ({
            let once = state.acknowledged(ack_num, None, delay, now);
            let twice = if once.acceptable(ack_num) {
                once.acknowledged(ack_num, None, later_delay, later)
            } else {
                once
            };
            &&& twice.slots == once.slots
            &&& twice.window == once.window
            &&& twice.next == once.next
            &&& twice.controller == once.controller
        }),
{
    let once = state.acknowledged(ack_num, None, delay, now);
    law_orderly_acknowledged(state, ack_num, None, delay, now);
    if once.acceptable(ack_num) {
        let twice = once.acknowledged(ack_num, None, later_delay, later);
        law_orderly_acknowledged(once, ack_num, None, later_delay, later);
        law_repeated_ack_changes_nothing(state.flight(), ack_num, delay, now, later_delay, later);
        let same = SendState { waiting: twice.waiting, ..once };
        lemma_waiting_is_apart(once, twice.waiting);
        law_flight_determines_orderly_state(twice, same);
    }
}

/// A packet that is sent again after it left the flight is stored anew and takes up one more
/// number: the flight starts where it did and reaches one further. Acknowledging it lets it go.
pub proof fn law_sending_a_passed_number(
    state: SendState,
    seq_num: u16,
    packet_type: PacketType,
    data: Option<Seq<u8>>,
    len: u32,
    sent_at: Instant,
    delay: Duration,
    now: Instant,
)
    requires
        state.sized(),
        state.window < 0xfffd,
        state.acceptable(seq_num),
        !state.in_window(seq_num),
        state.slot(seq_num) is None,
    ensures
        ({
            let after = state.transmitted(seq_num, packet_type, data, len, sent_at);
            &&& after.next == nth_after(state.next, 1)
            &&& after.window == state.window + 1
            &&& after.start() == state.start()
            &&& after.slot(seq_num) == Some(
                SentPacketView::fresh(seq_num, packet_type, data, sent_at),
            )
            &&& after.acceptable(seq_num)
            &&& after.acked(seq_num, delay, now).slot(seq_num) is None
            &&& after.acked(seq_num, delay, now).window == after.window
        }),
{
    let after = state.transmitted(seq_num, packet_type, data, len, sent_at);
    law_grown_size(state.slots.len(), (state.window + 1) as nat);
    let n = after.slots.len() as int;
    assert(0 <= seq_num as int % n < n);
}

/// The place of a number that an acknowledgement may name, counted from the earliest packet in
/// flight; the two numbers before the flight have the places -1 and -2.
pub open spec fn ack_place(flight: Flight, ack_num: u16) -> int {
    if flight.in_flight(ack_num) {
        flight.place(ack_num)
    } else {
        flight.place(ack_num) - 0x1_0000
    }
}

/// A selective acknowledgement says of each packet from two after `ack_num` on whether it has
/// arrived: a set bit acknowledges its packet and ends the wait for it, a clear bit leaves its
/// packet as it was. The packet right after `ack_num` stays as it was, too.
pub proof fn law_selective_bits(
    flight: Flight,
    ack_num: u16,
    bits: Seq<bool>,
    delay: Duration,
    now: Instant,
    k: int,
)
    requires
        flight.packets.len() <= u16::MAX,
        flight.acceptable(ack_num),
        0 <= k < bits.len(),
        ack_place(flight, ack_num) + 2 + k < flight.packets.len(),
    ensures
        ({
            let after = flight.acked_all(ack_num, Some(bits), delay, now);
            let place = ack_place(flight, ack_num) + 2 + k;
            let gap = ack_place(flight, ack_num) + 1;
            &&& bits[k] ==> after.packets[place].is_acked()
            &&& bits[k] && !flight.packets[place].is_acked() ==> !after.waiting.contains_key(
                flight.number(place),
            )
            &&& !bits[k] ==> after.packets[place] == flight.packets[place]
            &&& gap >= 0 ==> after.packets[gap] == flight.packets[gap]
        }),
{
    let head = ack_place(flight, ack_num);
    let place = head + 2 + k;
    let direct = flight.acked(ack_num, delay, now);
    lemma_acked_effect(flight, ack_num, delay, now);
    assert(direct.start() == flight.start());
    assert(direct.packets[place] == flight.packets[place]);
    assert(nth_after(ack_num, 2) == direct.number(head + 2));
    lemma_bits_from(direct, head + 2, bits, delay, now, k);
    let selected = direct.acked_by_bits(nth_after(ack_num, 2), bits, delay, now);
    lemma_acked_by_bits_effect(direct, nth_after(ack_num, 2), bits, delay, now);
    assert(selected.start() == flight.start());
    let before: nat = if head >= 0 {
        head as nat
    } else {
        0
    };
    lemma_acked_earliest_effect(selected, before, delay, now);
    let after = selected.acked_earliest(before, delay, now);
    assert(after == flight.acked_all(ack_num, Some(bits), delay, now));
    assert(after.packets[place] == selected.packets[place]);
    if head + 1 >= 0 {
        assert(direct.packets[head + 1] == flight.packets[head + 1]);
        lemma_bits_before(direct, head + 2, bits, delay, now, head + 1);
        assert(after.packets[head + 1] == selected.packets[head + 1]);
    }
}

/// Sending the next packet puts exactly it behind the packets in flight, under the number that
/// was next; the earlier packets keep their places, numbers and records.
pub proof fn law_send_next(
    flight: Flight,
    packet_type: PacketType,
    data: Option<Seq<u8>>,
    len: u32,
    now: Instant,
)
    requires
        flight.packets.len() < u16::MAX,
    ensures
        ({
            let after = flight.transmitted(flight.next, packet_type, data, len, now);
            &&& after.start() == flight.start()
            &&& after.next == nth_after(flight.next, 1)
            &&& after.packets.len() == flight.packets.len() + 1
            &&& after.packets.drop_last() == flight.packets
            &&& after.packets.last().seq_num == flight.next
            &&& after.packets.last().packet_type == packet_type
            &&& after.packets.last().data == data
            &&& after.packets.last().transmission == now
            &&& after.packets.last().retransmissions.len() == 0
            &&& after.packets.last().acks.len() == 0
            &&& !after.packets.last().need_resend
            &&& !after.packets.last().is_acked()
            &&& after.settled == flight.settled
            &&& after.waiting == flight.waiting
            &&& after.number(flight.packets.len() as int) == flight.next
            &&& after.in_flight(flight.next)
        }),
{
    let after = flight.transmitted(flight.next, packet_type, data, len, now);
    assert(after.packets.drop_last() == flight.packets);
}

/// Sending a packet again changes no number and no other packet; of the packet itself only the
/// list of retransmissions grows.
pub proof fn law_send_again(
    flight: Flight,
    seq_num: u16,
    packet_type: PacketType,
    data: Option<Seq<u8>>,
    len: u32,
    now: Instant,
    i: int,
)
    requires
        flight.packets.len() <= u16::MAX,
        flight.in_flight(seq_num),
        0 <= i < flight.packets.len(),
    ensures
        ({
            let after = flight.transmitted(seq_num, packet_type, data, len, now);
            let sent = flight.packets[i];
            &&& after.next == flight.next
            &&& after.packets.len() == flight.packets.len()
            &&& after.start() == flight.start()
            &&& after.packets[i] == if flight.place(seq_num) == i {
                SentPacketView { retransmissions: sent.retransmissions.push(now), ..sent }
            } else {
                sent
            }
        }),
{
}

/// A packet once acknowledged stays so, and its acknowledgement instants stay on record, while it
/// is in flight: neither sending again nor acknowledging takes an acknowledgement back.
pub proof fn law_acks_are_kept(
    flight: Flight,
    seq_num: u16,
    packet_type: PacketType,
    data: Option<Seq<u8>>,
    len: u32,
    delay: Duration,
    now: Instant,
    i: int,
)
    requires
        flight.packets.len() <= u16::MAX,
        seq_num == flight.next || flight.in_flight(seq_num),
        0 <= i < flight.packets.len(),
    ensures
        flight.packets[i].acks.is_prefix_of(
            flight.transmitted(seq_num, packet_type, data, len, now).packets[i].acks,
        ),
        flight.packets[i].acks.is_prefix_of(flight.acked(seq_num, delay, now).packets[i].acks),
{
    let sent = flight.packets[i];
    assert(sent.acks.push(now).take(sent.acks.len() as int) == sent.acks);
}

/// The last acknowledged number and the first unacknowledged one follow one another, and with
/// nothing in flight the last acknowledged number is the one before the next.
pub proof fn law_first_unacked_follows_last_acked(state: SendState)
    ensures
        match (state.last_acked(), state.first_unacked()) {
            (Some(last), Some(first)) => first == nth_after(last, 1),
            (Some(last), None) => last == nth_after(state.next, -1),
            (None, Some(first)) => first == state.start(),
            (None, None) => state.window == 0,
        },
{
}

/// Counting more packets does not count fewer acknowledged ones.
proof fn lemma_count_monotone(packets: Seq<SentPacketView>, i: int, j: int)
    requires
        0 <= i <= j <= packets.len(),
    ensures
        count_acked(packets.skip(j)) <= count_acked(packets.skip(i)),
    decreases j - i,
{
    if i < j {
        lemma_count_monotone(packets, i + 1, j);
        assert(packets.skip(i).drop_first() == packets.skip(i + 1));
    }
}

/// Every unacknowledged packet sent before a lost one is lost as well, and no packet is lost
/// while fewer packets than the threshold are acknowledged.
pub proof fn law_loss_reaches_back(flight: Flight, i: int, j: int)
    requires
        0 <= i <= j,
        flight.lost(j),
    ensures
        !flight.packets[i].is_acked() ==> flight.lost(i),
        count_acked(flight.packets) >= LOSS_THRESHOLD,
{
    lemma_count_monotone(flight.packets, i + 1, j + 1);
    lemma_count_monotone(flight.packets, 0, j + 1);
    assert(flight.packets.skip(0) == flight.packets);
}

/// A packet is lost if and only if it is unacknowledged and three packets sent after it are
/// acknowledged.
pub proof fn law_lost_after_three_later_acks(flight: Flight, i: int)
    requires
        0 <= i < flight.packets.len(),
    ensures
        flight.lost(i) <==> flight.packets[i].acks.len() == 0 && exists|a: int, b: int, c: int|
            i < a < b < c < flight.packets.len() && (#[trigger] flight.packets[a]).acks.len() > 0
                && (#[trigger] flight.packets[b]).acks.len() > 0 && (
            #[trigger] flight.packets[c]).acks.len() > 0,
{
    let packets = flight.packets;
    if flight.lost(i) {
        let a = lemma_next_acked(packets, i + 1);
        let b = lemma_next_acked(packets, a + 1);
        let c = lemma_next_acked(packets, b + 1);
        assert(packets[a].acks.len() > 0 && packets[b].acks.len() > 0 && packets[c].acks.len() > 0);
    }
    if packets[i].acks.len() == 0 && exists|a: int, b: int, c: int|
        i < a < b < c < packets.len() && (#[trigger] packets[a]).acks.len() > 0 && (
        #[trigger] packets[b]).acks.len() > 0 && (#[trigger] packets[c]).acks.len() > 0 {
        let (a, b, c) = choose|a: int, b: int, c: int|
            i < a < b < c < packets.len() && (#[trigger] packets[a]).acks.len() > 0 && (
            #[trigger] packets[b]).acks.len() > 0 && (#[trigger] packets[c]).acks.len() > 0;
        lemma_count_monotone(packets, i + 1, a);
        lemma_count_monotone(packets, a + 1, b);
        lemma_count_monotone(packets, b + 1, c);
        assert(packets.skip(a).drop_first() == packets.skip(a + 1));
        assert(packets.skip(b).drop_first() == packets.skip(b + 1));
        assert(packets.skip(c).drop_first() == packets.skip(c + 1));
    }
}

/// The first acknowledged packet from a place on, after which one fewer is left.
proof fn lemma_next_acked(packets: Seq<SentPacketView>, from: int) -> (place: int)
    requires
        0 <= from <= packets.len(),
        count_acked(packets.skip(from)) > 0,
    ensures
        from <= place < packets.len(),
        packets[place].is_acked(),
        count_acked(packets.skip(place + 1)) == count_acked(packets.skip(from)) - 1,
    decreases packets.len() - from,
{
    let rest = packets.skip(from);
    assert(rest.len() > 0);
    assert(rest.first() == packets[from]);
    assert(rest.drop_first() == packets.skip(from + 1));
    if packets[from].is_acked() {
        from
    } else {
        lemma_next_acked(packets, from + 1)
    }
}

/// An acknowledgement may name the packets in flight and the two numbers before them, and no
/// other number; never the next one, under which nothing was sent.
pub proof fn law_acceptable_numbers(flight: Flight, i: int)
    requires
        flight.packets.len() <= u16::MAX,
        -0x1_0000 < i < 0x1_0000,
    ensures
        0 <= i < flight.packets.len() ==> flight.acceptable(nth_after(flight.start(), i)),
        -2 <= i < 0 && flight.packets.len() - i < 0x1_0000 ==> flight.acceptable(
            nth_after(flight.start(), i),
        ),
        flight.packets.len() < i < 0xfffe ==> !flight.acceptable(nth_after(flight.start(), i)),
        !flight.acceptable(flight.next),
{
}

} // verus!
