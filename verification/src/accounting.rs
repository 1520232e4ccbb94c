//! What sending and acknowledging are for: what they charge and free, and which packets they touch.

use vstd::prelude::*;

use crate::congestion;
use crate::congestion::{
    law_in_flight_is_what_is_outstanding, lemma_outstanding_part, outstanding_of,
};
use crate::flight::{preceding, reach, Flight, SentPacketView};
use crate::laws::{
    ack_place, law_last_ack_empties_flight, lemma_acked_by_bits_effect,
    lemma_acked_earliest_effect, lemma_acked_effect, lemma_bits_before, lemma_bits_from,
    lemma_leading, lemma_number_of_place, lemma_number_steps, lemma_place_of_number, lemma_settle,
};
use crate::packet::PacketType;
use crate::seq::{distance, nth_after};
use crate::state::{law_settle_empties_passed_slots, lemma_acked_known, SendState};
use crate::time::{Duration, Instant};
use crate::utils::law_grown_size;

verus! {

/// What the controller is told of a packet that is acknowledged at `now`: the delay, the time since
/// the packet was first sent again, or since it was sent if it never was again, and `now`.
pub open spec fn report(packet: SentPacketView, delay: Duration, now: Instant) -> congestion::Ack {
    let from = if packet.retransmissions.len() > 0 {
        packet.retransmissions.first()
    } else {
        packet.transmission
    };
    congestion::Ack {
        delay,
        rtt: Duration {
            nanos: if from.nanos <= now.nanos {
                (now.nanos - from.nanos) as u64
            } else {
                0
            },
        },
        received_at: now,
    }
}

/// The controller after it was told of the packets at the given places, one after the other.
pub open spec fn told(
    flight: Flight,
    places: Seq<int>,
    delay: Duration,
    now: Instant,
) -> congestion::State
    decreases places.len(),
{
    if places.len() == 0 {
        flight.controller
    } else {
        told(flight, places.drop_last(), delay, now).acknowledged(
            flight.number(places.last()),
            report(flight.packets[places.last()], delay, now),
        )->Ok_0
    }
}

/// The bytes that the packets at the given places have outstanding.
pub open spec fn bytes_at(flight: Flight, places: Seq<int>) -> nat
    decreases places.len(),
{
    if places.len() == 0 {
        0
    } else {
        bytes_at(flight, places.drop_last()) + outstanding_of(
            flight.controller.transmissions,
            flight.number(places.last()),
        )
    }
}

/// Whether `after` is `before` with the packets at the given places acknowledged at `now`, and
/// nothing else: each was unacknowledged, notes `now` and waits no longer, and the controller was
/// told of each, once.
pub open spec fn acknowledges(
    before: Flight,
    after: Flight,
    places: Seq<int>,
    delay: Duration,
    now: Instant,
) -> bool {
    &&& after.next == before.next
    &&& after.settled == before.settled
    &&& after.packets.len() == before.packets.len()
    &&& places.no_duplicates()
    &&& forall|i: int| #[trigger]
        places.contains(i) ==> 0 <= i < before.packets.len() && before.packets[i].acks.len() == 0
    &&& forall|i: int|
        0 <= i < before.packets.len() ==> #[trigger] after.packets[i] == if places.contains(i) {
            SentPacketView { acks: seq![now], ..before.packets[i] }
        } else {
            before.packets[i]
        }
    &&& after.controller == told(before, places, delay, now)
    &&& forall|number: u16| #[trigger]
        after.waiting.contains_key(number) <==> before.waiting.contains_key(number) && !(
        before.in_flight(number) && places.contains(before.place(number)))
    &&& forall|number: u16| #[trigger]
        after.waiting.contains_key(number) ==> after.waiting[number] == before.waiting[number]
}

/// Nothing acknowledged.
proof fn lemma_nothing(flight: Flight, delay: Duration, now: Instant)
    ensures
        acknowledges(flight, flight, Seq::empty(), delay, now),
{
}

/// Telling of places one after the other comes to telling of the first, and then of the rest.
proof fn lemma_told(
    before: Flight,
    middle: Flight,
    first: Seq<int>,
    rest: Seq<int>,
    delay: Duration,
    now: Instant,
)
    requires
        middle.controller == told(before, first, delay, now),
        middle.next == before.next,
        middle.packets.len() == before.packets.len(),
        forall|i: int| #[trigger] rest.contains(i) ==> middle.packets[i] == before.packets[i],
    ensures
        told(middle, rest, delay, now) == told(before, first + rest, delay, now),
    decreases rest.len(),
{
    if rest.len() == 0 {
        assert(first + rest == first);
    } else {
        let shorter = rest.drop_last();
        assert forall|i: int| #[trigger] shorter.contains(i) implies middle.packets[i]
            == before.packets[i] by {
            let k = choose|k: int| 0 <= k < shorter.len() && shorter[k] == i;
            assert(rest[k] == i);
            assert(rest.contains(i));
        }
        lemma_told(before, middle, first, shorter, delay, now);
        assert((first + rest).drop_last() == first + shorter);
        assert((first + rest).last() == rest.last());
        assert(rest[rest.len() - 1] == rest.last());
        assert(rest.contains(rest.last()));
        assert(middle.number(rest.last()) == before.number(rest.last()));
    }
}

/// Acknowledging some packets and then some more comes to acknowledging all of them.
proof fn lemma_acknowledges_both(
    before: Flight,
    middle: Flight,
    after: Flight,
    first: Seq<int>,
    rest: Seq<int>,
    delay: Duration,
    now: Instant,
)
    requires
        acknowledges(before, middle, first, delay, now),
        acknowledges(middle, after, rest, delay, now),
    ensures
        acknowledges(before, after, first + rest, delay, now),
{
    let all = first + rest;
    assert forall|i: int| #[trigger] all.contains(i) <==> first.contains(i) || rest.contains(i) by {
        if all.contains(i) {
            let k = choose|k: int| 0 <= k < all.len() && all[k] == i;
            if k < first.len() {
                assert(first[k] == i);
            } else {
                assert(rest[k - first.len()] == i);
            }
        }
        if first.contains(i) {
            let k = choose|k: int| 0 <= k < first.len() && first[k] == i;
            assert(all[k] == i);
        }
        if rest.contains(i) {
            let k = choose|k: int| 0 <= k < rest.len() && rest[k] == i;
            assert(all[first.len() + k] == i);
        }
    }
    assert forall|i: int| #[trigger] rest.contains(i) implies !first.contains(i)
        && middle.packets[i] == before.packets[i] by {
        if first.contains(i) {
            assert(middle.packets[i].acks == seq![now]);
        }
    }
    assert(all.no_duplicates()) by {
        assert forall|a: int, b: int| 0 <= a < all.len() && 0 <= b < all.len() && a != b implies
            all[a] != all[b] by {
            if a < first.len() && b >= first.len() {
                assert(first.contains(all[a]) && rest.contains(rest[b - first.len()]));
            }
            if b < first.len() && a >= first.len() {
                assert(first.contains(all[b]) && rest.contains(rest[a - first.len()]));
            }
        }
    }
    lemma_told(before, middle, first, rest, delay, now);
    assert forall|i: int| 0 <= i < before.packets.len() implies #[trigger] after.packets[i] == if
        all.contains(i) {
        SentPacketView { acks: seq![now], ..before.packets[i] }
    } else {
        before.packets[i]
    } by {
        assert(middle.packets[i] == if first.contains(i) {
            SentPacketView { acks: seq![now], ..before.packets[i] }
        } else {
            before.packets[i]
        });
    }
    assert(middle.start() == before.start());
    assert forall|number: u16| #[trigger]
        after.waiting.contains_key(number) <==> before.waiting.contains_key(number) && !(
        before.in_flight(number) && all.contains(before.place(number))) by {
        assert(middle.waiting.contains_key(number) <==> before.waiting.contains_key(number) && !(
        before.in_flight(number) && first.contains(before.place(number))));
        assert(all.contains(before.place(number)) <==> first.contains(before.place(number))
            || rest.contains(before.place(number)));
    }
    assert forall|number: u16| #[trigger]
        after.waiting.contains_key(number) implies after.waiting[number]
        == before.waiting[number] by {
        assert(middle.waiting.contains_key(number));
    }
}

/// One number acknowledges its own packet, if it is in flight and unacknowledged.
pub proof fn law_one_ack(flight: Flight, seq_num: u16, delay: Duration, now: Instant) -> (places:
    Seq<int>)
    requires
        flight.packets.len() <= u16::MAX,
    ensures
        acknowledges(flight, flight.acked(seq_num, delay, now), places, delay, now),
        forall|i: int| #[trigger]
            places.contains(i) <==> 0 <= i < flight.packets.len() && flight.packets[i].acks.len()
                == 0 && flight.number(i) == seq_num,
{
    let place = flight.place(seq_num);
    lemma_number_of_place(flight, seq_num);
    assert forall|i: int| 0 <= i < flight.packets.len() && #[trigger] flight.number(i)
        == seq_num implies i == place by {
        lemma_place_of_number(flight, i);
    }
    if flight.in_flight(seq_num) && !flight.packets[place].is_acked() {
        let places = seq![place];
        let after = flight.acked(seq_num, delay, now);
        let none = Seq::<int>::empty();
        assert(places.drop_last() == none);
        assert(told(flight, none, delay, now) == flight.controller);
        assert(places.contains(place)) by {
            assert(places[0] == place);
        }
        assert(flight.packets[place].acks.push(now) =~= seq![now]);
        assert forall|number: u16| #[trigger]
            after.waiting.contains_key(number) <==> flight.waiting.contains_key(number) && !(
            flight.in_flight(number) && places.contains(flight.place(number))) by {
            lemma_number_of_place(flight, number);
        }
        places
    } else {
        lemma_nothing(flight, delay, now);
        Seq::empty()
    }
}

/// The earliest packets are acknowledged, and no others.
proof fn lemma_earliest(flight: Flight, n: nat, delay: Duration, now: Instant) -> (places: Seq<int>)
    requires
        n <= flight.packets.len() <= u16::MAX,
    ensures
        acknowledges(flight, flight.acked_earliest(n, delay, now), places, delay, now),
        forall|i: int| #[trigger]
            places.contains(i) <==> 0 <= i < n && flight.packets[i].acks.len() == 0,
    decreases n,
{
    if n == 0 {
        lemma_nothing(flight, delay, now);
        Seq::empty()
    } else {
        let first = lemma_earliest(flight, (n - 1) as nat, delay, now);
        let middle = flight.acked_earliest((n - 1) as nat, delay, now);
        let rest = law_one_ack(middle, flight.number(n - 1), delay, now);
        let after = flight.acked_earliest(n, delay, now);
        lemma_acknowledges_both(flight, middle, after, first, rest, delay, now);
        let places = first + rest;
        lemma_acked_earliest_effect(flight, n, delay, now);
        assert forall|i: int| #[trigger]
            places.contains(i) <==> 0 <= i < n && flight.packets[i].acks.len() == 0 by {
            if 0 <= i < flight.packets.len() {
                assert(after.packets[i] == if places.contains(i) {
                    SentPacketView { acks: seq![now], ..flight.packets[i] }
                } else {
                    flight.packets[i]
                });
            }
        }
        places
    }
}

/// Selective bits acknowledge packets, and do nothing else.
proof fn lemma_bits(
    flight: Flight,
    seq_num: u16,
    bits: Seq<bool>,
    delay: Duration,
    now: Instant,
) -> (places: Seq<int>)
    requires
        flight.packets.len() <= u16::MAX,
    ensures
        acknowledges(
            flight,
            flight.acked_by_bits(seq_num, bits, delay, now),
            places,
            delay,
            now,
        ),
    decreases bits.len(),
{
    lemma_nothing(flight, delay, now);
    if bits.len() == 0 || !flight.acceptable(seq_num) {
        Seq::empty()
    } else {
        let middle = flight.acked_by_bit(seq_num, bits.first(), delay, now);
        let after = flight.acked_by_bits(seq_num, bits, delay, now);
        let one = law_one_ack(flight, seq_num, delay, now);
        let first = if bits.first() {
            one
        } else {
            Seq::empty()
        };
        assert(acknowledges(flight, middle, first, delay, now));
        let rest = lemma_bits(middle, nth_after(seq_num, 1), bits.drop_first(), delay, now);
        lemma_acknowledges_both(flight, middle, after, first, rest, delay, now);
        first + rest
    }
}

/// Selective bits leave the packets beyond their reach alone.
proof fn lemma_bits_after(
    flight: Flight,
    place: int,
    bits: Seq<bool>,
    delay: Duration,
    now: Instant,
    i: int,
)
    requires
        0 <= place <= flight.packets.len() <= u16::MAX,
        place + bits.len() <= i < flight.packets.len(),
    ensures
        flight.acked_by_bits(flight.number(place), bits, delay, now).packets[i]
            == flight.packets[i],
    decreases bits.len(),
{
    let seq_num = flight.number(place);
    lemma_number_steps(flight, place);
    if bits.len() > 0 {
        let current = flight.acked_by_bit(seq_num, bits.first(), delay, now);
        lemma_place_of_number(flight, place);
        lemma_acked_effect(flight, seq_num, delay, now);
        assert(current.start() == flight.start());
        if bits.first() {
            assert(flight.acked(seq_num, delay, now).packets[i] == flight.packets[i]);
        }
        lemma_bits_after(current, place + 1, bits.drop_first(), delay, now, i);
    }
}

/// Whether an acknowledgement of `ack_num` names the packet at a place: it is `ack_num` or before
/// it, or a selective bit for it is set, where the first bit stands for the packet two after
/// `ack_num`.
pub open spec fn names(
    flight: Flight,
    ack_num: u16,
    selective_ack: Option<Seq<bool>>,
    i: int,
) -> bool {
    let head = ack_place(flight, ack_num);
    i <= head || match selective_ack {
        Some(bits) => head + 2 <= i < head + 2 + bits.len() && bits[i - head - 2],
        None => false,
    }
}

/// What becomes of a packet: it ends acknowledged if the acknowledgement names it, and stays as it
/// was if not.
proof fn lemma_named(
    flight: Flight,
    ack_num: u16,
    selective_ack: Option<Seq<bool>>,
    delay: Duration,
    now: Instant,
    i: int,
)
    requires
        flight.packets.len() <= u16::MAX,
        flight.acceptable(ack_num),
        0 <= i < flight.packets.len(),
    ensures
        ({
            let after = flight.acked_all(ack_num, selective_ack, delay, now);
            if names(flight, ack_num, selective_ack, i) {
                after.packets[i].is_acked()
            } else {
                after.packets[i] == flight.packets[i]
            }
        }),
{
    let head = ack_place(flight, ack_num);
    let direct = flight.acked(ack_num, delay, now);
    lemma_acked_effect(flight, ack_num, delay, now);
    assert(direct.start() == flight.start());
    assert(direct.packets[i] == flight.acked(ack_num, delay, now).packets[i]);
    let next = nth_after(ack_num, 2);
    let selected = match selective_ack {
        Some(bits) => direct.acked_by_bits(next, bits, delay, now),
        None => direct,
    };
    if selective_ack is Some {
        let bits = selective_ack->Some_0;
        lemma_acked_by_bits_effect(direct, next, bits, delay, now);
        if i > head {
            assert(next == direct.number(head + 2));
            if i < head + 2 {
                lemma_bits_before(direct, head + 2, bits, delay, now, i);
            } else if i < head + 2 + bits.len() {
                lemma_bits_from(direct, head + 2, bits, delay, now, i - head - 2);
            } else {
                lemma_bits_after(direct, head + 2, bits, delay, now, i);
            }
        } else if i == head {
            assert(direct.packets[i].is_acked());
            assert(selected.packets[i].is_acked());
        }
    }
    assert(selected.start() == flight.start());
    let before: nat = if head >= 0 {
        head as nat
    } else {
        0
    };
    lemma_acked_earliest_effect(selected, before, delay, now);
    let after = selected.acked_earliest(before, delay, now);
    assert(after == flight.acked_all(ack_num, selective_ack, delay, now));
    assert(after.packets[i] == selected.acked_earliest(before, delay, now).packets[i]);
}

/// An acknowledgement acknowledges exactly the packets that it names and that were unacknowledged:
/// these note the instant, wait no longer, and are reported to the controller, each once. Every
/// other packet stays as it was, and goes on waiting if it waited.
pub proof fn law_ack_acknowledges_what_it_names(
    flight: Flight,
    ack_num: u16,
    selective_ack: Option<Seq<bool>>,
    delay: Duration,
    now: Instant,
) -> (places: Seq<int>)
    requires
        flight.packets.len() <= u16::MAX,
        flight.acceptable(ack_num),
    ensures
        acknowledges(
            flight,
            flight.acked_all(ack_num, selective_ack, delay, now),
            places,
            delay,
            now,
        ),
        forall|i: int| #[trigger]
            places.contains(i) <==> 0 <= i < flight.packets.len() && flight.packets[i].acks.len()
                == 0 && names(flight, ack_num, selective_ack, i),
{
    let direct = flight.acked(ack_num, delay, now);
    let first = law_one_ack(flight, ack_num, delay, now);
    let next = nth_after(ack_num, 2);
    let selected = match selective_ack {
        Some(bits) => direct.acked_by_bits(next, bits, delay, now),
        None => direct,
    };
    let second = if selective_ack is Some {
        lemma_bits(direct, next, selective_ack->Some_0, delay, now)
    } else {
        lemma_nothing(direct, delay, now);
        Seq::empty()
    };
    lemma_acknowledges_both(flight, direct, selected, first, second, delay, now);
    let head = ack_place(flight, ack_num);
    let before: nat = if head >= 0 {
        head as nat
    } else {
        0
    };
    assert(selected.start() == flight.start());
    let after = flight.acked_all(ack_num, selective_ack, delay, now);
    assert(after == selected.acked_earliest(before, delay, now));
    let third = lemma_earliest(selected, before, delay, now);
    lemma_acknowledges_both(flight, selected, after, first + second, third, delay, now);
    let places = first + second + third;
    assert forall|i: int| #[trigger]
        places.contains(i) <==> 0 <= i < flight.packets.len() && flight.packets[i].acks.len() == 0
            && names(flight, ack_num, selective_ack, i) by {
        if 0 <= i < flight.packets.len() {
            lemma_named(flight, ack_num, selective_ack, delay, now, i);
            assert(after.packets[i] == if places.contains(i) {
                SentPacketView { acks: seq![now], ..flight.packets[i] }
            } else {
                flight.packets[i]
            });
        }
    }
    places
}

/// The packets before a number are acknowledged, and no others: those at earlier places if the
/// number is in flight, all of them if it is the next, and none if it is one of the two before the
/// flight. Of the other numbers, those larger than the one that the flight starts with come after
/// all packets, and the rest before them.
pub proof fn law_prior_acks(flight: Flight, seq_num: u16, delay: Duration, now: Instant) -> (places:
    Seq<int>)
    requires
        flight.packets.len() <= u16::MAX,
    ensures
        acknowledges(flight, flight.acked_before(seq_num, delay, now), places, delay, now),
        forall|i: int| #[trigger]
            places.contains(i) <==> {
                &&& 0 <= i < flight.packets.len()
                &&& flight.packets[i].acks.len() == 0
                &&& {
                    ||| flight.in_flight(seq_num) && i < flight.place(seq_num)
                    ||| seq_num == flight.next
                    ||| !flight.in_flight(seq_num) && seq_num > flight.start() && flight.place(
                        seq_num,
                    ) < 0xfffe
                }
            },
{
    let count = preceding(flight.start(), flight.packets.len() as int, seq_num);
    lemma_number_steps(flight, flight.packets.len() as int);
    lemma_number_of_place(flight, seq_num);
    lemma_place_of_number(flight, flight.packets.len() as int);
    lemma_earliest(flight, count, delay, now)
}

/// After an acknowledgement the flight starts with the first packet that is left unacknowledged:
/// everything before it was acknowledged and is let go, everything from it on stays. The number
/// right before it is then the last one acknowledged.
pub proof fn law_ack_moves_past_what_is_acknowledged(
    flight: Flight,
    ack_num: u16,
    selective_ack: Option<Seq<bool>>,
    delay: Duration,
    now: Instant,
)
    requires
        0 < flight.packets.len() <= u16::MAX,
        flight.acceptable(ack_num),
    ensures
        ({
            let all = flight.acked_all(ack_num, selective_ack, delay, now);
            let after = flight.acknowledged(ack_num, selective_ack, delay, now);
            let passed = flight.packets.len() - after.packets.len();
            &&& 0 <= passed
            &&& after.next == flight.next
            &&& after.packets == all.packets.skip(passed)
            &&& after.settled == (flight.settled || passed > 0)
            &&& after.controller == all.controller
            &&& after.waiting == all.waiting
            &&& forall|i: int| 0 <= i < passed ==> (#[trigger] all.packets[i]).acks.len() > 0
            &&& after.packets.len() > 0 ==> after.packets[0].acks.len() == 0
            &&& after.start() == nth_after(flight.start(), passed)
            &&& passed > 0 ==> after.last_acked() == Some(nth_after(flight.start(), passed - 1))
            &&& passed == 0 ==> after.last_acked() == flight.last_acked()
            &&& after.packets.len() > 0 ==> after.first_unacked() == Some(after.start())
            &&& after.packets.len() == 0 ==> after.first_unacked() is None
        }),
{
    let all = flight.acked_all(ack_num, selective_ack, delay, now);
    let places = law_ack_acknowledges_what_it_names(flight, ack_num, selective_ack, delay, now);
    lemma_settle(all);
    lemma_leading(all.packets);
    lemma_leading(all.settle().packets);
}

/// With nothing in flight an acknowledgement ends the wait for the packet that it names, and does
/// nothing else.
pub proof fn law_ack_with_nothing_in_flight(
    flight: Flight,
    ack_num: u16,
    selective_ack: Option<Seq<bool>>,
    delay: Duration,
    now: Instant,
    other: u16,
)
    requires
        flight.packets.len() == 0,
    ensures
        ({
            let after = flight.acknowledged(ack_num, selective_ack, delay, now);
            &&& !after.waiting.contains_key(ack_num)
            &&& other != ack_num ==> after.waiting.contains_key(other)
                == flight.waiting.contains_key(other)
            &&& other != ack_num && flight.waiting.contains_key(other) ==> after.waiting[other]
                == flight.waiting[other]
            &&& after.next == flight.next
            &&& after.packets == flight.packets
            &&& after.settled == flight.settled
            &&& after.controller == flight.controller
        }),
{
}

/// The controller knows every packet in flight.
pub open spec fn knows_all(flight: Flight) -> bool {
    forall|i: int|
        0 <= i < flight.packets.len() ==> flight.controller.knows(#[trigger] flight.number(i))
}

/// What telling the controller of packets does to the bytes that it counts.
proof fn lemma_told_frees(flight: Flight, places: Seq<int>, delay: Duration, now: Instant)
    requires
        flight.packets.len() <= u16::MAX,
        knows_all(flight),
        places.no_duplicates(),
        forall|i: int| #[trigger] places.contains(i) ==> 0 <= i < flight.packets.len(),
    ensures
        ({
            let after = told(flight, places, delay, now);
            &&& after.in_flight() + bytes_at(flight, places) == flight.controller.in_flight()
            &&& forall|number: u16| #[trigger]
                after.transmissions.contains_key(number)
                    <==> flight.controller.transmissions.contains_key(number)
            &&& forall|number: u16| #[trigger]
                outstanding_of(after.transmissions, number) == if flight.in_flight(number)
                    && places.contains(flight.place(number)) {
                    0
                } else {
                    outstanding_of(flight.controller.transmissions, number)
                }
        }),
    decreases places.len(),
{
    if places.len() > 0 {
        let rest = places.drop_last();
        let last = places.last();
        assert(places[places.len() - 1] == last);
        assert(places.contains(last));
        assert forall|i: int| #[trigger] rest.contains(i) implies places.contains(i) && i
            != last by {
            let k = choose|k: int| 0 <= k < rest.len() && rest[k] == i;
            assert(places[k] == i);
        }
        assert forall|i: int| #[trigger] places.contains(i) && i != last implies rest.contains(
            i,
        ) by {
            let k = choose|k: int| 0 <= k < places.len() && places[k] == i;
            assert(rest[k] == i);
        }
        lemma_told_frees(flight, rest, delay, now);
        let before = told(flight, rest, delay, now);
        let after = told(flight, places, delay, now);
        let number = flight.number(last);
        lemma_place_of_number(flight, last);
        assert(flight.controller.knows(number));
        assert(before.knows(number));
        let ack = report(flight.packets[last], delay, now);
        congestion::law_ack_frees_bytes_once(before, number, ack, ack);
        lemma_outstanding_part(before.transmissions, number, 0x1_0000);
        assert(outstanding_of(before.transmissions, number) == outstanding_of(
            flight.controller.transmissions,
            number,
        ));
        assert forall|other: u16| #[trigger]
            outstanding_of(after.transmissions, other) == if flight.in_flight(other)
                && places.contains(flight.place(other)) {
                0
            } else {
                outstanding_of(flight.controller.transmissions, other)
            } by {
            lemma_number_of_place(flight, other);
            assert(outstanding_of(before.transmissions, other) == if flight.in_flight(other)
                && rest.contains(flight.place(other)) {
                0
            } else {
                outstanding_of(flight.controller.transmissions, other)
            });
        }
    }
}

/// An acknowledgement frees the bytes of the packets that it newly acknowledges, and no others:
/// what the controller has in flight afterwards is what it had, less these bytes.
pub proof fn law_ack_frees_what_it_acknowledges(
    flight: Flight,
    ack_num: u16,
    selective_ack: Option<Seq<bool>>,
    delay: Duration,
    now: Instant,
) -> (places: Seq<int>)
    requires
        0 < flight.packets.len() <= u16::MAX,
        flight.acceptable(ack_num),
        knows_all(flight),
    ensures
        places.no_duplicates(),
        forall|i: int| #[trigger]
            places.contains(i) <==> 0 <= i < flight.packets.len() && flight.packets[i].acks.len()
                == 0 && names(flight, ack_num, selective_ack, i),
        ({
            let after = flight.acknowledged(ack_num, selective_ack, delay, now);
            &&& after.controller == told(flight, places, delay, now)
            &&& after.controller.in_flight() == flight.controller.in_flight() - bytes_at(
                flight,
                places,
            )
            &&& forall|number: u16| #[trigger]
                outstanding_of(after.controller.transmissions, number) == if flight.in_flight(
                    number,
                ) && places.contains(flight.place(number)) {
                    0
                } else {
                    outstanding_of(flight.controller.transmissions, number)
                }
            &&& forall|number: u16| #[trigger]
                after.controller.knows(number) <==> flight.controller.knows(number)
        }),
{
    let places = law_ack_acknowledges_what_it_names(flight, ack_num, selective_ack, delay, now);
    law_ack_moves_past_what_is_acknowledged(flight, ack_num, selective_ack, delay, now);
    lemma_told_frees(flight, places, delay, now);
    let after = flight.acknowledged(ack_num, selective_ack, delay, now);
    assert forall|number: u16| #[trigger] after.controller.knows(number)
        <==> flight.controller.knows(number) by {
        assert(after.controller.transmissions.contains_key(number)
            <==> flight.controller.transmissions.contains_key(number));
    }
    places
}

/// An acknowledgement ends the wait for exactly the packets that it newly acknowledges: every
/// other entry stays, in particular that of a packet which is in flight and unacknowledged
/// afterwards.
pub proof fn law_ack_ends_the_wait_for_what_it_acknowledges(
    flight: Flight,
    ack_num: u16,
    selective_ack: Option<Seq<bool>>,
    delay: Duration,
    now: Instant,
    number: u16,
)
    requires
        0 < flight.packets.len() <= u16::MAX,
        flight.acceptable(ack_num),
    ensures
        ({
            let after = flight.acknowledged(ack_num, selective_ack, delay, now);
            let place = flight.place(number);
            &&& after.waiting.contains_key(number) <==> {
                &&& flight.waiting.contains_key(number)
                &&& !(flight.in_flight(number) && flight.packets[place].acks.len() == 0 && names(
                    flight,
                    ack_num,
                    selective_ack,
                    place,
                ))
            }
            &&& after.waiting.contains_key(number) ==> after.waiting[number]
                == flight.waiting[number]
            &&& after.in_flight(number) && after.packets[after.place(number)].acks.len() == 0
                && flight.waiting.contains_key(number) ==> after.waiting.contains_key(number)
        }),
{
    let places = law_ack_acknowledges_what_it_names(flight, ack_num, selective_ack, delay, now);
    law_ack_moves_past_what_is_acknowledged(flight, ack_num, selective_ack, delay, now);
    let all = flight.acked_all(ack_num, selective_ack, delay, now);
    let after = flight.acknowledged(ack_num, selective_ack, delay, now);
    let place = flight.place(number);
    let passed = flight.packets.len() - after.packets.len();
    assert(all.waiting.contains_key(number) <==> flight.waiting.contains_key(number) && !(
    flight.in_flight(number) && places.contains(place)));
    if after.in_flight(number) {
        assert(place == after.place(number) + passed);
        assert(after.packets[after.place(number)] == all.packets[place]);
    }
}

/// The bytes that the controller counts are those of packets in flight and unacknowledged.
pub open spec fn accounted(flight: Flight) -> bool {
    &&& knows_all(flight)
    &&& forall|number: u16| #[trigger]
        outstanding_of(flight.controller.transmissions, number) > 0 ==> flight.in_flight(number)
            && flight.packets[flight.place(number)].acks.len() == 0
}

/// With nothing unacknowledged nothing is in flight, and the whole window is available.
pub proof fn law_nothing_unacknowledged_nothing_in_flight(flight: Flight)
    requires
        accounted(flight),
        forall|i: int|
            0 <= i < flight.packets.len() ==> (#[trigger] flight.packets[i]).acks.len() > 0,
    ensures
        flight.controller.in_flight() == 0,
        flight.controller.available() == flight.controller.max_window,
{
    assert forall|number: u16| #[trigger]
        outstanding_of(flight.controller.transmissions, number) == 0 by {
        if flight.in_flight(number) {
            assert(flight.packets[flight.place(number)].acks.len() > 0);
        }
    }
    law_in_flight_is_what_is_outstanding(flight.controller, flight.controller);
}

/// Acknowledgements keep the account: what they leave counted is in flight and unacknowledged.
pub proof fn law_acks_keep_the_account(
    flight: Flight,
    ack_num: u16,
    selective_ack: Option<Seq<bool>>,
    delay: Duration,
    now: Instant,
)
    requires
        flight.packets.len() <= u16::MAX,
        flight.acceptable(ack_num),
        accounted(flight),
    ensures
        accounted(flight.acknowledged(ack_num, selective_ack, delay, now)),
{
    let after = flight.acknowledged(ack_num, selective_ack, delay, now);
    if flight.packets.len() > 0 {
        let places = law_ack_frees_what_it_acknowledges(
            flight,
            ack_num,
            selective_ack,
            delay,
            now,
        );
        let named = law_ack_acknowledges_what_it_names(flight, ack_num, selective_ack, delay, now);
        law_ack_moves_past_what_is_acknowledged(flight, ack_num, selective_ack, delay, now);
        let all = flight.acked_all(ack_num, selective_ack, delay, now);
        let passed = flight.packets.len() - after.packets.len();
        assert forall|i: int| 0 <= i < after.packets.len() implies after.controller.knows(
            #[trigger] after.number(i),
        ) by {
            assert(after.number(i) == flight.number(i + passed));
            assert(flight.controller.knows(flight.number(i + passed)));
        }
        assert forall|number: u16| #[trigger]
            outstanding_of(after.controller.transmissions, number) > 0 implies after.in_flight(
            number,
        ) && after.packets[after.place(number)].acks.len() == 0 by {
            assert(outstanding_of(flight.controller.transmissions, number) > 0);
            let place = flight.place(number);
            assert(!places.contains(place));
            assert(!named.contains(place));
            assert(all.packets[place] == flight.packets[place]);
            assert(place >= passed);
            assert(after.place(number) == place - passed);
        }
    } else {
        assert forall|i: int| 0 <= i < after.packets.len() implies after.controller.knows(
            #[trigger] after.number(i),
        ) by {}
        assert forall|number: u16| #[trigger]
            outstanding_of(after.controller.transmissions, number) > 0 implies after.in_flight(
            number,
        ) && after.packets[after.place(number)].acks.len() == 0 by {
            assert(outstanding_of(flight.controller.transmissions, number) > 0);
        }
    }
}

/// Acknowledging the packet sent last frees everything: nothing is in flight, and the whole window
/// is available.
pub proof fn law_last_ack_frees_the_window(
    flight: Flight,
    selective_ack: Option<Seq<bool>>,
    delay: Duration,
    now: Instant,
)
    requires
        0 < flight.packets.len() <= u16::MAX,
        accounted(flight),
    ensures
        ({
            let after = flight.acknowledged(nth_after(flight.next, -1), selective_ack, delay, now);
            &&& after.packets.len() == 0
            &&& after.controller.in_flight() == 0
            &&& after.controller.available() == after.controller.max_window
        }),
{
    let ack_num = nth_after(flight.next, -1);
    assert(flight.place(ack_num) == flight.packets.len() - 1);
    law_last_ack_empties_flight(flight, selective_ack, delay, now);
    law_acks_keep_the_account(flight, ack_num, selective_ack, delay, now);
    law_nothing_unacknowledged_nothing_in_flight(
        flight.acknowledged(ack_num, selective_ack, delay, now),
    );
}

/// Sending the next packet takes up exactly its bytes: so much more is in flight, and so much less
/// is available. It ends no wait, and the other packets have outstanding what they had.
pub proof fn law_sending_takes_up_its_bytes(
    flight: Flight,
    packet_type: PacketType,
    data: Option<Seq<u8>>,
    len: u32,
    now: Instant,
)
    requires
        flight.packets.len() < u16::MAX,
        len <= flight.controller.available(),
        outstanding_of(flight.controller.transmissions, flight.next) == 0,
    ensures
        ({
            let after = flight.transmitted(flight.next, packet_type, data, len, now);
            &&& after.controller.in_flight() == flight.controller.in_flight() + len
            &&& after.controller.available() == flight.controller.available() - len
            &&& after.controller.knows(flight.next)
            &&& outstanding_of(after.controller.transmissions, flight.next) == len
            &&& after.controller.transmissions.remove(flight.next)
                == flight.controller.transmissions.remove(flight.next)
            &&& after.controller.max_window == flight.controller.max_window
            &&& after.controller.timeout == flight.controller.timeout
            &&& after.controller.rtt == flight.controller.rtt
            &&& after.controller.rtt_variance == flight.controller.rtt_variance
            &&& after.controller.delays == flight.controller.delays
            &&& after.waiting == flight.waiting
            &&& after.settled == flight.settled
        }),
{
    congestion::law_initial_transmit_takes_its_bytes(flight.controller, flight.next, len);
    congestion::law_transmit_notes_one_packet(flight.controller, flight.next, len);
}

/// Sending a packet in flight again takes up nothing: as much is in flight and available as
/// before. It ends no wait.
pub proof fn law_sending_again_takes_up_nothing(
    flight: Flight,
    seq_num: u16,
    packet_type: PacketType,
    data: Option<Seq<u8>>,
    len: u32,
    now: Instant,
)
    requires
        flight.packets.len() <= u16::MAX,
        flight.in_flight(seq_num),
        flight.controller.knows(seq_num),
        flight.controller.transmissions[seq_num].count >= 1,
    ensures
        ({
            let after = flight.transmitted(seq_num, packet_type, data, len, now);
            &&& after.controller.in_flight() == flight.controller.in_flight()
            &&& after.controller.available() == flight.controller.available()
            &&& after.controller.knows(seq_num)
            &&& after.controller.transmissions[seq_num].count > 1
            &&& outstanding_of(after.controller.transmissions, seq_num) == outstanding_of(
                flight.controller.transmissions,
                seq_num,
            )
            &&& after.controller.transmissions.remove(seq_num)
                == flight.controller.transmissions.remove(seq_num)
            &&& after.controller.max_window == flight.controller.max_window
            &&& after.controller.timeout == flight.controller.timeout
            &&& after.controller.rtt == flight.controller.rtt
            &&& after.controller.rtt_variance == flight.controller.rtt_variance
            &&& after.controller.delays == flight.controller.delays
            &&& after.waiting == flight.waiting
            &&& after.settled == flight.settled
        }),
{
    lemma_number_steps(flight, flight.packets.len() as int);
    lemma_number_of_place(flight, seq_num);
    let ack = report(flight.packets[0], Duration { nanos: 0 }, now);
    congestion::law_retransmission_takes_nothing(flight.controller, seq_num);
    congestion::law_round_trip_is_measured_only_if_sent_once(flight.controller, seq_num, ack);
}

/// Sending keeps the account: what it adds to what is counted is in flight and unacknowledged.
pub proof fn law_sending_keeps_the_account(
    flight: Flight,
    seq_num: u16,
    packet_type: PacketType,
    data: Option<Seq<u8>>,
    len: u32,
    now: Instant,
)
    requires
        flight.packets.len() < u16::MAX,
        seq_num == flight.next && len <= flight.controller.available() || flight.in_flight(seq_num),
        accounted(flight),
    ensures
        accounted(flight.transmitted(seq_num, packet_type, data, len, now)),
        seq_num == flight.next ==> outstanding_of(flight.controller.transmissions, seq_num) == 0,
{
    let after = flight.transmitted(seq_num, packet_type, data, len, now);
    lemma_number_steps(flight, flight.packets.len() as int);
    lemma_place_of_number(flight, flight.packets.len() as int);
    lemma_number_of_place(flight, seq_num);
    assert(after.start() == flight.start());
    if flight.in_flight(seq_num) {
        assert(flight.controller.knows(flight.number(flight.place(seq_num))));
    }
    assert forall|i: int| 0 <= i < after.packets.len() implies after.controller.knows(
        #[trigger] after.number(i),
    ) by {
        if i < flight.packets.len() {
            assert(flight.controller.knows(flight.number(i)));
        }
    }
    assert forall|number: u16| #[trigger]
        outstanding_of(after.controller.transmissions, number) > 0 implies after.in_flight(number)
        && after.packets[after.place(number)].acks.len() == 0 by {
        if number != seq_num {
            assert(outstanding_of(flight.controller.transmissions, number) > 0);
        } else if flight.in_flight(seq_num) {
            assert(outstanding_of(flight.controller.transmissions, seq_num) > 0);
        }
    }
}

/// The account holds from the start, and losses and timeouts keep it.
pub proof fn law_other_events_keep_the_account(
    flight: Flight,
    seq_num: u16,
    retransmitting: bool,
    config: congestion::Config,
)
    requires
        flight.packets.len() <= u16::MAX,
        accounted(flight),
        flight.controller.knows(seq_num),
    ensures
        accounted(
            Flight {
                controller: flight.controller.lost(seq_num, retransmitting)->Ok_0,
                ..flight
            },
        ),
        accounted(Flight { controller: flight.controller.timed_out(), ..flight }),
        accounted(
            Flight {
                packets: Seq::empty(),
                controller: congestion::State::initial(config),
                ..flight
            },
        ),
{
    let lost = Flight {
        controller: flight.controller.lost(seq_num, retransmitting)->Ok_0,
        ..flight
    };
    let late = Flight { controller: flight.controller.timed_out(), ..flight };
    assert forall|i: int| 0 <= i < flight.packets.len() implies lost.controller.knows(
        #[trigger] lost.number(i),
    ) by {
        assert(flight.controller.knows(flight.number(i)));
    }
    assert forall|i: int| 0 <= i < flight.packets.len() implies late.controller.knows(
        #[trigger] late.number(i),
    ) by {
        assert(flight.controller.knows(flight.number(i)));
    }
    assert forall|number: u16| #[trigger]
        outstanding_of(lost.controller.transmissions, number) > 0 implies lost.in_flight(number)
        && lost.packets[lost.place(number)].acks.len() == 0 by {
        assert(outstanding_of(flight.controller.transmissions, number) > 0);
    }
    assert forall|number: u16| #[trigger]
        outstanding_of(late.controller.transmissions, number) > 0 implies late.in_flight(number)
        && late.packets[late.place(number)].acks.len() == 0 by {
        assert(outstanding_of(flight.controller.transmissions, number) > 0);
    }
}

/// What sending does, whatever the state. An empty slot gets the packet, which counts as one more
/// number; a packet in the slot notes the instant as one more retransmission. Nothing else in the
/// slots changes unless they grow. The next number is charged its bytes, any other nothing, and no
/// wait ends.
pub proof fn law_sending_in_any_state(
    state: SendState,
    seq_num: u16,
    packet_type: PacketType,
    data: Option<Seq<u8>>,
    len: u32,
    now: Instant,
)
    requires
        state.sized(),
        state.window < u16::MAX,
        seq_num == state.next ==> len <= state.controller.available(),
        seq_num != state.next ==> state.controller.knows(seq_num),
    ensures
        ({
            let after = state.transmitted(seq_num, packet_type, data, len, now);
            let n = state.slots.len() as int;
            let key = seq_num as int % n;
            &&& after.waiting == state.waiting
            &&& after.settled == state.settled
            &&& after.controller.max_window == state.controller.max_window
            &&& after.controller.timeout == state.controller.timeout
            &&& after.slots.len() >= state.slots.len()
            &&& after.slots.len() == state.slots.len() ==> forall|slot: int|
                0 <= slot < n && slot != key ==> #[trigger] after.slots[slot] == state.slots[slot]
            &&& match state.slots[key] {
                Some(packet) => {
                    &&& after.next == state.next
                    &&& after.window == state.window
                    &&& after.slots.len() == state.slots.len()
                    &&& after.slots[key] == Some(
                        SentPacketView {
                            retransmissions: packet.retransmissions.push(now),
                            ..packet
                        },
                    )
                },
                None => {
                    &&& after.next == nth_after(state.next, 1)
                    &&& after.window == state.window + 1
                    &&& after.slots.len() > after.window
                    &&& after.slot(seq_num) == Some(
                        SentPacketView {
                            seq_num,
                            packet_type,
                            data,
                            transmission: now,
                            retransmissions: Seq::empty(),
                            acks: Seq::empty(),
                            need_resend: false,
                        },
                    )
                },
            }
            &&& seq_num == state.next && outstanding_of(state.controller.transmissions, seq_num)
                == 0 ==> {
                &&& after.controller.in_flight() == state.controller.in_flight() + len
                &&& after.controller.available() == state.controller.available() - len
            }
            &&& seq_num != state.next ==> {
                &&& after.controller.in_flight() == state.controller.in_flight()
                &&& after.controller.available() == state.controller.available()
            }
            &&& after.controller.transmissions.remove(seq_num)
                == state.controller.transmissions.remove(seq_num)
        }),
{
    let after = state.transmitted(seq_num, packet_type, data, len, now);
    let n = state.slots.len() as int;
    assert(0 <= seq_num as int % n < n);
    law_grown_size(state.slots.len(), (state.window + 1) as nat);
    let m = after.slots.len() as int;
    assert(0 <= seq_num as int % m < m);
    if seq_num == state.next {
        congestion::law_transmit_notes_one_packet(state.controller, seq_num, len);
        if outstanding_of(state.controller.transmissions, seq_num) == 0 {
            congestion::law_initial_transmit_takes_its_bytes(state.controller, seq_num, len);
        }
    } else {
        congestion::law_retransmission_takes_nothing(state.controller, seq_num);
    }
    assert(after.controller.transmissions.remove(seq_num)
        =~= state.controller.transmissions.remove(seq_num));
}

/// What one acknowledgement does, whatever the state. It concerns the packet in the slot of a
/// number in flight, and outside the flight only a packet with that very number; if that packet is
/// unacknowledged, it notes the instant or is let go, waits no longer, and is reported, which frees
/// its bytes. Otherwise nothing happens. Nothing else changes either way.
pub proof fn law_one_ack_in_any_state(
    state: SendState,
    seq_num: u16,
    delay: Duration,
    now: Instant,
    other: u16,
)
    requires
        state.slots.len() > 0,
        state.all_known(),
    ensures
        ({
            let after = state.acked(seq_num, delay, now);
            let n = state.slots.len() as int;
            let key = seq_num as int % n;
            let in_flight = distance(nth_after(state.next, -(state.window as int)), seq_num)
                < state.window;
            &&& after.next == state.next
            &&& after.window == state.window
            &&& after.settled == state.settled
            &&& after.slots.len() == n
            &&& forall|slot: int|
                0 <= slot < n && slot != key ==> #[trigger] after.slots[slot] == state.slots[slot]
            &&& match state.slots[key] {
                Some(packet) => if packet.acks.len() == 0 && (in_flight || packet.seq_num
                    == seq_num) {
                    &&& after.slots[key] == if in_flight {
                        Some(SentPacketView { acks: seq![now], ..packet })
                    } else {
                        None
                    }
                    &&& after.controller == state.controller.acknowledged(
                        packet.seq_num,
                        report(packet, delay, now),
                    )->Ok_0
                    &&& after.controller.in_flight() == state.controller.in_flight()
                        - outstanding_of(state.controller.transmissions, packet.seq_num)
                    &&& !after.waiting.contains_key(packet.seq_num)
                    &&& other != packet.seq_num ==> after.waiting.contains_key(other)
                        == state.waiting.contains_key(other)
                    &&& other != packet.seq_num && state.waiting.contains_key(other)
                        ==> after.waiting[other] == state.waiting[other]
                } else {
                    after == state
                },
                None => after == state,
            }
        }),
{
    let n = state.slots.len() as int;
    let key = seq_num as int % n;
    assert(0 <= key < n);
    if state.slots[key] is Some {
        let packet = state.slots[key]->Some_0;
        assert(state.controller.knows(packet.seq_num));
        let ack = report(packet, delay, now);
        congestion::law_ack_frees_bytes_once(state.controller, packet.seq_num, ack, ack);
        if packet.acks.len() == 0 {
            assert(packet.acks.push(now) =~= seq![now]);
        }
    }
}

/// Every packet stands in the slot of its own number.
pub open spec fn in_place(state: SendState) -> bool {
    forall|slot: int|
        0 <= slot < state.slots.len() ==> match #[trigger] state.slots[slot] {
            Some(packet) => packet.seq_num as int % (state.slots.len() as int) == slot,
            None => true,
        }
}

/// The packet in a slot, or none, is no longer unacknowledged.
pub open spec fn settled_slot(slot: Option<SentPacketView>) -> bool {
    match slot {
        Some(packet) => packet.acks.len() > 0,
        None => true,
    }
}

/// Acknowledging what a slot holds leaves nothing unacknowledged there, and nothing new anywhere.
proof fn lemma_acked_slot(state: SendState, seq_num: u16, delay: Duration, now: Instant)
    requires
        state.slots.len() > 0,
        in_place(state),
    ensures
        ({
            let after = state.acked_slot(seq_num, delay, now);
            let n = state.slots.len() as int;
            &&& in_place(after)
            &&& after.next == state.next
            &&& after.window == state.window
            &&& after.slots.len() == n
            &&& settled_slot(after.slots[seq_num as int % n])
            &&& forall|slot: int|
                0 <= slot < n && slot != seq_num as int % n ==> #[trigger] after.slots[slot]
                    == state.slots[slot]
        }),
{
    let n = state.slots.len() as int;
    assert(0 <= seq_num as int % n < n);
    let after = state.acked_slot(seq_num, delay, now);
    match state.slots[seq_num as int % n] {
        Some(packet) => {
            assert(packet.seq_num as int % n == seq_num as int % n);
        },
        None => {},
    }
    assert forall|slot: int| 0 <= slot < after.slots.len() implies match #[trigger]
    after.slots[slot] {
        Some(packet) => packet.seq_num as int % (after.slots.len() as int) == slot,
        None => true,
    } by {
        assert(match state.slots[slot] {
            Some(packet) => packet.seq_num as int % n == slot,
            None => true,
        });
    }
}

/// Acknowledging what the slots of the first numbers hold leaves nothing unacknowledged there.
proof fn lemma_walk(state: SendState, n: nat, delay: Duration, now: Instant)
    requires
        state.slots.len() > 0,
        in_place(state),
    ensures
        ({
            let after = state.acked_earliest(n, delay, now);
            let size = state.slots.len() as int;
            &&& in_place(after)
            &&& after.next == state.next
            &&& after.window == state.window
            &&& after.slots.len() == size
            &&& forall|i: int|
                0 <= i < n ==> settled_slot(after.slots[#[trigger] state.number(i) as int % size])
            &&& forall|slot: int|
                0 <= slot < size && (forall|i: int|
                    0 <= i < n ==> #[trigger] state.number(i) as int % size != slot) ==> #[trigger]
                after.slots[slot] == state.slots[slot]
        }),
    decreases n,
{
    if n > 0 {
        let size = state.slots.len() as int;
        lemma_walk(state, (n - 1) as nat, delay, now);
        let before = state.acked_earliest((n - 1) as nat, delay, now);
        let after = state.acked_earliest(n, delay, now);
        lemma_acked_slot(before, state.number(n - 1), delay, now);
        assert forall|i: int| 0 <= i < n implies settled_slot(
            after.slots[#[trigger] state.number(i) as int % size],
        ) by {
            let key = state.number(i) as int % size;
            assert(0 <= key < size);
            if i < n - 1 {
                assert(settled_slot(before.slots[key]));
            }
        }
        assert forall|slot: int|
            0 <= slot < size && (forall|i: int|
                0 <= i < n ==> #[trigger] state.number(i) as int % size != slot) implies #[trigger]
        after.slots[slot] == state.slots[slot] by {
            assert(state.number(n - 1) as int % size != slot);
            assert(before.slots[slot] == state.slots[slot]);
        }
    }
}

/// Acknowledging what precedes a number leaves no packet unacknowledged in the slots of the numbers
/// from the start of the flight to that number, also where such a slot holds a packet that is not
/// in flight. The slots of other numbers keep what they hold, and the flight does not move.
pub proof fn law_prior_acks_in_any_state(
    state: SendState,
    seq_num: u16,
    delay: Duration,
    now: Instant,
    i: int,
)
    requires
        state.slots.len() > 0,
        in_place(state),
        distance(state.start(), seq_num) <= state.window || distance(state.start(), seq_num)
            < 0xfffe && seq_num > state.start(),
        0 <= i < distance(state.start(), seq_num),
    ensures
        ({
            let after = state.acked_before(seq_num, delay, now);
            let size = state.slots.len() as int;
            &&& settled_slot(after.slots[nth_after(state.start(), i) as int % size])
            &&& after.next == state.next
            &&& after.window == state.window
            &&& forall|slot: int|
                0 <= slot < size && (forall|k: int|
                    0 <= k < distance(state.start(), seq_num) ==> #[trigger] state.number(k) as int
                        % size != slot) ==> #[trigger] after.slots[slot] == state.slots[slot]
        }),
{
    lemma_walk(state, distance(state.start(), seq_num) as nat, delay, now);
    assert(state.number(i) == nth_after(state.start(), i));
}

/// Whether the slot of the number at a place in flight holds an acknowledged packet.
pub open spec fn acked_there(state: SendState, i: int) -> bool {
    match state.slot(nth_after(state.start(), i)) {
        Some(packet) => packet.acks.len() > 0,
        None => false,
    }
}

/// The first place from one on with an acknowledged packet, after which one fewer is left.
proof fn lemma_next_acked_there(state: SendState, from: nat) -> (place: int)
    requires
        state.acked_from(from) > 0,
    ensures
        from <= place < state.window,
        acked_there(state, place),
        state.acked_from((place + 1) as nat) == state.acked_from(from) - 1,
    decreases state.window - from,
{
    assert(from < state.window);
    if acked_there(state, from as int) {
        from as int
    } else {
        lemma_next_acked_there(state, from + 1)
    }
}

/// Counting from an earlier place on does not count fewer.
proof fn lemma_acked_from_monotone(state: SendState, i: nat, j: nat)
    requires
        i <= j <= state.window,
    ensures
        state.acked_from(j) <= state.acked_from(i),
    decreases j - i,
{
    if i < j {
        lemma_acked_from_monotone(state, i + 1, j);
    }
}

/// Whatever the state, a packet in the slot of a number in flight is lost if and only if it is
/// unacknowledged and the slots of three later numbers in flight hold acknowledged packets.
pub proof fn law_lost_in_any_state(state: SendState, i: int, seq_num: u16)
    requires
        0 <= i < state.window,
    ensures
        state.lost(i, seq_num) <==> match state.slot(nth_after(state.start(), i)) {
            Some(packet) => {
                &&& packet.seq_num == seq_num
                &&& packet.acks.len() == 0
                &&& exists|a: int, b: int, c: int|
                    i < a < b < c < state.window && #[trigger] acked_there(state, a) && #[trigger]
                    acked_there(state, b) && #[trigger] acked_there(state, c)
            },
            None => false,
        },
{
    if state.lost(i, seq_num) {
        let a = lemma_next_acked_there(state, (i + 1) as nat);
        let b = lemma_next_acked_there(state, (a + 1) as nat);
        let c = lemma_next_acked_there(state, (b + 1) as nat);
        assert(acked_there(state, a) && acked_there(state, b) && acked_there(state, c));
    }
    if exists|a: int, b: int, c: int|
        i < a < b < c < state.window && #[trigger] acked_there(state, a) && #[trigger] acked_there(
            state,
            b,
        ) && #[trigger] acked_there(state, c) {
        let (a, b, c) = choose|a: int, b: int, c: int|
            i < a < b < c < state.window && #[trigger] acked_there(state, a) && #[trigger]
            acked_there(state, b) && #[trigger] acked_there(state, c);
        assert(state.number(a) == nth_after(state.start(), a));
        lemma_acked_from_monotone(state, (i + 1) as nat, a as nat);
        lemma_acked_from_monotone(state, (a + 1) as nat, b as nat);
        lemma_acked_from_monotone(state, (b + 1) as nat, c as nat);
        assert(state.acked_from(a as nat) == state.acked_from((a + 1) as nat) + 1);
        assert(state.acked_from(b as nat) == state.acked_from((b + 1) as nat) + 1);
        assert(state.acked_from(c as nat) == state.acked_from((c + 1) as nat) + 1);
    }
}

/// Whether a slot held an unacknowledged packet with a number, and does so no longer.
pub open spec fn let_go(before: SendState, after: SendState, slot: int, number: u16) -> bool {
    &&& 0 <= slot < before.slots.len()
    &&& match before.slots[slot] {
        Some(packet) => packet.acks.len() == 0 && packet.seq_num == number,
        None => false,
    }
    &&& settled_slot(after.slots[slot])
}

/// Whether the only difference between two states is that packets held before were acknowledged:
/// a wait that ended was for such a packet, bytes that were freed are those of such a packet, and
/// what is unacknowledged afterwards was so before.
pub open spec fn only_acknowledges(before: SendState, after: SendState) -> bool {
    &&& after.next == before.next
    &&& after.slots.len() == before.slots.len()
    &&& forall|slot: int|
        0 <= slot < before.slots.len() && !settled_slot(#[trigger] after.slots[slot])
            ==> after.slots[slot] == before.slots[slot]
    &&& forall|number: u16| #[trigger]
        after.waiting.contains_key(number) ==> before.waiting.contains_key(number)
            && after.waiting[number] == before.waiting[number]
    &&& forall|number: u16| #[trigger]
        before.waiting.contains_key(number) && !after.waiting.contains_key(number)
            ==> exists|slot: int| #[trigger] let_go(before, after, slot, number)
    &&& forall|number: u16| #[trigger]
        outstanding_of(after.controller.transmissions, number) != outstanding_of(
            before.controller.transmissions,
            number,
        ) ==> outstanding_of(after.controller.transmissions, number) == 0 && exists|slot: int|
            #[trigger] let_go(before, after, slot, number)
}

/// Acknowledging packets and then more packets only acknowledges packets.
proof fn lemma_only_acknowledges_both(before: SendState, middle: SendState, after: SendState)
    requires
        only_acknowledges(before, middle),
        only_acknowledges(middle, after),
    ensures
        only_acknowledges(before, after),
{
    assert forall|slot: int, number: u16| #[trigger]
        let_go(before, middle, slot, number) implies let_go(before, after, slot, number) by {
        assert(!settled_slot(after.slots[slot]) ==> after.slots[slot] == middle.slots[slot]);
    }
    assert forall|slot: int, number: u16| #[trigger]
        let_go(middle, after, slot, number) implies let_go(before, after, slot, number) by {
        assert(!settled_slot(middle.slots[slot]));
    }
    assert forall|number: u16| #[trigger]
        before.waiting.contains_key(number) && !after.waiting.contains_key(
            number,
        ) implies exists|slot: int| #[trigger] let_go(before, after, slot, number) by {
        if middle.waiting.contains_key(number) {
            let slot = choose|slot: int| #[trigger] let_go(middle, after, slot, number);
            assert(let_go(before, after, slot, number));
        } else {
            let slot = choose|slot: int| #[trigger] let_go(before, middle, slot, number);
            assert(let_go(before, after, slot, number));
        }
    }
    assert forall|number: u16| #[trigger]
        outstanding_of(after.controller.transmissions, number) != outstanding_of(
            before.controller.transmissions,
            number,
        ) implies outstanding_of(after.controller.transmissions, number) == 0 && exists|slot: int|
        #[trigger] let_go(before, after, slot, number) by {
        if outstanding_of(middle.controller.transmissions, number) != outstanding_of(
            before.controller.transmissions,
            number,
        ) {
            let slot = choose|slot: int| #[trigger] let_go(before, middle, slot, number);
            assert(let_go(before, after, slot, number));
        } else {
            let slot = choose|slot: int| #[trigger] let_go(middle, after, slot, number);
            assert(let_go(before, after, slot, number));
        }
    }
}

/// One acknowledgement only acknowledges.
proof fn lemma_one_only_acknowledges(
    state: SendState,
    seq_num: u16,
    delay: Duration,
    now: Instant,
)
    requires
        state.slots.len() > 0,
        state.all_known(),
    ensures
        only_acknowledges(state, state.acked(seq_num, delay, now)),
        state.acked(seq_num, delay, now).all_known(),
{
    let after = state.acked(seq_num, delay, now);
    let n = state.slots.len() as int;
    let key = seq_num as int % n;
    assert(0 <= key < n);
    lemma_acked_known(state, seq_num, delay, now);
    if after != state {
        let packet = state.slots[key]->Some_0;
        assert(state.controller.knows(packet.seq_num));
        let ack = report(packet, delay, now);
        congestion::law_ack_frees_bytes_once(state.controller, packet.seq_num, ack, ack);
        assert(let_go(state, after, key, packet.seq_num));
    }
}

/// The prior acknowledgements only acknowledge.
proof fn lemma_walk_only_acknowledges(state: SendState, n: nat, delay: Duration, now: Instant)
    requires
        state.slots.len() > 0,
        state.all_known(),
    ensures
        only_acknowledges(state, state.acked_earliest(n, delay, now)),
        state.acked_earliest(n, delay, now).all_known(),
    decreases n,
{
    if n > 0 {
        lemma_walk_only_acknowledges(state, (n - 1) as nat, delay, now);
        let middle = state.acked_earliest((n - 1) as nat, delay, now);
        if middle.slot(state.number(n - 1)) is Some {
            let seq_num = middle.slot(state.number(n - 1))->Some_0.seq_num;
            lemma_one_only_acknowledges(middle, seq_num, delay, now);
            lemma_only_acknowledges_both(state, middle, middle.acked(seq_num, delay, now));
        }
    }
}

/// Selective bits only acknowledge.
proof fn lemma_bits_only_acknowledge(
    state: SendState,
    seq_num: u16,
    bits: Seq<bool>,
    delay: Duration,
    now: Instant,
)
    requires
        state.slots.len() > 0,
        state.all_known(),
    ensures
        only_acknowledges(state, state.acked_by_bits(seq_num, bits, delay, now)),
        state.acked_by_bits(seq_num, bits, delay, now).all_known(),
    decreases bits.len(),
{
    if bits.len() > 0 && state.acceptable(seq_num) {
        let middle = state.acked_by_bit(seq_num, bits.first(), delay, now);
        lemma_one_only_acknowledges(state, seq_num, delay, now);
        assert(only_acknowledges(state, middle));
        lemma_bits_only_acknowledge(
            middle,
            nth_after(seq_num, 1),
            bits.drop_first(),
            delay,
            now,
        );
        lemma_only_acknowledges_both(
            state,
            middle,
            state.acked_by_bits(seq_num, bits, delay, now),
        );
    }
}

/// Whatever the state, an acknowledgement ends only waits for packets that were held and
/// unacknowledged, and are no longer; it frees only bytes of such packets; and what is
/// unacknowledged afterwards is as it was before.
pub proof fn law_ack_only_acknowledges_what_is_held(
    state: SendState,
    ack_num: u16,
    selective_ack: Option<Seq<bool>>,
    delay: Duration,
    now: Instant,
)
    requires
        state.slots.len() > 0,
        state.all_known(),
        state.window > 0,
    ensures
        only_acknowledges(state, state.acknowledged(ack_num, selective_ack, delay, now)),
{
    let direct = state.acked(ack_num, delay, now);
    lemma_one_only_acknowledges(state, ack_num, delay, now);
    let next = nth_after(ack_num, 2);
    let selected = match selective_ack {
        Some(bits) => direct.acked_by_bits(next, bits, delay, now),
        None => direct,
    };
    if selective_ack is Some {
        lemma_bits_only_acknowledge(direct, next, selective_ack->Some_0, delay, now);
        lemma_only_acknowledges_both(state, direct, selected);
    }
    let all = selected.acked_before(ack_num, delay, now);
    lemma_walk_only_acknowledges(
        selected,
        reach(selected.start(), selected.window as int, ack_num),
        delay,
        now,
    );
    lemma_only_acknowledges_both(state, selected, all);
    let after = all.settle();
    law_settle_empties_passed_slots(all);
    assert forall|slot: int|
        0 <= slot < all.slots.len() && !settled_slot(#[trigger] after.slots[slot]) implies
        after.slots[slot] == all.slots[slot] by {
        if exists|i: int|
            0 <= i < all.window - after.window && #[trigger] all.number(i) as int
                % (all.slots.len() as int) == slot {
            let i = choose|i: int|
                0 <= i < all.window - after.window && #[trigger] all.number(i) as int
                    % (all.slots.len() as int) == slot;
            assert(after.slot(all.number(i)) is None);
        }
    }
    assert(only_acknowledges(all, after));
    lemma_only_acknowledges_both(state, all, after);
}

} // verus!
