//! Ranges of sequence numbers, which wrap around after the largest one.

use vstd::prelude::*;

verus! {

/// The sequence numbers met on the way up from `start` to `end`, both included.
#[derive(Clone, Copy, Debug, PartialEq, Eq, Structural)]
pub struct CircularRangeInclusive {
    start: u16,
    end: u16,
}

/// The number of steps up from `from` to `to`, modulo 2^16.
pub open spec fn distance(from: u16, to: u16) -> int {
    if to >= from {
        to - from
    } else {
        to - from + 0x1_0000
    }
}

/// The sequence number `steps` after `from`, at most one turn away.
pub open spec fn nth_after(from: u16, steps: int) -> u16
    recommends
        -0x1_0000 <= steps <= 0x1_0000,
{
    let number = from + steps;
    if number < 0 {
        (number + 0x1_0000) as u16
    } else if number >= 0x1_0000 {
        (number - 0x1_0000) as u16
    } else {
        number as u16
    }
}

impl CircularRangeInclusive {
    /// The first number of the range.
    pub closed spec fn first(self) -> u16 {
        self.start
    }

    /// The last number of the range.
    pub closed spec fn last(self) -> u16 {
        self.end
    }

    /// Whether stepping up from the first number meets `item` before the last is passed.
    pub open spec fn holds(self, item: u16) -> bool {
        distance(self.first(), item) <= distance(self.first(), self.last())
    }

    /// The range from `start` up to `end`.
    pub fn new(start: u16, end: u16) -> (range: Self)
        ensures
            range.first() == start,
            range.last() == end,
    {
        CircularRangeInclusive { start, end }
    }

    /// Whether `item` lies in the range.
    pub fn contains(&self, item: u16) -> (contained: bool)
        ensures
            contained == self.holds(item),
    {
        if self.end >= self.start {
            item >= self.start && item <= self.end
        } else {
            item >= self.start || item <= self.end
        }
    }
}

/// Stepping up by the distance leads from one number to the other, and the numbers wrap around.
pub proof fn law_distance(from: u16, to: u16)
    ensures
        0 <= distance(from, to) <= u16::MAX,
        (from + distance(from, to)) % 0x1_0000 == to,
        nth_after(from, distance(from, to)) == to,
        nth_after(from, 1) == from.wrapping_add(1),
        nth_after(from, -1) == from.wrapping_sub(1),
{
}

/// A range holds its ends and what lies between them, on the side of the circle that leads up from
/// the first to the last.
pub proof fn law_range_holds(range: CircularRangeInclusive, item: u16)
    ensures
        range.first() <= range.last() ==> (range.holds(item) <==> range.first() <= item
            <= range.last()),
        range.first() > range.last() ==> (range.holds(item) <==> item >= range.first() || item
            <= range.last()),
{
}

} // verus!
