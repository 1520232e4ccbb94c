//! A growable circular buffer indexed by sequence number, and wrap-around comparison.

use vstd::arithmetic::div_mod::{
    lemma_fundamental_div_mod, lemma_mod_equivalence, lemma_mod_multiples_basic,
    lemma_mod_multiples_vanish, lemma_small_mod,
};
use vstd::arithmetic::power2::{
    is_pow2, is_pow2_equiv, lemma_pow2_adds, lemma_pow2_pos, lemma_pow2_strictly_increases, pow2,
};
use vstd::bits::{low_bits_mask, lemma_usize_low_bits_mask_is_mod};
use vstd::prelude::*;

verus! {

/// A circular buffer whose size is a power of two and doubles on demand.
///
/// Any number addresses a slot: `i` stands for slot `i` modulo the size.
#[derive(Clone, Debug)]
pub struct SizableCircularBuffer<T> {
    /// One less than the size, which is a power of two.
    mask: usize,
    /// The slots.
    elements: Vec<Option<T>>,
}

/// The size reached from `size` by doubling until it exceeds `index`.
pub open spec fn grown_size(size: nat, index: nat) -> nat
    decreases
            (if size > index {
                0int
            } else {
                index + 1 - size
            }),
{
    if size == 0 || size > index {
        size
    } else {
        grown_size(2 * size, index)
    }
}

/// The slots after growing for the number `item` at place `index` of the list.
///
/// Nothing changes while `index` is less than the size. Otherwise the size doubles until it
/// exceeds `index`, and each element keeps its number, counted from `item - index` on.
pub open spec fn grown<T>(slots: Seq<Option<T>>, item: int, index: int) -> Seq<Option<T>> {
    let size = slots.len() as int;
    let base = item - index;
    if index < size {
        slots
    } else {
        let new_size = grown_size(slots.len(), index as nat);
        Seq::new(
            new_size,
            |slot: int|
                {
                    let i = (slot - base) % (new_size as int);
                    if i < size {
                        slots[(base + i) % size]
                    } else {
                        None
                    }
                },
        )
    }
}

/// The exponent of a power of two.
pub(crate) proof fn lemma_exponent(n: nat) -> (k: nat)
    requires
        is_pow2(n as int),
    ensures
        n == pow2(k),
        n > 0,
{
    is_pow2_equiv(n as int);
    let k = choose|i: nat| vstd::arithmetic::power::pow(2, i) == n;
    lemma_pow2_pos(k);
    k
}

/// Masking by one less than a power of two is taking the remainder.
proof fn lemma_mask(i: usize, mask: usize)
    requires
        mask < usize::MAX,
        is_pow2(mask + 1),
    ensures
        (i & mask) == i as int % (mask + 1),
{
    let k = lemma_exponent((mask + 1) as nat);
    if k >= usize::BITS {
        lemma_two_to_word();
        if k > usize::BITS {
            lemma_pow2_strictly_increases(usize::BITS as nat, k);
        }
    }
    assert(low_bits_mask(k) == mask);
    lemma_usize_low_bits_mask_is_mod(i, k);
}

/// The number of values of a machine word.
proof fn lemma_two_to_word()
    ensures
        pow2(usize::BITS as nat) == usize::MAX + 1,
{
    vstd::arithmetic::power2::lemma2_to64();
    vstd::layout::unsigned_int_max_values();
}

/// A power of two that fits in a machine word divides the number of values of a word.
proof fn lemma_divides_word(n: nat)
    requires
        is_pow2(n as int),
        n <= usize::MAX,
    ensures
        (usize::MAX + 1) % (n as int) == 0,
{
    let k = lemma_exponent(n);
    let w = usize::BITS as nat;
    lemma_two_to_word();
    if k >= w {
        if k > w {
            lemma_pow2_strictly_increases(w, k);
        }
    }
    lemma_pow2_adds((w - k) as nat, k);
    lemma_mod_multiples_basic(pow2((w - k) as nat) as int, n as int);
}


/// A power of two divides every larger power of two.
pub(crate) proof fn lemma_power_divides(n: nat, m: nat)
    requires
        is_pow2(n as int),
        is_pow2(m as int),
        n <= m,
    ensures
        (m as int) % (n as int) == 0,
{
    let k = lemma_exponent(n);
    let l = lemma_exponent(m);
    if k > l {
        lemma_pow2_strictly_increases(l, k);
    }
    lemma_pow2_adds((l - k) as nat, k);
    lemma_mod_multiples_basic(pow2((l - k) as nat) as int, n as int);
}

/// Two offsets less than `n` apart that address the same slot are equal.
pub(crate) proof fn lemma_slot_injective(base: int, i: int, j: int, n: int)
    requires
        n > 0,
        0 <= i < n,
        0 <= j < n,
        (base + i) % n == (base + j) % n,
    ensures
        i == j,
{
    lemma_mod_equivalence(base + i, base + j, n);
    let d = i - j;
    assert(d % n == 0);
    if d >= 0 {
        lemma_small_mod(d as nat, n as nat);
    } else {
        lemma_mod_multiples_vanish(1, d, n);
        lemma_small_mod((d + n) as nat, n as nat);
    }
}

/// The offset from `base` that addresses a slot.
pub(crate) proof fn lemma_slot_offset(base: int, i: int, n: int)
    requires
        0 <= i < n,
    ensures
        ((base + i) % n - base) % n == i,
        (base + (i - base) % n) % n == i,
        0 <= (i - base) % n < n,
{
    lemma_fundamental_div_mod(base + i, n);
    let q = (base + i) / n;
    assert((base + i) % n - base == i + n * (-q)) by (nonlinear_arith)
        requires
            base + i == n * q + (base + i) % n,
    ;
    lemma_mod_multiples_vanish(-q, i, n);
    lemma_fundamental_div_mod(i - base, n);
    let r = (i - base) / n;
    assert(base + (i - base) % n == i + n * (-r)) by (nonlinear_arith)
        requires
            i - base == n * r + (i - base) % n,
    ;
    lemma_mod_multiples_vanish(-r, i, n);
    lemma_small_mod(i as nat, n as nat);
}

/// Word arithmetic that wraps around addresses the same slot as exact arithmetic.
proof fn lemma_wrapped_slot(item: usize, index: usize, i: usize, n: nat)
    requires
        is_pow2(n as int),
        n <= usize::MAX,
    ensures
        item.wrapping_sub(index).wrapping_add(i) as int % (n as int) == (item - index + i) % (
        n as int),
{
    lemma_divides_word(n);
    let exponent = lemma_exponent(n);
    let word = usize::MAX + 1;
    let exact = item - index + i;
    let wrapped = item.wrapping_sub(index).wrapping_add(i) as int;
    lemma_fundamental_div_mod(word, n as int);
    let c = word / (n as int);
    if wrapped == exact + word {
        lemma_mod_multiples_vanish(c, exact, n as int);
    } else if wrapped == exact - word {
        lemma_mod_multiples_vanish(-c, exact, n as int);
        assert((n as int) * (-c) == -((n as int) * c)) by (nonlinear_arith);
    }
}

/// Doubling keeps a power of two one.
proof fn lemma_double(n: nat)
    requires
        is_pow2(n as int),
    ensures
        is_pow2((2 * n) as int),
{
    reveal(is_pow2);
}

impl<T> View for SizableCircularBuffer<T> {
    type V = Seq<Option<T>>;

    /// The slots, in order.
    closed spec fn view(&self) -> Seq<Option<T>> {
        self.elements@
    }
}

impl<T> SizableCircularBuffer<T> {
    /// The size is a power of two.
    pub open spec fn wf(self) -> bool {
        &&& self@.len() > 0
        &&& is_pow2(self@.len() as int)
        &&& self.masks_size()
    }

    /// The mask is one less than the size.
    pub closed spec fn masks_size(self) -> bool {
        &&& self.mask < usize::MAX
        &&& self.elements@.len() == self.mask + 1
    }

    /// What the slot that `i` addresses holds.
    pub open spec fn at(self, i: int) -> Option<T> {
        self@[i % (self@.len() as int)]
    }

    /// Creates a buffer of 16 empty slots.
    pub fn new() -> (buffer: Self)
        ensures
            buffer.wf(),
            buffer@ == Seq::new(16, |i: int| None::<T>),
    {
        let elements = Self::empty_slots(16);
        proof {
            reveal_with_fuel(is_pow2, 6);
        }
        SizableCircularBuffer { mask: 15, elements }
    }

    /// A vector of `size` empty slots.
    fn empty_slots(size: usize) -> (slots: Vec<Option<T>>)
        ensures
            slots@ == Seq::new(size as nat, |i: int| None::<T>),
    {
        let mut slots: Vec<Option<T>> = Vec::with_capacity(size);
        while slots.len() < size
            invariant
                slots@ == Seq::new(slots@.len(), |i: int| None::<T>),
                slots@.len() <= size,
            decreases size - slots@.len(),
        {
            slots.push(None);
        }
        slots
    }

    /// The element in the slot that `i` addresses.
    pub fn get(&self, i: usize) -> (element: Option<&T>)
        requires
            self.wf(),
        ensures
            element == match self.at(i as int) {
                Some(value) => Some(&value),
                None => None,
            },
    {
        proof {
            lemma_mask(i, self.mask);
        }
        self.elements[i & self.mask].as_ref()
    }

    /// The element in the slot that `i` addresses, for change in place.
    pub fn get_mut(&mut self, i: usize) -> (element: Option<&mut T>)
        requires
            old(self).wf(),
        ensures
            final(self).wf(),
            match element {
                Some(value) => {
                    &&& old(self).at(i as int) == Some(*value)
                    &&& final(self)@ == old(self)@.update(
                        i as int % old(self)@.len() as int,
                        Some(*final(value)),
                    )
                },
                None => old(self).at(i as int) is None && final(self)@ == old(self)@,
            },
    {
        proof {
            lemma_mask(i, self.mask);
        }
        let slot: usize = i & self.mask;
        self.elements[slot].as_mut()
    }

    /// Stores `data` in the slot that `index` addresses.
    pub fn put(&mut self, index: usize, data: T)
        requires
            old(self).wf(),
        ensures
            final(self).wf(),
            final(self)@ == old(self)@.update(index as int % old(self)@.len() as int, Some(data)),
    {
        proof {
            lemma_mask(index, self.mask);
        }
        let slot: usize = index & self.mask;
        self.elements[slot] = Some(data);
    }

    /// Empties the slot that `index` addresses.
    pub fn delete(&mut self, index: usize)
        requires
            old(self).wf(),
        ensures
            final(self).wf(),
            final(self)@ == old(self)@.update(index as int % old(self)@.len() as int, None),
    {
        proof {
            lemma_mask(index, self.mask);
        }
        let slot: usize = index & self.mask;
        self.elements[slot] = None;
    }

    /// Moves the elements to a buffer of the size reached by doubling until it exceeds `index`.
    ///
    /// `item` is the number to make room for, and `index` its place in the list: the elements are
    /// taken to be numbered from `item - index` on, and each keeps its number.
    fn grow(&mut self, item: usize, index: usize)
        requires
            old(self).wf(),
            old(self)@.len() <= index <= usize::MAX / 2,
        ensures
            final(self).wf(),
            final(self)@.len() == grown_size(old(self)@.len(), index as nat),
            forall|i: int|
                #![trigger final(self).at(item - index + i)]
                0 <= i < final(self)@.len() ==> final(self).at(item - index + i) == (if i < old(
                    self,
                )@.len() {
                    old(self).at(item - index + i)
                } else {
                    None
                }),
    {
        let old_size: usize = self.len();
        let mut size: usize = old_size;
        while size <= index
            invariant
                old_size > 0,
                old_size <= size,
                is_pow2(size as int),
                index <= usize::MAX / 2,
                size <= index || size <= usize::MAX - 1,
                grown_size(size as nat, index as nat) == grown_size(old_size as nat, index as nat),
            decreases usize::MAX - size,
        {
            proof {
                lemma_double(size as nat);
            }
            size = 2 * size;
        }
        assert(size < usize::MAX) by {
            if size == usize::MAX {
                reveal(is_pow2);
            }
        }
        let mut slots = Self::empty_slots(size);
        let ghost base = item - index;
        let ghost before = self.elements@;
        let ghost n = old_size as int;
        let ghost m = size as int;
        let mask: usize = size - 1;
        let mut i: usize = 0;
        while i < old_size
            invariant
                0 <= i <= old_size,
                0 < n <= m,
                n == old_size,
                m == size,
                mask == m - 1,
                m < usize::MAX,
                base == item - index,
                is_pow2(n),
                is_pow2(m),
                self.mask == n - 1,
                before.len() == n,
                self.elements@.len() == n,
                slots@.len() == m,
                forall|j: int|
                    #![trigger self.elements@[(base + j) % n]]
                    i <= j < n ==> self.elements@[(base + j) % n] == before[(base + j) % n],
                forall|j: int|
                    #![trigger slots@[(base + j) % m]]
                    0 <= j < m ==> slots@[(base + j) % m] == (if j < i {
                        before[(base + j) % n]
                    } else {
                        None
                    }),
            decreases old_size - i,
        {
            let position: usize = item.wrapping_sub(index).wrapping_add(i);
            proof {
                lemma_wrapped_slot(item, index, i, n as nat);
                lemma_wrapped_slot(item, index, i, m as nat);
                lemma_mask(position, self.mask);
                lemma_mask(position, mask);
            }
            let from: usize = position & self.mask;
            let to: usize = position & mask;
            let ghost elements = self.elements@;
            let ghost moved = slots@;
            assert(elements[(base + i) % n] == before[(base + i) % n]);
            let element = self.elements[from].take();
            slots[to] = element;
            proof {
                assert forall|j: int|
                    #![trigger self.elements@[(base + j) % n]]
                    i < j < n implies self.elements@[(base + j) % n] == before[(base + j) % n] by {
                    if (base + j) % n == (base + i) % n {
                        lemma_slot_injective(base, i as int, j, n);
                    }
                    assert(elements[(base + j) % n] == before[(base + j) % n]);
                }
                assert forall|j: int|
                    #![trigger slots@[(base + j) % m]]
                    0 <= j < m implies slots@[(base + j) % m] == (if j < i + 1 {
                    before[(base + j) % n]
                } else {
                    None
                }) by {
                    assert(0 <= (base + j) % m < m);
                    assert(moved[(base + j) % m] == (if j < i {
                        before[(base + j) % n]
                    } else {
                        None
                    }));
                    if (base + j) % m == (base + i) % m {
                        lemma_slot_injective(base, i as int, j, m);
                    }
                }
            }
            i = i + 1;
        }
        self.mask = mask;
        self.elements = slots;
        proof {
            assert forall|i: int|
                #![trigger self.at(item - index + i)]
                0 <= i < self@.len() implies self.at(item - index + i) == (if i < old(self)@.len() {
                old(self).at(item - index + i)
            } else {
                None
            }) by {
                assert(slots@[(base + i) % m] == (if i < n {
                    before[(base + i) % n]
                } else {
                    None
                }));
            }
        }
    }

    /// Makes room for the number `item` at place `index` of the list of numbered elements.
    ///
    /// Nothing changes while `index` is less than the size. Otherwise the size doubles until it
    /// exceeds `index`, and each element keeps its number, counted from `item - index` on.
    pub fn ensure_size(&mut self, item: usize, index: usize)
        requires
            old(self).wf(),
            index <= usize::MAX / 2,
        ensures
            final(self).wf(),
            final(self)@ == grown(old(self)@, item as int, index as int),
            index < old(self)@.len() ==> final(self)@ == old(self)@,
            final(self)@.len() == grown_size(old(self)@.len(), index as nat),
            index >= old(self)@.len() ==> forall|i: int|
                #![trigger final(self).at(item - index + i)]
                0 <= i < final(self)@.len() ==> final(self).at(item - index + i) == (if i < old(
                    self,
                )@.len() {
                    old(self).at(item - index + i)
                } else {
                    None
                }),
    {
        if index > self.mask {
            self.grow(item, index);
            proof {
                let base = item - index;
                let m = self@.len() as int;
                assert forall|slot: int| 0 <= slot < m implies #[trigger] self@[slot] == grown(
                    old(self)@,
                    item as int,
                    index as int,
                )[slot] by {
                    lemma_slot_offset(base, slot, m);
                    let i = (slot - base) % m;
                    assert(self.at(item - index + i) == self@[slot]);
                }
                assert(self@ =~= grown(old(self)@, item as int, index as int));
            }
        }
    }

    /// The number of slots.
    pub fn len(&self) -> (size: usize)
        requires
            self.wf(),
        ensures
            size == self@.len(),
    {
        self.mask + 1
    }
}

/// Whether stepping down from `lhs` reaches `rhs` in fewer steps than stepping up does, modulo 2^16.
pub open spec fn wrapped_less(lhs: u16, rhs: u16) -> bool {
    (lhs - rhs) % 0x1_0000 < (rhs - lhs) % 0x1_0000
}

/// Whether stepping down from `lhs` reaches `rhs` in fewer steps than stepping up does, modulo 2^16.
pub fn wrap_compare_less(lhs: u16, rhs: u16) -> (less: bool)
    ensures
        less == wrapped_less(lhs, rhs),
{
    let dist_down: u16 = lhs.wrapping_sub(rhs);
    let dist_up: u16 = rhs.wrapping_sub(lhs);
    dist_down < dist_up
}

/// What is put under a number is found under it, and under every other number that addresses the
/// same slot; the other slots keep what they held.
pub proof fn law_put_then_get<T>(
    before: SizableCircularBuffer<T>,
    after: SizableCircularBuffer<T>,
    index: int,
    data: T,
    other: int,
)
    requires
        before.wf(),
        after@ == before@.update(index % before@.len() as int, Some(data)),
    ensures
        after.at(index) == Some(data),
        after.at(other) == if other % before@.len() as int == index % before@.len() as int {
            Some(data)
        } else {
            before.at(other)
        },
{
    let exponent = lemma_exponent(before@.len());
}

/// A deleted number is not found; the other slots keep what they held.
pub proof fn law_delete_then_get<T>(
    before: SizableCircularBuffer<T>,
    after: SizableCircularBuffer<T>,
    index: int,
    other: int,
)
    requires
        before.wf(),
        after@ == before@.update(index % before@.len() as int, None),
    ensures
        after.at(index) is None,
        after.at(other) == if other % before@.len() as int == index % before@.len() as int {
            None
        } else {
            before.at(other)
        },
{
    let exponent = lemma_exponent(before@.len());
}

/// The size that doubling reaches exceeds the index and is at most twice the index, unless the
/// size needed no doubling; it is again a power of two and no smaller than before.
pub proof fn law_grown_size(size: nat, index: nat)
    requires
        is_pow2(size as int),
    ensures
        grown_size(size, index) > index,
        grown_size(size, index) >= size,
        size > index ==> grown_size(size, index) == size,
        size <= index ==> grown_size(size, index) <= 2 * index,
        is_pow2(grown_size(size, index) as int),
    decreases
            (if size > index {
                0int
            } else {
                index + 1 - size
            }),
{
    let exponent = lemma_exponent(size);
    if size <= index {
        lemma_double(size);
        law_grown_size(2 * size, index);
    }
}

/// The comparison is irreflexive and asymmetric, decides every pair of distinct numbers that are
/// not exactly half the circle apart, and does not change when both numbers move by the same step.
pub proof fn law_wrap_compare_less(lhs: u16, rhs: u16, step: u16)
    ensures
        !wrapped_less(lhs, lhs),
        !(wrapped_less(lhs, rhs) && wrapped_less(rhs, lhs)),
        lhs != rhs && (lhs - rhs) % 0x1_0000 != 0x8000 ==> wrapped_less(lhs, rhs) || wrapped_less(
            rhs,
            lhs,
        ),
        wrapped_less(lhs.wrapping_add(step), rhs.wrapping_add(step)) == wrapped_less(lhs, rhs),
{
}

/// A number compares as less than exactly those that lie more than half a turn up from it.
pub proof fn law_wrapped_less_is_beyond_half_a_turn(lhs: u16, steps: u16)
    ensures
        wrapped_less(lhs, lhs.wrapping_add(steps)) <==> steps > 0x8000,
{
}

} // verus!
