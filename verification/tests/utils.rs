use utp_rs::seq::CircularRangeInclusive;
use utp_rs::time::{Duration, Instant};
use utp_rs::utils::{wrap_compare_less, SizableCircularBuffer};

#[test]
fn buffer_starts_empty() {
    let buffer: SizableCircularBuffer<u32> = SizableCircularBuffer::new();
    assert_eq!(buffer.len(), 16);
    for i in 0..40 {
        assert_eq!(buffer.get(i), None);
    }
}

#[test]
fn buffer_puts_gets_and_deletes_by_slot() {
    let mut buffer = SizableCircularBuffer::new();
    buffer.put(3, 'a');
    buffer.put(20, 'b');
    assert_eq!(buffer.get(3), Some(&'a'));
    assert_eq!(buffer.get(19), Some(&'a'));
    assert_eq!(buffer.get(4), Some(&'b'));
    *buffer.get_mut(36).unwrap() = 'c';
    assert_eq!(buffer.get(4), Some(&'c'));
    assert_eq!(buffer.get_mut(5), None);
    buffer.delete(19);
    assert_eq!(buffer.get(3), None);
    assert_eq!(buffer.get(4), Some(&'c'));
}

#[test]
fn buffer_grows_without_loss() {
    let mut buffer = SizableCircularBuffer::new();
    for i in 100..116 {
        buffer.put(i, i);
    }
    buffer.ensure_size(115, 15);
    assert_eq!(buffer.len(), 16);
    buffer.ensure_size(116, 16);
    assert_eq!(buffer.len(), 32);
    for i in 100..116 {
        assert_eq!(buffer.get(i), Some(&i));
    }
    for i in 116..132 {
        assert_eq!(buffer.get(i), None);
    }
    buffer.ensure_size(116, 100);
    assert_eq!(buffer.len(), 128);
}

#[test]
fn buffer_grows_around_zero() {
    let mut buffer = SizableCircularBuffer::new();
    // Numbered from ten before zero: the last ten of the word's values, then 0 to 5.
    for i in 0..16usize {
        buffer.put(i.wrapping_sub(10), i);
    }
    buffer.ensure_size(6, 16);
    assert_eq!(buffer.len(), 32);
    for i in 0..16usize {
        assert_eq!(buffer.get(i.wrapping_sub(10)), Some(&i));
    }
    assert_eq!(buffer.get(6), None);
}

#[test]
fn wrapped_comparison() {
    assert!(!wrap_compare_less(1, 1));
    assert!(wrap_compare_less(2, 1));
    assert!(!wrap_compare_less(1, 2));
    assert!(wrap_compare_less(0, 65_535));
    assert!(!wrap_compare_less(65_535, 0));
    assert!(!wrap_compare_less(0, 32_768));
    assert!(!wrap_compare_less(32_768, 0));
    assert!(wrap_compare_less(32_767, 0));
}

#[test]
fn circular_ranges() {
    let plain = CircularRangeInclusive::new(5, 8);
    assert!(plain.contains(5) && plain.contains(8));
    assert!(!plain.contains(4) && !plain.contains(9));
    let wrapped = CircularRangeInclusive::new(65_534, 1);
    for item in [65_534, 65_535, 0, 1] {
        assert!(wrapped.contains(item));
    }
    assert!(!wrapped.contains(2) && !wrapped.contains(65_533));
}

#[test]
fn durations_do_not_go_below_zero() {
    let earlier = Instant { nanos: 5 };
    let later = Instant { nanos: 9 };
    assert_eq!(later.duration_since(earlier), Duration { nanos: 4 });
    assert_eq!(earlier.duration_since(later), Duration { nanos: 0 });
    assert_eq!(Duration::from_millis(100), Duration { nanos: 100_000_000 });
}
