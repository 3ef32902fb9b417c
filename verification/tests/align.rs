use rikualloc::align::{align_down, align_offset, align_up, checked_align_up, power_of_two};

#[test]
fn align_up_rounds_to_next_multiple() {
    assert_eq!(align_up(13, 8), 16);
    assert_eq!(align_up(17, 16), 32);
    assert_eq!(align_up(4097, 4096), 8192);
}

#[test]
fn align_up_keeps_multiples() {
    assert_eq!(align_up(16, 8), 16);
    assert_eq!(align_up(0, 4096), 0);
    assert_eq!(align_up(7, 1), 7);
}

#[test]
fn align_down_rounds_to_previous_multiple() {
    assert_eq!(align_down(13, 8), 8);
    assert_eq!(align_down(16, 8), 16);
    assert_eq!(align_down(4103, 8), 4096);
    assert_eq!(align_down(7, 8), 0);
}

#[test]
fn align_offset_is_distance_to_next_multiple() {
    assert_eq!(align_offset(13, 8), 3);
    assert_eq!(align_offset(16, 8), 0);
    assert_eq!(align_offset(1, 4096), 4095);
    assert_eq!(align_offset(usize::MAX, 2), 1);
    assert_eq!(align_offset(12345, 1), 0);
}

#[test]
fn checked_align_up_reports_overflow() {
    assert_eq!(checked_align_up(13, 8), Some(16));
    assert_eq!(checked_align_up(usize::MAX - 7, 8), Some(usize::MAX - 7));
    assert_eq!(checked_align_up(usize::MAX - 6, 8), None);
    assert_eq!(checked_align_up(usize::MAX, 8), None);
    assert_eq!(checked_align_up(usize::MAX, 1), Some(usize::MAX));
}

#[test]
fn power_of_two_tells_powers_apart() {
    assert!(!power_of_two(0));
    assert!(power_of_two(1));
    assert!(power_of_two(2));
    assert!(!power_of_two(3));
    assert!(!power_of_two(6));
    assert!(power_of_two(64));
    assert!(power_of_two(1 << (usize::BITS - 1)));
    assert!(!power_of_two(usize::MAX));
}
