use tcpm::util::{le, lt, segment_valid, seq_add};

#[test]
fn lt_orders_near_numbers() {
    assert!(lt(1, 2));
    assert!(!lt(2, 1));
    assert!(!lt(7, 7));
    assert!(lt(0, 0x7fff_ffff));
}

#[test]
fn lt_orders_across_the_wrap() {
    assert!(lt(0xffff_fff0, 0x10));
    assert!(!lt(0x10, 0xffff_fff0));
    assert!(lt(0xffff_ffff, 0));
    assert!(!lt(0, 0xffff_ffff));
}

#[test]
fn lt_at_half_the_circle() {
    // exactly half the circle apart: neither precedes the other
    assert!(!lt(0, 0x8000_0000));
    assert!(!lt(0x8000_0000, 0));
    // one step less than half: ordered
    assert!(lt(1, 0x8000_0000));
    assert!(!lt(0x8000_0000, 1));
}

#[test]
fn le_is_lt_or_equal() {
    assert!(le(5, 5));
    assert!(le(5, 6));
    assert!(!le(6, 5));
    assert!(le(0xffff_ffff, 0));
    assert!(le(0xffff_ffff, 0xffff_ffff));
    assert!(!le(0, 0x8000_0000));
}

#[test]
fn le_is_transitive_within_half_the_circle() {
    let (a, b, c) = (0xffff_ff00u32, 0xffff_fff0u32, 0x40u32);
    assert!(c.wrapping_sub(a) < 0x8000_0000);
    assert!(le(a, b) && le(b, c));
    assert!(le(a, c));
}

#[test]
fn le_chain_beyond_half_the_circle_does_not_close() {
    // each step is short, both together are more than half the circle
    let (a, b, c) = (0u32, 0x7000_0000u32, 0xe000_0000u32);
    assert!(le(a, b) && le(b, c));
    assert!(!le(a, c));
}

#[test]
fn segment_valid_is_a_half_open_window() {
    assert!(segment_valid(100, 100, 200));
    assert!(segment_valid(100, 199, 200));
    assert!(!segment_valid(100, 200, 200));
    assert!(!segment_valid(100, 99, 200));
}

#[test]
fn segment_valid_across_the_wrap() {
    assert!(segment_valid(0xffff_fff0, 0xffff_fff0, 0x10));
    assert!(segment_valid(0xffff_fff0, 0, 0x10));
    assert!(segment_valid(0xffff_fff0, 0xf, 0x10));
    assert!(!segment_valid(0xffff_fff0, 0x10, 0x10));
    assert!(!segment_valid(0xffff_fff0, 0xffff_ffef, 0x10));
}

#[test]
fn segment_valid_of_an_empty_window() {
    assert!(!segment_valid(100, 100, 100));
}

#[test]
fn seq_add_steps_forward() {
    assert_eq!(seq_add(100, 5), 105);
    assert_eq!(seq_add(0, 0), 0);
}

#[test]
fn seq_add_wraps() {
    assert_eq!(seq_add(0xffff_fff1, 32), 0x11);
    assert_eq!(seq_add(0xffff_ffff, 1), 0);
}
