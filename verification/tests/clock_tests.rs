use rtsched::clock::{deadline_reached, elapsed, tick_add};

#[test]
fn elapsed_simple() {
    assert_eq!(elapsed(100, 60), 40);
    assert_eq!(elapsed(5, 5), 0);
}

#[test]
fn elapsed_across_wraparound() {
    // Captured before the wrap and after it: 32 cycles passed, not a huge
    // garbage delta.
    assert_eq!(elapsed(0x0000_0010, 0xFFFF_FFF0), 0x20);
}

#[test]
fn elapsed_full_range() {
    assert_eq!(elapsed(0, 1), 0xFFFF_FFFF);
    assert_eq!(elapsed(0xFFFF_FFFF, 0), 0xFFFF_FFFF);
}

#[test]
fn deadline_reached_now_and_past() {
    assert!(deadline_reached(1000, 1000));
    assert!(deadline_reached(1000, 999));
    assert!(!deadline_reached(1000, 1001));
}

#[test]
fn deadline_reached_across_wraparound() {
    // The deadline was just before the wrap; "now" is just after it.
    assert!(deadline_reached(0x0000_0010, 0xFFFF_FFF0));
    // The other way around the deadline still lies in the future.
    assert!(!deadline_reached(0xFFFF_FFF0, 0x0000_0010));
}

#[test]
fn deadline_reached_half_range_boundary() {
    assert!(deadline_reached(0x8000_0000, 1));
    assert!(!deadline_reached(0x8000_0000, 0));
}

#[test]
fn tick_add_wraps() {
    assert_eq!(tick_add(0xFFFF_FFFF, 1), 0);
    assert_eq!(tick_add(0xFFFF_FFF0, 0x20), 0x10);
    assert_eq!(tick_add(7, 5), 12);
}
