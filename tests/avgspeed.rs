use pcp::avgspeed::{get_speed, AvgSpeed, RollingAverage, UNMEASURABLE, WINDOW_SIZE};

#[test]
fn speed_in_nanoseconds() {
    assert_eq!(get_speed(1000, 1_000_000_000), 1000);
    assert_eq!(get_speed(10, 3), 3_333_333_333);
}

#[test]
fn speed_stays_in_nanoseconds_at_the_limit() {
    // 18_446_744_073 * 10^9 still fits in a u64
    assert_eq!(get_speed(18_446_744_073, 1500), 12_297_829_382_000_000);
}

#[test]
fn speed_falls_back_to_microseconds() {
    assert_eq!(get_speed(18_446_744_074, 2000), 9_223_372_037_000_000);
}

#[test]
fn speed_falls_back_to_milliseconds() {
    assert_eq!(get_speed(18_446_744_073_710, 3_000_000), 6_148_914_691_236_666);
}

#[test]
fn speed_falls_back_to_seconds() {
    assert_eq!(get_speed(18_446_744_073_709_556, 2_000_000_000), 9_223_372_036_854_778);
}

#[test]
fn speed_of_no_time_is_unmeasurable() {
    assert_eq!(get_speed(5, 0), UNMEASURABLE);
    assert_eq!(get_speed(0, 0), u64::MAX);
    // too many bytes for any unit finer than a second, and under a second
    assert_eq!(get_speed(18_446_744_073_709_556, 5_000_000), u64::MAX);
}

#[test]
fn average_of_first_samples() {
    let mut r = RollingAverage::new(3);
    r.add(4);
    assert_eq!(r.get(), 4);
    r.add(8);
    assert_eq!(r.get(), 6);
    r.add(3);
    assert_eq!(r.get(), 5);
}

#[test]
fn window_drops_oldest_sample() {
    let mut r = RollingAverage::new(2);
    r.add(10);
    r.add(20);
    r.add(40);
    // 10 left the window: (20 + 40) / 2
    assert_eq!(r.get(), 30);
    r.add(0);
    assert_eq!(r.get(), 20);
}

#[test]
fn window_never_exceeds_capacity() {
    let mut r = RollingAverage::new(WINDOW_SIZE);
    let mut i: u64 = 0;
    while i < 250 {
        r.add(i);
        i += 1;
    }
    // the last 100 values, 150..=249, average 199
    assert_eq!(r.get(), 199);
}

#[test]
fn window_holds_unmeasurable_samples() {
    let mut r = RollingAverage::new(3);
    r.add(u64::MAX);
    r.add(u64::MAX);
    r.add(u64::MAX);
    assert_eq!(r.get(), u64::MAX);
}

#[test]
fn avg_speed_from_timed_samples() {
    let mut s = AvgSpeed::new();
    s.add_sample(1000, 1_000_000_000);
    assert_eq!(s.get(), 1000);
    assert_eq!(s.last_total(), 1000);
    s.add_sample(4000, 1_000_000_000);
    // samples 1000 and 3000 bytes per second
    assert_eq!(s.get(), 2000);
}

#[test]
fn avg_speed_with_clock() {
    let mut s = AvgSpeed::new();
    s.add(0);
    // no bytes moved: zero, unless the clock did not advance at all
    let v = s.get();
    assert!(v == 0 || v == UNMEASURABLE);
}
