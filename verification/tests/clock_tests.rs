use multi_cast_clock::clock::{
    adjust_time_clock, get_current_timestamp, random_interval_millis, sleep_tick_bounds, ticks_to_millis,
    LogicClock, CATCH_UP_TENTHS, TICK_INTERVAL_MILLIS,
};

#[test]
fn clock_starts_at_zero() {
    let c = LogicClock::default();
    assert_eq!(c.clock, 0);
}

#[test]
fn tick_adds_one_tenth() {
    let mut c = LogicClock { clock: 7 };
    c.tick();
    assert_eq!(c.clock, 8);
    c.tick();
    c.tick();
    assert_eq!(c.clock, 10);
}

#[test]
fn adjust_jumps_past_future_timestamp() {
    // clock 1.2, message stamped 3.0: the clock becomes 4.0
    let mut c = LogicClock { clock: 12 };
    adjust_time_clock(&mut c, 30);
    assert_eq!(c.clock, 40);
    assert_eq!(CATCH_UP_TENTHS, 10);
}

#[test]
fn adjust_keeps_clock_for_past_timestamp() {
    let mut c = LogicClock { clock: 25 };
    adjust_time_clock(&mut c, 20);
    assert_eq!(c.clock, 25);
    adjust_time_clock(&mut c, 25);
    assert_eq!(c.clock, 25);
}

#[test]
fn adjust_then_tick_is_past_received() {
    let mut c = LogicClock::default();
    adjust_time_clock(&mut c, 0);
    assert_eq!(c.clock, 0);
    adjust_time_clock(&mut c, 1);
    assert_eq!(c.clock, 11);
    c.tick();
    assert!(c.clock > 1);
}

#[test]
fn timestamp_reads_clock() {
    let c = LogicClock { clock: 42 };
    assert_eq!(get_current_timestamp(&c), Some(42));
}

#[test]
fn sleep_bounds_by_receiver() {
    assert_eq!(sleep_tick_bounds(2), (1, 3));
    assert_eq!(sleep_tick_bounds(1), (1, 2));
    assert_eq!(sleep_tick_bounds(0), (1, 2));
    assert_eq!(sleep_tick_bounds(3), (1, 2));
}

#[test]
fn random_interval_within_bounds() {
    assert_eq!(TICK_INTERVAL_MILLIS, 100);
    let mut seen_receiver_two = std::collections::BTreeSet::new();
    let mut seen_others = std::collections::BTreeSet::new();
    for _ in 0..300 {
        let ms = random_interval_millis(2);
        assert!(ms == 100 || ms == 200 || ms == 300, "{}", ms);
        seen_receiver_two.insert(ms);
        let ms = random_interval_millis(1);
        assert!(ms == 100 || ms == 200, "{}", ms);
        seen_others.insert(ms);
    }
    // the draws vary over the whole range, not just its ends
    assert_eq!(seen_others.len(), 2);
    assert_eq!(seen_receiver_two.len(), 3);
}

#[test]
fn ticks_in_millis() {
    assert_eq!(ticks_to_millis(0), 0);
    assert_eq!(ticks_to_millis(3), 300);
}

#[test]
fn second_adjust_changes_nothing() {
    let mut c = LogicClock { clock: 12 };
    adjust_time_clock(&mut c, 30);
    assert_eq!(c.clock, 40);
    adjust_time_clock(&mut c, 30);
    assert_eq!(c.clock, 40);
}
