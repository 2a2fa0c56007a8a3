use timer::multiwheel::time::Time;

fn fields(time: &Time) -> (u8, u8, u8, u8, u16) {
    (
        time.milliseconds(),
        time.seconds(),
        time.minutes(),
        time.hours(),
        time.days(),
    )
}

#[test]
fn test_new() {
    let time = Time::new(1, 2, 3, 4, 5);

    assert_eq!(time.milliseconds(), 1);
    assert_eq!(time.seconds(), 2);
    assert_eq!(time.minutes(), 3);
    assert_eq!(time.hours(), 4);
    assert_eq!(time.days(), 5);
}

#[test]
fn test_increment() {
    let mut time = Time::new(0, 0, 0, 0, 0);

    assert_eq!(time.milliseconds(), 0);
    assert_eq!(time.seconds(), 0);
    assert_eq!(time.minutes(), 0);
    assert_eq!(time.hours(), 0);
    assert_eq!(time.days(), 0);

    time.increment();

    assert_eq!(time.milliseconds(), 1);
    assert_eq!(time.seconds(), 0);
    assert_eq!(time.minutes(), 0);
    assert_eq!(time.hours(), 0);
    assert_eq!(time.days(), 0);
}

#[test]
fn test_increment_overflow() {
    let mut time = Time::new(99, 59, 59, 23, 0xFFFF);

    time.increment();

    assert_eq!(time.milliseconds(), 0);
    assert_eq!(time.seconds(), 0);
    assert_eq!(time.minutes(), 0);
    assert_eq!(time.hours(), 0);
    assert_eq!(time.days(), 0);
}

#[test]
fn test_increment_checked_overflow() {
    let mut time = Time::new(99, 59, 59, 23, 0xFFFF);

    let (roll_seconds, roll_minutes, roll_hours, roll_days, halt) = time.increment_checked();

    assert!(roll_seconds);
    assert!(roll_minutes);
    assert!(roll_hours);
    assert!(roll_days);
    assert!(halt);
}

#[test]
fn test_increment_checked_no_overflow() {
    let mut time = Time::new(0, 0, 0, 0, 0);

    let (roll_seconds, roll_minutes, roll_hours, roll_days, halt) = time.increment_checked();

    assert!(!roll_seconds);
    assert!(!roll_minutes);
    assert!(!roll_hours);
    assert!(!roll_days);
    assert!(!halt);

    assert_eq!(time.milliseconds(), 1);
    assert_eq!(time.seconds(), 0);
    assert_eq!(time.minutes(), 0);
    assert_eq!(time.hours(), 0);
    assert_eq!(time.days(), 0);
}

#[test]
fn new_packs_fields_at_fixed_bit_offsets() {
    let time = Time::new(1, 2, 3, 4, 5);

    assert_eq!(time.inner(), 0x0005_0403_0201);
    assert_eq!(Time::new(99, 59, 59, 23, 0xFFFF).inner(), 0xFFFF_173B_3B63);
    assert_eq!(Time::new(0, 0, 0, 0, 0).inner(), 0);
}

#[test]
fn new_round_trips_every_width() {
    let time = Time::new(255, 255, 255, 255, 0xFFFF);

    assert_eq!(fields(&time), (255, 255, 255, 255, 0xFFFF));
    assert_eq!(time.inner(), 0xFFFF_FFFF_FFFF);
}

#[test]
fn from_inner_keeps_the_word_and_ignores_high_bits() {
    let time = Time::from_inner(0xABCD_0005_0403_0201);

    assert_eq!(time.inner(), 0xABCD_0005_0403_0201);
    assert_eq!(fields(&time), (1, 2, 3, 4, 5));
}

#[test]
fn increment_clears_high_bits() {
    let mut time = Time::from_inner(0xABCD_0005_0403_0201);

    time.increment();

    assert_eq!(time.inner(), 0x0005_0403_0202);
}

#[test]
fn increment_carries_into_seconds() {
    let mut time = Time::new(99, 0, 0, 0, 0);

    time.increment();

    assert_eq!(fields(&time), (0, 1, 0, 0, 0));
}

#[test]
fn increment_carries_into_minutes() {
    let mut time = Time::new(99, 59, 7, 0, 0);

    time.increment();

    assert_eq!(fields(&time), (0, 0, 8, 0, 0));
}

#[test]
fn increment_carries_into_hours() {
    let mut time = Time::new(99, 59, 59, 5, 0);

    time.increment();

    assert_eq!(fields(&time), (0, 0, 0, 6, 0));
}

#[test]
fn increment_carries_into_days() {
    let mut time = Time::new(99, 59, 59, 23, 41);

    time.increment();

    assert_eq!(fields(&time), (0, 0, 0, 0, 42));
}

#[test]
fn increment_without_carry_touches_only_milliseconds() {
    let mut time = Time::new(98, 59, 59, 23, 65535);

    time.increment();

    assert_eq!(fields(&time), (99, 59, 59, 23, 65535));
}

#[test]
fn increment_checked_reduces_hours_by_their_own_radix() {
    let mut time = Time::new(99, 59, 59, 23, 3);

    let flags = time.increment_checked();

    assert_eq!(flags, (true, true, true, true, false));
    assert_eq!(fields(&time), (0, 0, 0, 0, 4));
}

#[test]
fn increment_checked_reports_each_carry_alone() {
    let mut time = Time::new(99, 3, 0, 0, 0);
    assert_eq!(time.increment_checked(), (true, false, false, false, false));
    assert_eq!(fields(&time), (0, 4, 0, 0, 0));

    let mut time = Time::new(99, 59, 3, 0, 0);
    assert_eq!(time.increment_checked(), (true, true, false, false, false));
    assert_eq!(fields(&time), (0, 0, 4, 0, 0));

    let mut time = Time::new(99, 59, 59, 3, 0);
    assert_eq!(time.increment_checked(), (true, true, true, false, false));
    assert_eq!(fields(&time), (0, 0, 0, 4, 0));
}

#[test]
fn increment_checked_wraps_the_clock_when_it_halts() {
    let mut time = Time::new(99, 59, 59, 23, 0xFFFF);

    let flags = time.increment_checked();

    assert_eq!(flags, (true, true, true, true, true));
    assert_eq!(time.inner(), 0);
}

#[test]
fn increment_and_increment_checked_agree_over_a_minute() {
    let mut plain = Time::new(0, 0, 0, 0, 0);
    let mut checked = Time::new(0, 0, 0, 0, 0);

    for tick in 1..=6000u64 {
        plain.increment();
        checked.increment_checked();
        assert_eq!(plain.inner(), checked.inner());
        let count = plain.milliseconds() as u64
            + 100 * (plain.seconds() as u64 + 60 * plain.minutes() as u64);
        assert_eq!(count, tick);
    }
    assert_eq!(fields(&plain), (0, 0, 1, 0, 0));
}

#[test]
fn time_is_copied_freely() {
    let time = Time::new(1, 2, 3, 4, 5);
    let mut copy = time;

    copy.increment();

    assert_eq!(time.milliseconds(), 1);
    assert_eq!(copy.milliseconds(), 2);
}

#[test]
fn is_reduced_tells_fields_below_their_radix() {
    assert!(Time::new(0, 0, 0, 0, 0).is_reduced());
    assert!(Time::new(99, 59, 59, 23, 0xFFFF).is_reduced());
    assert!(!Time::new(100, 0, 0, 0, 0).is_reduced());
    assert!(!Time::new(0, 60, 0, 0, 0).is_reduced());
    assert!(!Time::new(0, 0, 60, 0, 0).is_reduced());
    assert!(!Time::new(0, 0, 0, 24, 0).is_reduced());
    assert!(!Time::from_inner(123456789).is_reduced());
}
