use timer::multiwheel::time::Time;
use timer::multiwheel::Timer;

fn tick_n<const D: usize>(timer: &mut Timer<D>, ticks: u64) {
    for _ in 0..ticks {
        assert_eq!(timer.tick(), Some(vec![]));
    }
}

#[test]
fn test_vibe_check() {
    let mut timer = Timer::<1>::new();

    timer.start_timer(1, Time::new(1, 0, 0, 0, 0));

    assert_eq!(timer.tick(), Some(vec![1]));
}

#[test]
fn test_vibe_check_2() {
    let mut timer = Timer::<1>::new();

    timer.start_timer(1, Time::new(2, 0, 0, 0, 0));

    timer.tick();

    assert_eq!(timer.tick(), Some(vec![1]));
}

#[test]
fn test_stuff() {
    let mut timer = Timer::<1>::new();

    timer.start_timer(1, Time::new(1, 0, 0, 0, 0));
    timer.start_timer(2, Time::new(2, 0, 0, 0, 0));
    timer.start_timer(3, Time::new(3, 0, 0, 0, 0));
    timer.start_timer(4, Time::new(4, 0, 0, 0, 0));
    timer.start_timer(5, Time::new(5, 0, 0, 0, 0));
    timer.start_timer(6, Time::new(6, 0, 0, 0, 0));
    timer.start_timer(7, Time::new(7, 0, 0, 0, 0));
    timer.start_timer(8, Time::new(7, 0, 0, 0, 0));

    assert_eq!(timer.tick(), Some(vec![1]));
    assert_eq!(timer.tick(), Some(vec![2]));
    assert_eq!(timer.tick(), Some(vec![3]));
    assert_eq!(timer.tick(), Some(vec![4]));
    assert_eq!(timer.tick(), Some(vec![5]));
    assert_eq!(timer.tick(), Some(vec![6]));
    assert_eq!(timer.tick(), Some(vec![7, 8]));
}

#[test]
fn empty_wheel_reports_an_empty_list() {
    let mut timer = Timer::<1>::new();

    assert_eq!(timer.tick(), Some(vec![]));
}

#[test]
fn single_action_is_reported_once() {
    let mut timer = Timer::<1>::new();

    timer.start_timer(1, Time::new(1, 0, 0, 0, 0));

    assert_eq!(timer.tick(), Some(vec![1]));
    tick_n(&mut timer, 250);
}

#[test]
fn whole_second_offsets_expire_in_order() {
    let mut timer = Timer::<1>::new();

    timer.start_timer(1, Time::new(0, 1, 0, 0, 0));
    timer.start_timer(2, Time::new(0, 2, 0, 0, 0));
    timer.start_timer(3, Time::new(0, 3, 0, 0, 0));
    timer.start_timer(4, Time::new(0, 4, 0, 0, 0));
    timer.start_timer(5, Time::new(0, 5, 0, 0, 0));
    timer.start_timer(6, Time::new(0, 6, 0, 0, 0));
    timer.start_timer(7, Time::new(0, 7, 0, 0, 0));
    timer.start_timer(8, Time::new(0, 7, 0, 0, 0));

    for second in 1..=6usize {
        tick_n(&mut timer, 99);
        assert_eq!(timer.tick(), Some(vec![second]));
    }
    tick_n(&mut timer, 99);
    assert_eq!(timer.tick(), Some(vec![7, 8]));
    tick_n(&mut timer, 300);
}

#[test]
fn seconds_and_milliseconds_both_elapse() {
    let mut timer = Timer::<1>::new();

    timer.start_timer(3, Time::new(5, 2, 0, 0, 0));

    tick_n(&mut timer, 204);
    assert_eq!(timer.tick(), Some(vec![3]));
    tick_n(&mut timer, 200);
}

#[test]
fn hours_cascade_through_every_level() {
    let mut timer = Timer::<1>::new();

    timer.start_timer(11, Time::new(4, 3, 2, 1, 0));

    let ticks: u64 = 4 + 100 * (3 + 60 * (2 + 60));
    tick_n(&mut timer, ticks - 1);
    assert_eq!(timer.tick(), Some(vec![11]));
    tick_n(&mut timer, 1000);
}

#[test]
fn whole_hour_cascades_in_one_tick() {
    let mut timer = Timer::<1>::new();

    timer.start_timer(12, Time::new(0, 0, 0, 1, 0));

    tick_n(&mut timer, 360_000 - 1);
    assert_eq!(timer.tick(), Some(vec![12]));
}

#[test]
fn days_cascade_through_every_level() {
    let mut timer = Timer::<2>::new();

    timer.start_timer(21, Time::new(1, 0, 0, 0, 1));
    timer.start_timer(22, Time::new(0, 0, 0, 0, 1));

    tick_n(&mut timer, 8_640_000 - 1);
    assert_eq!(timer.tick(), Some(vec![22]));
    assert_eq!(timer.tick(), Some(vec![21]));
}

#[test]
fn day_below_capacity_is_accepted() {
    let mut timer = Timer::<3>::new();

    timer.start_timer(5, Time::new(0, 0, 0, 0, 2));

    assert_eq!(timer.tick(), Some(vec![]));
}

#[test]
fn cascaded_actions_follow_those_already_waiting() {
    let mut timer = Timer::<1>::new();

    timer.start_timer(1, Time::new(5, 1, 0, 0, 0));
    tick_n(&mut timer, 50);
    timer.start_timer(2, Time::new(5, 0, 0, 0, 0));
    tick_n(&mut timer, 54);

    assert_eq!(timer.tick(), Some(vec![2, 1]));
}

#[test]
fn zero_offset_is_not_accepted() {
    let timer = Timer::<1>::new();

    assert!(!timer.accepts(1, Time::new(0, 0, 0, 0, 0)));
    assert!(!timer.accepts(1, Time::from_inner(0)));
    assert!(timer.accepts(1, Time::new(1, 0, 0, 0, 0)));
    assert!(timer.accepts(1, Time::new(0, 1, 0, 0, 0)));
    assert!(timer.accepts(1, Time::new(0, 0, 1, 0, 0)));
    assert!(timer.accepts(1, Time::new(0, 0, 0, 1, 0)));
}

#[test]
fn zero_offset_is_not_accepted_whatever_the_clock() {
    let timer = Timer::<3>::with_time(Time::new(7, 8, 9, 10, 1));

    assert!(!timer.accepts(1, Time::new(0, 0, 0, 0, 0)));
    assert!(timer.accepts(1, Time::new(0, 0, 0, 0, 2)));
}

#[test]
fn offsets_are_read_against_the_running_clock() {
    let mut timer = Timer::<1>::with_time(Time::new(50, 0, 0, 0, 0));

    timer.start_timer(1, Time::new(10, 0, 0, 0, 0));

    tick_n(&mut timer, 59);
    assert_eq!(timer.tick(), Some(vec![1]));
}

#[test]
fn with_time_starts_the_clock_there() {
    let mut timer = Timer::<1>::with_time(Time::new(98, 59, 59, 0, 0));

    timer.start_timer(4, Time::new(0, 0, 0, 1, 0));
    timer.start_timer(5, Time::new(99, 0, 0, 0, 0));

    assert_eq!(timer.tick(), Some(vec![5]));
    assert_eq!(timer.tick(), Some(vec![4]));
}

#[test]
fn exhausted_clock_halts() {
    let mut timer = Timer::<1>::with_time(Time::new(99, 59, 59, 23, 0xFFFF));

    assert_eq!(timer.tick(), None);
}

#[test]
fn largest_identifier_is_reported() {
    let mut timer = Timer::<1>::new();

    timer.start_timer(0xFFFF, Time::new(1, 0, 0, 0, 0));

    assert_eq!(timer.tick(), Some(vec![0xFFFF]));
}

#[test]
fn can_tick_until_a_day_without_a_bucket() {
    let mut timer = Timer::<1>::with_time(Time::new(98, 59, 59, 23, 0));

    assert!(timer.can_tick());
    assert_eq!(timer.tick(), Some(vec![]));
    assert!(!timer.can_tick());
}

#[test]
fn can_tick_into_a_day_with_a_bucket() {
    let mut timer = Timer::<2>::with_time(Time::new(99, 59, 59, 23, 0));

    timer.start_timer(9, Time::new(0, 0, 0, 0, 1));

    assert!(timer.can_tick());
    assert_eq!(timer.tick(), Some(vec![9]));
}

#[test]
fn can_tick_when_the_clock_is_about_to_halt() {
    let mut timer = Timer::<1>::with_time(Time::new(99, 59, 59, 23, 0xFFFF));

    assert!(timer.can_tick());
    assert_eq!(timer.tick(), None);
}

#[test]
fn accepts_what_start_timer_takes() {
    let timer = Timer::<3>::new();

    assert!(timer.accepts(0, Time::new(1, 0, 0, 0, 0)));
    assert!(timer.accepts(0xFFFF, Time::new(99, 59, 59, 23, 2)));
    assert!(!timer.accepts(0, Time::new(0, 0, 0, 0, 0)));
    assert!(!timer.accepts(0x1_0000, Time::new(1, 0, 0, 0, 0)));
    assert!(!timer.accepts(1, Time::new(0, 0, 0, 0, 3)));
    assert!(!timer.accepts(1, Time::new(100, 0, 0, 0, 0)));
    assert!(!timer.accepts(1, Time::new(0, 60, 0, 0, 0)));
    assert!(!timer.accepts(1, Time::new(0, 0, 60, 0, 0)));
    assert!(!timer.accepts(1, Time::new(0, 0, 0, 24, 0)));
}

#[test]
fn wheel_without_day_buckets_accepts_offsets_within_the_day() {
    let mut timer = Timer::<0>::new();

    assert!(timer.accepts(1, Time::new(0, 0, 0, 23, 0)));
    assert!(!timer.accepts(1, Time::new(0, 0, 0, 0, 1)));
    timer.start_timer(1, Time::new(2, 0, 0, 0, 0));
    assert_eq!(timer.tick(), Some(vec![]));
    assert_eq!(timer.tick(), Some(vec![1]));
}
