use timer::multiwheel::time::Time;
use timer::multiwheel::Timer;

const UNIT: [u64; 5] = [1, 100, 6_000, 360_000, 8_640_000];
const RADIX: [u64; 5] = [100, 60, 60, 24, 65_536];

fn below(fields: &[u64; 5], level: usize) -> u64 {
    (0..level).map(|finer| fields[finer] * UNIT[finer]).sum()
}

fn coarsest(fields: &[u64; 5]) -> Option<usize> {
    (0..5).rev().find(|level| fields[*level] > 0)
}

fn remaining(now: &[u64; 5], expiry: &[u64; 5]) -> Option<u64> {
    let level = coarsest(expiry)?;
    let target = expiry[level] * UNIT[level];
    let phase = below(now, level) + now[level] * UNIT[level];
    let wait = if target > phase {
        target - phase
    } else {
        target + UNIT[level] * RADIX[level] - phase
    };
    Some(wait + below(expiry, level))
}

fn advance(now: &mut [u64; 5]) {
    for level in 0..5 {
        now[level] += 1;
        if now[level] < RADIX[level] {
            return;
        }
        now[level] = 0;
    }
}

fn time_of(fields: &[u64; 5]) -> Time {
    Time::new(
        fields[0] as u8,
        fields[1] as u8,
        fields[2] as u8,
        fields[3] as u8,
        fields[4] as u16,
    )
}

struct Dice {
    state: u64,
}

impl Dice {
    fn roll(&mut self, sides: u64) -> u64 {
        self.state = self
            .state
            .wrapping_mul(6364136223846793005)
            .wrapping_add(1442695040888963407);
        (self.state >> 33) % sides
    }

    fn expiry(&mut self) -> [u64; 5] {
        let shape = self.roll(8);
        let mut fields = [self.roll(100), 0, 0, 0, 0];
        if shape >= 1 {
            fields[1] = self.roll(60);
        }
        if shape >= 3 {
            fields[2] = self.roll(4);
        }
        if shape >= 5 {
            fields[3] = if self.roll(2) == 0 { 0 } else { 23 };
        }
        if shape >= 6 {
            fields[4] = self.roll(3);
        }
        if shape == 7 {
            fields[0] = 0;
            fields[1] = 0;
        }
        fields
    }
}

fn run_against_the_countdown(start: [u64; 5], ticks: u64, seed: u64) {
    let mut dice = Dice { state: seed };
    let mut now = start;
    let mut timer = Timer::<3>::with_time(time_of(&now));
    let mut waiting: Vec<(u64, usize)> = Vec::new();
    let mut count: u64 = 0;
    let mut next_id: usize = 0;
    let mut fired: usize = 0;

    for _ in 0..ticks {
        while dice.roll(5) == 0 {
            let expiry = dice.expiry();
            let id = next_id % 0x1_0000;
            let wait = match remaining(&now, &expiry) {
                Some(wait) => wait,
                None => {
                    assert!(!timer.accepts(id, time_of(&expiry)));
                    continue;
                }
            };
            next_id += 1;
            assert!(timer.accepts(id, time_of(&expiry)));
            timer.start_timer(id, time_of(&expiry));
            assert!(wait >= 1);
            waiting.push((count + wait, id));
        }

        assert!(timer.can_tick());
        let mut reported = timer.tick().unwrap();
        advance(&mut now);
        count += 1;

        let mut expected: Vec<usize> = waiting
            .iter()
            .filter(|(at, _)| *at == count)
            .map(|(_, id)| *id)
            .collect();
        waiting.retain(|(at, _)| *at != count);
        expected.sort();
        reported.sort();
        assert_eq!(reported, expected);
        fired += reported.len();
    }

    assert!(fired > 0);
    assert!(waiting.iter().all(|(at, _)| *at > count));
}

#[test]
fn countdown_holds_from_the_zero_clock() {
    run_against_the_countdown([0, 0, 0, 0, 0], 40_000, 1);
}

#[test]
fn countdown_holds_across_an_hour() {
    run_against_the_countdown([37, 12, 58, 0, 0], 40_000, 2);
}

#[test]
fn countdown_holds_across_a_day() {
    run_against_the_countdown([0, 30, 58, 23, 0], 40_000, 3);
}

#[test]
fn countdown_holds_across_two_days() {
    run_against_the_countdown([50, 59, 59, 23, 0], 20_000, 4);
    run_against_the_countdown([50, 59, 59, 23, 1], 20_000, 5);
}

fn ticks_until_reported(now: [u64; 5], expiry: [u64; 5]) -> u64 {
    let mut timer = Timer::<2>::with_time(time_of(&now));
    assert!(timer.accepts(7, time_of(&expiry)));
    timer.start_timer(7, time_of(&expiry));

    let mut count: u64 = 0;
    loop {
        assert!(timer.can_tick());
        let reported = timer.tick().unwrap();
        count += 1;
        if !reported.is_empty() {
            assert_eq!(reported, vec![7]);
            assert_eq!(remaining(&now, &expiry), Some(count));
            return count;
        }
    }
}

#[test]
fn ticks_to_go_from_the_zero_clock_are_the_ticks_of_the_expiry_time() {
    let zero = [0, 0, 0, 0, 0];

    assert_eq!(ticks_until_reported(zero, [1, 0, 0, 0, 0]), 1);
    assert_eq!(ticks_until_reported(zero, [5, 2, 0, 0, 0]), 205);
    assert_eq!(ticks_until_reported(zero, [4, 3, 2, 1, 0]), 372_304);
    assert_eq!(ticks_until_reported(zero, [0, 0, 0, 0, 1]), 8_640_000);
}

#[test]
fn an_expiry_time_behind_the_clock_waits_for_the_next_round() {
    assert_eq!(ticks_until_reported([50, 0, 0, 0, 0], [10, 0, 0, 0, 0]), 60);
    assert_eq!(ticks_until_reported([10, 0, 0, 0, 0], [10, 0, 0, 0, 0]), 100);
    assert_eq!(ticks_until_reported([2, 3, 0, 0, 0], [5, 3, 0, 0, 0]), 6_003);
    assert_eq!(ticks_until_reported([0, 0, 30, 5, 0], [0, 0, 10, 0, 0]), 240_000);
}
