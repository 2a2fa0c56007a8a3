use timer::timer::Agent;
use timer::timer::SliceSmallVectorTimer;
use timer::timer::SliceVectorTimer;
use timer::timer::VectorVectorTimer;

struct Counter {
    runs: usize,
}

impl Agent for Counter {
    fn action(&mut self) {
        self.runs += 1;
    }
}

struct Doubler {
    value: u64,
}

impl Agent for Doubler {
    fn action(&mut self) {
        self.value *= 2;
    }
}

#[test]
fn slice_vector_start_timer_returns_the_bucket() {
    let mut first = Counter { runs: 0 };
    let mut second = Counter { runs: 0 };
    let mut timer = SliceVectorTimer::<Counter, 4>::new();

    assert_eq!(timer.start_timer(1, &mut first), 1);
    assert_eq!(timer.start_timer(7, &mut second), 3);
}

#[test]
fn slice_vector_runs_the_agents_of_the_bucket_it_reaches() {
    let mut first = Counter { runs: 0 };
    let mut second = Counter { runs: 0 };
    let mut third = Counter { runs: 0 };
    {
        let mut timer = SliceVectorTimer::<Counter, 4>::new();
        timer.start_timer(1, &mut first);
        timer.start_timer(1, &mut second);
        timer.start_timer(2, &mut third);
        timer.tick();
    }

    assert_eq!(first.runs, 1);
    assert_eq!(second.runs, 1);
    assert_eq!(third.runs, 0);
}

#[test]
fn slice_vector_runs_each_agent_once() {
    let mut first = Counter { runs: 0 };
    let mut second = Counter { runs: 0 };
    {
        let mut timer = SliceVectorTimer::<Counter, 3>::new();
        timer.start_timer(1, &mut first);
        timer.start_timer(2, &mut second);
        for _ in 0..9 {
            timer.tick();
        }
    }

    assert_eq!(first.runs, 1);
    assert_eq!(second.runs, 1);
}

#[test]
fn slice_vector_wraps_to_bucket_zero() {
    let mut agent = Counter { runs: 0 };
    {
        let mut timer = SliceVectorTimer::<Counter, 3>::new();
        assert_eq!(timer.start_timer(3, &mut agent), 0);
        timer.tick();
        timer.tick();
    }
    assert_eq!(agent.runs, 0);

    {
        let mut timer = SliceVectorTimer::<Counter, 3>::new();
        timer.start_timer(3, &mut agent);
        timer.tick();
        timer.tick();
        timer.tick();
    }
    assert_eq!(agent.runs, 1);
}

#[test]
fn slice_vector_adds_the_position_to_the_bucket() {
    let mut agent = Counter { runs: 0 };
    {
        let mut timer = SliceVectorTimer::<Counter, 8>::with_timestamp(2);
        assert_eq!(timer.start_timer(3, &mut agent), 5);
        timer.tick();
        timer.tick();
    }
    assert_eq!(agent.runs, 0);

    {
        let mut timer = SliceVectorTimer::<Counter, 8>::with_timestamp(2);
        timer.start_timer(3, &mut agent);
        timer.tick();
        timer.tick();
        timer.tick();
    }
    assert_eq!(agent.runs, 1);
}

#[test]
fn slice_vector_holds_agents_of_several_kinds() {
    let mut counter = Counter { runs: 0 };
    let mut doubler = Doubler { value: 21 };
    {
        let mut timer = SliceVectorTimer::<dyn Agent, 2>::new();
        timer.start_timer(1, &mut counter);
        timer.start_timer(1, &mut doubler);
        timer.tick();
    }

    assert_eq!(counter.runs, 1);
    assert_eq!(doubler.value, 42);
}

#[test]
fn vector_vector_start_timer_returns_the_bucket() {
    let mut first = Counter { runs: 0 };
    let mut second = Counter { runs: 0 };
    let mut third = Counter { runs: 0 };
    let mut timer = VectorVectorTimer::<Counter>::with_timestamp(3);

    assert_eq!(timer.start_timer(4, &mut first), 7);
    assert_eq!(timer.start_timer(0, &mut second), 3);
    assert_eq!(timer.start_timer(9, &mut third), 12);
}

#[test]
fn vector_vector_tick_runs_every_agent() {
    let mut first = Counter { runs: 0 };
    let mut second = Counter { runs: 0 };
    let mut third = Counter { runs: 0 };
    {
        let mut timer = VectorVectorTimer::<Counter>::new();
        timer.start_timer(5, &mut first);
        timer.start_timer(0, &mut second);
        timer.start_timer(5, &mut third);
        timer.tick();
        timer.tick();
    }

    assert_eq!(first.runs, 1);
    assert_eq!(second.runs, 1);
    assert_eq!(third.runs, 1);
}

#[test]
fn vector_vector_counts_on_after_a_tick() {
    let mut first = Counter { runs: 0 };
    let mut second = Counter { runs: 0 };
    let mut timer = VectorVectorTimer::<Counter>::new();

    assert_eq!(timer.start_timer(2, &mut first), 2);
    timer.tick();
    assert_eq!(timer.start_timer(2, &mut second), 3);
}

#[test]
fn slice_small_vector_runs_the_agents_of_the_bucket_it_reaches() {
    let mut first = Counter { runs: 0 };
    let mut second = Counter { runs: 0 };
    let mut third = Counter { runs: 0 };
    {
        let mut timer = SliceSmallVectorTimer::<Counter, 4, 2>::new();
        assert_eq!(timer.start_timer(1, &mut first), 1);
        assert_eq!(timer.start_timer(5, &mut second), 1);
        assert_eq!(timer.start_timer(2, &mut third), 2);
        timer.tick();
    }

    assert_eq!(first.runs, 1);
    assert_eq!(second.runs, 1);
    assert_eq!(third.runs, 0);
}

#[test]
fn slice_small_vector_takes_more_agents_than_it_set_room_for() {
    let mut agents: Vec<Counter> = (0..5).map(|_| Counter { runs: 0 }).collect();
    {
        let mut timer = SliceSmallVectorTimer::<Counter, 2, 1>::with_timestamp(0);
        for agent in agents.iter_mut() {
            timer.start_timer(1, agent);
        }
        timer.tick();
        timer.tick();
        timer.tick();
    }

    for agent in agents.iter() {
        assert_eq!(agent.runs, 1);
    }
}

#[test]
fn slice_small_vector_takes_agents_again_after_a_bucket_was_emptied() {
    let mut first = Counter { runs: 0 };
    let mut second = Counter { runs: 0 };
    let mut third = Counter { runs: 0 };
    {
        let mut timer = SliceSmallVectorTimer::<Counter, 1, 2>::new();
        assert_eq!(timer.start_timer(0, &mut first), 0);
        timer.tick();
        timer.tick();
        assert_eq!(timer.start_timer(0, &mut second), 0);
        assert_eq!(timer.start_timer(4, &mut third), 0);
        timer.tick();
        timer.tick();
    }

    assert_eq!(first.runs, 1);
    assert_eq!(second.runs, 1);
    assert_eq!(third.runs, 1);
}

#[test]
fn slice_vector_tick_on_an_empty_bucket_runs_nothing() {
    let mut agent = Counter { runs: 0 };
    {
        let mut timer = SliceVectorTimer::<Counter, 4>::new();
        timer.start_timer(3, &mut agent);
        timer.tick();
        timer.tick();
    }

    assert_eq!(agent.runs, 0);
}
