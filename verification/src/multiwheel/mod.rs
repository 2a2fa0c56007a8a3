//! The hierarchical wheel and the packed values it is built from.
//!
//! [`time`] and [`action`] hold the packed clock and the packed action
//! record. [`Timer`] is the wheel. What it does is stated over
//! [`wheel::Wheel`], the wheel as a mathematical value; [`wellformed`],
//! [`census`] and [`schedule`] prove what holds of that value: that it
//! stays well formed, that no action is lost or made, and after how many
//! ticks each action is reported.

pub mod action;
pub mod census;
pub mod schedule;
pub mod time;
pub mod wellformed;
pub mod wheel;

use vstd::prelude::*;
use action::Action;
use action::MAX_ID;
use time::Fields;
use time::Time;
use schedule::remaining;
use wheel::Wheel;
use wheel::coarsest;
use wheel::due;
use wheel::field;
use wheel::fits;
use wheel::ids;
use wheel::lemma_scatter_none;
use wheel::lemma_scatter_push;
use wheel::rows;
use wheel::scatter;

verus! {

/// A hierarchical timing wheel with `D` day buckets.
///
/// Actions are stored by `start_timer` and reported by `tick` when the
/// clock reaches their expiry time.
pub struct Timer<const D: usize> {
    time: Time,
    milliseconds: Vec<Vec<Action>>,
    seconds: Vec<Vec<Action>>,
    minutes: Vec<Vec<Action>>,
    hours: Vec<Vec<Action>>,
    days: Vec<Vec<Action>>,
}

impl<const D: usize> View for Timer<D> {
    type V = Wheel;

    closed spec fn view(&self) -> Wheel {
        Wheel {
            now: self.time@,
            levels: seq![
                rows(self.milliseconds@),
                rows(self.seconds@),
                rows(self.minutes@),
                rows(self.hours@),
                rows(self.days@),
            ],
        }
    }
}

/// A row of the given number of empty buckets.
fn empty_row(len: usize) -> (row: Vec<Vec<Action>>)
    ensures
        rows(row@) == Seq::new(len as nat, |k: int| Seq::<Action>::empty()),
{
    let mut row: Vec<Vec<Action>> = Vec::new();
    let mut k: usize = 0;
    while k < len
        invariant
            k <= len,
            row.len() == k,
            rows(row@) == Seq::new(k as nat, |j: int| Seq::<Action>::empty()),
        decreases len - k,
    {
        let ghost prior = row@;
        row.push(Vec::new());
        k = k + 1;
        proof {
            assert forall|j: int| 0 <= j < k implies #[trigger] rows(row@)[j]
                == Seq::<Action>::empty() by {
                if j < k - 1 {
                    assert(rows(row@)[j] == rows(prior)[j]);
                }
            }
            assert(rows(row@) =~= Seq::new(k as nat, |j: int| Seq::<Action>::empty()));
        }
    }
    row
}

impl<const D: usize> Timer<D> {
    /// The wheel is in a state that its operations keep: see `Wheel::wf`.
    pub open spec fn wf(&self) -> bool {
        &&& self@.wf()
        &&& self@.capacity() == D
    }

    /// An empty wheel whose clock is at zero.
    pub fn new() -> (timer: Self)
        requires
            D <= 0xFFFF,
        ensures
            timer.wf(),
            timer@ == Wheel::empty(Fields::zero(), D as nat),
    {
        Self::with_time(Time::new(0, 0, 0, 0, 0))
    }

    /// An empty wheel whose clock is at the given value.
    pub fn with_time(time: Time) -> (timer: Self)
        requires
            D <= 0xFFFF,
            time@.reduced(),
        ensures
            timer.wf(),
            timer@ == Wheel::empty(time@, D as nat),
    {
        let timer = Timer {
            time,
            milliseconds: empty_row(100),
            seconds: empty_row(60),
            minutes: empty_row(60),
            hours: empty_row(24),
            days: empty_row(D),
        };
        proof {
            let empty = Wheel::empty(time@, D as nat);
            assert forall|level: int| 0 <= level < 5 implies #[trigger] timer@.levels[level]
                == empty.levels[level] by {}
            assert(timer@.levels =~= empty.levels);
        }
        timer
    }

    /// Whether `start_timer` takes the given identifier and expiry time:
    /// the identifier has at most 16 bits, the expiry time is reduced and
    /// not zero, and its day, if it is not zero, has a bucket.
    pub fn accepts(&self, id: usize, time: Time) -> (accepted: bool)
        ensures
            accepted == (id <= MAX_ID && time@.reduced() && time@ != Fields::zero() && (time@.days
                > 0 ==> time@.days < D)),
    {
        let days: u16 = time.days();
        let zero = time.milliseconds() == 0 && time.seconds() == 0 && time.minutes() == 0
            && time.hours() == 0 && days == 0;

        id <= MAX_ID && time.is_reduced() && !zero && (days == 0 || (days as usize) < D)
    }

    /// Stores an action that carries `id` and expires at `time`. The action
    /// goes to the level of the coarsest nonzero field of `time`, into the
    /// bucket that this field names. An expiry time of zero names no
    /// bucket and is not taken.
    ///
    /// The action then has `remaining` ticks to go, counted from the clock
    /// as it stands: as many as lie between the clock and `time` when the
    /// clock has not reached the start of that field's step (see
    /// `schedule::lemma_remaining_distance`).
    pub fn start_timer(&mut self, id: usize, time: Time)
        requires
            old(self).wf(),
            id <= MAX_ID,
            time@.reduced(),
            time@ != Fields::zero(),
            time@.days > 0 ==> time@.days < D,
        ensures
            final(self).wf(),
            final(self)@ == old(self)@.insert(Action::spec_new(id, time)),
            final(self)@.size() == old(self)@.size() + 1,
            final(self)@.holds(
                Action::spec_new(id, time),
                remaining(old(self)@.now, coarsest(time@), time@),
            ),
    {
        let action = Action::new(id, time);

        let milliseconds: u8 = time.milliseconds();
        let seconds: u8 = time.seconds();
        let minutes: u8 = time.minutes();
        let hours: u8 = time.hours();
        let days: u16 = time.days();

        let ghost before = self@;
        if days > 0 {
            self.days[days as usize].push(action);
            assert(rows(self.days@) =~= rows(old(self).days@).update(
                days as int,
                old(self).days@[days as int]@.push(action),
            ));
        } else if hours > 0 {
            self.hours[hours as usize].push(action);
            assert(rows(self.hours@) =~= rows(old(self).hours@).update(
                hours as int,
                old(self).hours@[hours as int]@.push(action),
            ));
        } else if minutes > 0 {
            self.minutes[minutes as usize].push(action);
            assert(rows(self.minutes@) =~= rows(old(self).minutes@).update(
                minutes as int,
                old(self).minutes@[minutes as int]@.push(action),
            ));
        } else if seconds > 0 {
            self.seconds[seconds as usize].push(action);
            assert(rows(self.seconds@) =~= rows(old(self).seconds@).update(
                seconds as int,
                old(self).seconds@[seconds as int]@.push(action),
            ));
        } else {
            self.milliseconds[milliseconds as usize].push(action);
            assert(rows(self.milliseconds@) =~= rows(old(self).milliseconds@).update(
                milliseconds as int,
                old(self).milliseconds@[milliseconds as int]@.push(action),
            ));
        }
        proof {
            assert(self@.levels =~= before.insert(action).levels);
            before.lemma_insert_wf(action);
            before.lemma_insert_size(action);
            before.lemma_insert_holds(
                action,
                action,
                remaining(before.now, coarsest(time@), time@),
            );
        }
    }

    /// Whether the next tick is within the wheel's capacity: it is not when
    /// the tick takes the clock to a day that has no bucket.
    pub fn can_tick(&self) -> (within: bool)
        requires
            self.wf(),
        ensures
            within == self@.can_tick(),
    {
        let rolls_days = self.time.milliseconds() == 99 && self.time.seconds() == 59
            && self.time.minutes() == 59 && self.time.hours() == 23;
        let days: u16 = self.time.days();

        !rolls_days || days == u16::MAX || (days as usize) + 1 < D
    }

    /// Advances the clock by one tick and reports the identifiers of the
    /// actions that expire at it, or `None` when the clock has gone through
    /// every value it can hold. Every level whose field changed hands the
    /// bucket that the clock now names down to the level below, coarsest
    /// level first; then the millisecond bucket that the clock names is
    /// emptied and the identifiers found in it are returned in order.
    ///
    /// Every action reported is due at the new clock value, and the actions
    /// reported are the only ones that leave the wheel. They are the
    /// actions that had one tick to go; every other action has one tick
    /// less to go than before.
    pub fn tick(&mut self) -> (fired: Option<Vec<usize>>)
        requires
            old(self).wf(),
            old(self)@.can_tick(),
        ensures
            final(self).wf(),
            final(self)@ == old(self)@.tick(),
            fired is None <==> old(self)@.now.halts(),
            fired matches Some(reported) ==> reported@ == ids(old(self)@.fired()),
            forall|i: int|
                0 <= i < old(self)@.fired().len() ==> due(
                    final(self)@.now,
                    #[trigger] old(self)@.fired()[i],
                ),
            final(self)@.size() + old(self)@.fired().len() == old(self)@.size(),
            !old(self)@.now.halts() ==> forall|a: Action| #[trigger]
                old(self)@.fired().contains(a) <==> old(self)@.holds(a, 1),
            !old(self)@.now.halts() ==> forall|a: Action, r: nat|
                r >= 1 ==> (#[trigger] final(self)@.holds(a, r) <==> old(self)@.holds(a, r + 1)),
    {
        let ghost before = self@;
        let ghost was = self.time@;
        proof {
            before.lemma_tick_wf();
            before.lemma_tick_size();
            if !before.now.halts() {
                assert forall|a: Action| #[trigger]
                    before.fired().contains(a) <==> before.holds(a, 1) by {
                    before.lemma_tick_countdown(a, 1);
                }
                assert forall|a: Action, r: nat| r >= 1 implies (#[trigger] before.tick().holds(
                    a,
                    r,
                ) <==> before.holds(a, r + 1)) by {
                    before.lemma_tick_countdown(a, r);
                }
            }
            assert forall|i: int| 0 <= i < before.fired().len() implies due(
                before.tick().now,
                #[trigger] before.fired()[i],
            ) by {
                before.lemma_fired_due(i);
            }
        }
        let (roll_seconds, roll_minutes, roll_hours, roll_days, halt) =
            self.time.increment_checked();
        proof {
            assert(self@.levels =~= before.levels);
        }

        if halt {
            return None;
        }
        let ghost stepped = self@;
        proof {
            before.lemma_step_turning();
        }

        proof {
            self@.lemma_turn(was, 4);
        }
        if roll_days {
            self.hand_down(4);
        }
        proof {
            self@.lemma_turn(was, 3);
        }
        if roll_hours {
            self.hand_down(3);
        }
        proof {
            self@.lemma_turn(was, 2);
        }
        if roll_minutes {
            self.hand_down(2);
        }
        proof {
            self@.lemma_turn(was, 1);
        }
        if roll_seconds {
            self.hand_down(1);
        }
        assert(self@ == stepped.settle(was));

        Some(self.report())
    }

    /// Empties the bucket that the clock names at the given level into the
    /// buckets of the level below.
    fn hand_down(&mut self, level: u8)
        requires
            1 <= level <= 4,
            old(self)@.now.reduced(),
            old(self)@.shaped(),
            field(old(self)@.now, level as int) < old(self)@.levels[level as int].len(),
        ensures
            final(self)@ == old(self)@.cascade(level as int),
    {
        let ghost before = self@;
        proof {
            before.lemma_bucket_fits(level as int, field(before.now, level as int) as int);
        }
        if level == 4 {
            let index: usize = self.time.days() as usize;
            cascade(&mut self.days, index, &mut self.hours, 3);
        } else if level == 3 {
            let index: usize = self.time.hours() as usize;
            cascade(&mut self.hours, index, &mut self.minutes, 2);
        } else if level == 2 {
            let index: usize = self.time.minutes() as usize;
            cascade(&mut self.minutes, index, &mut self.seconds, 1);
        } else {
            let index: usize = self.time.seconds() as usize;
            cascade(&mut self.seconds, index, &mut self.milliseconds, 0);
        }
        assert(self@.levels =~= before.cascade(level as int).levels);
    }

    /// Empties the millisecond bucket that the clock names and returns the
    /// identifiers of the actions found in it, in order.
    fn report(&mut self) -> (reported: Vec<usize>)
        requires
            old(self)@.now.reduced(),
            old(self)@.shaped(),
        ensures
            final(self)@ == old(self)@.with_bucket(
                0,
                old(self)@.now.milliseconds as int,
                Seq::empty(),
            ),
            reported@ == ids(old(self)@.levels[0][old(self)@.now.milliseconds as int]),
    {
        let ghost before = self@;
        let index: usize = self.time.milliseconds() as usize;
        let mut due: Vec<Action> = Vec::new();
        std::mem::swap(&mut due, &mut self.milliseconds[index]);
        proof {
            assert(rows(self.milliseconds@) =~= before.levels[0].update(
                index as int,
                Seq::empty(),
            ));
            assert(self@.levels =~= before.with_bucket(0, index as int, Seq::empty()).levels);
        }

        let ghost all = due@;
        let mut reported: Vec<usize> = Vec::new();
        for action in it: due
            invariant
                it.seq() == all,
                reported@ == ids(all.take(it.index() as int)),
        {
            reported.push(action.id());
            proof {
                let done = all.take(it.index() as int);
                assert(all.take(it.index() + 1) =~= done.push(action));
                assert(ids(done.push(action)) =~= ids(done).push(action.spec_id()));
            }
        }
        assert(all.take(all.len() as int) =~= all);
        reported
    }
}

/// The field of a clock value that the given level goes by.
fn field_of(time: Time, level: u8) -> (index: usize)
    requires
        level < 4,
    ensures
        index == field(time@, level as int),
{
    if level == 0 {
        time.milliseconds() as usize
    } else if level == 1 {
        time.seconds() as usize
    } else if level == 2 {
        time.minutes() as usize
    } else {
        time.hours() as usize
    }
}

/// Empties one bucket of a level into the buckets of the level below.
fn cascade(from: &mut Vec<Vec<Action>>, index: usize, into: &mut Vec<Vec<Action>>, level: u8)
    requires
        index < old(from).len(),
        level < 4,
        fits(rows(old(from)@)[index as int], level as int, old(into).len() as nat),
    ensures
        rows(final(from)@) == rows(old(from)@).update(index as int, Seq::empty()),
        rows(final(into)@) == scatter(rows(old(into)@), old(from)[index as int]@, level as int),
{
    let mut moved: Vec<Action> = Vec::new();
    std::mem::swap(&mut moved, &mut from[index]);
    let ghost all = moved@;
    let ghost before = rows(into@);
    proof {
        assert(all == rows(old(from)@)[index as int]);
        assert(rows(from@) =~= rows(old(from)@).update(index as int, Seq::empty()));
        lemma_scatter_none(before, level as int);
    }
    for action in it: moved
        invariant
            level < 4,
            it.seq() == all,
            into.len() == before.len(),
            rows(into@) == scatter(before, all.take(it.index() as int), level as int),
            fits(all, level as int, into.len() as nat),
    {
        let slot: usize = field_of(action.time(), level);
        proof {
            let done = all.take(it.index() as int);
            assert(all.take(it.index() + 1) =~= done.push(action));
            lemma_scatter_push(before, done, action, level as int);
        }
        let ghost prior = into@;
        into[slot].push(action);
        assert(rows(into@) =~= rows(prior).update(slot as int, prior[slot as int]@.push(action)));
    }
    assert(all.take(all.len() as int) =~= all);
}

} // verus!
