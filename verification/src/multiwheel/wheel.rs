//! The wheel as a mathematical value: a clock and, for each of the five
//! levels, a row of buckets of actions.

use vstd::prelude::*;
use super::action::Action;
use super::time::Fields;

verus! {

/// The field of a clock value that a level goes by: level 0 is
/// milliseconds, level 4 is days.
pub open spec fn field(f: Fields, level: int) -> nat {
    if level == 0 {
        f.milliseconds
    } else if level == 1 {
        f.seconds
    } else if level == 2 {
        f.minutes
    } else if level == 3 {
        f.hours
    } else {
        f.days
    }
}

/// The number of values that a level's field takes.
pub open spec fn radix(level: int) -> nat {
    if level == 0 {
        100
    } else if level == 1 {
        60
    } else if level == 2 {
        60
    } else if level == 3 {
        24
    } else {
        65536
    }
}

/// The coarsest level at which a clock value has a nonzero field, or -1
/// for the zero clock.
pub open spec fn coarsest(f: Fields) -> int {
    if f.days > 0 {
        4
    } else if f.hours > 0 {
        3
    } else if f.minutes > 0 {
        2
    } else if f.seconds > 0 {
        1
    } else if f.milliseconds > 0 {
        0
    } else {
        -1
    }
}

/// Whether the next tick of the clock changes the field of the given
/// level. The milliseconds change at every tick; a coarser field changes
/// when every finer one carries.
pub open spec fn rolls(f: Fields, level: int) -> bool {
    if level == 0 {
        true
    } else if level == 1 {
        f.rolls_seconds()
    } else if level == 2 {
        f.rolls_minutes()
    } else if level == 3 {
        f.rolls_hours()
    } else {
        f.rolls_days()
    }
}

/// Whether two clock values have the same field at every level from `low`
/// to `high`.
pub open spec fn agrees(f: Fields, g: Fields, low: int, high: int) -> bool {
    &&& low <= 0 <= high ==> f.milliseconds == g.milliseconds
    &&& low <= 1 <= high ==> f.seconds == g.seconds
    &&& low <= 2 <= high ==> f.minutes == g.minutes
    &&& low <= 3 <= high ==> f.hours == g.hours
    &&& low <= 4 <= high ==> f.days == g.days
}

/// The coarsest level whose field the next tick of the clock changes.
pub open spec fn top_rolled(f: Fields) -> int {
    if f.rolls_days() {
        4
    } else if f.rolls_hours() {
        3
    } else if f.rolls_minutes() {
        2
    } else if f.rolls_seconds() {
        1
    } else {
        0
    }
}

/// An action is due when the clock reads `now`: its expiry time is reduced,
/// not zero, and equal to `now` in every field from milliseconds up to its
/// coarsest nonzero one.
pub open spec fn due(now: Fields, a: Action) -> bool {
    let t = a.spec_time()@;
    &&& t.reduced()
    &&& coarsest(t) >= 0
    &&& agrees(now, t, 0, coarsest(t))
}

/// The rows of buckets as sequences.
pub open spec fn rows(buckets: Seq<Vec<Action>>) -> Seq<Seq<Action>> {
    buckets.map_values(|bucket: Vec<Action>| bucket@)
}

/// Whether an action belongs in bucket `k` of the given level.
pub open spec fn lands_in(level: int, k: int) -> spec_fn(Action) -> bool {
    |a: Action| field(a.spec_time()@, level) == k
}

/// The buckets of a level after the given actions have been handed down to
/// it: each action joins, in order, the end of the bucket that its field
/// at this level names.
pub open spec fn scatter(buckets: Seq<Seq<Action>>, moved: Seq<Action>, level: int) -> Seq<
    Seq<Action>,
> {
    Seq::new(buckets.len(), |k: int| buckets[k] + moved.filter(lands_in(level, k)))
}

/// Handing down no action leaves the buckets as they are.
pub proof fn lemma_scatter_none(buckets: Seq<Seq<Action>>, level: int)
    ensures
        scatter(buckets, Seq::empty(), level) == buckets,
{
    reveal(Seq::filter);
    assert forall|k: int| 0 <= k < buckets.len() implies #[trigger] scatter(
        buckets,
        Seq::empty(),
        level,
    )[k] == buckets[k] by {
        assert(Seq::<Action>::empty().filter(lands_in(level, k)) =~= Seq::empty());
        assert(buckets[k] + Seq::<Action>::empty() =~= buckets[k]);
    }
    assert(scatter(buckets, Seq::empty(), level) =~= buckets);
}

/// Handing down one more action appends it to the bucket it belongs in.
pub proof fn lemma_scatter_push(
    buckets: Seq<Seq<Action>>,
    moved: Seq<Action>,
    a: Action,
    level: int,
)
    requires
        field(a.spec_time()@, level) < buckets.len(),
    ensures
        scatter(buckets, moved.push(a), level) == scatter(buckets, moved, level).update(
            field(a.spec_time()@, level) as int,
            scatter(buckets, moved, level)[field(a.spec_time()@, level) as int].push(a),
        ),
{
    reveal(Seq::filter);
    let slot = field(a.spec_time()@, level) as int;
    let before = scatter(buckets, moved, level);
    let after = scatter(buckets, moved.push(a), level);
    assert(moved.push(a).drop_last() =~= moved);
    assert forall|k: int| 0 <= k < buckets.len() implies #[trigger] after[k] == before.update(
        slot,
        before[slot].push(a),
    )[k] by {
        if k == slot {
            assert(moved.push(a).filter(lands_in(level, k)) == moved.filter(
                lands_in(level, k),
            ).push(a));
            assert(buckets[k] + moved.filter(lands_in(level, k)).push(a) =~= (buckets[k]
                + moved.filter(lands_in(level, k))).push(a));
        } else {
            assert(moved.push(a).filter(lands_in(level, k)) == moved.filter(lands_in(level, k)));
        }
    }
    assert(after =~= before.update(slot, before[slot].push(a)));
}

/// The state of a wheel: the clock, and for each level its row of
/// buckets. Level 0 holds 100 millisecond buckets, level 1 holds 60 second
/// buckets, level 2 holds 60 minute buckets, level 3 holds 24 hour buckets
/// and level 4 holds the day buckets.
pub struct Wheel {
    pub now: Fields,
    pub levels: Seq<Seq<Seq<Action>>>,
}

impl Wheel {
    /// A wheel with the given clock, the given number of day buckets and
    /// nothing stored.
    pub open spec fn empty(now: Fields, capacity: nat) -> Wheel {
        Wheel {
            now,
            levels: Seq::new(
                5,
                |level: int|
                    Seq::new(
                        if level == 4 {
                            capacity
                        } else {
                            radix(level)
                        },
                        |k: int| Seq::empty(),
                    ),
            ),
        }
    }

    /// The number of day buckets.
    pub open spec fn capacity(self) -> nat {
        self.levels[4].len()
    }

    /// The next tick is within the wheel's capacity: when the day changes,
    /// the new day has a bucket.
    pub open spec fn can_tick(self) -> bool {
        self.now.rolls_days() && !self.now.halts() ==> self.now.days + 1 < self.capacity()
    }

    /// The wheel with its clock set.
    pub open spec fn at(self, now: Fields) -> Wheel {
        Wheel { now, levels: self.levels }
    }

    /// The wheel with one bucket replaced.
    pub open spec fn with_bucket(self, level: int, k: int, bucket: Seq<Action>) -> Wheel {
        Wheel {
            now: self.now,
            levels: self.levels.update(level, self.levels[level].update(k, bucket)),
        }
    }

    /// The wheel after an action has been stored: it joins the end of the
    /// bucket that the coarsest nonzero field of its expiry time names, at
    /// that field's level.
    pub open spec fn insert(self, a: Action) -> Wheel
        recommends
            coarsest(a.spec_time()@) >= 0,
    {
        let level = coarsest(a.spec_time()@);
        let k = field(a.spec_time()@, level) as int;
        self.with_bucket(level, k, self.levels[level][k].push(a))
    }

    /// The wheel after the bucket that the clock names at the given level
    /// has been emptied into the level below.
    pub open spec fn cascade(self, level: int) -> Wheel {
        let k = field(self.now, level) as int;
        Wheel {
            now: self.now,
            levels: self.levels.update(
                level - 1,
                scatter(self.levels[level - 1], self.levels[level][k], level - 1),
            ).update(level, self.levels[level].update(k, Seq::empty())),
        }
    }

    /// The wheel after a cascade at the given level, if that level's field
    /// has just changed.
    pub open spec fn cascade_if(self, rolled: bool, level: int) -> Wheel {
        if rolled {
            self.cascade(level)
        } else {
            self
        }
    }

    /// The wheel after the levels from `level` down to seconds have had
    /// their turn, coarsest first: each cascades if the tick of the clock
    /// from `was` changed its field.
    pub open spec fn settle_from(self, was: Fields, level: int) -> Wheel
        decreases level,
    {
        if level <= 0 {
            self
        } else {
            self.cascade_if(rolls(was, level), level).settle_from(was, level - 1)
        }
    }

    /// The wheel after the clock has advanced from `was` to its present
    /// value and every level whose field changed has cascaded, coarsest
    /// first.
    pub open spec fn settle(self, was: Fields) -> Wheel {
        self.cascade_if(rolls(was, 4), 4).cascade_if(rolls(was, 3), 3).cascade_if(
            rolls(was, 2),
            2,
        ).cascade_if(rolls(was, 1), 1)
    }

    /// Settling is the turn of each level from days down to seconds.
    pub proof fn lemma_settle_by_turns(self, was: Fields)
        ensures
            self.settle(was) == self.settle_from(was, 4),
    {
        reveal_with_fuel(Wheel::settle_from, 5);
    }

    /// The actions that the next tick reports, in the order in which it
    /// reports them. A tick that halts reports nothing.
    pub open spec fn fired(self) -> Seq<Action> {
        let next = self.now.advance();
        if self.now.halts() {
            Seq::empty()
        } else {
            self.at(next).settle(self.now).levels[0][next.milliseconds as int]
        }
    }

    /// The wheel after the next tick. The clock advances. Unless the clock
    /// halts, every level whose field changed cascades, coarsest first, and
    /// the millisecond bucket that the clock now names is emptied.
    pub open spec fn tick(self) -> Wheel {
        let next = self.now.advance();
        if self.now.halts() {
            self.at(next)
        } else {
            self.at(next).settle(self.now).with_bucket(0, next.milliseconds as int, Seq::empty())
        }
    }
}

/// Every one of the given actions has a field below `len` at the given
/// level.
pub open spec fn fits(actions: Seq<Action>, level: int, len: nat) -> bool {
    forall|i: int|
        0 <= i < actions.len() ==> field((#[trigger] actions[i]).spec_time()@, level) < len
}

/// The identifiers of the given actions, in order.
pub open spec fn ids(actions: Seq<Action>) -> Seq<usize> {
    actions.map_values(|a: Action| a.spec_id())
}

} // verus!
