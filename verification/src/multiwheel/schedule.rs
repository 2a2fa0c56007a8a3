//! When a stored action is reported: the number of ticks that an action has
//! to wait, and the proof that every tick takes one off it.

use vstd::prelude::*;
use super::action::Action;
use super::time::Fields;
use super::time::lemma_advance_reduced;
use super::wheel::Wheel;
use super::wheel::field;
use super::wheel::radix;
use super::wheel::coarsest;
use super::wheel::rolls;
use super::wheel::top_rolled;
use super::wheel::lands_in;

verus! {

/// The number of ticks in `k` steps of a level's field.
pub open spec fn steps(level: int, k: int) -> int {
    if level == 0 {
        k
    } else if level == 1 {
        100 * k
    } else if level == 2 {
        6_000 * k
    } else if level == 3 {
        360_000 * k
    } else {
        8_640_000 * k
    }
}

/// The number of ticks in which a level's field goes once through all its
/// values.
pub open spec fn span(level: int) -> int {
    steps(level, radix(level) as int)
}

/// The number of ticks that the fields finer than the given level stand
/// for.
pub open spec fn below(f: Fields, level: int) -> nat {
    if level <= 0 {
        0
    } else if level == 1 {
        f.milliseconds
    } else if level == 2 {
        f.milliseconds + 100 * f.seconds
    } else if level == 3 {
        f.milliseconds + 100 * (f.seconds + 60 * f.minutes)
    } else {
        f.milliseconds + 100 * (f.seconds + 60 * (f.minutes + 60 * f.hours))
    }
}

/// The number of ticks, at least one, until the clock next turns to `k` at
/// the given level: until that field becomes `k` and every finer field is
/// zero.
pub open spec fn wait(now: Fields, level: int, k: int) -> nat {
    let target = steps(level, k);
    let phase = below(now, level) + steps(level, field(now, level) as int);
    if target > phase {
        (target - phase) as nat
    } else {
        (target + span(level) - phase) as nat
    }
}

/// The number of ticks after which an action with expiry time `t`, stored
/// at the given level while the clock is at `now`, is reported: the wait
/// for the clock to turn to the action's field at that level, and then the
/// ticks that its finer fields stand for.
pub open spec fn remaining(now: Fields, level: int, t: Fields) -> nat {
    wait(now, level, field(t, level) as int) + below(t, level)
}

/// The ticks left for an action stored in bucket `k` of the given level in
/// the middle of a tick, when the clock has advanced and the bucket that
/// it names at the level `pending` has yet to be handed down.
pub open spec fn left(now: Fields, level: int, k: int, t: Fields, pending: int) -> nat {
    if level == pending && k == field(now, level) {
        below(t, level)
    } else {
        wait(now, level, k) + below(t, level)
    }
}

/// An action stored at the level of the coarsest nonzero field of its
/// expiry time `t`, before the clock has reached the start of that field's
/// step, is reported when the clock reads `t`: the ticks it has to go are
/// the ticks from `now` to `t`.
pub proof fn lemma_remaining_distance(now: Fields, t: Fields)
    requires
        now.reduced(),
        t.reduced(),
        coarsest(t) >= 0,
        now.ticks() < steps(coarsest(t), field(t, coarsest(t)) as int),
    ensures
        now.ticks() < t.ticks(),
        remaining(now, coarsest(t), t) == t.ticks() - now.ticks(),
{
    let c = coarsest(t);
    if c == 0 {
    } else if c == 1 {
    } else if c == 2 {
    } else if c == 3 {
    } else {
    }
}

impl Wheel {
    /// The wheel stores the action `a` somewhere with `r` ticks to go.
    pub open spec fn holds(self, a: Action, r: nat) -> bool {
        exists|level: int, k: int, i: int|
            0 <= level < 5 && 0 <= k < self.levels[level].len() && 0 <= i
                < self.levels[level][k].len() && #[trigger] self.levels[level][k][i] == a
                && remaining(self.now, level, a.spec_time()@) == r
    }

    /// In the middle of a tick, the wheel stores the action `a` somewhere
    /// with `e` ticks left after this one.
    pub open spec fn holds_mid(self, pending: int, a: Action, e: nat) -> bool {
        exists|level: int, k: int, i: int|
            0 <= level < 5 && 0 <= k < self.levels[level].len() && 0 <= i
                < self.levels[level][k].len() && #[trigger] self.levels[level][k][i] == a && left(
                self.now,
                level,
                k,
                a.spec_time()@,
                pending,
            ) == e
    }
}

/// Advancing the clock takes one tick off what is left for an action that
/// is where it belongs.
pub(crate) proof fn lemma_step_left(was: Fields, level: int, k: int, a: Action)
    requires
        was.reduced(),
        !was.halts(),
        0 <= level < 5,
        Wheel::placed(was, level, k, a),
    ensures
        remaining(was, level, a.spec_time()@) == left(
            was.advance(),
            level,
            k,
            a.spec_time()@,
            top_rolled(was),
        ) + 1,
{
    let t = a.spec_time()@;
    let next = was.advance();
    let top = top_rolled(was);
    if level == 0 {
    } else if level == 1 {
    } else if level == 2 {
    } else if level == 3 {
    } else {
    }
}

/// An action that has just been handed down to the level below `level`,
/// at a moment when every field of the clock finer than `level` is zero,
/// has as many ticks left there as its finer fields stand for.
pub(crate) proof fn lemma_cascade_left(now: Fields, level: int, t: Fields)
    requires
        1 <= level <= 4,
        now.reduced(),
        t.reduced(),
        below(now, level) == 0,
    ensures
        left(now, level - 1, field(t, level - 1) as int, t, level - 1) == below(t, level),
{
    if level == 1 {
    } else if level == 2 {
    } else if level == 3 {
    } else {
    }
}

/// The wait for the clock to turn is at least one tick and at most one
/// round of the level.
pub proof fn lemma_wait_bounds(now: Fields, level: int, k: int)
    requires
        now.reduced(),
        0 <= level < 5,
        0 <= k < radix(level),
    ensures
        1 <= wait(now, level, k) <= span(level),
{
    if level == 0 {
    } else if level == 1 {
    } else if level == 2 {
    } else if level == 3 {
    } else {
    }
}

impl Wheel {
    /// While the clock of a well-formed wheel advances without halting,
    /// each stored action loses one tick.
    pub(crate) proof fn lemma_step_holds(self, a: Action, e: nat)
        requires
            self.wf(),
            !self.now.halts(),
        ensures
            self.holds(a, e + 1) <==> self.at(self.now.advance()).holds_mid(
                top_rolled(self.now),
                a,
                e,
            ),
    {
        let was = self.now;
        let next = was.advance();
        let top = top_rolled(was);
        let after = self.at(next);
        if self.holds(a, e + 1) {
            let (level, k, i) = choose|level: int, k: int, i: int|
                0 <= level < 5 && 0 <= k < self.levels[level].len() && 0 <= i
                    < self.levels[level][k].len() && #[trigger] self.levels[level][k][i] == a
                    && remaining(self.now, level, a.spec_time()@) == e + 1;
            assert(Wheel::placed(was, level, k, self.levels[level][k][i]));
            lemma_step_left(was, level, k, a);
            assert(after.levels[level][k][i] == a);
        }
        if after.holds_mid(top, a, e) {
            let (level, k, i) = choose|level: int, k: int, i: int|
                0 <= level < 5 && 0 <= k < after.levels[level].len() && 0 <= i
                    < after.levels[level][k].len() && #[trigger] after.levels[level][k][i] == a
                    && left(after.now, level, k, a.spec_time()@, top) == e;
            assert(Wheel::placed(was, level, k, self.levels[level][k][i]));
            lemma_step_left(was, level, k, a);
            assert(self.levels[level][k][i] == a);
        }
    }

    /// An action that a cascade leaves where it is keeps the ticks it has
    /// left.
    pub(crate) proof fn lemma_left_unmoved(now: Fields, level: int, l: int, k: int, a: Action)
        requires
            1 <= level <= 4,
            0 <= l < 5,
            now.reduced(),
            below(now, level) == 0,
            Wheel::placed(now, l, k, a),
            !(l == level && k == field(now, level)),
        ensures
            left(now, l, k, a.spec_time()@, level) == left(now, l, k, a.spec_time()@, level - 1),
    {
        if level == 1 {
        } else if level == 2 {
        } else if level == 3 {
        } else {
        }
    }

    /// What a wheel stores before a cascade, it stores after it with the
    /// same ticks left.
    pub(crate) proof fn lemma_cascade_onward(self, level: int, a: Action, e: nat)
        requires
            self.settling(level),
            1 <= level <= 4,
            field(self.now, level) < self.levels[level].len(),
            below(self.now, level) == 0,
            self.holds_mid(level, a, e),
        ensures
            self.cascade(level).holds_mid(level - 1, a, e),
    {
        let now = self.now;
        let after = self.cascade(level);
        let slot = field(now, level) as int;
        let moved = self.levels[level][slot];
        let t = a.spec_time()@;
        let (l, k, i) = choose|l: int, k: int, i: int|
            0 <= l < 5 && 0 <= k < self.levels[l].len() && 0 <= i < self.levels[l][k].len()
                && #[trigger] self.levels[l][k][i] == a && left(now, l, k, t, level) == e;
        if l == level && k == slot {
            assert(Wheel::arrived(now, level, slot, self.levels[l][k][i]));
            let down = field(t, level - 1) as int;
            let kept = moved.filter(lands_in(level - 1, down));
            assert(lands_in(level - 1, down)(moved[i]));
            moved.lemma_filter_contains(lands_in(level - 1, down), i);
            let at = choose|at: int| 0 <= at < kept.len() && kept[at] == a;
            let old_len = self.levels[level - 1][down].len();
            assert(0 <= down < after.levels[level - 1].len());
            assert(after.levels[level - 1][down] == self.levels[level - 1][down] + kept);
            assert(after.levels[level - 1][down][old_len + at] == a);
            lemma_cascade_left(now, level, t);
        } else {
            assert(Wheel::placed(now, l, k, self.levels[l][k][i]));
            Wheel::lemma_left_unmoved(now, level, l, k, a);
            if l == level - 1 {
                assert(after.levels[l][k] == self.levels[l][k] + moved.filter(lands_in(l, k)));
            }
            assert(after.levels[l][k][i] == a);
        }
    }

    /// What a wheel stores after a cascade, it stored before it with the
    /// same ticks left.
    pub(crate) proof fn lemma_cascade_back(self, level: int, a: Action, e: nat)
        requires
            self.settling(level),
            1 <= level <= 4,
            field(self.now, level) < self.levels[level].len(),
            below(self.now, level) == 0,
            self.cascade(level).holds_mid(level - 1, a, e),
        ensures
            self.holds_mid(level, a, e),
    {
        let now = self.now;
        let after = self.cascade(level);
        let slot = field(now, level) as int;
        let moved = self.levels[level][slot];
        let t = a.spec_time()@;
        let (l, k, i) = choose|l: int, k: int, i: int|
            0 <= l < 5 && 0 <= k < after.levels[l].len() && 0 <= i < after.levels[l][k].len()
                && #[trigger] after.levels[l][k][i] == a && left(now, l, k, t, level - 1) == e;
        let old_len = self.levels[l][k].len();
        if l == level - 1 && i >= old_len {
            let kept = moved.filter(lands_in(l, k));
            assert(after.levels[l][k] == self.levels[l][k] + kept);
            assert(a == kept[i - old_len]);
            moved.lemma_filter_pred(lands_in(l, k), i - old_len);
            assert(lands_in(l, k)(a));
            assert(kept.contains(a));
            moved.lemma_filter_contains_rev(lands_in(l, k), a);
            let j = choose|j: int| 0 <= j < moved.len() && moved[j] == a;
            assert(self.levels[level][slot][j] == a);
            assert(Wheel::arrived(now, level, slot, self.levels[level][slot][j]));
            lemma_cascade_left(now, level, t);
        } else {
            if l == level - 1 {
                assert(after.levels[l][k] == self.levels[l][k] + moved.filter(lands_in(l, k)));
            }
            assert(self.levels[l][k][i] == a);
            assert(Wheel::placed(now, l, k, self.levels[l][k][i]));
            Wheel::lemma_left_unmoved(now, level, l, k, a);
        }
    }

    /// A cascade moves actions without changing the ticks they have left.
    pub(crate) proof fn lemma_cascade_holds(self, level: int, a: Action, e: nat)
        requires
            self.settling(level),
            1 <= level <= 4,
            field(self.now, level) < self.levels[level].len(),
            forall|j: int| 0 <= j < level ==> field(self.now, j) == 0,
        ensures
            self.holds_mid(level, a, e) <==> self.cascade(level).holds_mid(level - 1, a, e),
    {
        let now = self.now;
        assert(field(now, 0) == 0);
        assert(level > 1 ==> field(now, 1) == 0);
        assert(level > 2 ==> field(now, 2) == 0);
        assert(level > 3 ==> field(now, 3) == 0);
        assert(below(now, level) == 0);
        if self.holds_mid(level, a, e) {
            self.lemma_cascade_onward(level, a, e);
        }
        if self.cascade(level).holds_mid(level - 1, a, e) {
            self.lemma_cascade_back(level, a, e);
        }
    }

    /// The turns of the levels from `level` down move actions without
    /// changing the ticks they have left.
    pub(crate) proof fn lemma_settle_from_holds(self, was: Fields, level: int, a: Action, e: nat)
        requires
            self.turning(was, level),
        ensures
            self.holds_mid(
                if top_rolled(was) < level {
                    top_rolled(was)
                } else {
                    level
                },
                a,
                e,
            ) <==> self.settle_from(was, level).holds_mid(0, a, e),
        decreases level,
    {
        if level > 0 {
            self.lemma_turn(was, level);
            if rolls(was, level) {
                lemma_advance_reduced(was);
                assert forall|j: int| 0 <= j < level implies field(self.now, j) == 0 by {}
                self.lemma_cascade_holds(level, a, e);
            }
            self.cascade_if(rolls(was, level), level).lemma_settle_from_holds(
                was,
                level - 1,
                a,
                e,
            );
        }
    }

    /// Once the clock has advanced without halting and the levels that
    /// changed have cascaded, each stored action has lost one tick.
    pub(crate) proof fn lemma_settle_holds(self, a: Action, e: nat)
        requires
            self.wf(),
            self.can_tick(),
            !self.now.halts(),
        ensures
            self.holds(a, e + 1) <==> self.at(self.now.advance()).settle(self.now).holds_mid(
                0,
                a,
                e,
            ),
    {
        self.lemma_step_holds(a, e);
        self.lemma_step_turning();
        self.at(self.now.advance()).lemma_settle_by_turns(self.now);
        self.at(self.now.advance()).lemma_settle_from_holds(self.now, 4, a, e);
    }

    /// When only the millisecond bucket that the clock names is left to
    /// empty, that bucket holds the actions with no tick left, and the
    /// others stay with the ticks they have.
    pub(crate) proof fn lemma_drain_holds(self, a: Action, e: nat)
        requires
            self.settling(0),
        ensures
            self.holds_mid(0, a, 0) <==> self.levels[0][self.now.milliseconds as int].contains(a),
            !self.with_bucket(0, self.now.milliseconds as int, Seq::empty()).holds(a, 0),
            e > 0 ==> (self.holds_mid(0, a, e) <==> self.with_bucket(
                0,
                self.now.milliseconds as int,
                Seq::empty(),
            ).holds(a, e)),
    {
        let now = self.now;
        let slot = now.milliseconds as int;
        let after = self.with_bucket(0, slot, Seq::empty());
        let t = a.spec_time()@;
        if self.holds_mid(0, a, 0) {
            let (l, k, i) = choose|l: int, k: int, i: int|
                0 <= l < 5 && 0 <= k < self.levels[l].len() && 0 <= i < self.levels[l][k].len()
                    && #[trigger] self.levels[l][k][i] == a && left(now, l, k, t, 0) == 0;
            if l == 0 && k == slot {
            } else {
                assert(Wheel::placed(now, l, k, self.levels[l][k][i]));
                lemma_wait_bounds(now, l, k);
            }
        }
        if self.levels[0][slot].contains(a) {
            let bucket = self.levels[0][slot];
            let i = choose|i: int| 0 <= i < bucket.len() && bucket[i] == a;
            assert(self.levels[0][slot][i] == a);
            assert(left(now, 0, slot, t, 0) == 0);
        }
        if after.holds(a, 0) {
            let (l, k, i) = choose|l: int, k: int, i: int|
                0 <= l < 5 && 0 <= k < after.levels[l].len() && 0 <= i < after.levels[l][k].len()
                    && #[trigger] after.levels[l][k][i] == a && remaining(now, l, t) == 0;
            assert(self.levels[l][k][i] == a);
            assert(Wheel::placed(now, l, k, self.levels[l][k][i]));
            lemma_wait_bounds(now, l, k);
        }
        if e > 0 {
            if self.holds_mid(0, a, e) {
                let (l, k, i) = choose|l: int, k: int, i: int|
                    0 <= l < 5 && 0 <= k < self.levels[l].len() && 0 <= i
                        < self.levels[l][k].len() && #[trigger] self.levels[l][k][i] == a && left(
                        now,
                        l,
                        k,
                        t,
                        0,
                    ) == e;
                assert(!(l == 0 && k == slot));
                assert(Wheel::placed(now, l, k, self.levels[l][k][i]));
                assert(after.levels[l][k][i] == a);
            }
            if after.holds(a, e) {
                let (l, k, i) = choose|l: int, k: int, i: int|
                    0 <= l < 5 && 0 <= k < after.levels[l].len() && 0 <= i
                        < after.levels[l][k].len() && #[trigger] after.levels[l][k][i] == a
                        && remaining(now, l, t) == e;
                assert(self.levels[l][k][i] == a);
                assert(Wheel::placed(now, l, k, self.levels[l][k][i]));
            }
        }
    }

    /// A well-formed wheel stores no action with no tick to go.
    pub proof fn lemma_never_overdue(self, a: Action)
        requires
            self.wf(),
        ensures
            !self.holds(a, 0),
    {
        if self.holds(a, 0) {
            let (l, k, i) = choose|l: int, k: int, i: int|
                0 <= l < 5 && 0 <= k < self.levels[l].len() && 0 <= i < self.levels[l][k].len()
                    && #[trigger] self.levels[l][k][i] == a && remaining(
                    self.now,
                    l,
                    a.spec_time()@,
                ) == 0;
            assert(Wheel::placed(self.now, l, k, self.levels[l][k][i]));
            lemma_wait_bounds(self.now, l, k);
        }
    }

    /// Storing an action adds it with the ticks that its level and the
    /// clock give it, and leaves what was stored as it was.
    pub proof fn lemma_insert_holds(self, a: Action, b: Action, r: nat)
        requires
            self.shaped(),
            a.spec_time()@.reduced(),
            coarsest(a.spec_time()@) >= 0,
            a.spec_time()@.days > 0 ==> a.spec_time()@.days < self.capacity(),
        ensures
            self.insert(a).holds(b, r) <==> self.holds(b, r) || (b == a && r == remaining(
                self.now,
                coarsest(a.spec_time()@),
                a.spec_time()@,
            )),
    {
        let after = self.insert(a);
        let t = a.spec_time()@;
        let c = coarsest(t);
        let slot = field(t, c) as int;
        assert(0 <= c < 5 && 0 <= slot < self.levels[c].len());
        assert(after.levels[c][slot] == self.levels[c][slot].push(a));
        assert forall|l: int, k: int|
            0 <= l < 5 && 0 <= k < self.levels[l].len() && !(l == c && k == slot) implies (
        #[trigger] after.levels[l][k]) == self.levels[l][k] by {}
        if self.holds(b, r) {
            let (l, k, i) = choose|l: int, k: int, i: int|
                0 <= l < 5 && 0 <= k < self.levels[l].len() && 0 <= i < self.levels[l][k].len()
                    && #[trigger] self.levels[l][k][i] == b && remaining(
                    self.now,
                    l,
                    b.spec_time()@,
                ) == r;
            assert(after.levels[l][k][i] == b);
        }
        if b == a && r == remaining(self.now, c, t) {
            let old_len = self.levels[c][slot].len() as int;
            assert(after.levels[c][slot][old_len] == a);
        }
        if after.holds(b, r) {
            let (l, k, i) = choose|l: int, k: int, i: int|
                0 <= l < 5 && 0 <= k < after.levels[l].len() && 0 <= i < after.levels[l][k].len()
                    && #[trigger] after.levels[l][k][i] == b && remaining(
                    self.now,
                    l,
                    b.spec_time()@,
                ) == r;
            if l == c && k == slot && i == self.levels[c][slot].len() {
            } else {
                assert(self.levels[l][k][i] == b);
            }
        }
    }

    /// Every tick that does not halt takes one tick off each stored action.
    /// No action is stored with no tick to go; the actions with one tick to
    /// go are those that the tick reports; and the wheel after the tick
    /// stores an action with `r` ticks to go exactly when the wheel before
    /// it stored that action with one more.
    pub proof fn lemma_tick_countdown(self, a: Action, r: nat)
        requires
            self.wf(),
            self.can_tick(),
            !self.now.halts(),
        ensures
            !self.holds(a, 0),
            self.holds(a, 1) <==> self.fired().contains(a),
            r >= 1 ==> (self.holds(a, r + 1) <==> self.tick().holds(a, r)),
    {
        let was = self.now;
        let next = was.advance();
        let settled = self.at(next).settle(was);
        self.lemma_settle();
        self.lemma_settle_holds(a, 0);
        self.lemma_settle_holds(a, r);
        settled.lemma_drain_holds(a, r);
        self.lemma_never_overdue(a);
    }

    /// The wheel after the given number of ticks.
    pub open spec fn run(self, n: nat) -> Wheel
        decreases n,
    {
        if n == 0 {
            self
        } else {
            self.run((n - 1) as nat).tick()
        }
    }

    /// Each of the next `n` ticks is within the wheel's capacity and does
    /// not halt.
    pub open spec fn runs(self, n: nat) -> bool {
        forall|m: nat| m < n ==> (#[trigger] self.run(m)).can_tick() && !self.run(m).now.halts()
    }

    /// An action stored with `r` ticks to go is still stored after `m < r`
    /// ticks, with `r - m` ticks to go.
    pub proof fn lemma_run_countdown(self, a: Action, r: nat, m: nat)
        requires
            self.wf(),
            self.holds(a, r),
            m < r,
            self.runs(m),
        ensures
            self.run(m).wf(),
            self.run(m).holds(a, (r - m) as nat),
        decreases m,
    {
        if m > 0 {
            let before = self.run((m - 1) as nat);
            assert(self.runs((m - 1) as nat)) by {
                assert forall|j: nat| j < m - 1 implies (#[trigger] self.run(j)).can_tick()
                    && !self.run(j).now.halts() by {}
            }
            self.lemma_run_countdown(a, r, (m - 1) as nat);
            assert(before.can_tick() && !before.now.halts());
            before.lemma_tick_wf();
            before.lemma_tick_countdown(a, (r - m) as nat);
        }
    }

    /// An action stored with `r` ticks to go is reported by the `r`-th
    /// tick from now, when the ticks up to that one are within the wheel's
    /// capacity and do not halt.
    pub proof fn lemma_reported_on_time(self, a: Action, r: nat)
        requires
            self.wf(),
            self.holds(a, r),
            self.runs(r),
        ensures
            r >= 1,
            self.run((r - 1) as nat).fired().contains(a),
    {
        if r == 0 {
            self.lemma_never_overdue(a);
        } else {
            let last = self.run((r - 1) as nat);
            assert(self.runs((r - 1) as nat)) by {
                assert forall|j: nat| j < r - 1 implies (#[trigger] self.run(j)).can_tick()
                    && !self.run(j).now.halts() by {}
            }
            self.lemma_run_countdown(a, r, (r - 1) as nat);
            assert(last.can_tick() && !last.now.halts());
            last.lemma_tick_countdown(a, 1);
        }
    }
}

} // verus!
