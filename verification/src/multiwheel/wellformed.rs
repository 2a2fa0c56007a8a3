//! Why the wheel stays well formed: what holds of every stored action, and
//! the proof that storing an action and ticking keep it so.

use vstd::prelude::*;
use super::action::Action;
use super::time::Fields;
use super::time::lemma_advance_reduced;
use super::wheel::Wheel;
use super::wheel::agrees;
use super::wheel::coarsest;
use super::wheel::due;
use super::wheel::field;
use super::wheel::fits;
use super::wheel::lands_in;
use super::wheel::rolls;
use super::wheel::top_rolled;

verus! {

impl Wheel {
    /// The wheel has its five rows, each of its fixed length, with at most
    /// 65535 day buckets, and every stored expiry time is reduced.
    pub open spec fn shaped(self) -> bool {
        &&& self.levels.len() == 5
        &&& self.levels[0].len() == 100
        &&& self.levels[1].len() == 60
        &&& self.levels[2].len() == 60
        &&& self.levels[3].len() == 24
        &&& self.levels[4].len() <= 65535
        &&& forall|level: int, k: int, i: int|
            0 <= level < 5 && 0 <= k < self.levels[level].len() && 0 <= i
                < self.levels[level][k].len() ==> (
            #[trigger] self.levels[level][k][i]).spec_time()@.reduced()
    }

    /// An action stored at the given level, in bucket `k`, is where it
    /// belongs while the clock is at `now`. Its expiry time is reduced and
    /// has `k` in the field of this level. Either this is the level of the
    /// coarsest nonzero field of the expiry time; or the action came down
    /// from a coarser level, and then the clock has not reached `k` at this
    /// level, and reads as the expiry time does at every level above this
    /// one up to that of its coarsest nonzero field.
    pub open spec fn placed(now: Fields, level: int, k: int, a: Action) -> bool {
        let t = a.spec_time()@;
        &&& t.reduced()
        &&& field(t, level) == k
        &&& coarsest(t) >= level
        &&& coarsest(t) > level ==> field(now, level) < k && agrees(now, t, level + 1, coarsest(t))
    }

    /// An action stored at the given level, in bucket `k`, has come as far
    /// as the clock at `now` asks: as `placed`, but the clock may have just
    /// reached `k` at this level.
    pub open spec fn arrived(now: Fields, level: int, k: int, a: Action) -> bool {
        let t = a.spec_time()@;
        &&& t.reduced()
        &&& field(t, level) == k
        &&& coarsest(t) >= level
        &&& agrees(now, t, level + 1, coarsest(t))
    }

    /// The wheel in the middle of a tick, after the clock has advanced:
    /// every stored action is where it belongs, but for those in the bucket
    /// that the clock names at the level `pending`, which have yet to be
    /// handed down.
    pub open spec fn settling(self, pending: int) -> bool {
        &&& self.now.reduced()
        &&& self.shaped()
        &&& forall|level: int, k: int, i: int|
            0 <= level < 5 && 0 <= k < self.levels[level].len() && 0 <= i
                < self.levels[level][k].len() ==> {
                let a = #[trigger] self.levels[level][k][i];
                if level == pending && k == field(self.now, level) {
                    Wheel::arrived(self.now, level, k, a)
                } else {
                    Wheel::placed(self.now, level, k, a)
                }
            }
    }

    /// The wheel is in a state that its operations keep: the clock is
    /// reduced, the rows have their lengths, and every stored action is
    /// where it belongs.
    pub open spec fn wf(self) -> bool {
        &&& self.now.reduced()
        &&& self.shaped()
        &&& forall|level: int, k: int, i: int|
            0 <= level < 5 && 0 <= k < self.levels[level].len() && 0 <= i
                < self.levels[level][k].len() ==> Wheel::placed(
                self.now,
                level,
                k,
                #[trigger] self.levels[level][k][i],
            )
    }

    /// In a wheel of the right shape, the actions of a bucket fit the row
    /// below.
    pub(crate) proof fn lemma_bucket_fits(self, level: int, k: int)
        requires
            self.shaped(),
            1 <= level <= 4,
            0 <= k < self.levels[level].len(),
        ensures
            fits(self.levels[level][k], level - 1, self.levels[level - 1].len()),
    {
        assert forall|i: int| 0 <= i < self.levels[level][k].len() implies field(
            (#[trigger] self.levels[level][k][i]).spec_time()@,
            level - 1,
        ) < self.levels[level - 1].len() by {}
    }

    /// A cascade keeps the shape of the wheel.
    pub(crate) proof fn lemma_cascade_shaped(self, level: int)
        requires
            self.shaped(),
            1 <= level <= 4,
            field(self.now, level) < self.levels[level].len(),
        ensures
            self.cascade(level).shaped(),
            self.cascade(level).capacity() == self.capacity(),
    {
        broadcast use Seq::lemma_filter_contains_rev;

        let after = self.cascade(level);
        let slot = field(self.now, level) as int;
        let moved = self.levels[level][slot];
        assert forall|l: int, k: int, i: int|
            0 <= l < 5 && 0 <= k < after.levels[l].len() && 0 <= i
                < after.levels[l][k].len() implies (
        #[trigger] after.levels[l][k][i]).spec_time()@.reduced() by {
            let a = after.levels[l][k][i];
            if l == level - 1 {
                let old_len = self.levels[l][k].len();
                if i < old_len {
                    assert(a == self.levels[l][k][i]);
                } else {
                    let kept = moved.filter(lands_in(l, k));
                    assert(a == kept[i - old_len]);
                    assert(kept.contains(a));
                    assert(moved.contains(a));
                    let j = choose|j: int| 0 <= j < moved.len() && moved[j] == a;
                    assert(a == self.levels[level][slot][j]);
                }
            } else if l == level {
                if k != slot {
                    assert(a == self.levels[l][k][i]);
                }
            } else {
                assert(a == self.levels[l][k][i]);
            }
        }
    }

    /// When the clock of a well-formed wheel advances without halting, only
    /// the bucket that the clock now names at the coarsest level that
    /// changed holds actions that have to move.
    pub(crate) proof fn lemma_step_settling(self)
        requires
            self.wf(),
            !self.now.halts(),
        ensures
            self.at(self.now.advance()).settling(top_rolled(self.now)),
    {
        let was = self.now;
        let next = was.advance();
        let top = top_rolled(was);
        let after = self.at(next);
        assert forall|level: int, k: int, i: int|
            0 <= level < 5 && 0 <= k < after.levels[level].len() && 0 <= i
                < after.levels[level][k].len() implies {
            let a = #[trigger] after.levels[level][k][i];
            if level == top && k == field(next, level) {
                Wheel::arrived(next, level, k, a)
            } else {
                Wheel::placed(next, level, k, a)
            }
        } by {
            let a = self.levels[level][k][i];
            assert(Wheel::placed(was, level, k, a));
            assert(a.spec_time()@.reduced());
        }
        assert forall|level: int, k: int, i: int|
            0 <= level < 5 && 0 <= k < after.levels[level].len() && 0 <= i
                < after.levels[level][k].len() implies (
        #[trigger] after.levels[level][k][i]).spec_time()@.reduced() by {
            assert(Wheel::placed(was, level, k, self.levels[level][k][i]));
        }
    }

    /// A cascade at the pending level, once every finer field of the clock
    /// is zero, leaves the level below pending.
    pub(crate) proof fn lemma_cascade_settling(self, level: int)
        requires
            self.settling(level),
            1 <= level <= 4,
            field(self.now, level) < self.levels[level].len(),
            forall|j: int| 0 <= j < level ==> field(self.now, j) == 0,
        ensures
            self.cascade(level).settling(level - 1),
            self.cascade(level).capacity() == self.capacity(),
    {
        broadcast use Seq::lemma_filter_contains_rev, Seq::lemma_filter_pred;

        self.lemma_cascade_shaped(level);
        let now = self.now;
        let after = self.cascade(level);
        let slot = field(now, level) as int;
        let moved = self.levels[level][slot];
        assert(field(now, level - 1) == 0);
        assert forall|l: int, k: int, i: int|
            0 <= l < 5 && 0 <= k < after.levels[l].len() && 0 <= i
                < after.levels[l][k].len() implies {
            let a = #[trigger] after.levels[l][k][i];
            if l == level - 1 && k == field(now, l) {
                Wheel::arrived(now, l, k, a)
            } else {
                Wheel::placed(now, l, k, a)
            }
        } by {
            let a = after.levels[l][k][i];
            if l == level - 1 {
                let old_len = self.levels[l][k].len();
                if i < old_len {
                    assert(a == self.levels[l][k][i]);
                    assert(Wheel::placed(now, l, k, a));
                } else {
                    let kept = moved.filter(lands_in(l, k));
                    assert(a == kept[i - old_len]);
                    assert(lands_in(l, k)(a));
                    assert(kept.contains(a));
                    assert(moved.contains(a));
                    let j = choose|j: int| 0 <= j < moved.len() && moved[j] == a;
                    assert(a == self.levels[level][slot][j]);
                    assert(Wheel::arrived(now, level, slot, a));
                }
            } else if l == level {
                if k != slot {
                    assert(a == self.levels[l][k][i]);
                }
            } else {
                assert(a == self.levels[l][k][i]);
            }
        }
    }

    /// Emptying the millisecond bucket that the clock names, when no other
    /// bucket is pending, leaves the wheel well formed.
    pub(crate) proof fn lemma_drain_wf(self)
        requires
            self.settling(0),
        ensures
            self.with_bucket(0, self.now.milliseconds as int, Seq::empty()).wf(),
            self.with_bucket(0, self.now.milliseconds as int, Seq::empty()).capacity()
                == self.capacity(),
    {
        let after = self.with_bucket(0, self.now.milliseconds as int, Seq::empty());
        assert forall|level: int, k: int, i: int|
            0 <= level < 5 && 0 <= k < after.levels[level].len() && 0 <= i
                < after.levels[level][k].len() implies Wheel::placed(
            after.now,
            level,
            k,
            #[trigger] after.levels[level][k][i],
        ) by {
            assert(after.levels[level][k][i] == self.levels[level][k][i]);
        }
        assert forall|level: int, k: int, i: int|
            0 <= level < 5 && 0 <= k < after.levels[level].len() && 0 <= i
                < after.levels[level][k].len() implies (
        #[trigger] after.levels[level][k][i]).spec_time()@.reduced() by {
            assert(after.levels[level][k][i] == self.levels[level][k][i]);
        }
    }

    /// The wheel is in the middle of the tick that took the clock from
    /// `was` to its present value, and `level` is the next level to have
    /// its turn: the coarser levels have cascaded, and the one bucket whose
    /// actions have yet to move is at `level`, or at the coarsest level
    /// that changed if that is finer.
    pub open spec fn turning(self, was: Fields, level: int) -> bool {
        &&& was.reduced()
        &&& !was.halts()
        &&& self.now == was.advance()
        &&& 0 <= level <= 4
        &&& self.settling(
            if top_rolled(was) < level {
                top_rolled(was)
            } else {
                level
            },
        )
        &&& level == 4 && rolls(was, 4) ==> was.days + 1 < self.capacity()
    }

    /// After the clock of a well-formed wheel has advanced without halting,
    /// within the wheel's capacity, the day level is the next to have its
    /// turn.
    pub(crate) proof fn lemma_step_turning(self)
        requires
            self.wf(),
            self.can_tick(),
            !self.now.halts(),
        ensures
            self.at(self.now.advance()).turning(self.now, 4),
    {
        self.lemma_step_settling();
    }

    /// One level has its turn: if its field changed, the level has a
    /// bucket where the clock points, and the cascade leaves the next finer
    /// level to have its turn.
    pub(crate) proof fn lemma_turn(self, was: Fields, level: int)
        requires
            self.turning(was, level),
            level >= 1,
        ensures
            rolls(was, level) ==> field(self.now, level) < self.levels[level].len(),
            self.cascade_if(rolls(was, level), level).turning(was, level - 1),
            self.cascade_if(rolls(was, level), level).capacity() == self.capacity(),
    {
        lemma_advance_reduced(was);
        if rolls(was, level) {
            assert forall|j: int| 0 <= j < level implies field(self.now, j) == 0 by {}
            self.lemma_cascade_settling(level);
        }
    }

    /// Once the levels from `level` down have had their turn, only the
    /// millisecond bucket that the clock names is left to empty.
    pub(crate) proof fn lemma_settle_from(self, was: Fields, level: int)
        requires
            self.turning(was, level),
        ensures
            self.settle_from(was, level).settling(0),
            self.settle_from(was, level).now == self.now,
            self.settle_from(was, level).capacity() == self.capacity(),
        decreases level,
    {
        if level > 0 {
            self.lemma_turn(was, level);
            self.cascade_if(rolls(was, level), level).lemma_settle_from(was, level - 1);
        }
    }

    /// Once the clock has advanced without halting and the levels that
    /// changed have cascaded, only the millisecond bucket that the clock
    /// names is left to empty.
    pub(crate) proof fn lemma_settle(self)
        requires
            self.wf(),
            self.can_tick(),
            !self.now.halts(),
        ensures
            self.at(self.now.advance()).settle(self.now).settling(0),
            self.at(self.now.advance()).settle(self.now).now == self.now.advance(),
            self.at(self.now.advance()).settle(self.now).capacity() == self.capacity(),
    {
        self.lemma_step_turning();
        self.at(self.now.advance()).lemma_settle_by_turns(self.now);
        self.at(self.now.advance()).lemma_settle_from(self.now, 4);
    }

    /// A tick within the wheel's capacity keeps the wheel well formed.
    pub proof fn lemma_tick_wf(self)
        requires
            self.wf(),
            self.can_tick(),
        ensures
            self.tick().wf(),
            self.tick().capacity() == self.capacity(),
    {
        let was = self.now;
        let next = was.advance();
        lemma_advance_reduced(was);
        if was.halts() {
            let after = self.at(next);
            assert forall|level: int, k: int, i: int|
                0 <= level < 5 && 0 <= k < after.levels[level].len() && 0 <= i
                    < after.levels[level][k].len() implies Wheel::placed(
                after.now,
                level,
                k,
                #[trigger] after.levels[level][k][i],
            ) by {
                assert(Wheel::placed(was, level, k, self.levels[level][k][i]));
            }
            assert forall|level: int, k: int, i: int|
                0 <= level < 5 && 0 <= k < after.levels[level].len() && 0 <= i
                    < after.levels[level][k].len() implies (
            #[trigger] after.levels[level][k][i]).spec_time()@.reduced() by {
                assert(Wheel::placed(was, level, k, self.levels[level][k][i]));
            }
        } else {
            self.lemma_settle();
            self.at(next).settle(was).lemma_drain_wf();
        }
    }

    /// Every action that a tick reports is due: the clock, after the tick,
    /// reads as the action's expiry time does at every level from
    /// milliseconds up to that of the coarsest nonzero field of the expiry
    /// time. So an action is never reported before each of its fields has
    /// elapsed.
    pub proof fn lemma_fired_due(self, i: int)
        requires
            self.wf(),
            self.can_tick(),
            0 <= i < self.fired().len(),
        ensures
            due(self.now.advance(), self.fired()[i]),
    {
        let was = self.now;
        let next = was.advance();
        self.lemma_settle();
        let settled = self.at(next).settle(was);
        let a = settled.levels[0][next.milliseconds as int][i];
        assert(Wheel::arrived(next, 0, next.milliseconds as int, a));
    }

    /// Storing an action with a reduced expiry time that is not zero and
    /// whose day, if any, has a bucket keeps the wheel well formed.
    pub proof fn lemma_insert_wf(self, a: Action)
        requires
            self.wf(),
            a.spec_time()@.reduced(),
            coarsest(a.spec_time()@) >= 0,
            a.spec_time()@.days > 0 ==> a.spec_time()@.days < self.capacity(),
        ensures
            self.insert(a).wf(),
            self.insert(a).capacity() == self.capacity(),
    {
        let after = self.insert(a);
        let t = a.spec_time()@;
        let c = coarsest(t);
        let slot = field(t, c) as int;
        assert forall|level: int, k: int, i: int|
            0 <= level < 5 && 0 <= k < after.levels[level].len() && 0 <= i
                < after.levels[level][k].len() implies Wheel::placed(
            after.now,
            level,
            k,
            #[trigger] after.levels[level][k][i],
        ) by {
            if level == c && k == slot && i == self.levels[level][k].len() {
            } else {
                assert(after.levels[level][k][i] == self.levels[level][k][i]);
            }
        }
        assert forall|level: int, k: int, i: int|
            0 <= level < 5 && 0 <= k < after.levels[level].len() && 0 <= i
                < after.levels[level][k].len() implies (
        #[trigger] after.levels[level][k][i]).spec_time()@.reduced() by {
            assert(Wheel::placed(after.now, level, k, after.levels[level][k][i]));
        }
    }
}

} // verus!
