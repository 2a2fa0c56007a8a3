//! How many actions a wheel stores, and the proof that a tick takes out
//! the actions it reports and no other.

use vstd::prelude::*;
use super::action::Action;
use super::time::Fields;
use super::wheel::Wheel;
use super::wheel::field;
use super::wheel::coarsest;
use super::wheel::rolls;
use super::wheel::fits;
use super::wheel::scatter;
use super::wheel::lemma_scatter_none;
use super::wheel::lemma_scatter_push;

verus! {

/// The number of actions in a row of buckets.
pub open spec fn row_size(row: Seq<Seq<Action>>) -> nat
    decreases row.len(),
{
    if row.len() == 0 {
        0
    } else {
        row_size(row.drop_last()) + row.last().len()
    }
}

/// Replacing one bucket of a row changes the number of actions in the row
/// by the difference of the two buckets' lengths.
pub(crate) proof fn lemma_row_size_update(row: Seq<Seq<Action>>, k: int, bucket: Seq<Action>)
    requires
        0 <= k < row.len(),
    ensures
        row_size(row.update(k, bucket)) + row[k].len() == row_size(row) + bucket.len(),
    decreases row.len(),
{
    let after = row.update(k, bucket);
    if k == row.len() - 1 {
        assert(after.drop_last() =~= row.drop_last());
    } else {
        assert(after.drop_last() =~= row.drop_last().update(k, bucket));
        lemma_row_size_update(row.drop_last(), k, bucket);
    }
}

/// A row of empty buckets holds no action.
pub(crate) proof fn lemma_row_size_empty(len: nat)
    ensures
        row_size(Seq::new(len, |k: int| Seq::<Action>::empty())) == 0,
    decreases len,
{
    let row = Seq::new(len, |k: int| Seq::<Action>::empty());
    if len > 0 {
        assert(row.drop_last() =~= Seq::new((len - 1) as nat, |k: int| Seq::<Action>::empty()));
        lemma_row_size_empty((len - 1) as nat);
    }
}

/// Handing actions down to a row that has a bucket for each of them adds
/// every one of them to the row, once.
pub(crate) proof fn lemma_scatter_size(row: Seq<Seq<Action>>, moved: Seq<Action>, level: int)
    requires
        fits(moved, level, row.len()),
    ensures
        row_size(scatter(row, moved, level)) == row_size(row) + moved.len(),
    decreases moved.len(),
{
    if moved.len() == 0 {
        assert(moved =~= Seq::empty());
        lemma_scatter_none(row, level);
    } else {
        let a = moved.last();
        let rest = moved.drop_last();
        let slot = field(a.spec_time()@, level) as int;
        assert(moved =~= rest.push(a));
        assert(fits(rest, level, row.len())) by {
            assert forall|i: int| 0 <= i < rest.len() implies field(
                (#[trigger] rest[i]).spec_time()@,
                level,
            ) < row.len() by {
                assert(rest[i] == moved[i]);
            }
        }
        lemma_scatter_size(row, rest, level);
        lemma_scatter_push(row, rest, a, level);
        let before = scatter(row, rest, level);
        lemma_row_size_update(before, slot, before[slot].push(a));
    }
}

impl Wheel {
    /// The number of actions that the wheel stores.
    pub open spec fn size(self) -> nat {
        row_size(self.levels[0]) + row_size(self.levels[1]) + row_size(self.levels[2]) + row_size(
            self.levels[3],
        ) + row_size(self.levels[4])
    }

    /// A cascade neither adds an action to the wheel nor takes one away.
    pub(crate) proof fn lemma_cascade_size(self, level: int)
        requires
            self.shaped(),
            1 <= level <= 4,
            field(self.now, level) < self.levels[level].len(),
        ensures
            self.cascade(level).size() == self.size(),
    {
        let slot = field(self.now, level) as int;
        self.lemma_bucket_fits(level, slot);
        lemma_scatter_size(self.levels[level - 1], self.levels[level][slot], level - 1);
        lemma_row_size_update(self.levels[level], slot, Seq::empty());
    }

    /// The turns of the levels from `level` down neither add an action to
    /// the wheel nor take one away.
    pub(crate) proof fn lemma_settle_from_size(self, was: Fields, level: int)
        requires
            self.turning(was, level),
        ensures
            self.settle_from(was, level).size() == self.size(),
        decreases level,
    {
        if level > 0 {
            self.lemma_turn(was, level);
            if rolls(was, level) {
                self.lemma_cascade_size(level);
            }
            self.cascade_if(rolls(was, level), level).lemma_settle_from_size(was, level - 1);
        }
    }

    /// A tick within the wheel's capacity takes out of the wheel the
    /// actions that it reports, and no other; none is added.
    pub proof fn lemma_tick_size(self)
        requires
            self.wf(),
            self.can_tick(),
        ensures
            self.tick().size() + self.fired().len() == self.size(),
    {
        let was = self.now;
        let next = was.advance();
        if !was.halts() {
            self.lemma_step_turning();
            self.at(next).lemma_settle_by_turns(was);
            self.at(next).lemma_settle_from_size(was, 4);
            self.lemma_settle();
            let settled = self.at(next).settle(was);
            lemma_row_size_update(settled.levels[0], next.milliseconds as int, Seq::empty());
        }
    }

    /// Storing an action adds one action to the wheel.
    pub proof fn lemma_insert_size(self, a: Action)
        requires
            self.shaped(),
            a.spec_time()@.reduced(),
            coarsest(a.spec_time()@) >= 0,
            a.spec_time()@.days > 0 ==> a.spec_time()@.days < self.capacity(),
        ensures
            self.insert(a).size() == self.size() + 1,
    {
        let t = a.spec_time()@;
        let c = coarsest(t);
        let slot = field(t, c) as int;
        lemma_row_size_update(self.levels[c], slot, self.levels[c][slot].push(a));
    }

    /// An empty wheel stores nothing.
    pub proof fn lemma_empty_size(now: Fields, capacity: nat)
        ensures
            Wheel::empty(now, capacity).size() == 0,
    {
        lemma_row_size_empty(100);
        lemma_row_size_empty(60);
        lemma_row_size_empty(24);
        lemma_row_size_empty(capacity);
        let w = Wheel::empty(now, capacity);
        assert(w.levels[0] =~= Seq::new(100, |k: int| Seq::<Action>::empty()));
        assert(w.levels[1] =~= Seq::new(60, |k: int| Seq::<Action>::empty()));
        assert(w.levels[2] =~= Seq::new(60, |k: int| Seq::<Action>::empty()));
        assert(w.levels[3] =~= Seq::new(24, |k: int| Seq::<Action>::empty()));
        assert(w.levels[4] =~= Seq::new(capacity, |k: int| Seq::<Action>::empty()));
    }
}

} // verus!
