//! Single-level wheels that hold borrowed agents and run them when their
//! bucket comes up.
//!
//! A borrowed agent is known by the state it is in and the state it will
//! be left in when the borrow ends; the contracts say of an agent that
//! joins a bucket that both are those of the agent handed in.

use vstd::prelude::*;

verus! {

/// Something that can be run when its timer expires.
pub trait Agent {
    /// Runs the agent once.
    fn action(&mut self);
}

/// The buckets of a wheel as sequences.
pub open spec fn lists<'a, A: Agent + ?Sized>(buckets: Seq<Vec<&'a mut A>>) -> Seq<Seq<&'a mut A>> {
    buckets.map_values(|bucket: Vec<&'a mut A>| bucket@)
}

/// The given number of empty buckets.
pub open spec fn vacant<'a, A: Agent + ?Sized>(len: nat) -> Seq<Seq<&'a mut A>> {
    Seq::new(len, |k: int| Seq::<&'a mut A>::empty())
}

/// The buckets with empty ones added at the end until there are at least
/// `len` of them.
pub open spec fn padded<'a, A: Agent + ?Sized>(buckets: Seq<Seq<&'a mut A>>, len: nat) -> Seq<
    Seq<&'a mut A>,
> {
    if buckets.len() >= len {
        buckets
    } else {
        buckets + vacant::<A>((len - buckets.len()) as nat)
    }
}

/// `after` is `before` with one agent added at the end of the bucket
/// `index` and nothing else changed.
pub open spec fn joined<'a, A: Agent + ?Sized>(
    before: Seq<Seq<&'a mut A>>,
    after: Seq<Seq<&'a mut A>>,
    index: int,
) -> bool {
    &&& 0 <= index < before.len()
    &&& after.len() == before.len()
    &&& after[index].len() == before[index].len() + 1
    &&& after[index].drop_last() == before[index]
    &&& forall|k: int| 0 <= k < before.len() && k != index ==> after[k] == before[k]
}

/// Adds empty buckets, each with room for `room` agents, until there are
/// `len` of them.
fn pad<'a, A: Agent + ?Sized>(buckets: &mut Vec<Vec<&'a mut A>>, len: usize, room: usize)
    ensures
        lists(final(buckets)@) == padded(lists(old(buckets)@), len as nat),
{
    let ghost before = lists(buckets@);
    while buckets.len() < len
        invariant
            lists(buckets@).len() == buckets.len(),
            buckets.len() >= before.len(),
            before.len() < len ==> buckets.len() <= len,
            before.len() >= len ==> buckets.len() == before.len(),
            lists(buckets@) == before + vacant::<A>((buckets.len() - before.len()) as nat),
        decreases len - buckets.len(),
    {
        let ghost prior = buckets@;
        buckets.push(Vec::with_capacity(room));
        proof {
            let grown = before + vacant::<A>((buckets.len() - before.len()) as nat);
            assert forall|k: int| 0 <= k < buckets.len() implies #[trigger] lists(buckets@)[k]
                == grown[k] by {
                if k < prior.len() {
                    assert(lists(buckets@)[k] == lists(prior)[k]);
                }
            }
            assert(lists(buckets@) =~= grown);
        }
    }
    proof {
        if before.len() >= len {
            assert(vacant::<A>(0) =~= Seq::empty());
            assert(lists(buckets@) =~= before);
        }
    }
}

/// Puts the agent at the end of the bucket `index`.
fn place<'a, A: Agent + ?Sized>(buckets: &mut Vec<Vec<&'a mut A>>, index: usize, agent: &'a mut A)
    requires
        index < old(buckets).len(),
    ensures
        joined(lists(old(buckets)@), lists(final(buckets)@), index as int),
        &*lists(final(buckets)@)[index as int].last() == &*old(agent),
        &*final(lists(final(buckets)@)[index as int].last()) == &*final(agent),
{
    let ghost prior = buckets@;
    buckets[index].push(agent);
    proof {
        let before = lists(prior);
        let after = lists(buckets@);
        assert(after[index as int].drop_last() =~= before[index as int]);
        assert forall|k: int| 0 <= k < before.len() && k != index implies after[k]
            == before[k] by {}
    }
}

/// Runs each agent of the bucket `index` once, in order, and empties the
/// bucket, which is left with room for `room` agents. Of each agent that
/// was in the bucket, `action` has taken the state it was in to the state
/// it is left in.
fn expire<'a, A: Agent + ?Sized>(buckets: &mut Vec<Vec<&'a mut A>>, index: usize, room: usize)
    requires
        index < old(buckets).len(),
    ensures
        lists(final(buckets)@) == lists(old(buckets)@).update(index as int, Seq::empty()),
        forall|agent: &mut A| #[trigger]
            lists(old(buckets)@)[index as int].contains(agent) ==> exists|run: &mut A|
                #![trigger call_ensures(A::action, (run,), ())]
                &*run == &*agent && &*final(run) == &*final(agent) && call_ensures(
                    A::action,
                    (run,),
                    (),
                ),
{
    if buckets[index].len() == 0 {
        proof {
            let bucket = lists(buckets@)[index as int];
            assert(bucket =~= Seq::empty());
            assert(lists(buckets@) =~= lists(buckets@).update(index as int, Seq::empty()));
            assert forall|agent: &mut A| !(#[trigger] bucket.contains(agent)) by {}
        }
        return;
    }
    let mut due: Vec<&'a mut A> = Vec::with_capacity(room);
    std::mem::swap(&mut due, &mut buckets[index]);
    assert(lists(buckets@) =~= lists(old(buckets)@).update(index as int, Seq::empty()));
    let ghost all = due@;
    assert(all == lists(old(buckets)@)[index as int]);
    let ghost mut done: int = 0;
    for agent in it: due
        invariant
            it.seq() == all,
            done == it.index(),
            forall|agent: &mut A| #[trigger]
                all.take(done).contains(agent) ==> exists|run: &mut A|
                    #![trigger call_ensures(A::action, (run,), ())]
                    &*run == &*agent && &*final(run) == &*final(agent) && call_ensures(
                        A::action,
                        (run,),
                        (),
                    ),
    {
        let ghost current = agent;
        agent.action();
        proof {
            assert(exists|run: &mut A|
                #![trigger call_ensures(A::action, (run,), ())]
                &*run == &*current && &*final(run) == &*final(current) && call_ensures(
                    A::action,
                    (run,),
                    (),
                ));
            let before = all.take(done);
            let after = all.take(done + 1);
            assert(after =~= before.push(current));
            assert forall|agent: &mut A| #[trigger] after.contains(agent) implies exists|
                run: &mut A,
            |
                #![trigger call_ensures(A::action, (run,), ())]
                &*run == &*agent && &*final(run) == &*final(agent) && call_ensures(
                    A::action,
                    (run,),
                    (),
                ) by {
                if agent != current {
                    let at = choose|at: int| 0 <= at < after.len() && after[at] == agent;
                    assert(before[at] == agent);
                    assert(before.contains(agent));
                }
            }
            done = done + 1;
        }
    }
    assert(all.take(all.len() as int) =~= all);
}

/// A wheel of `M` buckets, each a vector of borrowed agents.
pub struct SliceVectorTimer<'a, A: Agent + ?Sized, const M: usize> {
    timestamp: usize,
    timers: Vec<Vec<&'a mut A>>,
}

impl<'a, A: Agent + ?Sized, const M: usize> SliceVectorTimer<'a, A, M> {
    /// The position of the wheel.
    pub closed spec fn timestamp(&self) -> usize {
        self.timestamp
    }

    /// The agents that wait in each bucket.
    pub closed spec fn buckets(&self) -> Seq<Seq<&'a mut A>> {
        lists(self.timers@)
    }

    /// The wheel has its `M` buckets.
    pub open spec fn wf(&self) -> bool {
        self.buckets().len() == M
    }

    /// An empty wheel at position zero.
    pub fn new() -> (timer: Self)
        ensures
            timer.wf(),
            timer.timestamp() == 0,
            timer.buckets() == vacant::<A>(M as nat),
    {
        Self::with_timestamp(0)
    }

    /// An empty wheel at the given position.
    pub fn with_timestamp(timestamp: usize) -> (timer: Self)
        ensures
            timer.wf(),
            timer.timestamp() == timestamp,
            timer.buckets() == vacant::<A>(M as nat),
    {
        let mut timers: Vec<Vec<&'a mut A>> = Vec::new();
        pad(&mut timers, M, 0);
        assert(lists(timers@) =~= vacant::<A>(M as nat));
        SliceVectorTimer { timestamp, timers }
    }

    /// Puts the agent into the bucket whose index is the wheel's position
    /// plus `expiry % M`, and returns that index.
    pub fn start_timer(&mut self, expiry: usize, agent: &'a mut A) -> (index: usize)
        requires
            old(self).wf(),
            M > 0,
            old(self).timestamp() + expiry % M < M,
        ensures
            final(self).wf(),
            index == old(self).timestamp() + expiry % M,
            final(self).timestamp() == old(self).timestamp(),
            joined(old(self).buckets(), final(self).buckets(), index as int),
            &*final(self).buckets()[index as int].last() == &*old(agent),
            &*final(final(self).buckets()[index as int].last()) == &*final(agent),
    {
        let index: usize = self.timestamp + expiry % M;

        place(&mut self.timers, index, agent);

        index
    }

    /// Moves the wheel one position on, back to zero after the last, runs
    /// every agent in the bucket there and empties that bucket.
    pub fn tick(&mut self)
        requires
            old(self).wf(),
            M > 0,
            old(self).timestamp() < usize::MAX,
        ensures
            final(self).wf(),
            final(self).timestamp() == (old(self).timestamp() + 1) % (M as int),
            final(self).buckets() == old(self).buckets().update(
                final(self).timestamp() as int,
                Seq::empty(),
            ),
            forall|agent: &mut A| #[trigger]
                old(self).buckets()[final(self).timestamp() as int].contains(agent) ==> exists|
                    run: &mut A,
                |
                    #![trigger call_ensures(A::action, (run,), ())]
                    &*run == &*agent && &*final(run) == &*final(agent) && call_ensures(
                        A::action,
                        (run,),
                        (),
                    ),
    {
        self.timestamp = (self.timestamp + 1) % M;

        expire(&mut self.timers, self.timestamp, 0);
    }
}

/// A wheel that grows as many buckets as its timers reach.
pub struct VectorVectorTimer<'a, A: Agent + ?Sized> {
    timestamp: usize,
    timers: Vec<Vec<&'a mut A>>,
}

impl<'a, A: Agent + ?Sized> VectorVectorTimer<'a, A> {
    /// The position of the wheel.
    pub closed spec fn timestamp(&self) -> usize {
        self.timestamp
    }

    /// The agents that wait in each bucket.
    pub closed spec fn buckets(&self) -> Seq<Seq<&'a mut A>> {
        lists(self.timers@)
    }

    /// A wheel without buckets at position zero.
    pub fn new() -> (timer: Self)
        ensures
            timer.timestamp() == 0,
            timer.buckets().len() == 0,
    {
        Self::with_timestamp(0)
    }

    /// A wheel without buckets at the given position.
    pub fn with_timestamp(timestamp: usize) -> (timer: Self)
        ensures
            timer.timestamp() == timestamp,
            timer.buckets().len() == 0,
    {
        VectorVectorTimer { timestamp, timers: Vec::new() }
    }

    /// Puts the agent into the bucket whose index is the wheel's position
    /// plus `expiry`, after adding empty buckets up to that index where
    /// they are missing, and returns the index.
    pub fn start_timer(&mut self, expiry: usize, agent: &'a mut A) -> (index: usize)
        requires
            old(self).timestamp() + expiry < usize::MAX,
        ensures
            index == old(self).timestamp() + expiry,
            final(self).timestamp() == old(self).timestamp(),
            joined(
                padded(old(self).buckets(), (index + 1) as nat),
                final(self).buckets(),
                index as int,
            ),
            &*final(self).buckets()[index as int].last() == &*old(agent),
            &*final(final(self).buckets()[index as int].last()) == &*final(agent),
    {
        let index: usize = self.timestamp + expiry;

        if index >= self.timers.len() {
            pad(&mut self.timers, index + 1, 0);
        }
        assert(lists(self.timers@).len() == self.timers.len());
        assert(lists(self.timers@) == padded(old(self).buckets(), (index + 1) as nat));
        place(&mut self.timers, index, agent);

        index
    }

    /// Moves the wheel one position on, runs every agent of every bucket,
    /// bucket by bucket, and drops all buckets.
    pub fn tick(&mut self)
        requires
            old(self).timestamp() < usize::MAX,
        ensures
            final(self).timestamp() == old(self).timestamp() + 1,
            final(self).buckets().len() == 0,
            forall|k: int, agent: &mut A|
                0 <= k < old(self).buckets().len() && #[trigger] old(self).buckets()[k].contains(
                    agent,
                ) ==> exists|run: &mut A|
                    #![trigger call_ensures(A::action, (run,), ())]
                    &*run == &*agent && &*final(run) == &*final(agent) && call_ensures(
                        A::action,
                        (run,),
                        (),
                    ),
    {
        self.timestamp += 1;

        let ghost all = lists(self.timers@);
        let len: usize = self.timers.len();
        let mut k: usize = 0;
        while k < len
            invariant
                self.timestamp == old(self).timestamp + 1,
                self.timers.len() == len,
                all.len() == len,
                k <= len,
                forall|j: int| k <= j < len ==> lists(self.timers@)[j] == all[j],
                forall|j: int, agent: &mut A|
                    0 <= j < k && #[trigger] all[j].contains(agent) ==> exists|run: &mut A|
                        #![trigger call_ensures(A::action, (run,), ())]
                        &*run == &*agent && &*final(run) == &*final(agent) && call_ensures(
                            A::action,
                            (run,),
                            (),
                        ),
            decreases len - k,
        {
            expire(&mut self.timers, k, 0);
            assert(lists(self.timers@).len() == self.timers.len());
            k += 1;
        }

        self.timers.clear();
    }
}

/// A wheel of `M` buckets, each with room for `N` agents set aside when
/// the wheel is made and again whenever the bucket has been emptied.
pub struct SliceSmallVectorTimer<'a, A: Agent + ?Sized, const M: usize, const N: usize> {
    timestamp: usize,
    timers: Vec<Vec<&'a mut A>>,
}

impl<'a, A: Agent + ?Sized, const M: usize, const N: usize> SliceSmallVectorTimer<'a, A, M, N> {
    /// The position of the wheel.
    pub closed spec fn timestamp(&self) -> usize {
        self.timestamp
    }

    /// The agents that wait in each bucket.
    pub closed spec fn buckets(&self) -> Seq<Seq<&'a mut A>> {
        lists(self.timers@)
    }

    /// The wheel has its `M` buckets.
    pub open spec fn wf(&self) -> bool {
        self.buckets().len() == M
    }

    /// An empty wheel at position zero.
    pub fn new() -> (timer: Self)
        ensures
            timer.wf(),
            timer.timestamp() == 0,
            timer.buckets() == vacant::<A>(M as nat),
    {
        Self::with_timestamp(0)
    }

    /// An empty wheel at the given position.
    pub fn with_timestamp(timestamp: usize) -> (timer: Self)
        ensures
            timer.wf(),
            timer.timestamp() == timestamp,
            timer.buckets() == vacant::<A>(M as nat),
    {
        let mut timers: Vec<Vec<&'a mut A>> = Vec::new();
        pad(&mut timers, M, N);
        assert(lists(timers@) =~= vacant::<A>(M as nat));
        SliceSmallVectorTimer { timestamp, timers }
    }

    /// Puts the agent into the bucket whose index is the wheel's position
    /// plus `expiry % M`, and returns that index.
    pub fn start_timer(&mut self, expiry: usize, agent: &'a mut A) -> (index: usize)
        requires
            old(self).wf(),
            M > 0,
            old(self).timestamp() + expiry % M < M,
        ensures
            final(self).wf(),
            index == old(self).timestamp() + expiry % M,
            final(self).timestamp() == old(self).timestamp(),
            joined(old(self).buckets(), final(self).buckets(), index as int),
            &*final(self).buckets()[index as int].last() == &*old(agent),
            &*final(final(self).buckets()[index as int].last()) == &*final(agent),
    {
        let index: usize = self.timestamp + expiry % M;

        place(&mut self.timers, index, agent);

        index
    }

    /// Moves the wheel one position on, back to zero after the last, runs
    /// every agent in the bucket there and empties that bucket.
    pub fn tick(&mut self)
        requires
            old(self).wf(),
            M > 0,
            old(self).timestamp() < usize::MAX,
        ensures
            final(self).wf(),
            final(self).timestamp() == (old(self).timestamp() + 1) % (M as int),
            final(self).buckets() == old(self).buckets().update(
                final(self).timestamp() as int,
                Seq::empty(),
            ),
            forall|agent: &mut A| #[trigger]
                old(self).buckets()[final(self).timestamp() as int].contains(agent) ==> exists|
                    run: &mut A,
                |
                    #![trigger call_ensures(A::action, (run,), ())]
                    &*run == &*agent && &*final(run) == &*final(agent) && call_ensures(
                        A::action,
                        (run,),
                        (),
                    ),
    {
        self.timestamp = (self.timestamp + 1) % M;

        expire(&mut self.timers, self.timestamp, N);
    }
}

} // verus!
