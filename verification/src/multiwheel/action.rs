//! An action identifier and its expiry time packed into one 64-bit word.
//!
//! The identifier takes bits 48-63; the low 48 bits hold the expiry time in
//! the clock's own layout.

use vstd::prelude::*;
use super::time::Time;

verus! {

/// The largest identifier an action can carry.
pub const MAX_ID: usize = 0xFFFF;

/// An identifier that expires at a clock value.
pub struct Action {
    inner: u64,
}

impl Action {
    /// The packed word.
    pub closed spec fn spec_inner(&self) -> u64 {
        self.inner
    }

    /// The action held in the given word.
    pub closed spec fn spec_from_inner(inner: u64) -> Action {
        Action { inner }
    }

    /// The action that `new` builds from an identifier and a clock value.
    pub open spec fn spec_new(id: usize, time: Time) -> Action {
        Action::spec_from_inner(
            (time.spec_inner() % 0x1_0000_0000_0000 + 0x1_0000_0000_0000 * id) as u64,
        )
    }

    /// The identifier: bits 48-63 of the word.
    pub open spec fn spec_id(&self) -> usize {
        (self.spec_inner() / 0x1_0000_0000_0000) as usize
    }

    /// The expiry time: the low 48 bits of the word, as a clock value.
    pub open spec fn spec_time(&self) -> Time {
        Time::spec_from_inner(self.spec_inner() % 0x1_0000_0000_0000)
    }

    /// The word of an action made from a word is that word.
    pub broadcast proof fn lemma_from_inner(inner: u64)
        ensures
            (#[trigger] Action::spec_from_inner(inner)).spec_inner() == inner,
    {
    }

    /// An action built from an identifier of at most 16 bits gives the
    /// identifier back, and gives back the fields of the clock value. It
    /// gives back the clock value itself when that has bits 48-63 clear.
    pub proof fn lemma_round_trip(id: usize, time: Time)
        requires
            id <= MAX_ID,
        ensures
            Action::spec_new(id, time).spec_id() == id,
            Action::spec_new(id, time).spec_time()@ == time@,
            Action::spec_new(id, time).spec_time().spec_inner() == time.spec_inner()
                % 0x1_0000_0000_0000,
            time.spec_inner() < 0x1_0000_0000_0000 ==> Action::spec_new(id, time).spec_time()
                == time,
    {
        broadcast use Action::lemma_from_inner, Time::lemma_from_inner;

        let raw: u64 = time.spec_inner();
        let low: u64 = (raw % 0x1_0000_0000_0000) as u64;
        let wide: u64 = id as u64;
        let word: u64 = (low + 0x1_0000_0000_0000 * wide) as u64;
        assert(word == low + 0x1_0000_0000_0000 * wide && word / 0x1_0000_0000_0000 == wide && word
            % 0x1_0000_0000_0000 == low) by (bit_vector)
            requires
                low < 0x1_0000_0000_0000,
                wide <= 0xFFFF,
                word == (low + 0x1_0000_0000_0000 * wide) as u64,
        ;
        assert(low % 0x100 == raw % 0x100 && low / 0x100 % 0x100 == raw / 0x100 % 0x100 && low
            / 0x1_0000 % 0x100 == raw / 0x1_0000 % 0x100 && low / 0x100_0000 % 0x100 == raw
            / 0x100_0000 % 0x100 && low / 0x1_0000_0000 % 0x1_0000 == raw / 0x1_0000_0000
            % 0x1_0000) by (bit_vector)
            requires
                low == raw % 0x1_0000_0000_0000,
        ;
        if raw < 0x1_0000_0000_0000 {
            Time::lemma_same_inner(Action::spec_new(id, time).spec_time(), time);
        }
    }

    /// Packs an identifier and the low 48 bits of a clock value.
    pub fn new(id: usize, time: Time) -> (action: Action)
        requires
            id <= MAX_ID,
        ensures
            action == Action::spec_new(id, time),
            action.spec_id() == id,
            action.spec_time()@ == time@,
            time.spec_inner() < 0x1_0000_0000_0000 ==> action.spec_time() == time,
    {
        let raw: u64 = time.inner();
        let wide: u64 = id as u64;
        let inner: u64 = (raw & 0xFFFF_FFFF_FFFF) | (wide << 48);
        proof {
            assert((raw & 0xFFFF_FFFF_FFFF) | (wide << 48) == raw % 0x1_0000_0000_0000
                + 0x1_0000_0000_0000 * wide) by (bit_vector)
                requires
                    wide <= 0xFFFF,
            ;
            Action::lemma_round_trip(id, time);
        }
        Action { inner }
    }

    /// The identifier.
    #[verifier::when_used_as_spec(spec_id)]
    pub fn id(&self) -> (id: usize)
        ensures
            id == self.spec_id(),
            id <= MAX_ID,
    {
        let raw: u64 = self.inner;
        assert((raw >> 48) & 0xFFFF == raw / 0x1_0000_0000_0000 && raw / 0x1_0000_0000_0000
            <= 0xFFFF) by (bit_vector);
        ((raw >> 48) & 0xFFFF) as usize
    }

    /// The expiry time, with bits 48-63 clear.
    #[verifier::when_used_as_spec(spec_time)]
    pub fn time(&self) -> (time: Time)
        ensures
            time == self.spec_time(),
    {
        let raw: u64 = self.inner;
        assert(raw & 0xFFFF_FFFF_FFFF == raw % 0x1_0000_0000_0000) by (bit_vector);
        Time::from_inner(raw & 0xFFFF_FFFF_FFFF)
    }
}

} // verus!
