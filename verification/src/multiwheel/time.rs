//! A point in time packed into one 64-bit word.
//!
//! Five fields share the word: milliseconds in bits 0-7, seconds in bits
//! 8-15, minutes in bits 16-23, hours in bits 24-31 and days in bits 32-47.
//! Bits 48-63 are not used by the clock.

use vstd::prelude::*;

verus! {

/// The number of ticks after which the clock is back where it started:
/// 100 * 60 * 60 * 24 * 65536.
pub const HORIZON: u64 = 566_231_040_000;

/// The five fields of a clock value, as numbers.
pub struct Fields {
    pub milliseconds: nat,
    pub seconds: nat,
    pub minutes: nat,
    pub hours: nat,
    pub days: nat,
}

impl Fields {
    /// The clock value with every field zero.
    pub open spec fn zero() -> Fields {
        Fields { milliseconds: 0, seconds: 0, minutes: 0, hours: 0, days: 0 }
    }

    /// Every field fits the width of its slot in the packed word.
    pub open spec fn fits(self) -> bool {
        &&& self.milliseconds < 256
        &&& self.seconds < 256
        &&& self.minutes < 256
        &&& self.hours < 256
        &&& self.days < 65536
    }

    /// Every field is below its radix.
    pub open spec fn reduced(self) -> bool {
        &&& self.milliseconds < 100
        &&& self.seconds < 60
        &&& self.minutes < 60
        &&& self.hours < 24
        &&& self.days < 65536
    }

    /// The number of ticks from the zero clock to this one.
    pub open spec fn ticks(self) -> nat {
        self.milliseconds + 100 * (self.seconds + 60 * (self.minutes + 60 * (self.hours + 24
            * self.days)))
    }

    /// The next tick carries into seconds.
    pub open spec fn rolls_seconds(self) -> bool {
        self.milliseconds == 99
    }

    /// The next tick carries into minutes.
    pub open spec fn rolls_minutes(self) -> bool {
        self.rolls_seconds() && self.seconds == 59
    }

    /// The next tick carries into hours.
    pub open spec fn rolls_hours(self) -> bool {
        self.rolls_minutes() && self.minutes == 59
    }

    /// The next tick carries into days.
    pub open spec fn rolls_days(self) -> bool {
        self.rolls_hours() && self.hours == 23
    }

    /// The next tick carries out of the day counter: the clock has used up
    /// every value it can represent.
    pub open spec fn halts(self) -> bool {
        self.rolls_days() && self.days == 65535
    }

    /// The clock one tick later. Each field that reaches its radix goes back
    /// to zero and carries into the next; the day counter wraps.
    pub open spec fn advance(self) -> Fields {
        Fields {
            milliseconds: if self.rolls_seconds() {
                0
            } else {
                self.milliseconds + 1
            },
            seconds: if self.rolls_minutes() {
                0
            } else if self.rolls_seconds() {
                self.seconds + 1
            } else {
                self.seconds
            },
            minutes: if self.rolls_hours() {
                0
            } else if self.rolls_minutes() {
                self.minutes + 1
            } else {
                self.minutes
            },
            hours: if self.rolls_days() {
                0
            } else if self.rolls_hours() {
                self.hours + 1
            } else {
                self.hours
            },
            days: if self.halts() {
                0
            } else if self.rolls_days() {
                self.days + 1
            } else {
                self.days
            },
        }
    }
}

/// A reduced clock stays reduced when it advances.
pub proof fn lemma_advance_reduced(f: Fields)
    requires
        f.reduced(),
    ensures
        f.advance().reduced(),
{
}

/// A reduced clock counts ticks: advancing adds one to the tick count, and
/// the count starts again from zero after the last representable tick.
pub proof fn lemma_advance_ticks(f: Fields)
    requires
        f.reduced(),
    ensures
        f.ticks() < HORIZON,
        f.halts() <==> f.ticks() == HORIZON - 1,
        f.advance().ticks() == (f.ticks() + 1) % (HORIZON as nat),
        f.advance().ticks() == if f.halts() {
            0
        } else {
            f.ticks() + 1
        },
{
}

/// What advancing does to a reduced clock, said of its tick count alone.
proof fn lemma_advance_counts(f: Fields)
    requires
        f.reduced(),
    ensures
        f.advance().reduced(),
        f.advance().ticks() == (f.ticks() + 1) % (HORIZON as nat),
        f.halts() <==> f.ticks() == HORIZON - 1,
{
    lemma_advance_reduced(f);
    lemma_advance_ticks(f);
}

/// Reduced clocks with the same tick count are the same clock.
pub proof fn lemma_ticks_injective(f: Fields, g: Fields)
    requires
        f.reduced(),
        g.reduced(),
        f.ticks() == g.ticks(),
    ensures
        f == g,
{
}

/// The packed word that holds the given fields, bits 48-63 clear.
pub open spec fn pack(f: Fields) -> nat {
    f.milliseconds + 0x100 * f.seconds + 0x1_0000 * f.minutes + 0x100_0000 * f.hours
        + 0x1_0000_0000 * f.days
}

/// The fields held in a packed word. Bits 48-63 are ignored.
pub open spec fn unpack(raw: u64) -> Fields {
    Fields {
        milliseconds: (raw % 0x100) as nat,
        seconds: (raw / 0x100 % 0x100) as nat,
        minutes: (raw / 0x1_0000 % 0x100) as nat,
        hours: (raw / 0x100_0000 % 0x100) as nat,
        days: (raw / 0x1_0000_0000 % 0x1_0000) as nat,
    }
}

/// Packing fields that fit their slots and unpacking the word gives the
/// fields back, and the word has bits 48-63 clear.
pub proof fn lemma_unpack_pack(f: Fields)
    requires
        f.fits(),
    ensures
        pack(f) < 0x1_0000_0000_0000,
        unpack(pack(f) as u64) == f,
{
    let ms: u64 = f.milliseconds as u64;
    let s: u64 = f.seconds as u64;
    let m: u64 = f.minutes as u64;
    let h: u64 = f.hours as u64;
    let d: u64 = f.days as u64;
    let raw: u64 = pack(f) as u64;
    assert(raw < 0x1_0000_0000_0000 && raw % 0x100 == ms && raw / 0x100 % 0x100 == s && raw
        / 0x1_0000 % 0x100 == m && raw / 0x100_0000 % 0x100 == h && raw / 0x1_0000_0000 % 0x1_0000
        == d) by (bit_vector)
        requires
            ms < 0x100,
            s < 0x100,
            m < 0x100,
            h < 0x100,
            d < 0x1_0000,
            raw == ms + 0x100 * s + 0x1_0000 * m + 0x100_0000 * h + 0x1_0000_0000 * d,
    ;
}

/// A word with bits 48-63 clear is the packing of its own fields.
pub proof fn lemma_pack_unpack(raw: u64)
    requires
        raw < 0x1_0000_0000_0000,
    ensures
        unpack(raw).fits(),
        pack(unpack(raw)) == raw,
{
    assert(raw % 0x100 + 0x100 * (raw / 0x100 % 0x100) + 0x1_0000 * (raw / 0x1_0000 % 0x100)
        + 0x100_0000 * (raw / 0x100_0000 % 0x100) + 0x1_0000_0000 * (raw / 0x1_0000_0000
        % 0x1_0000) == raw) by (bit_vector)
        requires
            raw < 0x1_0000_0000_0000,
    ;
}

/// A clock value: five time fields in one 64-bit word.
#[derive(Clone, Copy)]
pub struct Time {
    inner: u64,
}

impl View for Time {
    type V = Fields;

    open spec fn view(&self) -> Fields {
        unpack(self.spec_inner())
    }
}

impl Time {
    /// The packed word.
    pub closed spec fn spec_inner(&self) -> u64 {
        self.inner
    }

    /// The clock value held in the given word.
    pub closed spec fn spec_from_inner(inner: u64) -> Time {
        Time { inner }
    }

    /// The word of a clock made from a word is that word.
    pub broadcast proof fn lemma_from_inner(inner: u64)
        ensures
            (#[trigger] Time::spec_from_inner(inner)).spec_inner() == inner,
    {
    }

    /// Two clock values with the same word are the same value.
    pub proof fn lemma_same_inner(a: Time, b: Time)
        requires
            a.spec_inner() == b.spec_inner(),
        ensures
            a == b,
    {
    }

    /// Builds the clock value with the given fields. Fields at or above
    /// their radix are stored as given; the result is then not `reduced`.
    pub fn new(milliseconds: u8, seconds: u8, minutes: u8, hours: u8, days: u16) -> (t: Time)
        ensures
            t@ == (Fields {
                milliseconds: milliseconds as nat,
                seconds: seconds as nat,
                minutes: minutes as nat,
                hours: hours as nat,
                days: days as nat,
            }),
            t.spec_inner() == pack(t@),
            t.spec_inner() < 0x1_0000_0000_0000,
    {
        let ms: u64 = milliseconds as u64;
        let s: u64 = seconds as u64;
        let m: u64 = minutes as u64;
        let h: u64 = hours as u64;
        let d: u64 = days as u64;
        let inner: u64 = ms | (s << 8) | (m << 16) | (h << 24) | (d << 32);
        proof {
            assert(ms | (s << 8) | (m << 16) | (h << 24) | (d << 32) == ms + 0x100 * s + 0x1_0000
                * m + 0x100_0000 * h + 0x1_0000_0000 * d) by (bit_vector)
                requires
                    ms < 0x100,
                    s < 0x100,
                    m < 0x100,
                    h < 0x100,
                    d < 0x1_0000,
            ;
            lemma_unpack_pack(
                Fields {
                    milliseconds: milliseconds as nat,
                    seconds: seconds as nat,
                    minutes: minutes as nat,
                    hours: hours as nat,
                    days: days as nat,
                },
            );
        }
        Time { inner }
    }

    /// Moves the clock one tick forward. Milliseconds that reach 100 go back
    /// to zero and carry into seconds, seconds carry into minutes at 60,
    /// minutes into hours at 60, hours into days at 24, and the day counter
    /// wraps at 65536. Bits 48-63 of the word are cleared.
    pub fn increment(&mut self)
        requires
            old(self)@.reduced(),
        ensures
            final(self)@ == old(self)@.advance(),
            final(self)@.reduced(),
            final(self)@.ticks() == (old(self)@.ticks() + 1) % (HORIZON as nat),
            final(self).spec_inner() == pack(final(self)@),
            final(self).spec_inner() < 0x1_0000_0000_0000,
    {
        let milliseconds: u8 = self.milliseconds() + 1;
        let seconds: u8 = self.seconds() + if milliseconds == 100 { 1 } else { 0 };
        let minutes: u8 = self.minutes() + if seconds == 60 { 1 } else { 0 };
        let hours: u8 = self.hours() + if minutes == 60 { 1 } else { 0 };
        let days: u16 = self.days().wrapping_add(if hours == 24 { 1 } else { 0 });

        assert(milliseconds % 100 == old(self)@.advance().milliseconds);
        assert(seconds % 60 == old(self)@.advance().seconds);
        assert(minutes % 60 == old(self)@.advance().minutes);
        assert(hours % 24 == old(self)@.advance().hours);
        assert(days == old(self)@.advance().days);
        self.inner = Time::new(
            milliseconds % 100,
            seconds % 60,
            minutes % 60,
            hours % 24,
            days,
        ).inner;

        proof {
            assert(self@ == old(self)@.advance());
            lemma_advance_counts(old(self)@);
        }
    }

    /// Moves the clock one tick forward as `increment` does, and reports
    /// which carries happened: into seconds, into minutes, into hours, into
    /// days, and out of the day counter. The last flag says that the clock
    /// has gone through every value it can hold; the clock still wraps to
    /// zero.
    pub fn increment_checked(&mut self) -> (flags: (bool, bool, bool, bool, bool))
        requires
            old(self)@.reduced(),
        ensures
            final(self)@ == old(self)@.advance(),
            final(self)@.reduced(),
            final(self)@.ticks() == (old(self)@.ticks() + 1) % (HORIZON as nat),
            final(self).spec_inner() == pack(final(self)@),
            final(self).spec_inner() < 0x1_0000_0000_0000,
            flags.0 == old(self)@.rolls_seconds(),
            flags.1 == old(self)@.rolls_minutes(),
            flags.2 == old(self)@.rolls_hours(),
            flags.3 == old(self)@.rolls_days(),
            flags.4 == old(self)@.halts(),
            flags.4 <==> old(self)@.ticks() == HORIZON - 1,
    {
        let milliseconds: u8 = self.milliseconds() + 1;
        let roll_seconds = milliseconds == 100;

        let seconds: u8 = self.seconds() + if roll_seconds { 1 } else { 0 };
        let roll_minutes = seconds == 60;

        let minutes: u8 = self.minutes() + if roll_minutes { 1 } else { 0 };
        let roll_hours = minutes == 60;

        let hours: u8 = self.hours() + if roll_hours { 1 } else { 0 };
        let roll_days = hours == 24;

        let days: u16 = self.days();
        let roll_clock = roll_days && days == u16::MAX;
        let days: u16 = days.wrapping_add(if roll_days { 1 } else { 0 });

        assert(milliseconds % 100 == old(self)@.advance().milliseconds);
        assert(seconds % 60 == old(self)@.advance().seconds);
        assert(minutes % 60 == old(self)@.advance().minutes);
        assert(hours % 24 == old(self)@.advance().hours);
        assert(days == old(self)@.advance().days);
        self.inner = Time::new(
            milliseconds % 100,
            seconds % 60,
            minutes % 60,
            hours % 24,
            days,
        ).inner;

        proof {
            assert(self@ == old(self)@.advance());
            lemma_advance_counts(old(self)@);
        }
        (roll_seconds, roll_minutes, roll_hours, roll_days, roll_clock)
    }

    /// Wraps a packed word without looking at it.
    #[verifier::when_used_as_spec(spec_from_inner)]
    pub fn from_inner(inner: u64) -> (t: Time)
        ensures
            t == Time::spec_from_inner(inner),
            t.spec_inner() == inner,
    {
        Time { inner }
    }

    /// The packed word.
    #[verifier::when_used_as_spec(spec_inner)]
    pub fn inner(&self) -> (raw: u64)
        ensures
            raw == self.spec_inner(),
    {
        self.inner
    }

    /// Whether every field is below its radix.
    pub fn is_reduced(&self) -> (reduced: bool)
        ensures
            reduced == self@.reduced(),
    {
        self.milliseconds() < 100 && self.seconds() < 60 && self.minutes() < 60 && self.hours()
            < 24
    }

    /// The milliseconds field.
    pub fn milliseconds(&self) -> (field: u8)
        ensures
            field == self@.milliseconds,
    {
        let raw: u64 = self.inner;
        assert(raw & 0xFF == raw % 0x100) by (bit_vector);
        (raw & 0xFF) as u8
    }

    /// The seconds field.
    pub fn seconds(&self) -> (field: u8)
        ensures
            field == self@.seconds,
    {
        let raw: u64 = self.inner;
        assert((raw >> 8) & 0xFF == raw / 0x100 % 0x100) by (bit_vector);
        ((raw >> 8) & 0xFF) as u8
    }

    /// The minutes field.
    pub fn minutes(&self) -> (field: u8)
        ensures
            field == self@.minutes,
    {
        let raw: u64 = self.inner;
        assert((raw >> 16) & 0xFF == raw / 0x1_0000 % 0x100) by (bit_vector);
        ((raw >> 16) & 0xFF) as u8
    }

    /// The hours field.
    pub fn hours(&self) -> (field: u8)
        ensures
            field == self@.hours,
    {
        let raw: u64 = self.inner;
        assert((raw >> 24) & 0xFF == raw / 0x100_0000 % 0x100) by (bit_vector);
        ((raw >> 24) & 0xFF) as u8
    }

    /// The days field.
    pub fn days(&self) -> (field: u16)
        ensures
            field == self@.days,
    {
        let raw: u64 = self.inner;
        assert((raw >> 32) & 0xFFFF == raw / 0x1_0000_0000 % 0x1_0000) by (bit_vector);
        ((raw >> 32) & 0xFFFF) as u16
    }
}

} // verus!
