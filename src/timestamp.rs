use core::cmp::Ordering;
use vstd::arithmetic::div_mod::{
    lemma_div_denominator,
    lemma_fundamental_div_mod,
    lemma_fundamental_div_mod_converse,
};
use vstd::prelude::*;
use vstd::std_specs::cmp::PartialOrdSpec;

use crate::error::SrtError;

verus! {

pub const MS_PER_SECOND: u64 = 1000;

pub const MS_PER_MINUTE: u64 = 60000;

pub const MS_PER_HOUR: u64 = 3600000;

/// A point in time within a media file, as hours, minutes, seconds and
/// milliseconds.
///
/// A normalized timestamp (see `wf`) has `minutes < 60`, `seconds < 60` and
/// `miliseconds < 1000`; every constructor and every arithmetic operation
/// returns a normalized value.
#[derive(Debug, Clone, Copy, PartialEq, Eq, Structural, Ord)]
pub struct Timestamp {
    pub hours: u32,
    pub minutes: u32,
    pub seconds: u32,
    pub miliseconds: u32,
}

impl Timestamp {
    /// The fields are within their ranges.
    pub open spec fn wf(self) -> bool {
        &&& self.miliseconds < 1000
        &&& self.seconds < 60
        &&& self.minutes < 60
    }

    /// The total number of milliseconds the fields add up to.
    pub open spec fn total(self) -> int {
        Self::raw_total(self.hours as int, self.minutes as int, self.seconds as int, self.miliseconds as int)
    }

    /// The milliseconds that four unnormalized fields add up to.
    pub open spec fn raw_total(hours: int, minutes: int, seconds: int, miliseconds: int) -> int {
        hours * 3600000 + minutes * 60000 + seconds * 1000 + miliseconds
    }

    /// A total of milliseconds whose hours fit the `hours` field.
    pub open spec fn representable(total: int) -> bool {
        0 <= total && total / 3600000 <= u32::MAX
    }

    /// The normalized timestamp of a total of milliseconds.
    pub open spec fn from_total(total: int) -> Timestamp {
        Timestamp {
            hours: (total / 3600000) as u32,
            minutes: ((total / 60000) % 60) as u32,
            seconds: ((total / 1000) % 60) as u32,
            miliseconds: (total % 1000) as u32,
        }
    }

    /// Lexicographic comparison of `(hours, minutes, seconds, miliseconds)`.
    pub open spec fn compare(self, other: Timestamp) -> Ordering {
        if self.hours != other.hours {
            if self.hours < other.hours { Ordering::Less } else { Ordering::Greater }
        } else if self.minutes != other.minutes {
            if self.minutes < other.minutes { Ordering::Less } else { Ordering::Greater }
        } else if self.seconds != other.seconds {
            if self.seconds < other.seconds { Ordering::Less } else { Ordering::Greater }
        } else if self.miliseconds != other.miliseconds {
            if self.miliseconds < other.miliseconds { Ordering::Less } else { Ordering::Greater }
        } else {
            Ordering::Equal
        }
    }

    /// Builds the normalized timestamp of a total of milliseconds.
    pub fn from_milliseconds(total: u64) -> (r: Timestamp)
        requires
            Self::representable(total as int),
        ensures
            r == Self::from_total(total as int),
            r.wf(),
            r.total() == total,
    {
        proof {
            lemma_from_total(total as int);
        }
        Timestamp {
            hours: (total / MS_PER_HOUR) as u32,
            minutes: ((total / MS_PER_MINUTE) % 60) as u32,
            seconds: ((total / MS_PER_SECOND) % 60) as u32,
            miliseconds: (total % MS_PER_SECOND) as u32,
        }
    }

    /// Builds a timestamp from fields that may overflow their ranges,
    /// carrying the excess upward: milliseconds into seconds, seconds into
    /// minutes, minutes into hours.
    pub fn new(hours: u32, minutes: u32, seconds: u32, miliseconds: u32) -> (r: Timestamp)
        requires
            Self::representable(
                Self::raw_total(hours as int, minutes as int, seconds as int, miliseconds as int),
            ),
        ensures
            r == Self::from_total(
                Self::raw_total(hours as int, minutes as int, seconds as int, miliseconds as int),
            ),
            r.wf(),
    {
        let total = (hours as u64) * MS_PER_HOUR + (minutes as u64) * MS_PER_MINUTE
            + (seconds as u64) * MS_PER_SECOND + (miliseconds as u64);
        Self::from_milliseconds(total)
    }

    /// Builds the normalized timestamp of a total of microseconds; the
    /// microseconds below one millisecond are dropped.
    pub fn from_microseconds(microseconds: u64) -> (r: Timestamp)
        requires
            Self::representable(microseconds as int / 1000),
        ensures
            r == Self::from_total(microseconds as int / 1000),
            r.wf(),
    {
        Self::from_milliseconds(microseconds / 1000)
    }

    /// The total number of milliseconds.
    pub fn total_miliseconds(&self) -> (r: u64)
        ensures
            r == self.total(),
    {
        (self.hours as u64) * MS_PER_HOUR + (self.minutes as u64) * MS_PER_MINUTE
            + (self.seconds as u64) * MS_PER_SECOND + (self.miliseconds as u64)
    }

    /// Adds `other` to this timestamp in place, with carry.
    pub fn add_assign(&mut self, other: Timestamp)
        requires
            Self::representable(old(self).total() + other.total()),
        ensures
            *final(self) == Self::from_total(old(self).total() + other.total()),
    {
        *self = *self + other;
    }

    /// `self - other`, or `NegativeDuration` when `other` is the later time.
    pub fn subtract(&self, other: Timestamp) -> (r: Result<Timestamp, SrtError>)
        requires
            other.total() <= self.total() ==> Self::representable(self.total() - other.total()),
        ensures
            other.total() <= self.total() ==> r == Ok::<Timestamp, SrtError>(
                Self::from_total(self.total() - other.total()),
            ),
            other.total() > self.total() ==> r == Err::<Timestamp, SrtError>(
                SrtError::NegativeDuration,
            ),
    {
        if other.total_miliseconds() <= self.total_miliseconds() {
            Ok(*self - other)
        } else {
            Err(SrtError::NegativeDuration)
        }
    }

    /// Subtracts `other` from this timestamp in place; when `other` is the
    /// later time, fails with `NegativeDuration` and leaves it unchanged.
    pub fn sub_assign(&mut self, other: Timestamp) -> (r: Result<(), SrtError>)
        requires
            other.total() <= old(self).total() ==> Self::representable(
                old(self).total() - other.total(),
            ),
        ensures
            other.total() <= old(self).total() ==> r is Ok && *final(self) == Self::from_total(
                old(self).total() - other.total(),
            ),
            other.total() > old(self).total() ==> r == Err::<(), SrtError>(
                SrtError::NegativeDuration,
            ) && *final(self) == *old(self),
    {
        match self.subtract(other) {
            Ok(t) => {
                *self = t;
                Ok(())
            },
            Err(e) => Err(e),
        }
    }
}

impl PartialOrd for Timestamp {
    fn partial_cmp(&self, other: &Timestamp) -> Option<Ordering> {
        if self.hours != other.hours {
            if self.hours < other.hours { Some(Ordering::Less) } else { Some(Ordering::Greater) }
        } else if self.minutes != other.minutes {
            if self.minutes < other.minutes { Some(Ordering::Less) } else { Some(Ordering::Greater) }
        } else if self.seconds != other.seconds {
            if self.seconds < other.seconds { Some(Ordering::Less) } else { Some(Ordering::Greater) }
        } else if self.miliseconds != other.miliseconds {
            if self.miliseconds < other.miliseconds {
                Some(Ordering::Less)
            } else {
                Some(Ordering::Greater)
            }
        } else {
            Some(Ordering::Equal)
        }
    }
}

impl vstd::std_specs::cmp::PartialOrdSpecImpl for Timestamp {
    open spec fn obeys_partial_cmp_spec() -> bool {
        true
    }

    open spec fn partial_cmp_spec(&self, other: &Timestamp) -> Option<Ordering> {
        Some(self.compare(*other))
    }
}

impl core::ops::Add for Timestamp {
    type Output = Timestamp;

    /// The sum of two timestamps, with carry.
    fn add(self, other: Timestamp) -> Timestamp {
        Timestamp::from_milliseconds(self.total_miliseconds() + other.total_miliseconds())
    }
}

impl vstd::std_specs::ops::AddSpecImpl for Timestamp {
    open spec fn obeys_add_spec() -> bool {
        true
    }

    open spec fn add_req(self, other: Timestamp) -> bool {
        Timestamp::representable(self.total() + other.total())
    }

    open spec fn add_spec(self, other: Timestamp) -> Timestamp {
        Timestamp::from_total(self.total() + other.total())
    }
}

impl core::ops::Sub for Timestamp {
    type Output = Timestamp;

    /// The difference of two timestamps, with borrow; `other` must not be
    /// the later time.
    fn sub(self, other: Timestamp) -> Timestamp {
        Timestamp::from_milliseconds(self.total_miliseconds() - other.total_miliseconds())
    }
}

impl vstd::std_specs::ops::SubSpecImpl for Timestamp {
    open spec fn obeys_sub_spec() -> bool {
        true
    }

    open spec fn sub_req(self, other: Timestamp) -> bool {
        &&& other.total() <= self.total()
        &&& Timestamp::representable(self.total() - other.total())
    }

    open spec fn sub_spec(self, other: Timestamp) -> Timestamp {
        Timestamp::from_total(self.total() - other.total())
    }
}

/// `from_total` splits a representable total into normalized fields that
/// add up to it again.
pub proof fn lemma_from_total(total: int)
    requires
        Timestamp::representable(total),
    ensures
        Timestamp::from_total(total).wf(),
        Timestamp::from_total(total).total() == total,
{
    let a = total / 1000;
    let b = a / 60;
    lemma_fundamental_div_mod(total, 1000);
    lemma_fundamental_div_mod(a, 60);
    lemma_fundamental_div_mod(b, 60);
    lemma_div_denominator(total, 1000, 60);
    lemma_div_denominator(a, 60, 60);
    lemma_div_denominator(total, 60000, 60);
    assert(total / 60000 == b);
    assert(b / 60 == total / 3600000);
}

/// A normalized timestamp is the one `from_total` builds from its total.
pub proof fn lemma_total_determines(t: Timestamp)
    requires
        t.wf(),
    ensures
        Timestamp::representable(t.total()),
        Timestamp::from_total(t.total()) == t,
{
    let total = t.total();
    let a = t.hours * 3600 + t.minutes * 60 + t.seconds;
    let b = t.hours * 60 + t.minutes;
    lemma_fundamental_div_mod_converse(total, 1000, a, t.miliseconds as int);
    lemma_fundamental_div_mod_converse(a, 60, b, t.seconds as int);
    lemma_fundamental_div_mod_converse(b, 60, t.hours as int, t.minutes as int);
    lemma_div_denominator(total, 1000, 60);
    lemma_div_denominator(total, 60000, 60);
}

/// Carry law: `new` returns the fields obtained by carrying overflow upward
/// one field at a time, milliseconds into seconds, seconds into minutes and
/// minutes into hours.
pub proof fn lemma_carry(hours: u32, minutes: u32, seconds: u32, miliseconds: u32)
    requires
        Timestamp::representable(
            Timestamp::raw_total(hours as int, minutes as int, seconds as int, miliseconds as int),
        ),
    ensures
        ({
            let s = seconds + miliseconds / 1000;
            let m = minutes + s / 60;
            let h = hours + m / 60;
            Timestamp::from_total(
                Timestamp::raw_total(hours as int, minutes as int, seconds as int, miliseconds as int),
            ) == Timestamp {
                hours: h as u32,
                minutes: (m % 60) as u32,
                seconds: (s % 60) as u32,
                miliseconds: (miliseconds % 1000) as u32,
            } && h <= u32::MAX
        }),
{
    let raw = Timestamp::raw_total(hours as int, minutes as int, seconds as int, miliseconds as int);
    let s = seconds + miliseconds / 1000;
    let m = minutes + s / 60;
    let h = hours + m / 60;
    lemma_fundamental_div_mod(miliseconds as int, 1000);
    lemma_fundamental_div_mod(s, 60);
    lemma_fundamental_div_mod(m, 60);
    let rest = (m % 60) * 60000 + (s % 60) * 1000 + miliseconds % 1000;
    assert(raw == h * 3600000 + rest);
    lemma_fundamental_div_mod_converse(raw, 3600000, h, rest);
    let c = Timestamp {
        hours: h as u32,
        minutes: (m % 60) as u32,
        seconds: (s % 60) as u32,
        miliseconds: (miliseconds % 1000) as u32,
    };
    assert(c.total() == raw);
    lemma_total_determines(c);
}

/// Normalized timestamps are totally ordered: exactly one of `a < b`,
/// `a == b` and `a > b` holds, and it is the one that comparing their total
/// milliseconds gives.
pub proof fn lemma_order(a: Timestamp, b: Timestamp)
    requires
        a.wf(),
        b.wf(),
    ensures
        a.partial_cmp_spec(&b) == Some(Ordering::Less) <==> a.total() < b.total(),
        a.partial_cmp_spec(&b) == Some(Ordering::Equal) <==> a == b,
        a.partial_cmp_spec(&b) == Some(Ordering::Greater) <==> a.total() > b.total(),
        a == b <==> a.total() == b.total(),
        b.partial_cmp_spec(&a) == Some(Ordering::Less) <==> a.partial_cmp_spec(&b) == Some(
            Ordering::Greater,
        ),
{
    if a.total() == b.total() {
        lemma_total_determines(a);
        lemma_total_determines(b);
    }
}

} // verus!
