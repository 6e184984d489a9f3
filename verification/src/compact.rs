//! Compact representations of standard library types.
//!
//! Each type here stands for a type of the standard library and is written
//! with as little as that type needs: a tuple of its parts, or an enum whose
//! variants are numbered identifiers.

use vstd::prelude::*;
use vstd::std_specs::convert::{FromSpec, IntoSpec};

verus! {

/// A type that has a compact representation.
pub trait Compactable: Sized {
    /// The compact representation.
    type Compacted: From<Self> + Into<Self>;

    /// Converts into the compact representation, as its `From` does.
    fn into_compacted(self) -> (r: Self::Compacted)
        ensures
            Self::Compacted::obeys_from_spec() ==> r == Self::Compacted::from_spec(self),
    {
        Self::Compacted::from(self)
    }

    /// Converts from the compact representation, as its `Into` does.
    fn from_compacted(compacted: Self::Compacted) -> (r: Self)
        ensures
            Self::Compacted::obeys_into_spec() ==> r == compacted.into_spec(),
    {
        compacted.into()
    }
}

/// Compact representation of a `Result`.
pub enum Result<T, E> {
    /// Contains the success value.
    Success(T),
    /// Contains the error value.
    Failure(E),
}

impl<T, E> From<core::result::Result<T, E>> for Result<T, E> {
    fn from(res: core::result::Result<T, E>) -> (r: Self) {
        match res {
            Ok(t) => Self::Success(t),
            Err(err) => Self::Failure(err),
        }
    }
}

impl<T, E> vstd::std_specs::convert::FromSpecImpl<core::result::Result<T, E>> for Result<T, E> {
    open spec fn obeys_from_spec() -> bool {
        true
    }

    open spec fn from_spec(res: core::result::Result<T, E>) -> Self {
        match res {
            Ok(t) => Self::Success(t),
            Err(err) => Self::Failure(err),
        }
    }
}

impl<T, E> From<Result<T, E>> for core::result::Result<T, E> {
    fn from(compact: Result<T, E>) -> (r: Self) {
        match compact {
            Result::Success(v) => Ok(v),
            Result::Failure(err) => Err(err),
        }
    }
}

impl<T, E> vstd::std_specs::convert::FromSpecImpl<Result<T, E>> for core::result::Result<T, E> {
    open spec fn obeys_from_spec() -> bool {
        true
    }

    open spec fn from_spec(compact: Result<T, E>) -> Self {
        match compact {
            Result::Success(v) => Ok(v),
            Result::Failure(err) => Err(err),
        }
    }
}

impl<T, E> Compactable for core::result::Result<T, E> {
    type Compacted = Result<T, E>;
}

/// Nanoseconds in a second.
pub const NANOS_PER_SEC: u32 = 1_000_000_000;

/// Compact representation of a `Duration`: whole seconds and nanoseconds,
/// the latter below a second.
#[derive(Default, Debug, Clone, Copy, PartialEq, Eq, Structural, PartialOrd, Ord, Hash)]
pub struct Duration(pub u64, pub u32);

impl TryFrom<(u64, u32)> for Duration {
    type Error = &'static str;

    fn try_from(parts: (u64, u32)) -> (r: core::result::Result<Self, Self::Error>) {
        let (secs, nanos) = parts;
        if nanos >= NANOS_PER_SEC {
            return Err("Duration nanoseconds out of range");
        }
        Ok(Self(secs, nanos))
    }
}

impl vstd::std_specs::convert::TryFromSpecImpl<(u64, u32)> for Duration {
    open spec fn obeys_try_from_spec() -> bool {
        true
    }

    open spec fn try_from_spec(parts: (u64, u32)) -> core::result::Result<Self, &'static str> {
        if parts.1 >= NANOS_PER_SEC {
            Err("Duration nanoseconds out of range")
        } else {
            Ok(Duration(parts.0, parts.1))
        }
    }
}

/// Whole seconds of a duration.
#[verifier::external_body]
fn duration_secs(d: &core::time::Duration) -> u64 {
    d.as_secs()
}

/// Nanoseconds of a duration beyond its whole seconds, below a second.
#[verifier::external_body]
fn duration_subsec_nanos(d: &core::time::Duration) -> (r: u32)
    ensures
        r < NANOS_PER_SEC,
{
    d.subsec_nanos()
}

/// A duration of whole seconds and nanoseconds below a second.
#[verifier::external_body]
fn duration_new(secs: u64, nanos: u32) -> core::time::Duration
    requires
        nanos < NANOS_PER_SEC,
{
    core::time::Duration::new(secs, nanos)
}

impl From<core::time::Duration> for Duration {
    fn from(duration: core::time::Duration) -> (r: Self) {
        Self(duration_secs(&duration), duration_subsec_nanos(&duration))
    }
}

impl vstd::std_specs::convert::FromSpecImpl<core::time::Duration> for Duration {
    open spec fn obeys_from_spec() -> bool {
        false
    }

    open spec fn from_spec(duration: core::time::Duration) -> Self {
        arbitrary()
    }
}

impl Duration {
    /// Converts into a `Duration`, if the nanoseconds are below a second.
    pub fn to_duration(self) -> (r: core::option::Option<core::time::Duration>)
        ensures
            r is Some <==> self.1 < NANOS_PER_SEC,
    {
        if self.1 < NANOS_PER_SEC {
            Some(duration_new(self.0, self.1))
        } else {
            None
        }
    }
}

/// Compact representation of a `SystemTime`: whole seconds since the Unix
/// epoch, rounded down, and the nanoseconds after them, below a second.
#[derive(Default, Debug, Clone, Copy, PartialEq, Eq, Structural, PartialOrd, Ord, Hash)]
pub struct SystemTime(pub i64, pub u32);

/// A point in time as the system represents it.
#[verifier::external_type_specification]
#[verifier::external_body]
pub struct ExSystemTime(std::time::SystemTime);

/// The Unix epoch, `std::time::UNIX_EPOCH`.
#[verifier::external_body]
fn unix_epoch() -> std::time::SystemTime {
    std::time::UNIX_EPOCH
}

/// `SystemTime::checked_add`: the time `d` after `t`, where the system can
/// represent it. Which times it can represent depends on the platform, so
/// nothing is stated of the result.
#[verifier::external_body]
fn system_time_checked_add(t: std::time::SystemTime, d: core::time::Duration) -> core::option::Option<
    std::time::SystemTime,
> {
    t.checked_add(d)
}

/// `SystemTime::checked_sub`: the time `d` before `t`, where the system can
/// represent it. Which times it can represent depends on the platform, so
/// nothing is stated of the result.
#[verifier::external_body]
fn system_time_checked_sub(t: std::time::SystemTime, d: core::time::Duration) -> core::option::Option<
    std::time::SystemTime,
> {
    t.checked_sub(d)
}

/// The magnitude of `x`.
fn unsigned_abs(x: i64) -> (r: u64)
    ensures
        r == if x >= 0 {
            x as int
        } else {
            -x
        },
{
    if x >= 0 {
        x as u64
    } else {
        (-(x as i128)) as u64
    }
}

/// The nanoseconds from the Unix epoch to the time `secs` whole seconds
/// after it, or before it where `back`, then `nanos` nanoseconds later.
pub open spec fn offset_nanos(back: bool, secs: u64, nanos: u32) -> int {
    (if back {
        -(secs as int)
    } else {
        secs as int
    }) * NANOS_PER_SEC + nanos
}

impl SystemTime {
    /// How to reach the time from the Unix epoch: whether to go back, how
    /// many whole seconds, and how many nanoseconds to go forward after
    /// them. The time lies `self.0 * NANOS_PER_SEC + self.1` nanoseconds
    /// from the epoch, and so does the way given.
    pub fn epoch_offset(self) -> (r: (bool, u64, u32))
        ensures
            offset_nanos(r.0, r.1, r.2) == self.0 * NANOS_PER_SEC + self.1,
            r.2 == self.1,
            r.0 ==> r.1 > 0,
    {
        (self.0 < 0, unsigned_abs(self.0), self.1)
    }

    /// Converts into a `std::time::SystemTime`, or `None` where the
    /// nanoseconds are not below a second or the system cannot represent
    /// the time.
    ///
    /// The time is reached from the epoch the way [`Self::epoch_offset`]
    /// gives.
    pub fn checked_into(self) -> (r: core::option::Option<std::time::SystemTime>)
        ensures
            self.1 >= NANOS_PER_SEC ==> r is None,
    {
        if self.1 >= NANOS_PER_SEC {
            return None;
        }
        let (back, secs, nanos) = self.epoch_offset();
        let whole = duration_new(secs, 0);
        let subsec = duration_new(0, nanos);
        let shifted = if back {
            system_time_checked_sub(unix_epoch(), whole)
        } else {
            system_time_checked_add(unix_epoch(), whole)
        };
        match shifted {
            Some(t) => system_time_checked_add(t, subsec),
            None => None,
        }
    }
}

impl TryFrom<(i64, u32)> for SystemTime {
    type Error = &'static str;

    fn try_from(parts: (i64, u32)) -> (r: core::result::Result<Self, Self::Error>)
        ensures
            parts.1 >= NANOS_PER_SEC ==> r is Err,
            r matches Ok(t) ==> t == SystemTime(parts.0, parts.1),
    {
        let compact = Self(parts.0, parts.1);
        match compact.checked_into() {
            Some(_) => Ok(compact),
            None => Err("SystemTime out of range"),
        }
    }
}

impl vstd::std_specs::convert::TryFromSpecImpl<(i64, u32)> for SystemTime {
    open spec fn obeys_try_from_spec() -> bool {
        false
    }

    open spec fn try_from_spec(parts: (i64, u32)) -> core::result::Result<Self, &'static str> {
        arbitrary()
    }
}

impl SystemTime {
    /// The time `nanos` nanoseconds after the Unix epoch, or before it where
    /// negative, or `None` where the whole seconds do not fit.
    pub fn from_nanos(nanos: i128) -> (r: core::option::Option<SystemTime>)
        ensures
            r matches Some(t) ==> t.0 * NANOS_PER_SEC + t.1 == nanos && t.1 < NANOS_PER_SEC,
            r is None <==> !(i64::MIN <= (nanos as int) / (NANOS_PER_SEC as int) <= i64::MAX),
    {
        let n: i128 = NANOS_PER_SEC as i128;
        let q: i128;
        let rem: i128;
        if nanos >= 0 {
            q = nanos / n;
            rem = nanos % n;
            assert(q * n + rem == nanos && 0 <= rem < n) by (nonlinear_arith)
                requires
                    n == 1_000_000_000,
                    nanos >= 0,
                    q == nanos / n,
                    rem == nanos % n,
            ;
        } else {
            let m: i128 = -(nanos + 1);
            q = -(m / n) - 1;
            rem = n - 1 - m % n;
            assert(q * n + rem == nanos && 0 <= rem < n) by (nonlinear_arith)
                requires
                    n == 1_000_000_000,
                    m >= 0,
                    m == -(nanos + 1),
                    q == -(m / n) - 1,
                    rem == n - 1 - m % n,
            ;
        }
        assert(q == (nanos as int) / (n as int)) by (nonlinear_arith)
            requires
                q * n + rem == nanos,
                0 <= rem < n,
                n == 1_000_000_000,
        {
            vstd::arithmetic::div_mod::lemma_fundamental_div_mod_converse(
                nanos as int,
                n as int,
                q as int,
                rem as int,
            );
        }
        if q < i64::MIN as i128 || q > i64::MAX as i128 {
            return None;
        }
        Some(SystemTime(q as i64, rem as u32))
    }
}

/// Compact representation of a `Range`: its start and end.
#[derive(Debug, Clone, Copy, PartialEq, Eq, Structural, PartialOrd, Ord, Hash)]
pub struct Range<Idx>(pub Idx, pub Idx);

impl<Idx> From<core::ops::Range<Idx>> for Range<Idx> {
    fn from(range: core::ops::Range<Idx>) -> (r: Self) {
        Self(range.start, range.end)
    }
}

impl<Idx> vstd::std_specs::convert::FromSpecImpl<core::ops::Range<Idx>> for Range<Idx> {
    open spec fn obeys_from_spec() -> bool {
        true
    }

    open spec fn from_spec(range: core::ops::Range<Idx>) -> Self {
        Range(range.start, range.end)
    }
}

impl<Idx> From<Range<Idx>> for core::ops::Range<Idx> {
    fn from(compact: Range<Idx>) -> (r: Self) {
        core::ops::Range { start: compact.0, end: compact.1 }
    }
}

impl<Idx> vstd::std_specs::convert::FromSpecImpl<Range<Idx>> for core::ops::Range<Idx> {
    open spec fn obeys_from_spec() -> bool {
        true
    }

    open spec fn from_spec(compact: Range<Idx>) -> Self {
        core::ops::Range { start: compact.0, end: compact.1 }
    }
}

impl<Idx> Compactable for core::ops::Range<Idx> {
    type Compacted = Range<Idx>;
}

/// Compact representation of a `RangeInclusive`: its start and end.
#[derive(Debug, Clone, Copy, PartialEq, Eq, Structural, PartialOrd, Ord, Hash)]
pub struct RangeInclusive<Idx>(pub Idx, pub Idx);

/// Compact representation of a `RangeFrom`: its start.
#[derive(Debug, Clone, Copy, PartialEq, Eq, Structural, PartialOrd, Ord, Hash)]
pub struct RangeFrom<Idx>(pub Idx);

/// Compact representation of a `RangeTo`: its end.
#[derive(Debug, Clone, Copy, PartialEq, Eq, Structural, PartialOrd, Ord, Hash)]
pub struct RangeTo<Idx>(pub Idx);

/// Compact representation of a `Bound`, its variants numbered.
#[derive(Debug, Clone, Copy, PartialEq, Eq, Structural, PartialOrd, Ord, Hash)]
pub enum Bound<T> {
    /// An infinite endpoint.
    Unbounded,
    /// An inclusive bound.
    Included(T),
    /// An exclusive bound.
    Excluded(T),
}

} // verus!
