//! The times that messages carry.

use vstd::prelude::*;

verus! {

/// The first second that a time can stand in: the year -262143 begins.
pub const FIRST_SECOND: i64 = -8_334_601_228_800;

/// The last second that a time can stand in: the year 262142 ends.
pub const LAST_SECOND: i64 = 8_210_266_876_799;

/// The nanoseconds of a second.
pub const SECOND: u32 = 1_000_000_000;

/// A point in time: the seconds since 1970 began, leap seconds not counted,
/// and the nanoseconds since. In a leap second the nanoseconds run on beyond
/// those of the second before.
pub struct Moment {
    pub secs: int,
    pub nanos: int,
}

/// Whether seconds and nanoseconds make a point in time.
pub open spec fn is_moment(secs: int, nanos: int) -> bool {
    &&& FIRST_SECOND <= secs <= LAST_SECOND
    &&& 0 <= nanos < 2 * SECOND
    &&& nanos >= SECOND ==> secs % 60 == 59
}

/// The moment at which no message has come yet.
pub open spec fn epoch() -> Moment {
    Moment { secs: 0, nanos: 0 }
}

/// The nanoseconds from one moment to another. A leap second in which one of
/// them stands counts where the time of day of the other lies beyond it.
pub open spec fn nanos_between(earlier: Moment, later: Moment) -> int {
    let leap: int = if later.secs % 86400 > earlier.secs % 86400 && earlier.nanos >= SECOND {
        1
    } else if later.secs % 86400 < earlier.secs % 86400 && later.nanos >= SECOND {
        -1
    } else {
        0
    };
    (later.secs - earlier.secs + leap) * SECOND + (later.nanos - earlier.nanos)
}

/// Calls `chrono::DateTime::from_timestamp` on both pairs and subtracts with
/// `chrono::DateTime`'s `-`; `num_seconds` and `subsec_nanos` take the
/// difference apart. The claims are that each pair that makes a moment is in
/// chrono's range, that the difference is `nanos_between` the two, and that it
/// comes apart into whole seconds and less than one second, of one sign.
#[verifier::external_body]
fn subtract(later_secs: i64, later_nanos: u32, earlier_secs: i64, earlier_nanos: u32) -> (d: (
    i64,
    i32,
))
    requires
        is_moment(later_secs as int, later_nanos as int),
        is_moment(earlier_secs as int, earlier_nanos as int),
    ensures
        d.0 * SECOND + d.1 == nanos_between(
            (Moment { secs: earlier_secs as int, nanos: earlier_nanos as int }),
            (Moment { secs: later_secs as int, nanos: later_nanos as int }),
        ),
        -SECOND < d.1 < SECOND,
        d.0 > 0 ==> d.1 >= 0,
        d.0 < 0 ==> d.1 <= 0,
{
    let later = chrono::DateTime::from_timestamp(later_secs, later_nanos).unwrap();
    let earlier = chrono::DateTime::from_timestamp(earlier_secs, earlier_nanos).unwrap();
    let difference = later - earlier;
    (difference.num_seconds(), difference.subsec_nanos())
}

/// A point in time.
#[derive(Debug, Clone, Copy)]
pub struct Timestamp {
    secs: i64,
    nanos: u32,
}

impl View for Timestamp {
    type V = Moment;

    closed spec fn view(&self) -> Moment {
        Moment { secs: self.secs as int, nanos: self.nanos as int }
    }
}

impl Timestamp {
    #[verifier::type_invariant]
    closed spec fn in_range(self) -> bool {
        is_moment(self.secs as int, self.nanos as int)
    }

    /// The point in time of the given seconds and nanoseconds, where there is one.
    pub fn new(secs: i64, nanos: u32) -> (time: Option<Timestamp>)
        ensures
            match time {
                Some(t) => is_moment(secs as int, nanos as int) && t@ == (Moment {
                    secs: secs as int,
                    nanos: nanos as int,
                }),
                None => !is_moment(secs as int, nanos as int),
            },
    {
        if secs < FIRST_SECOND || secs > LAST_SECOND || nanos >= 2 * SECOND {
            return None;
        }
        if nanos >= SECOND {
            // Brings the seconds into reach of `%` without changing the remainder.
            let within: u64 = (secs - FIRST_SECOND) as u64;
            if within % 60 != 59 {
                return None;
            }
        }
        Some(Timestamp { secs: secs, nanos: nanos })
    }

    /// The seconds since 1970 began.
    pub fn secs(&self) -> (secs: i64)
        ensures
            secs == self@.secs,
    {
        self.secs
    }

    /// The nanoseconds since the second began.
    pub fn nanos(&self) -> (nanos: u32)
        ensures
            nanos == self@.nanos,
    {
        self.nanos
    }

    /// Tells whether two times are the same.
    pub fn same(&self, other: &Timestamp) -> (same: bool)
        ensures
            same == (self@ == other@),
    {
        self.secs == other.secs && self.nanos == other.nanos
    }

    /// The nanoseconds from another time to this one.
    pub fn since(&self, earlier: &Timestamp) -> (nanos: i128)
        ensures
            nanos == nanos_between(earlier@, self@),
    {
        proof {
            use_type_invariant(self);
            use_type_invariant(earlier);
        }
        let (secs, rest): (i64, i32) = subtract(
            self.secs,
            self.nanos,
            earlier.secs,
            earlier.nanos,
        );
        secs as i128 * SECOND as i128 + rest as i128
    }
}

impl Default for Timestamp {
    fn default() -> (time: Timestamp)
        ensures
            time@ == epoch(),
    {
        Timestamp { secs: 0, nanos: 0 }
    }
}

} // verus!
