use vstd::prelude::*;

verus! {

pub const SECONDS_IN_A_MINUTE: i64 = 60;
pub const SECONDS_IN_AN_HOUR: i64 = 3600;
pub const SECONDS_IN_A_DAY: i64 = 86400;

/// A Unix timestamp: seconds since the Unix epoch.
#[derive(Clone, Copy, Debug, PartialEq, Eq, Structural)]
pub struct Instant {
    pub seconds_since_unix_epoch: i64,
}

#[derive(Clone, Copy, Debug, PartialEq, Eq, Structural)]
pub enum TimeComparisonOperator {
    Eq,
    Lt,
    Lte,
    Gt,
    Gte,
}

/// The instant `seconds` after `base`, where it fits.
pub open spec fn shifted(base: i64, seconds: int) -> Option<Instant> {
    if i64::MIN <= base + seconds <= i64::MAX {
        Some(Instant { seconds_since_unix_epoch: (base + seconds) as i64 })
    } else {
        None
    }
}

impl Instant {
    pub fn new(seconds_since_unix_epoch: i64) -> (r: Instant)
        ensures
            r.seconds_since_unix_epoch == seconds_since_unix_epoch,
    {
        Instant { seconds_since_unix_epoch }
    }

    pub fn compare(&self, other: Instant, operator: TimeComparisonOperator) -> (r: bool)
        ensures
            r == match operator {
                TimeComparisonOperator::Eq => self.seconds_since_unix_epoch == other.seconds_since_unix_epoch,
                TimeComparisonOperator::Lt => self.seconds_since_unix_epoch < other.seconds_since_unix_epoch,
                TimeComparisonOperator::Lte => self.seconds_since_unix_epoch <= other.seconds_since_unix_epoch,
                TimeComparisonOperator::Gt => self.seconds_since_unix_epoch > other.seconds_since_unix_epoch,
                TimeComparisonOperator::Gte => self.seconds_since_unix_epoch >= other.seconds_since_unix_epoch,
            },
    {
        let a = self.seconds_since_unix_epoch;
        let b = other.seconds_since_unix_epoch;
        match operator {
            TimeComparisonOperator::Eq => a == b,
            TimeComparisonOperator::Lt => a < b,
            TimeComparisonOperator::Lte => a <= b,
            TimeComparisonOperator::Gt => a > b,
            TimeComparisonOperator::Gte => a >= b,
        }
    }

    /// The instant `count` units of `unit` seconds later, where the shift and the
    /// result fit in an `i64`.
    fn add_units(&self, count: i64, unit: i64) -> (r: Option<Instant>)
        requires
            unit > 0,
        ensures
            !(i64::MIN <= count * unit <= i64::MAX) ==> r is None,
            i64::MIN <= count * unit <= i64::MAX ==> r == shifted(self.seconds_since_unix_epoch, count * unit),
    {
        match count.checked_mul(unit) {
            Some(to_add) => match self.seconds_since_unix_epoch.checked_add(to_add) {
                Some(s) => Some(Instant { seconds_since_unix_epoch: s }),
                None => None,
            },
            None => None,
        }
    }

    pub fn add_days(&self, days_to_add: i64) -> (r: Option<Instant>)
        ensures
            !(i64::MIN <= days_to_add * SECONDS_IN_A_DAY <= i64::MAX) ==> r is None,
            i64::MIN <= days_to_add * SECONDS_IN_A_DAY <= i64::MAX ==> r == shifted(
                self.seconds_since_unix_epoch,
                days_to_add * SECONDS_IN_A_DAY,
            ),
    {
        self.add_units(days_to_add, SECONDS_IN_A_DAY)
    }

    pub fn add_hours(&self, hours_to_add: i64) -> (r: Option<Instant>)
        ensures
            !(i64::MIN <= hours_to_add * SECONDS_IN_AN_HOUR <= i64::MAX) ==> r is None,
            i64::MIN <= hours_to_add * SECONDS_IN_AN_HOUR <= i64::MAX ==> r == shifted(
                self.seconds_since_unix_epoch,
                hours_to_add * SECONDS_IN_AN_HOUR,
            ),
    {
        self.add_units(hours_to_add, SECONDS_IN_AN_HOUR)
    }

    pub fn add_minutes(&self, minutes_to_add: i64) -> (r: Option<Instant>)
        ensures
            !(i64::MIN <= minutes_to_add * SECONDS_IN_A_MINUTE <= i64::MAX) ==> r is None,
            i64::MIN <= minutes_to_add * SECONDS_IN_A_MINUTE <= i64::MAX ==> r == shifted(
                self.seconds_since_unix_epoch,
                minutes_to_add * SECONDS_IN_A_MINUTE,
            ),
    {
        self.add_units(minutes_to_add, SECONDS_IN_A_MINUTE)
    }

    pub fn add_seconds(&self, seconds_to_add: i64) -> (r: Option<Instant>)
        ensures
            r == shifted(self.seconds_since_unix_epoch, seconds_to_add as int),
    {
        match self.seconds_since_unix_epoch.checked_add(seconds_to_add) {
            Some(s) => Some(Instant { seconds_since_unix_epoch: s }),
            None => None,
        }
    }
}

} // verus!
