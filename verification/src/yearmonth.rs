//! Calendar bins: a whole year, or one month of a year.

use vstd::prelude::*;

verus! {

/// A calendar bin.  `month` is `None` for a whole-year bin, or `Some(m)`
/// with `m` in `0..=11` for one month of `year`.
#[derive(Copy, Clone, Debug, Hash)]
pub struct YearMonth {
    pub year: i32,
    pub month: Option<i32>,
}

impl YearMonth {
    /// Well-formed: a present month lies in `0..=11`.
    pub open spec fn wf(self) -> bool {
        match self.month {
            Some(m) => 0 <= m <= 11,
            None => true,
        }
    }

    /// Total order on bins: by year, then by month, a whole-year bin
    /// ordering before any month of the same year.
    pub open spec fn spec_le(self, other: YearMonth) -> bool {
        self.year < other.year || (self.year == other.year && match (self.month, other.month) {
            (None, None) => true,
            (None, Some(_)) => true,
            (Some(_), None) => false,
            (Some(a), Some(b)) => a <= b,
        })
    }

    /// Strict version of the bin order.
    pub open spec fn spec_lt(self, other: YearMonth) -> bool {
        self.spec_le(other) && self != other
    }

    /// Position of the bin on its own time axis: months since the epoch for
    /// month bins, years for whole-year bins.  Within one granularity,
    /// `spec_next` advances this index by exactly one.
    pub open spec fn idx(self) -> int {
        match self.month {
            Some(m) => self.year * 12 + m,
            None => self.year as int,
        }
    }

    /// The successor bin: the next month (rolling over to month 0 of the
    /// next year), or the next whole year.
    pub open spec fn spec_next(self) -> YearMonth {
        match self.month {
            None => YearMonth { year: (self.year + 1) as i32, month: None },
            Some(m) => if m == 11 {
                YearMonth { year: (self.year + 1) as i32, month: Some(0) }
            } else {
                YearMonth { year: self.year, month: Some((m + 1) as i32) }
            },
        }
    }

    /// The predecessor bin.
    pub open spec fn spec_prev(self) -> YearMonth {
        match self.month {
            None => YearMonth { year: (self.year - 1) as i32, month: None },
            Some(m) => if m == 0 {
                YearMonth { year: (self.year - 1) as i32, month: Some(11) }
            } else {
                YearMonth { year: self.year, month: Some((m - 1) as i32) }
            },
        }
    }

    pub fn next(&self) -> (r: YearMonth)
        requires
            self.wf(),
            self.year < i32::MAX,
        ensures
            r == self.spec_next(),
            r.wf(),
    {
        match self.month {
            None => YearMonth { year: self.year + 1, month: None },
            Some(11) => YearMonth { year: self.year + 1, month: Some(0) },
            Some(m) => YearMonth { year: self.year, month: Some(m + 1) },
        }
    }

    pub fn prev(&self) -> (r: YearMonth)
        requires
            self.wf(),
            self.year > i32::MIN,
        ensures
            r == self.spec_prev(),
            r.wf(),
    {
        match self.month {
            None => YearMonth { year: self.year - 1, month: None },
            Some(0) => YearMonth { year: self.year - 1, month: Some(11) },
            Some(m) => YearMonth { year: self.year, month: Some(m - 1) },
        }
    }

    /// Executable form of the bin order.
    pub fn le(&self, other: &YearMonth) -> (r: bool)
        ensures
            r == self.spec_le(*other),
    {
        if self.year != other.year {
            self.year < other.year
        } else {
            match (self.month, other.month) {
                (None, None) => true,
                (None, Some(_)) => true,
                (Some(_), None) => false,
                (Some(a), Some(b)) => a <= b,
            }
        }
    }
}

impl PartialEq for YearMonth {
    fn eq(&self, other: &YearMonth) -> (r: bool) {
        self.year == other.year && match (self.month, other.month) {
            (None, None) => true,
            (Some(a), Some(b)) => a == b,
            _ => false,
        }
    }
}

impl vstd::std_specs::cmp::PartialEqSpecImpl for YearMonth {
    open spec fn obeys_eq_spec() -> bool {
        true
    }

    open spec fn eq_spec(&self, other: &YearMonth) -> bool {
        *self == *other
    }
}

/// The number of non-leap seconds from the Unix epoch to midnight at the
/// start of the given proleptic-Gregorian calendar day, as chrono computes
/// it: a function of the day alone.
pub uninterp spec fn epoch_seconds_of(year: int, month: int, day: int) -> int;

/// Smallest year chrono's `NaiveDate` accepts.
pub const CHRONO_MIN_YEAR: i32 = -262143;

/// Largest year chrono's `NaiveDate` accepts.
pub const CHRONO_MAX_YEAR: i32 = 262142;

/// Relies on chrono's `NaiveDate::from_ymd_opt`, `NaiveDate::and_hms_opt` and
/// `NaiveDateTime::and_utc().timestamp()`: together they map a calendar day to
/// the seconds from the epoch to its midnight, depending on the day alone.
/// The bounds keep the day inside the range `from_ymd_opt` documents, so the
/// fallback arms are never taken.
#[verifier::external_body]
fn ymd_midnight_seconds(year: i32, month: i32, day: i32) -> (r: i64)
    requires
        CHRONO_MIN_YEAR <= year <= CHRONO_MAX_YEAR,
        1 <= month <= 12,
        1 <= day <= 28,
    ensures
        r == epoch_seconds_of(year as int, month as int, day as int),
{
    match chrono::NaiveDate::from_ymd_opt(year, month as u32, day as u32) {
        Some(d) => match d.and_hms_opt(0, 0, 0) {
            Some(dt) => dt.and_utc().timestamp(),
            None => 0,
        },
        None => 0,
    }
}

impl YearMonth {
    /// The instant at which the bin begins, in seconds from the Unix epoch:
    /// midnight of the first day of the bin's first (or only) month.
    pub open spec fn begin_instant(self) -> int {
        match self.month {
            None => epoch_seconds_of(self.year as int, 1, 1),
            Some(m) => epoch_seconds_of(self.year as int, m + 1, 1),
        }
    }

    /// The instant at which the bin ends (exclusive): midnight of the first
    /// day of the following month or year.
    pub open spec fn end_instant(self) -> int {
        match self.month {
            None => epoch_seconds_of(self.year + 1, 1, 1),
            Some(m) => if m == 11 {
                epoch_seconds_of(self.year + 1, 1, 1)
            } else {
                epoch_seconds_of(self.year as int, m + 2, 1)
            },
        }
    }

    /// Seconds from the epoch to the start of the bin.
    pub fn begin_dt(&self) -> (r: i64)
        requires
            self.wf(),
            CHRONO_MIN_YEAR <= self.year <= CHRONO_MAX_YEAR,
        ensures
            r == self.begin_instant(),
    {
        let m = match self.month {
            Some(m) => m,
            None => 0,
        };
        ymd_midnight_seconds(self.year, m + 1, 1)
    }

    /// Seconds from the epoch to the end of the bin (exclusive).
    pub fn end_dt(&self) -> (r: i64)
        requires
            self.wf(),
            CHRONO_MIN_YEAR <= self.year <= CHRONO_MAX_YEAR - 1,
        ensures
            r == self.end_instant(),
    {
        match self.month {
            None => ymd_midnight_seconds(self.year + 1, 1, 1),
            Some(11) => ymd_midnight_seconds(self.year + 1, 1, 1),
            Some(m) => ymd_midnight_seconds(self.year, m + 2, 1),
        }
    }
}

/// The bin `start` advanced `n` steps by `spec_next`.
pub open spec fn nth_next(start: YearMonth, n: nat) -> YearMonth
    decreases n,
{
    if n == 0 {
        start
    } else {
        nth_next(start, (n - 1) as nat).spec_next()
    }
}

/// For bins of one granularity, the bin order agrees with the axis index.
pub proof fn lemma_idx_order(a: YearMonth, b: YearMonth)
    requires
        a.wf(),
        b.wf(),
        (a.month is Some) <==> (b.month is Some),
    ensures
        a.spec_le(b) <==> a.idx() <= b.idx(),
        (a == b) <==> (a.idx() == b.idx()),
{
}

/// Stepping advances the axis index by one and keeps the granularity.
pub proof fn lemma_next_idx(a: YearMonth)
    requires
        a.wf(),
        a.year < i32::MAX,
    ensures
        a.spec_next().idx() == a.idx() + 1,
        (a.spec_next().month is Some) <==> (a.month is Some),
{
}

/// One step forward is strictly increasing, and `spec_prev` undoes it.
pub proof fn lemma_next_step(b: YearMonth)
    requires
        b.wf(),
        b.year < i32::MAX,
    ensures
        b.spec_lt(b.spec_next()),
        b.spec_next().spec_prev() == b,
        b.spec_next().wf(),
{
}

/// Law: the sequence of bins generated by repeated `next()` from a
/// well-formed starting bin is strictly increasing in the bin order, and
/// each step is undone by `prev()`, so the sequence is its own inverse
/// under `prev()`.
pub proof fn lemma_next_chain(start: YearMonth, i: nat, j: nat)
    requires
        start.wf(),
        i < j,
        start.year + j <= i32::MAX,
    ensures
        nth_next(start, i).spec_lt(nth_next(start, j)),
        nth_next(start, j).spec_prev() == nth_next(start, (j - 1) as nat),
        nth_next(start, j).wf(),
        nth_next(start, j).year <= start.year + j,
    decreases j,
{
    if i == j - 1 {
        lemma_nth_next_bounds(start, i);
        lemma_next_step(nth_next(start, i));
    } else {
        lemma_next_chain(start, i, (j - 1) as nat);
        lemma_next_step(nth_next(start, (j - 1) as nat));
    }
}

/// Repeated stepping keeps bins well-formed and bounds the year by the
/// number of steps taken.
pub proof fn lemma_nth_next_bounds(start: YearMonth, n: nat)
    requires
        start.wf(),
        start.year + n <= i32::MAX,
    ensures
        nth_next(start, n).wf(),
        nth_next(start, n).year <= start.year + n,
        start.year <= nth_next(start, n).year,
    decreases n,
{
    if n > 0 {
        lemma_nth_next_bounds(start, (n - 1) as nat);
    }
}

} // verus!
