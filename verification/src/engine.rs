//! The aggregation engine: author summaries and the cohort strategies that
//! turn an event set into a cohort histogram.

use vstd::prelude::*;
use crate::commit::CommitRecord;
use crate::yearmonth::YearMonth;
use crate::hist::CohortHist;
use crate::hist::NO_COHORT;
use crate::groupby::Key;
use crate::groupby::key_view;
use crate::groupby::sum_where;
use crate::groupby::strs_where;
use crate::groupby::has_key;
use crate::groupby::has_skey;
use crate::groupby::has_group;
use crate::groupby::clone_key;
use crate::groupby::group_sum;
use crate::groupby::group_count_distinct;
use crate::strutil::int_str;
use crate::strutil::i64_to_string;

verus! {

/// Which cohort rule classifies activity.
#[derive(Copy, Clone, Debug, PartialEq, Eq, Structural)]
pub enum CohortType {
    FirstYear,
    Domain,
    Repo,
    Suffix,
}

/// What a histogram value counts.
#[derive(Copy, Clone, Debug, PartialEq, Eq, Structural)]
pub enum UnitType {
    Authors,
    Commits,
    Changes,
}

/// The width of a time bin.
#[derive(Copy, Clone, Debug, PartialEq, Eq, Structural)]
pub enum IntervalType {
    Month,
    Year,
}

/// Every record is well-formed.
pub open spec fn records_wf(recs: Seq<CommitRecord>) -> bool {
    forall|i: int| 0 <= i < recs.len() ==> (#[trigger] recs[i]).wf()
}

/// The event-count bound under which every aggregate below fits its
/// machine type.
pub const MAX_RECORDS: usize = 0x4000_0000;

/// Earliest author time among an author's records, taking `i64::MAX` when
/// the author has none.
pub open spec fn first_time_of(recs: Seq<CommitRecord>, a: Seq<char>) -> int
    decreases recs.len(),
{
    if recs.len() == 0 {
        i64::MAX as int
    } else {
        let rest = first_time_of(recs.drop_last(), a);
        if recs.last().author_name@ == a && recs.last().author_time < rest {
            recs.last().author_time as int
        } else {
            rest
        }
    }
}

/// Latest author time among an author's records, taking `i64::MIN` when the
/// author has none.
pub open spec fn last_time_of(recs: Seq<CommitRecord>, a: Seq<char>) -> int
    decreases recs.len(),
{
    if recs.len() == 0 {
        i64::MIN as int
    } else {
        let rest = last_time_of(recs.drop_last(), a);
        if recs.last().author_name@ == a && recs.last().author_time > rest {
            recs.last().author_time as int
        } else {
            rest
        }
    }
}

/// Earliest author year among an author's records.
pub open spec fn first_year_of(recs: Seq<CommitRecord>, a: Seq<char>) -> int
    decreases recs.len(),
{
    if recs.len() == 0 {
        i32::MAX as int
    } else {
        let rest = first_year_of(recs.drop_last(), a);
        if recs.last().author_name@ == a && recs.last().author_year < rest {
            recs.last().author_year as int
        } else {
            rest
        }
    }
}

/// Latest author year among an author's records.
pub open spec fn last_year_of(recs: Seq<CommitRecord>, a: Seq<char>) -> int
    decreases recs.len(),
{
    if recs.len() == 0 {
        i32::MIN as int
    } else {
        let rest = last_year_of(recs.drop_last(), a);
        if recs.last().author_name@ == a && recs.last().author_year > rest {
            recs.last().author_year as int
        } else {
            rest
        }
    }
}

/// How many records an author has.
pub open spec fn count_of(recs: Seq<CommitRecord>, a: Seq<char>) -> int
    decreases recs.len(),
{
    if recs.len() == 0 {
        0
    } else {
        count_of(recs.drop_last(), a) + if recs.last().author_name@ == a {
            1int
        } else {
            0int
        }
    }
}

/// Total size (insertions plus deletions) of an author's records.
pub open spec fn changes_of(recs: Seq<CommitRecord>, a: Seq<char>) -> int
    decreases recs.len(),
{
    if recs.len() == 0 {
        0
    } else {
        changes_of(recs.drop_last(), a) + if recs.last().author_name@ == a {
            recs.last().n_insertions + recs.last().n_deletions
        } else {
            0int
        }
    }
}

/// Whether any record belongs to the author.
pub open spec fn has_author(recs: Seq<CommitRecord>, a: Seq<char>) -> bool {
    exists|i: int| 0 <= i < recs.len() && (#[trigger] recs[i]).author_name@ == a
}

proof fn lemma_reducers_absent(recs: Seq<CommitRecord>, a: Seq<char>)
    requires
        !has_author(recs, a),
    ensures
        first_time_of(recs, a) == i64::MAX as int,
        last_time_of(recs, a) == i64::MIN as int,
        first_year_of(recs, a) == i32::MAX as int,
        last_year_of(recs, a) == i32::MIN as int,
        count_of(recs, a) == 0,
        changes_of(recs, a) == 0,
    decreases recs.len(),
{
    if recs.len() > 0 {
        assert(recs[recs.len() - 1].author_name@ != a);
        assert(!has_author(recs.drop_last(), a)) by {
            if has_author(recs.drop_last(), a) {
                let i = choose|i: int|
                    0 <= i < recs.drop_last().len() && recs.drop_last()[i].author_name@ == a;
                assert(recs[i].author_name@ == a);
            }
        }
        lemma_reducers_absent(recs.drop_last(), a);
    }
}

proof fn lemma_count_bounds(recs: Seq<CommitRecord>, a: Seq<char>)
    ensures
        0 <= count_of(recs, a) <= recs.len(),
        records_wf(recs) ==> 0 <= changes_of(recs, a) <= recs.len() * 0x1_0000_0000,
    decreases recs.len(),
{
    if recs.len() > 0 {
        assert(records_wf(recs) ==> records_wf(recs.drop_last()));
        lemma_count_bounds(recs.drop_last(), a);
    }
}

proof fn lemma_time_bounds(recs: Seq<CommitRecord>, a: Seq<char>)
    requires
        records_wf(recs),
        has_author(recs, a),
    ensures
        0 <= first_time_of(recs, a) <= i64::MAX,
        0 <= last_time_of(recs, a) <= i64::MAX,
        first_time_of(recs, a) <= last_time_of(recs, a),
        0 <= first_year_of(recs, a) < i32::MAX,
        0 <= last_year_of(recs, a) < i32::MAX,
    decreases recs.len(),
{
    let last = recs[recs.len() - 1];
    if last.author_name@ == a {
        if recs.len() > 1 && has_author(recs.drop_last(), a) {
            lemma_time_bounds(recs.drop_last(), a);
        } else {
            assert(!has_author(recs.drop_last(), a)) by {
                if has_author(recs.drop_last(), a) {
                    let i = choose|i: int|
                        0 <= i < recs.drop_last().len() && recs.drop_last()[i].author_name@ == a;
                    assert(recs[i].author_name@ == a);
                }
            }
            lemma_reducers_absent(recs.drop_last(), a);
        }
    } else {
        assert(has_author(recs.drop_last(), a)) by {
            let i = choose|i: int| 0 <= i < recs.len() && recs[i].author_name@ == a;
            assert(recs.drop_last()[i].author_name@ == a);
        }
        lemma_time_bounds(recs.drop_last(), a);
    }
}

/// The per-author tenure summary the engine derives once per run.
#[derive(Debug)]
pub struct AuthorSummary {
    pub author_name: String,
    pub first_time: i64,
    pub first_year: i32,
    pub last_time: i64,
    pub last_year: i32,
    pub active_time: i64,
    pub n_commits: i64,
    pub n_changes: i64,
}

impl AuthorSummary {
    /// The summary's fields are exactly the aggregates of the author's
    /// records in `recs`.
    pub open spec fn summarizes(self, recs: Seq<CommitRecord>) -> bool {
        &&& self.first_time == first_time_of(recs, self.author_name@)
        &&& self.first_year == first_year_of(recs, self.author_name@)
        &&& self.last_time == last_time_of(recs, self.author_name@)
        &&& self.last_year == last_year_of(recs, self.author_name@)
        &&& self.active_time == self.last_time - self.first_time
        &&& self.n_commits == count_of(recs, self.author_name@)
        &&& self.n_changes == changes_of(recs, self.author_name@)
    }
}

/// Index of the summary for the given author name, if present.
pub(crate) fn find_summary(summaries: &Vec<AuthorSummary>, name: &String) -> (r: Option<usize>)
    ensures
        match r {
            Some(i) => i < summaries@.len() && summaries@[i as int].author_name@ == name@,
            None => forall|k: int|
                0 <= k < summaries@.len() ==> (#[trigger] summaries@[k]).author_name@ != name@,
        },
{
    let n = summaries.len();
    let mut i: usize = 0;
    while i < n
        invariant
            n == summaries@.len(),
            i <= n,
            forall|k: int| 0 <= k < i ==> (#[trigger] summaries@[k]).author_name@ != name@,
        decreases n - i,
    {
        if summaries[i].author_name == *name {
            return Some(i);
        }
        i = i + 1;
    }
    None
}

/// Derives one tenure summary per distinct author: first and last event
/// time and year, active span, event count and total size.  Every event's
/// author has exactly one summary.
pub fn compute_author_summaries(records: &Vec<CommitRecord>) -> (out: Vec<AuthorSummary>)
    requires
        records_wf(records@),
        records@.len() <= MAX_RECORDS,
    ensures
        forall|i: int| 0 <= i < out@.len() ==> (#[trigger] out@[i]).summarizes(records@),
        forall|i: int, j: int|
            0 <= i < j < out@.len() ==> out@[i].author_name@ != out@[j].author_name@,
        forall|k: int|
            0 <= k < records@.len() ==> has_author_summary(
                out@,
                (#[trigger] records@[k]).author_name@,
            ),
        forall|i: int| 0 <= i < out@.len() ==> has_author(records@, (#[trigger] out@[i]).author_name@),
        forall|i: int| 0 <= i < out@.len() ==> (#[trigger] out@[i]).active_time >= 0,
{
    let n = records.len();
    let mut out: Vec<AuthorSummary> = Vec::new();
    let mut k: usize = 0;
    while k < n
        invariant
            records_wf(records@),
            n == records@.len(),
            n <= MAX_RECORDS,
            k <= n,
            forall|i: int|
                0 <= i < out@.len() ==> (#[trigger] out@[i]).summarizes(records@.take(k as int)),
            forall|i: int, j: int|
                0 <= i < j < out@.len() ==> out@[i].author_name@ != out@[j].author_name@,
            forall|m: int|
                0 <= m < k ==> has_author_summary(out@, (#[trigger] records@[m]).author_name@),
            forall|i: int|
                0 <= i < out@.len() ==> has_author(
                    records@.take(k as int),
                    (#[trigger] out@[i]).author_name@,
                ),
        decreases n - k,
    {
        let ghost prefix = records@.take(k as int);
        let ghost prefix2 = records@.take(k as int + 1);
        proof {
            assert(prefix2.drop_last() =~= prefix);
            assert(prefix2.last() == records@[k as int]);
        }
        let r = &records[k];
        match find_summary(&out, &r.author_name) {
            Some(i) => {
                let ghost a = out@[i as int].author_name@;
                let ghost old_out = out@;
                proof {
                    lemma_count_bounds(prefix, a);
                }
                if r.author_time < out[i].first_time {
                    out[i].first_time = r.author_time;
                }
                if r.author_time > out[i].last_time {
                    out[i].last_time = r.author_time;
                }
                if r.author_year < out[i].first_year {
                    out[i].first_year = r.author_year;
                }
                if r.author_year > out[i].last_year {
                    out[i].last_year = r.author_year;
                }
                proof {
                    assert(prefix2[k as int].author_name@ == a);
                    assert(out@[i as int].first_time == first_time_of(prefix2, a));
                    assert(out@[i as int].last_time == last_time_of(prefix2, a));
                    lemma_time_bounds(prefix2, a);
                }
                out[i].active_time = out[i].last_time - out[i].first_time;
                out[i].n_commits = out[i].n_commits + 1;
                out[i].n_changes = out[i].n_changes + (r.n_insertions as i64) + (
                r.n_deletions as i64);
                proof {
                    lemma_time_bounds(prefix2, a);
                    assert(out@[i as int].summarizes(prefix2));
                    assert forall|m: int| 0 <= m < out@.len() implies (
                    #[trigger] out@[m]).summarizes(prefix2) by {
                        if m != i {
                            assert(out@[m].author_name@ != records@[k as int].author_name@);
                        }
                    }
                    assert(forall|w: int|
                        0 <= w < out@.len() ==> (#[trigger] out@[w]).author_name@
                            == old_out[w].author_name@);
                    assert forall|m: int| 0 <= m <= k implies has_author_summary(
                        out@,
                        (#[trigger] records@[m]).author_name@,
                    ) by {
                        if m < k {
                            let w = choose|w: int|
                                0 <= w < old_out.len() && (#[trigger] old_out[w]).author_name@
                                    == records@[m].author_name@;
                            assert(out@[w].author_name@ == records@[m].author_name@);
                        } else {
                            assert(out@[i as int].author_name@ == records@[k as int].author_name@);
                        }
                    }
                }
            },
            None => {
                proof {
                    assert(!has_author(prefix, records@[k as int].author_name@)) by {
                        if has_author(prefix, records@[k as int].author_name@) {
                            let m = choose|m: int|
                                0 <= m < prefix.len() && prefix[m].author_name@ == records@[k as int].author_name@;
                            assert(has_author_summary(out@, records@[m].author_name@));
                        }
                    }
                    lemma_reducers_absent(prefix, records@[k as int].author_name@);
                }
                let s = AuthorSummary {
                    author_name: r.author_name.clone(),
                    first_time: r.author_time,
                    first_year: r.author_year,
                    last_time: r.author_time,
                    last_year: r.author_year,
                    active_time: 0,
                    n_commits: 1,
                    n_changes: (r.n_insertions as i64) + (r.n_deletions as i64),
                };
                let ghost pre_push = out@;
                out.push(s);
                proof {
                    let prev = out@.drop_last();
                    assert(prev =~= pre_push);
                    assert(out@[out@.len() - 1].summarizes(prefix2));
                    assert forall|m: int| 0 <= m < out@.len() - 1 implies (
                    #[trigger] out@[m]).summarizes(prefix2) by {
                        assert(out@[m] == prev[m]);
                        assert(out@[m].author_name@ != records@[k as int].author_name@);
                    }
                    assert forall|m: int| 0 <= m <= k implies has_author_summary(
                        out@,
                        (#[trigger] records@[m]).author_name@,
                    ) by {
                        if m < k {
                            let w = choose|w: int|
                                0 <= w < prev.len() && (#[trigger] prev[w]).author_name@
                                    == records@[m].author_name@;
                            assert(out@[w].author_name@ == records@[m].author_name@);
                        } else {
                            assert(out@[out@.len() - 1].author_name@ == records@[k as int].author_name@);
                        }
                    }
                }
            },
        }
        k = k + 1;
    }
    proof {
        assert(records@.take(n as int) =~= records@);
        assert forall|i: int| 0 <= i < out@.len() implies (#[trigger] out@[i]).active_time >= 0 by {
            if has_author(records@, out@[i].author_name@) {
                lemma_time_bounds(records@, out@[i].author_name@);
            }
        }
    }
    out
}

/// Whether a summary list carries the given author.
pub open spec fn has_author_summary(s: Seq<AuthorSummary>, a: Seq<char>) -> bool {
    exists|i: int| 0 <= i < s.len() && (#[trigger] s[i]).author_name@ == a
}

/// Why an aggregation run failed.
#[derive(Copy, Clone, Debug, PartialEq, Eq, Structural)]
pub enum EngineError {
    /// Some bin's value does not fit the histogram's cell type.
    ValueOutOfRange,
}

/// The default brief-tenure threshold: ninety days, in seconds.
pub const BRIEF_THRESHOLD_SECS: i64 = 7776000;

/// The default number of categorical cohorts kept before the rest collapse
/// into the "Other" bucket.
pub const TOP_N: i32 = 15;

/// The time bin a record falls in.
pub open spec fn rec_bin(r: CommitRecord, interval: IntervalType) -> YearMonth {
    match interval {
        IntervalType::Month => YearMonth { year: r.author_year, month: Some(r.author_month) },
        IntervalType::Year => YearMonth { year: r.author_year, month: None },
    }
}

/// A record's weight under a counting unit (distinct authors are counted
/// separately).
pub open spec fn rec_weight(r: CommitRecord, unit: UnitType) -> int {
    match unit {
        UnitType::Changes => r.n_insertions + r.n_deletions,
        _ => 1,
    }
}

/// Whether the author's whole recorded tenure is at or below the threshold.
pub open spec fn brief_author(recs: Seq<CommitRecord>, a: Seq<char>, thr: int) -> bool {
    last_time_of(recs, a) - first_time_of(recs, a) <= thr
}

/// The tenure cohort of a record's author: the sentinel for brief authors,
/// else the calendar year of the author's first event.
pub open spec fn tenure_cohort(recs: Seq<CommitRecord>, r: CommitRecord, thr: int) -> int {
    if brief_author(recs, r.author_name@, thr) {
        NO_COHORT as int
    } else {
        first_year_of(recs, r.author_name@)
    }
}

/// Whether a record lands on `(b, c)` under the tenure strategy.
pub open spec fn tenure_match(
    recs: Seq<CommitRecord>,
    r: CommitRecord,
    thr: int,
    interval: IntervalType,
    b: YearMonth,
    c: int,
) -> bool {
    rec_bin(r, interval) == b && tenure_cohort(recs, r, thr) == c
}

/// Sum of the unit weights of the first `k` records landing on `(b, c)`.
pub open spec fn tenure_sum(
    recs: Seq<CommitRecord>,
    k: int,
    thr: int,
    unit: UnitType,
    interval: IntervalType,
    b: YearMonth,
    c: int,
) -> int
    decreases k,
{
    if k <= 0 || k > recs.len() {
        0
    } else {
        tenure_sum(recs, k - 1, thr, unit, interval, b, c) + if tenure_match(
            recs,
            recs[k - 1],
            thr,
            interval,
            b,
            c,
        ) {
            rec_weight(recs[k - 1], unit)
        } else {
            0int
        }
    }
}

/// The distinct authors among the first `k` records landing on `(b, c)`.
pub open spec fn tenure_authors(
    recs: Seq<CommitRecord>,
    k: int,
    thr: int,
    interval: IntervalType,
    b: YearMonth,
    c: int,
) -> Set<Seq<char>>
    decreases k,
{
    if k <= 0 || k > recs.len() {
        Set::empty()
    } else {
        let rest = tenure_authors(recs, k - 1, thr, interval, b, c);
        if tenure_match(recs, recs[k - 1], thr, interval, b, c) {
            rest.insert(recs[k - 1].author_name@)
        } else {
            rest
        }
    }
}

/// Whether any record lands on `(b, c)` under the tenure strategy.
pub open spec fn tenure_used(
    recs: Seq<CommitRecord>,
    thr: int,
    interval: IntervalType,
    b: YearMonth,
    c: int,
) -> bool {
    exists|i: int|
        0 <= i < recs.len() && tenure_match(recs, #[trigger] recs[i], thr, interval, b, c)
}

/// The tenure strategy's value for `(b, c)`: distinct authors, events, or
/// summed size, over the records landing there.
pub open spec fn tenure_value(
    recs: Seq<CommitRecord>,
    thr: int,
    unit: UnitType,
    interval: IntervalType,
    b: YearMonth,
    c: int,
) -> int {
    match unit {
        UnitType::Authors => tenure_authors(recs, recs.len() as int, thr, interval, b, c).len() as int,
        _ => tenure_sum(recs, recs.len() as int, thr, unit, interval, b, c),
    }
}

/// The year reducers stay within year range.
proof fn lemma_cohort_range(recs: Seq<CommitRecord>, a: Seq<char>)
    ensures
        i32::MIN <= first_year_of(recs, a) <= i32::MAX,
    decreases recs.len(),
{
    if recs.len() > 0 {
        lemma_cohort_range(recs.drop_last(), a);
    }
}

/// Whether some cell carries the `(b, c)` key.
pub open spec fn has_cell(cells: Seq<(Key, i32)>, b: YearMonth, c: i32) -> bool {
    exists|i: int|
        0 <= i < cells.len() && (#[trigger] cells[i]).0.ym == b && cells[i].0.num == c
}

/// Builds a histogram holding exactly the given cells (no names).
pub(crate) fn build_hist(cells: &Vec<(Key, i32)>) -> (h: CohortHist)
    requires
        forall|i: int, j: int|
            0 <= i < j < cells@.len() ==> !((#[trigger] cells@[i]).0.ym == (
            #[trigger] cells@[j]).0.ym && cells@[i].0.num == cells@[j].0.num),
        forall|i: int|
            0 <= i < cells@.len() ==> (#[trigger] cells@[i]).0.ym.wf() && cells@[i].0.ym.year
                < i32::MAX,
        forall|i: int, j: int|
            0 <= i < cells@.len() && 0 <= j < cells@.len() ==> (((#[trigger] cells@[i]).0.ym.month
                is Some) <==> ((#[trigger] cells@[j]).0.ym.month is Some)),
    ensures
        h.wf(),
        forall|i: int|
            0 <= i < cells@.len() ==> h.spec_value((#[trigger] cells@[i]).0.ym, cells@[i].0.num)
                == Some(cells@[i].1),
        forall|b: YearMonth, c: i32| !has_cell(cells@, b, c) ==> h.spec_value(b, c) is None,
        forall|c: i32| h.spec_name(c) == Seq::<char>::empty(),
{
    let n = cells.len();
    let mut h = CohortHist::new();
    let mut i: usize = 0;
    while i < n
        invariant
            n == cells@.len(),
            i <= n,
            h.wf(),
            forall|i2: int, j: int|
                0 <= i2 < j < cells@.len() ==> !((#[trigger] cells@[i2]).0.ym == (
                #[trigger] cells@[j]).0.ym && cells@[i2].0.num == cells@[j].0.num),
            forall|i2: int|
                0 <= i2 < cells@.len() ==> (#[trigger] cells@[i2]).0.ym.wf()
                    && cells@[i2].0.ym.year < i32::MAX,
            forall|i2: int, j: int|
                0 <= i2 < cells@.len() && 0 <= j < cells@.len() ==> (((
                #[trigger] cells@[i2]).0.ym.month is Some) <==> ((
                #[trigger] cells@[j]).0.ym.month is Some)),
            forall|m: int|
                0 <= m < i ==> h.spec_value((#[trigger] cells@[m]).0.ym, cells@[m].0.num) == Some(
                    cells@[m].1,
                ),
            forall|b: YearMonth, c: i32|
                !(exists|m: int|
                    0 <= m < i && (#[trigger] cells@[m]).0.ym == b && cells@[m].0.num == c)
                    ==> h.spec_value(b, c) is None,
            forall|c: i32| h.spec_name(c) == Seq::<char>::empty(),
            h.bins@.len() > 0 ==> i > 0,
            i > 0 && n > 0 ==> h.monthly() == (cells@[0].0.ym.month is Some),
            h.bins@.len() == 0 ==> i == 0,
        decreases n - i,
    {
        let ym = cells[i].0.ym;
        let c = cells[i].0.num;
        let v = cells[i].1;
        proof {
            assert(!(exists|m: int|
                0 <= m < i && (#[trigger] cells@[m]).0.ym == ym && cells@[m].0.num == c));
        }
        let ghost pre = h;
        h.set_value(ym, c, v);
        proof {
            assert forall|c2: i32| h.spec_name(c2) == Seq::<char>::empty() by {
                assert(h.cohort_names@ == pre.cohort_names@);
                assert(pre.spec_name(c2) == Seq::<char>::empty());
            }
        }
        i = i + 1;
    }
    h
}

/// Entry `m` encodes record `m`'s bin, tenure cohort and unit weight.
spec fn tenure_entries_ok(
    recs: Seq<CommitRecord>,
    entries: Seq<(Key, i64)>,
    thr: int,
    unit: UnitType,
    interval: IntervalType,
) -> bool {
    &&& entries.len() == recs.len()
    &&& forall|m: int|
        0 <= m < recs.len() ==> {
            &&& (#[trigger] entries[m]).0.ym == rec_bin(recs[m], interval)
            &&& entries[m].0.num as int == tenure_cohort(recs, recs[m], thr)
            &&& entries[m].0.s1@ == Seq::<char>::empty()
            &&& entries[m].0.s2@ == Seq::<char>::empty()
            &&& entries[m].1 as int == rec_weight(recs[m], unit)
        }
}

/// Author entry `m` carries the same key and record `m`'s author.
spec fn tenure_sentries_ok(
    recs: Seq<CommitRecord>,
    sentries: Seq<(Key, String)>,
    thr: int,
    interval: IntervalType,
) -> bool {
    &&& sentries.len() == recs.len()
    &&& forall|m: int|
        0 <= m < recs.len() ==> {
            &&& (#[trigger] sentries[m]).0.ym == rec_bin(recs[m], interval)
            &&& sentries[m].0.num as int == tenure_cohort(recs, recs[m], thr)
            &&& sentries[m].0.s1@ == Seq::<char>::empty()
            &&& sentries[m].0.s2@ == Seq::<char>::empty()
            &&& sentries[m].1@ == recs[m].author_name@
        }
}

proof fn lemma_tenure_transfer(
    recs: Seq<CommitRecord>,
    entries: Seq<(Key, i64)>,
    thr: int,
    unit: UnitType,
    interval: IntervalType,
    kk: Key,
    k: int,
)
    requires
        tenure_entries_ok(recs, entries, thr, unit, interval),
        0 <= k <= recs.len(),
        kk.s1@ == Seq::<char>::empty(),
        kk.s2@ == Seq::<char>::empty(),
    ensures
        sum_where(entries.take(k), kk) == tenure_sum(
            recs,
            k,
            thr,
            unit,
            interval,
            kk.ym,
            kk.num as int,
        ),
    decreases k,
{
    if k > 0 {
        lemma_tenure_transfer(recs, entries, thr, unit, interval, kk, k - 1);
        assert(entries.take(k).drop_last() =~= entries.take(k - 1));
        assert(entries.take(k).last() == entries[k - 1]);
        assert((key_view(entries[k - 1].0) == key_view(kk)) == tenure_match(
            recs,
            recs[k - 1],
            thr,
            interval,
            kk.ym,
            kk.num as int,
        ));
    }
}

proof fn lemma_tenure_transfer_authors(
    recs: Seq<CommitRecord>,
    sentries: Seq<(Key, String)>,
    thr: int,
    interval: IntervalType,
    kk: Key,
    k: int,
)
    requires
        tenure_sentries_ok(recs, sentries, thr, interval),
        0 <= k <= recs.len(),
        kk.s1@ == Seq::<char>::empty(),
        kk.s2@ == Seq::<char>::empty(),
    ensures
        strs_where(sentries.take(k), kk) == tenure_authors(
            recs,
            k,
            thr,
            interval,
            kk.ym,
            kk.num as int,
        ),
    decreases k,
{
    if k > 0 {
        lemma_tenure_transfer_authors(recs, sentries, thr, interval, kk, k - 1);
        assert(sentries.take(k).drop_last() =~= sentries.take(k - 1));
        assert(sentries.take(k).last() == sentries[k - 1]);
        assert((key_view(sentries[k - 1].0) == key_view(kk)) == tenure_match(
            recs,
            recs[k - 1],
            thr,
            interval,
            kk.ym,
            kk.num as int,
        ));
    }
}

/// Whether any record's tenure cohort is `c`.
pub open spec fn tenure_cohort_used(recs: Seq<CommitRecord>, thr: int, c: int) -> bool {
    exists|i: int| 0 <= i < recs.len() && tenure_cohort(recs, #[trigger] recs[i], thr) == c
}

/// Builds the tenure histogram from its finished cells and names it.
#[verifier::rlimit(100)]
fn finish_tenure_hist(
    cells: &Vec<(Key, i32)>,
    Ghost(recs): Ghost<Seq<CommitRecord>>,
    Ghost(thr): Ghost<int>,
    unit: UnitType,
    interval: IntervalType,
) -> (h: CohortHist)
    requires
        records_wf(recs),
        forall|i: int, j: int|
            0 <= i < j < cells@.len() ==> !((#[trigger] cells@[i]).0.ym == (
            #[trigger] cells@[j]).0.ym && cells@[i].0.num == cells@[j].0.num),
        forall|i: int|
            0 <= i < cells@.len() ==> (#[trigger] cells@[i]).0.ym.wf() && cells@[i].0.ym.year
                < i32::MAX && ((cells@[i].0.ym.month is Some) <==> (interval
                == IntervalType::Month)),
        forall|i: int|
            0 <= i < cells@.len() ==> tenure_used(
                recs,
                thr,
                interval,
                (#[trigger] cells@[i]).0.ym,
                cells@[i].0.num as int,
            ) && cells@[i].1 as int == tenure_value(
                recs,
                thr,
                unit,
                interval,
                cells@[i].0.ym,
                cells@[i].0.num as int,
            ),
        forall|b: YearMonth, c: i32|
            tenure_used(recs, thr, interval, b, c as int) ==> #[trigger] has_cell(cells@, b, c),
    ensures
        h.wf(),
        forall|b: YearMonth, c: i32|
            #![trigger h.spec_value(b, c)]
            h.spec_value(b, c) == (if tenure_used(recs, thr, interval, b, c as int) {
                Some(tenure_value(recs, thr, unit, interval, b, c as int) as i32)
            } else {
                None
            }),
        forall|b: YearMonth, c: i32|
            tenure_used(recs, thr, interval, b, c as int) ==> i32::MIN <= #[trigger] tenure_value(
                recs,
                thr,
                unit,
                interval,
                b,
                c as int,
            ) <= i32::MAX,
        h.spec_name(NO_COHORT) == "Brief"@,
        forall|c: i32|
            c != NO_COHORT ==> #[trigger] h.spec_name(c) == (if tenure_cohort_used(
                recs,
                thr,
                c as int,
            ) {
                int_str(c as int)
            } else {
                Seq::<char>::empty()
            }),
{
    let mut h = build_hist(cells);
    let ghost bins0 = h.bins@;
    let cn = cells.len();
    let mut j: usize = 0;
    while j < cn
        invariant
            cn == cells@.len(),
            j <= cn,
            h.wf(),
            h.bins@ == bins0,
            forall|c: i32|
                c != NO_COHORT ==> #[trigger] h.spec_name(c) == (if (exists|m: int|
                    0 <= m < j && (#[trigger] cells@[m]).0.num == c) {
                    int_str(c as int)
                } else {
                    Seq::<char>::empty()
                }),
            h.spec_name(NO_COHORT) == Seq::<char>::empty(),
        decreases cn - j,
    {
        let c = cells[j].0.num;
        if c != NO_COHORT {
            let ghost pre = h;
            let name = i64_to_string(c as i64);
            h.set_cohort_name(c, name.as_str());
            proof {
                crate::strutil::lemma_int_str_trim(c as int);
                crate::strutil::lemma_dec_digits_ends(
                    if c as int >= 0 {
                        c as nat
                    } else {
                        (-(c as int)) as nat
                    },
                );
                assert(h.spec_name(c) == int_str(c as int));
                assert forall|c2: i32| c2 != NO_COHORT && c2 != c implies #[trigger] h.spec_name(
                    c2,
                ) == (if (exists|m: int| 0 <= m < j + 1 && (#[trigger] cells@[m]).0.num == c2) {
                    int_str(c2 as int)
                } else {
                    Seq::<char>::empty()
                }) by {
                    assert(h.spec_name(c2) == pre.spec_name(c2));
                    if exists|m: int| 0 <= m < j + 1 && (#[trigger] cells@[m]).0.num == c2 {
                        let m = choose|m: int|
                            0 <= m < j + 1 && (#[trigger] cells@[m]).0.num == c2;
                        assert(m < j);
                    }
                }
            }
        } else {
            proof {
                assert forall|c2: i32| c2 != NO_COHORT implies #[trigger] h.spec_name(c2) == (
                if (exists|m: int| 0 <= m < j + 1 && (#[trigger] cells@[m]).0.num == c2) {
                    int_str(c2 as int)
                } else {
                    Seq::<char>::empty()
                }) by {
                    if exists|m: int| 0 <= m < j + 1 && (#[trigger] cells@[m]).0.num == c2 {
                        let m = choose|m: int|
                            0 <= m < j + 1 && (#[trigger] cells@[m]).0.num == c2;
                        assert(m < j);
                    }
                }
            }
        }
        j = j + 1;
    }
    let ghost pre2 = h;
    h.set_cohort_name(NO_COHORT, "Brief");
    proof {
        reveal_strlit("Brief");
        assert("Brief"@.len() == 5);
        crate::strutil::lemma_trim_id("Brief"@);
        assert(h.spec_name(NO_COHORT) == "Brief"@);
        assert forall|c: i32| c != NO_COHORT implies #[trigger] h.spec_name(c) == (
        if tenure_cohort_used(recs, thr, c as int) {
            int_str(c as int)
        } else {
            Seq::<char>::empty()
        }) by {
            assert(h.spec_name(c) == pre2.spec_name(c));
            if tenure_cohort_used(recs, thr, c as int) {
                let i = choose|i: int|
                    0 <= i < recs.len() && tenure_cohort(recs, #[trigger] recs[i], thr)
                        == c as int;
                let b = rec_bin(recs[i], interval);
                assert(tenure_match(recs, recs[i], thr, interval, b, c as int));
                assert(tenure_used(recs, thr, interval, b, c as int));
                assert(has_cell(cells@, b, c));
                let m = choose|m: int|
                    0 <= m < cells@.len() && (#[trigger] cells@[m]).0.ym == b
                        && cells@[m].0.num == c;
                assert(exists|m2: int| 0 <= m2 < cn && (#[trigger] cells@[m2]).0.num == c);
            } else {
                if exists|m: int| 0 <= m < cn && (#[trigger] cells@[m]).0.num == c {
                    let m = choose|m: int| 0 <= m < cn && (#[trigger] cells@[m]).0.num == c;
                    assert(tenure_used(recs, thr, interval, cells@[m].0.ym, c as int));
                    let i = choose|i: int|
                        0 <= i < recs.len() && tenure_match(
                            recs,
                            #[trigger] recs[i],
                            thr,
                            interval,
                            cells@[m].0.ym,
                            c as int,
                        );
                    assert(tenure_cohort_used(recs, thr, c as int));
                }
            }
        }
        // the value table is untouched by naming
        assert forall|b: YearMonth, c: i32|
            true implies #[trigger] h.spec_value(b, c) == (if tenure_used(
            recs,
            thr,
            interval,
            b,
            c as int,
        ) {
            Some(tenure_value(recs, thr, unit, interval, b, c as int) as i32)
        } else {
            None
        }) by {
            if tenure_used(recs, thr, interval, b, c as int) {
                assert(has_cell(cells@, b, c));
                let m = choose|m: int|
                    0 <= m < cells@.len() && (#[trigger] cells@[m]).0.ym == b
                        && cells@[m].0.num == c;
                assert(h.spec_value(b, c) == Some(cells@[m].1));
            } else {
                if has_cell(cells@, b, c) {
                    let m = choose|m: int|
                        0 <= m < cells@.len() && (#[trigger] cells@[m]).0.ym == b
                            && cells@[m].0.num == c;
                    assert(tenure_used(recs, thr, interval, b, c as int));
                }
                assert(h.spec_value(b, c) is None);
            }
        }
        assert forall|b: YearMonth, c: i32|
            tenure_used(recs, thr, interval, b, c as int) implies i32::MIN
            <= #[trigger] tenure_value(recs, thr, unit, interval, b, c as int) <= i32::MAX by {
            assert(has_cell(cells@, b, c));
            let m = choose|m: int|
                0 <= m < cells@.len() && (#[trigger] cells@[m]).0.ym == b && cells@[m].0.num
                    == c;
        }
    }
    h
}

/// The tenure-cohort histogram: every above-threshold author's activity is
/// labeled with the author's debut year, brief authors' activity with the
/// sentinel, and each `(bin, cohort)` holds the configured unit's count.
/// Non-sentinel cohorts are named by their year; the sentinel is named
/// "Brief".  Fails exactly when some value does not fit a histogram cell.
#[verifier::rlimit(100)]
pub fn get_firstyear_hist(
    records: &Vec<CommitRecord>,
    unit: UnitType,
    interval: IntervalType,
    threshold_secs: i64,
) -> (r: Result<CohortHist, EngineError>)
    requires
        records_wf(records@),
        records@.len() <= MAX_RECORDS,
        threshold_secs >= 0,
    ensures
        match r {
            Ok(h) => {
                &&& h.wf()
                &&& (forall|b: YearMonth, c: i32|
                    #![trigger h.spec_value(b, c)]
                    h.spec_value(b, c) == (if tenure_used(
                        records@,
                        threshold_secs as int,
                        interval,
                        b,
                        c as int,
                    ) {
                        Some(
                            tenure_value(
                                records@,
                                threshold_secs as int,
                                unit,
                                interval,
                                b,
                                c as int,
                            ) as i32,
                        )
                    } else {
                        None
                    }))
                &&& (forall|b: YearMonth, c: i32|
                    tenure_used(records@, threshold_secs as int, interval, b, c as int)
                        ==> i32::MIN <= #[trigger] tenure_value(
                        records@,
                        threshold_secs as int,
                        unit,
                        interval,
                        b,
                        c as int,
                    ) <= i32::MAX)
                &&& h.spec_name(NO_COHORT) == "Brief"@
                &&& (forall|c: i32|
                    c != NO_COHORT ==> #[trigger] h.spec_name(c) == (if tenure_cohort_used(
                        records@,
                        threshold_secs as int,
                        c as int,
                    ) {
                        int_str(c as int)
                    } else {
                        Seq::<char>::empty()
                    }))
            },
            Err(e) => e == EngineError::ValueOutOfRange,
        },
        (r is Err) <==> (exists|b: YearMonth, c: i32|
            #![trigger tenure_used(records@, threshold_secs as int, interval, b, c as int)]
            tenure_used(records@, threshold_secs as int, interval, b, c as int) && !(i32::MIN
                <= tenure_value(records@, threshold_secs as int, unit, interval, b, c as int)
                <= i32::MAX)),
{
    let ghost thr: int = threshold_secs as int;
    let summaries = compute_author_summaries(records);
    let n = records.len();
    let mut entries: Vec<(Key, i64)> = Vec::new();
    let mut sentries: Vec<(Key, String)> = Vec::new();
    let mut k: usize = 0;
    while k < n
        invariant
            records_wf(records@),
            n == records@.len(),
            n <= MAX_RECORDS,
            threshold_secs >= 0,
            thr == threshold_secs as int,
            k <= n,
            forall|i: int| 0 <= i < summaries@.len() ==> (#[trigger] summaries@[i]).summarizes(records@),
            forall|m: int|
                0 <= m < records@.len() ==> has_author_summary(
                    summaries@,
                    (#[trigger] records@[m]).author_name@,
                ),
            entries@.len() == k,
            sentries@.len() == k,
            forall|m: int|
                0 <= m < k ==> {
                    &&& (#[trigger] entries@[m]).0.ym == rec_bin(records@[m], interval)
                    &&& entries@[m].0.num as int == tenure_cohort(records@, records@[m], thr)
                    &&& entries@[m].0.s1@ == Seq::<char>::empty()
                    &&& entries@[m].0.s2@ == Seq::<char>::empty()
                    &&& entries@[m].1 as int == rec_weight(records@[m], unit)
                },
            forall|m: int|
                0 <= m < k ==> {
                    &&& (#[trigger] sentries@[m]).0.ym == rec_bin(records@[m], interval)
                    &&& sentries@[m].0.num as int == tenure_cohort(records@, records@[m], thr)
                    &&& sentries@[m].0.s1@ == Seq::<char>::empty()
                    &&& sentries@[m].0.s2@ == Seq::<char>::empty()
                    &&& sentries@[m].1@ == records@[m].author_name@
                },
        decreases n - k,
    {
        let r = &records[k];
        let si = match find_summary(&summaries, &r.author_name) {
            Some(i) => i,
            None => {
                proof {
                    assert(false);
                }
                0
            },
        };
        let s = &summaries[si];
        proof {
            lemma_cohort_range(records@, r.author_name@);
            assert(s.summarizes(records@));
        }
        let brief = s.active_time <= threshold_secs;
        let cohort: i32 = if brief {
            NO_COHORT
        } else {
            s.first_year
        };
        let ym = match interval {
            IntervalType::Month => YearMonth { year: r.author_year, month: Some(r.author_month) },
            IntervalType::Year => YearMonth { year: r.author_year, month: None },
        };
        let w: i64 = match unit {
            UnitType::Changes => (r.n_insertions as i64) + (r.n_deletions as i64),
            _ => 1,
        };
        proof {
            assert(cohort as int == tenure_cohort(records@, records@[k as int], thr));
        }
        entries.push((Key { ym, num: cohort, s1: String::new(), s2: String::new() }, w));
        sentries.push(
            (Key { ym, num: cohort, s1: String::new(), s2: String::new() }, r.author_name.clone()),
        );
        k = k + 1;
    }
    proof {
        assert(tenure_entries_ok(records@, entries@, thr, unit, interval));
        assert(tenure_sentries_ok(records@, sentries@, thr, interval));
    }
    let mut cells: Vec<(Key, i32)> = Vec::new();
    let is_authors = match unit {
        UnitType::Authors => true,
        _ => false,
    };
    if is_authors {
        let groups = group_count_distinct(&sentries);
        let gn = groups.len();
        let mut j: usize = 0;
        while j < gn
            invariant
                records_wf(records@),
                thr == threshold_secs as int,
                unit == UnitType::Authors,
                tenure_sentries_ok(records@, sentries@, thr, interval),
                n == records@.len(),
                n <= MAX_RECORDS,
                gn == groups@.len(),
                j <= gn,
                forall|i: int|
                    0 <= i < groups@.len() ==> (#[trigger] groups@[i]).1 == strs_where(
                        sentries@,
                        groups@[i].0,
                    ).len(),
                forall|i: int, l: int|
                    0 <= i < l < groups@.len() ==> key_view(groups@[i].0) != key_view(
                        groups@[l].0,
                    ),
                forall|i: int| 0 <= i < groups@.len() ==> has_skey(sentries@, (#[trigger] groups@[i]).0),
                forall|i: int|
                    0 <= i < sentries@.len() ==> crate::groupby::has_count(
                        groups@,
                        (#[trigger] sentries@[i]).0,
                    ),
                forall|i: int| 0 <= i < groups@.len() ==> 0 <= (#[trigger] groups@[i]).1 <= n,
                cells@.len() == j,
                forall|i: int|
                    0 <= i < j ==> key_view((#[trigger] cells@[i]).0) == key_view(groups@[i].0)
                        && cells@[i].1 == groups@[i].1,
            decreases gn - j,
        {
            let kk = clone_key(&groups[j].0);
            let v = groups[j].1;
            cells.push((kk, v as i32));
            j = j + 1;
        }
        proof {
            assert(sentries@.take(n as int) =~= sentries@);
            assert forall|i: int| 0 <= i < cells@.len() implies ((#[trigger] cells@[i]).0.ym.wf()
                && cells@[i].0.ym.year < i32::MAX && ((cells@[i].0.ym.month is Some) <==> (
            interval == IntervalType::Month)) && tenure_used(
                records@,
                thr,
                interval,
                cells@[i].0.ym,
                cells@[i].0.num as int,
            ) && cells@[i].1 as int == tenure_value(
                records@,
                thr,
                unit,
                interval,
                cells@[i].0.ym,
                cells@[i].0.num as int,
            ) && cells@[i].0.s1@ == Seq::<char>::empty() && cells@[i].0.s2@ == Seq::<
                char,
            >::empty()) by {
                let gk = groups@[i].0;
                let e = choose|e: int|
                    0 <= e < sentries@.len() && key_view((#[trigger] sentries@[e]).0)
                        == key_view(gk);
                assert(cells@[i].0.ym == rec_bin(records@[e], interval));
                assert(cells@[i].0.num as int == tenure_cohort(records@, records@[e], thr));
                assert(records@[e].wf());
                assert(tenure_match(
                    records@,
                    records@[e],
                    thr,
                    interval,
                    cells@[i].0.ym,
                    cells@[i].0.num as int,
                ));
                lemma_tenure_transfer_authors(records@, sentries@, thr, interval, gk, n as int);
                assert(strs_where(sentries@, gk) == tenure_authors(
                    records@,
                    n as int,
                    thr,
                    interval,
                    gk.ym,
                    gk.num as int,
                ));
            }
            assert forall|i: int, j2: int|
                0 <= i < j2 < cells@.len() implies !((#[trigger] cells@[i]).0.ym == (
            #[trigger] cells@[j2]).0.ym && cells@[i].0.num == cells@[j2].0.num) by {
                if cells@[i].0.ym == cells@[j2].0.ym && cells@[i].0.num == cells@[j2].0.num {
                    assert(key_view(groups@[i].0) == key_view(groups@[j2].0));
                }
            }
            assert forall|b: YearMonth, c: i32|
                tenure_used(records@, thr, interval, b, c as int) implies #[trigger] has_cell(
                cells@,
                b,
                c,
            ) by {
                let i = choose|i: int|
                    0 <= i < records@.len() && tenure_match(
                        records@,
                        #[trigger] records@[i],
                        thr,
                        interval,
                        b,
                        c as int,
                    );
                assert(key_view(sentries@[i].0) == (b, c, Seq::<char>::empty(), Seq::<
                    char,
                >::empty()));
                assert(crate::groupby::has_count(groups@, sentries@[i].0));
                let g = choose|g: int|
                    0 <= g < groups@.len() && key_view((#[trigger] groups@[g]).0) == key_view(
                        sentries@[i].0,
                    );
                assert(cells@[g].0.ym == b && cells@[g].0.num == c);
            }
        }
        let h = finish_tenure_hist(&cells, Ghost(records@), Ghost(thr), unit, interval);
        Ok(h)
    } else {
        let groups = group_sum(&entries);
        let gn = groups.len();
        let mut j: usize = 0;
        while j < gn
            invariant
                records_wf(records@),
                thr == threshold_secs as int,
                unit != UnitType::Authors,
                tenure_entries_ok(records@, entries@, thr, unit, interval),
                n == records@.len(),
                n <= MAX_RECORDS,
                gn == groups@.len(),
                j <= gn,
                forall|i: int|
                    0 <= i < groups@.len() ==> (#[trigger] groups@[i]).1 == sum_where(
                        entries@,
                        groups@[i].0,
                    ),
                forall|i: int, l: int|
                    0 <= i < l < groups@.len() ==> key_view(groups@[i].0) != key_view(
                        groups@[l].0,
                    ),
                forall|i: int| 0 <= i < groups@.len() ==> has_key(entries@, (#[trigger] groups@[i]).0),
                forall|i: int|
                    0 <= i < entries@.len() ==> has_group(groups@, (#[trigger] entries@[i]).0),
                cells@.len() == j,
                forall|i: int|
                    0 <= i < j ==> key_view((#[trigger] cells@[i]).0) == key_view(groups@[i].0)
                        && cells@[i].1 == groups@[i].1 && i32::MIN <= groups@[i].1 <= i32::MAX,
            decreases gn - j,
        {
            let v = groups[j].1;
            if v < i32::MIN as i128 || v > i32::MAX as i128 {
                proof {
                    let gk = groups@[j as int].0;
                    assert(has_key(entries@, gk));
                    let e = choose|e: int|
                        0 <= e < entries@.len() && key_view((#[trigger] entries@[e]).0)
                            == key_view(gk);
                    assert(gk.s1@ == Seq::<char>::empty() && gk.s2@ == Seq::<char>::empty());
                    lemma_tenure_transfer(records@, entries@, thr, unit, interval, gk, n as int);
                    assert(entries@.take(n as int) =~= entries@);
                    assert(tenure_match(
                        records@,
                        records@[e],
                        thr,
                        interval,
                        gk.ym,
                        gk.num as int,
                    ));
                    assert(tenure_used(records@, thr, interval, gk.ym, gk.num as int));
                }
                return Err(EngineError::ValueOutOfRange);
            }
            let kk = clone_key(&groups[j].0);
            cells.push((kk, v as i32));
            j = j + 1;
        }
        proof {
            assert(entries@.take(n as int) =~= entries@);
            assert forall|i: int| 0 <= i < cells@.len() implies ((#[trigger] cells@[i]).0.ym.wf()
                && cells@[i].0.ym.year < i32::MAX && ((cells@[i].0.ym.month is Some) <==> (
            interval == IntervalType::Month)) && tenure_used(
                records@,
                thr,
                interval,
                cells@[i].0.ym,
                cells@[i].0.num as int,
            ) && cells@[i].1 as int == tenure_value(
                records@,
                thr,
                unit,
                interval,
                cells@[i].0.ym,
                cells@[i].0.num as int,
            )) by {
                let gk = groups@[i].0;
                let e = choose|e: int|
                    0 <= e < entries@.len() && key_view((#[trigger] entries@[e]).0) == key_view(
                        gk,
                    );
                assert(cells@[i].0.ym == rec_bin(records@[e], interval));
                assert(cells@[i].0.num as int == tenure_cohort(records@, records@[e], thr));
                assert(records@[e].wf());
                assert(tenure_match(
                    records@,
                    records@[e],
                    thr,
                    interval,
                    cells@[i].0.ym,
                    cells@[i].0.num as int,
                ));
                lemma_tenure_transfer(records@, entries@, thr, unit, interval, gk, n as int);
            }
            assert forall|i: int, j2: int|
                0 <= i < j2 < cells@.len() implies !((#[trigger] cells@[i]).0.ym == (
            #[trigger] cells@[j2]).0.ym && cells@[i].0.num == cells@[j2].0.num) by {
                if cells@[i].0.ym == cells@[j2].0.ym && cells@[i].0.num == cells@[j2].0.num {
                    let gk1 = groups@[i].0;
                    let gk2 = groups@[j2].0;
                    let e1 = choose|e: int|
                        0 <= e < entries@.len() && key_view((#[trigger] entries@[e]).0)
                            == key_view(gk1);
                    let e2 = choose|e: int|
                        0 <= e < entries@.len() && key_view((#[trigger] entries@[e]).0)
                            == key_view(gk2);
                    assert(key_view(gk1) == key_view(gk2));
                }
            }
            assert forall|b: YearMonth, c: i32|
                tenure_used(records@, thr, interval, b, c as int) implies #[trigger] has_cell(
                cells@,
                b,
                c,
            ) by {
                let i = choose|i: int|
                    0 <= i < records@.len() && tenure_match(
                        records@,
                        #[trigger] records@[i],
                        thr,
                        interval,
                        b,
                        c as int,
                    );
                assert(key_view(entries@[i].0) == (b, c, Seq::<char>::empty(), Seq::<
                    char,
                >::empty()));
                assert(has_group(groups@, entries@[i].0));
                let g = choose|g: int|
                    0 <= g < groups@.len() && key_view((#[trigger] groups@[g]).0) == key_view(
                        entries@[i].0,
                    );
                assert(cells@[g].0.ym == b && cells@[g].0.num == c);
            }
        }
        let h = finish_tenure_hist(&cells, Ghost(records@), Ghost(thr), unit, interval);
        Ok(h)
    }
}

} // verus!
