use fornalder::colstrat::get_hist;
use fornalder::commit::CommitRecord;
use fornalder::engine::CohortType;
use fornalder::engine::IntervalType;
use fornalder::engine::UnitType;
use fornalder::engine::compute_author_summaries;
use fornalder::engine::EngineError;
use fornalder::hist::NO_COHORT;
use fornalder::yearmonth::YearMonth;

const DAY: i64 = 86400;

fn record(author: &str, domain: &str, repo: &str, time: i64, year: i32, month: i32) -> CommitRecord {
    CommitRecord {
        repo_name: repo.to_string(),
        author_name: author.to_string(),
        author_domain: domain.to_string(),
        author_time: time,
        author_year: year,
        author_month: month,
        n_insertions: 1,
        n_deletions: 0,
        show_domain: true,
        suffix_changes: Vec::new(),
    }
}

#[test]
fn author_summaries_aggregate() {
    let records = vec![
        record("a", "x.org", "r", 100, 2019, 0),
        record("a", "x.org", "r", 500, 2020, 3),
        record("b", "y.org", "r", 200, 2020, 1),
    ];
    let summaries = compute_author_summaries(&records);
    assert_eq!(summaries.len(), 2);
    let a = summaries.iter().find(|s| s.author_name == "a").unwrap();
    assert_eq!(a.first_time, 100);
    assert_eq!(a.last_time, 500);
    assert_eq!(a.first_year, 2019);
    assert_eq!(a.last_year, 2020);
    assert_eq!(a.active_time, 400);
    assert_eq!(a.n_commits, 2);
    assert_eq!(a.n_changes, 2);
    let b = summaries.iter().find(|s| s.author_name == "b").unwrap();
    assert_eq!(b.n_commits, 1);
    assert_eq!(b.active_time, 0);
}

/// Three authors, one event each in January 2020: A debuted in 2019 with a
/// 400-day span, B debuted in 2020 with a 10-day span (brief), C debuted in
/// 2020 with a 400-day span.
#[test]
fn tenure_authors_three_author_scenario() {
    let t2019 = 1546300800; // 2019-01-01
    let t2020_jan = 1578528000; // 2020-01-09
    let records = vec![
        // A: first event 2019, active span 400 days
        record("A", "a.org", "r", t2019, 2019, 0),
        record("A", "a.org", "r", t2019 + 400 * DAY, 2020, 1),
        // A's event in January 2020
        record("A", "a.org", "r", t2020_jan, 2020, 0),
        // B: first event 2020, active span 10 days, event in January 2020
        record("B", "b.org", "r", t2020_jan, 2020, 0),
        record("B", "b.org", "r", t2020_jan + 10 * DAY, 2020, 0),
        // C: first event 2020 (January), active span 400 days
        record("C", "c.org", "r", t2020_jan, 2020, 0),
        record("C", "c.org", "r", t2020_jan + 400 * DAY, 2021, 1),
    ];
    let hist = get_hist(&records, CohortType::FirstYear, UnitType::Authors, IntervalType::Month)
        .unwrap();
    let jan2020 = YearMonth { year: 2020, month: Some(0) };
    assert_eq!(hist.get_value(jan2020, 2019), Some(1)); // A
    assert_eq!(hist.get_value(jan2020, 2020), Some(1)); // C; B is brief
    assert_eq!(hist.get_value(jan2020, NO_COHORT), Some(1)); // B
    assert_eq!(hist.get_cohort_name(2019), "2019");
    assert_eq!(hist.get_cohort_name(2020), "2020");
    assert_eq!(hist.get_cohort_name(NO_COHORT), "Brief");
}

#[test]
fn tenure_commits_and_changes() {
    let t0 = 1546300800;
    let mut r1 = record("A", "a.org", "r", t0, 2019, 0);
    r1.n_insertions = 10;
    r1.n_deletions = 5;
    let mut r2 = record("A", "a.org", "r", t0 + 400 * DAY, 2020, 1);
    r2.n_insertions = 3;
    r2.n_deletions = 0;
    let records = vec![r1, r2];
    let hist =
        get_hist(&records, CohortType::FirstYear, UnitType::Commits, IntervalType::Year).unwrap();
    assert_eq!(hist.get_value(YearMonth { year: 2019, month: None }, 2019), Some(1));
    assert_eq!(hist.get_value(YearMonth { year: 2020, month: None }, 2019), Some(1));

    let hist2 =
        get_hist(&records, CohortType::FirstYear, UnitType::Changes, IntervalType::Year).unwrap();
    assert_eq!(hist2.get_value(YearMonth { year: 2019, month: None }, 2019), Some(15));
    assert_eq!(hist2.get_value(YearMonth { year: 2020, month: None }, 2019), Some(3));
}

#[test]
fn changes_overflow_is_an_error() {
    let t0 = 1546300800;
    let mut r1 = record("A", "a.org", "r", t0, 2019, 0);
    r1.n_insertions = i32::MAX;
    r1.n_deletions = 0;
    let mut r2 = record("A", "a.org", "r", t0 + 400 * DAY, 2019, 0);
    r2.n_insertions = i32::MAX;
    r2.n_deletions = 0;
    let records = vec![r1, r2];
    let r = get_hist(&records, CohortType::FirstYear, UnitType::Changes, IntervalType::Year);
    match r {
        Err(e) => assert_eq!(e, EngineError::ValueOutOfRange),
        Ok(_) => panic!("expected an out-of-range error"),
    }
}

#[test]
fn domain_commits_top_and_brief() {
    let t0 = 1546300800;
    let records = vec![
        record("A", "big.org", "r", t0, 2019, 0),
        record("A", "big.org", "r", t0 + 400 * DAY, 2020, 1),
        record("A", "big.org", "r", t0 + 401 * DAY, 2020, 1),
        record("B", "small.org", "r", t0, 2019, 0),
        record("B", "small.org", "r", t0 + 400 * DAY, 2020, 1),
        // brief author's events are routed to the sentinel
        record("X", "big.org", "r", t0, 2019, 0),
    ];
    let hist =
        get_hist(&records, CohortType::Domain, UnitType::Commits, IntervalType::Year).unwrap();
    let y2019 = YearMonth { year: 2019, month: None };
    let y2020 = YearMonth { year: 2020, month: None };
    // big.org is the heaviest category and takes the highest named id
    assert_eq!(hist.get_value(y2019, 15), Some(1));
    assert_eq!(hist.get_value(y2020, 15), Some(2));
    assert_eq!(hist.get_cohort_name(15), "big.org");
    assert_eq!(hist.get_value(y2019, 14), Some(1));
    assert_eq!(hist.get_cohort_name(14), "small.org");
    // the brief author's 2019 event lands on the sentinel, not on big.org
    assert_eq!(hist.get_value(y2019, NO_COHORT), Some(1));
}

#[test]
fn suffix_changes_weighted() {
    let t0 = 1546300800;
    let mut r1 = record("A", "a.org", "r", t0, 2019, 0);
    r1.suffix_changes = vec![("c".to_string(), 30), ("h".to_string(), 12)];
    let mut r2 = record("A", "a.org", "r", t0 + 400 * DAY, 2019, 0);
    r2.suffix_changes = vec![("c".to_string(), 5)];
    let records = vec![r1, r2];
    let hist =
        get_hist(&records, CohortType::Suffix, UnitType::Changes, IntervalType::Year).unwrap();
    let y2019 = YearMonth { year: 2019, month: None };
    assert_eq!(hist.get_value(y2019, 15), Some(35)); // c
    assert_eq!(hist.get_cohort_name(15), "c");
    assert_eq!(hist.get_value(y2019, 14), Some(12)); // h
    assert_eq!(hist.get_cohort_name(14), "h");
}

#[test]
fn fractional_authors_split_credit() {
    let t0 = 1546300800;
    let records = vec![
        // two above-threshold authors working only on one domain: each
        // contributes one whole unit of credit in the bin
        record("A", "one.org", "r", t0, 2019, 0),
        record("A", "one.org", "r", t0 + 400 * DAY, 2020, 1),
        record("B", "one.org", "r", t0, 2019, 0),
        record("B", "one.org", "r", t0 + 400 * DAY, 2020, 1),
    ];
    let hist =
        get_hist(&records, CohortType::Domain, UnitType::Authors, IntervalType::Year).unwrap();
    let y2019 = YearMonth { year: 2019, month: None };
    assert_eq!(hist.get_value(y2019, 15), Some(2));
    assert_eq!(hist.get_cohort_name(15), "one.org");
    assert_eq!(hist.get_cohort_name(NO_COHORT), "Brief");
}

#[test]
fn fractional_split_across_categories_truncates() {
    let t0 = 1546300800;
    let records = vec![
        // one author, two domains, one event each: credit splits in half
        // and each half truncates to zero when stored
        record("A", "one.org", "r", t0, 2019, 0),
        record("A", "two.org", "r", t0 + 400 * DAY, 2019, 0),
    ];
    let hist =
        get_hist(&records, CohortType::Domain, UnitType::Authors, IntervalType::Year).unwrap();
    let y2019 = YearMonth { year: 2019, month: None };
    assert_eq!(hist.get_value(y2019, 15), Some(0));
    assert_eq!(hist.get_value(y2019, 14), Some(0));
}

#[test]
fn fractional_brief_authors_counted_distinct() {
    let t0 = 1546300800;
    let records = vec![
        record("A", "one.org", "r", t0, 2019, 0),
        record("A", "one.org", "r", t0 + DAY, 2019, 0),
        record("B", "two.org", "r", t0, 2019, 0),
    ];
    let hist =
        get_hist(&records, CohortType::Domain, UnitType::Authors, IntervalType::Year).unwrap();
    let y2019 = YearMonth { year: 2019, month: None };
    // both authors are brief: two distinct authors in the sentinel bucket
    assert_eq!(hist.get_value(y2019, NO_COHORT), Some(2));
}
