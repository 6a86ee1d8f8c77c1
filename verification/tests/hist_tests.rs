use fornalder::hist::CohortHist;
use fornalder::hist::NO_COHORT;
use fornalder::yearmonth::YearMonth;

#[test]
fn empty_cohort_hist_bounds() {
    let hist = CohortHist::new();

    assert!(hist.get_bounds().is_none());
}

#[test]
fn cohort_hist_bounds() {
    let mut hist = CohortHist::new();

    hist.set_value(YearMonth { year: 2020, month: Some(0) }, 0, 0);
    hist.set_value(YearMonth { year: 2020, month: Some(1) }, 1, 1);
    hist.set_value(YearMonth { year: 2020, month: Some(2) }, 2, 2);

    let (first_ym, last_ym, first_cohort, last_cohort) = hist.get_bounds().unwrap();
    assert_eq!(
        (first_ym, last_ym, first_cohort, last_cohort),
        (
            YearMonth { year: 2020, month: Some(0) },
            YearMonth { year: 2020, month: Some(2) },
            0,
            2,
        ),
    );
}

#[test]
fn cohort_hist_bounds_empty_months() {
    let mut hist = CohortHist::new();

    hist.set_value(YearMonth { year: 2020, month: None }, 0, 0);
    hist.set_value(YearMonth { year: 2020, month: None }, 1, 1);
    hist.set_value(YearMonth { year: 2020, month: None }, 2, 2);

    let (first_ym, last_ym, first_cohort, last_cohort) = hist.get_bounds().unwrap();
    assert_eq!(
        (first_ym, last_ym, first_cohort, last_cohort),
        (
            YearMonth { year: 2020, month: None },
            YearMonth { year: 2020, month: None },
            0,
            2,
        ),
    );
}

#[test]
fn rows_have_no_gaps() {
    let mut hist = CohortHist::new();
    hist.set_value(YearMonth { year: 2020, month: Some(3) }, 0, 7);
    hist.set_value(YearMonth { year: 2020, month: Some(9) }, 1, 5);

    // first bin is aligned to month 0; rows run gap-free through month 9
    let rows = hist.to_vecs();
    assert_eq!(rows.len(), 10);
    for (i, row) in rows.iter().enumerate() {
        assert_eq!(row.0, YearMonth { year: 2020, month: Some(i as i32) });
    }
    // a bin with no data still gets a full row of zeros
    assert_eq!(rows[1].1, vec![(NO_COHORT, 0), (0, 0), (1, 0)]);
    assert_eq!(rows[3].1, vec![(NO_COHORT, 7), (0, 7), (1, 0)]);
    assert_eq!(rows[9].1, vec![(NO_COHORT, 5), (0, 0), (1, 5)]);
}

#[test]
fn rows_yearly_no_gaps() {
    let mut hist = CohortHist::new();
    hist.set_value(YearMonth { year: 2018, month: None }, 4, 1);
    hist.set_value(YearMonth { year: 2021, month: None }, 4, 2);

    let rows = hist.to_vecs();
    assert_eq!(rows.len(), 4);
    assert_eq!(rows[0].0, YearMonth { year: 2018, month: None });
    assert_eq!(rows[3].0, YearMonth { year: 2021, month: None });
    assert_eq!(rows[1].1, vec![(NO_COHORT, 0), (4, 0)]);
}

#[test]
fn empty_valued_round_trip() {
    // bounds are set, all values zero: the export still materializes every
    // row, with zero data, rather than dropping rows
    let mut hist = CohortHist::new();
    hist.set_value(YearMonth { year: 2020, month: None }, 0, 0);
    hist.set_value(YearMonth { year: 2022, month: None }, 1, 0);
    hist.set_cohort_name(0, "a");
    hist.set_cohort_name(1, "b");

    assert!(hist.sums_fit());
    let csv = hist.to_csv();
    assert_eq!(csv, "Year|Sum|a|b\n2020|0|0|0\n2021|0|0|0\n2022|0|0|0");
}

#[test]
fn csv_monthly_with_sentinel_column() {
    let mut hist = CohortHist::new();
    hist.set_value(YearMonth { year: 2020, month: Some(0) }, 3, 4);
    hist.set_value(YearMonth { year: 2020, month: Some(1) }, NO_COHORT, 2);
    hist.set_cohort_name(3, "x");
    hist.set_cohort_name(NO_COHORT, "Brief");

    assert!(hist.sums_fit());
    let csv = hist.to_csv();
    assert_eq!(
        csv,
        "Year|Month|Sum|x|Brief\n2020|0|4|4|0\n2020|1|2|0|2",
    );
}

#[test]
fn names_are_trimmed_and_blank_renders_empty() {
    let mut hist = CohortHist::new();
    hist.set_cohort_name(1, "  spaced  ");
    hist.set_cohort_name(2, "   ");
    assert_eq!(hist.get_cohort_name(1), "spaced");
    // a blank name renders as empty; the placeholder belongs to the export
    assert_eq!(hist.get_cohort_name(2), "");
    assert_eq!(hist.get_cohort_name(3), "");
}

#[test]
fn export_replaces_empty_header_names() {
    let mut hist = CohortHist::new();
    hist.set_value(YearMonth { year: 2020, month: None }, 0, 5);
    hist.set_value(YearMonth { year: 2020, month: None }, 1, 6);
    hist.set_cohort_name(0, "named");
    // cohort 1 is unnamed: the export header falls back to the placeholder
    assert!(hist.sums_fit());
    assert_eq!(hist.to_csv(), "Year|Sum|named|(blank)\n2020|11|5|6");
}

#[test]
fn blank_sentinel_name_adds_no_trailing_column() {
    let mut hist = CohortHist::new();
    hist.set_value(YearMonth { year: 2020, month: None }, 0, 1);
    hist.set_cohort_name(0, "a");
    hist.set_cohort_name(NO_COHORT, "   ");
    assert!(hist.sums_fit());
    assert_eq!(hist.to_csv(), "Year|Sum|a\n2020|1|1");
}

#[test]
fn get_value_distinguishes_zero_from_absent() {
    let mut hist = CohortHist::new();
    hist.set_value(YearMonth { year: 2020, month: None }, 0, 0);
    assert_eq!(hist.get_value(YearMonth { year: 2020, month: None }, 0), Some(0));
    assert_eq!(hist.get_value(YearMonth { year: 2020, month: None }, 1), None);
    assert_eq!(hist.get_value(YearMonth { year: 2021, month: None }, 0), None);
    assert_eq!(hist.get_n_cohorts(), 1);
}
