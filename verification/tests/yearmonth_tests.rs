use fornalder::yearmonth::YearMonth;

#[test]
fn without_month_next() {
    assert_eq!(
        YearMonth {
            year: 2020,
            month: None,
        }
        .next(),
        YearMonth {
            year: 2021,
            month: None,
        },
    );
}

#[test]
fn with_month_next() {
    assert_eq!(
        YearMonth {
            year: 2020,
            month: Some(0),
        }
        .next(),
        YearMonth {
            year: 2020,
            month: Some(1),
        },
    );

    assert_eq!(
        YearMonth {
            year: 2020,
            month: Some(11),
        }
        .next(),
        YearMonth {
            year: 2021,
            month: Some(0),
        },
    );
}

fn chrono_midnight(y: i32, m: u32, d: u32) -> i64 {
    chrono::NaiveDate::from_ymd_opt(y, m, d)
        .unwrap()
        .and_hms_opt(0, 0, 0)
        .unwrap()
        .and_utc()
        .timestamp()
}

#[test]
fn ym_begin() {
    assert_eq!(
        YearMonth { year: 2020, month: None }.begin_dt(),
        chrono_midnight(2020, 1, 1),
    );

    assert_eq!(
        YearMonth { year: 2020, month: Some(11) }.begin_dt(),
        chrono_midnight(2020, 12, 1),
    );
}

#[test]
fn ym_end() {
    assert_eq!(
        YearMonth { year: 2020, month: None }.end_dt(),
        chrono_midnight(2021, 1, 1),
    );

    assert_eq!(
        YearMonth { year: 2020, month: Some(0) }.end_dt(),
        chrono_midnight(2020, 2, 1),
    );

    assert_eq!(
        YearMonth { year: 2020, month: Some(11) }.end_dt(),
        chrono_midnight(2021, 1, 1),
    );
}

#[test]
fn next_prev_round_trip() {
    let start = YearMonth { year: 1999, month: Some(3) };
    let mut ym = start;
    let mut seen = Vec::new();
    for _ in 0..30 {
        seen.push(ym);
        let next = ym.next();
        assert_eq!(next.prev(), ym);
        assert!(ym.le(&next) && !(next.le(&ym)));
        ym = next;
    }
    for i in 1..seen.len() {
        assert!(seen[i - 1].le(&seen[i]));
    }
}
