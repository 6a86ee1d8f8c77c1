use fornalder::commit::Timestamp;
use fornalder::commit::keep_record;
use fornalder::meta::glob_match;
use fornalder::meta::AggregatePattern;
use fornalder::meta::DomainMeta;
use fornalder::meta::Marker;
use fornalder::meta::ProjectMeta;
use fornalder::statuslog::StatusLogger;
use fornalder::yearmonth::YearMonth;

#[test]
fn pattern_selector_without_window() {
    let p = AggregatePattern { pattern: "*@lebowski.com".to_string(), begin: None, end: None };
    assert_eq!(
        p.sql_selector("author_email", "author_time"),
        "(author_email glob '*@lebowski.com')",
    );
}

#[test]
fn pattern_selector_with_window() {
    let p = AggregatePattern {
        pattern: "*@x.org".to_string(),
        begin: Some(YearMonth { year: 2020, month: None }),
        end: Some(YearMonth { year: 2020, month: None }),
    };
    let begin = YearMonth { year: 2020, month: None }.begin_dt();
    let end = YearMonth { year: 2020, month: None }.end_dt();
    assert_eq!(
        p.sql_selector("author_email", "author_time"),
        format!(
            "(author_email glob '*@x.org' and author_time >= {} and author_time < {})",
            begin, end
        ),
    );
}

#[test]
fn emails_selector_joins_patterns() {
    let d = DomainMeta {
        name: "x".to_string(),
        show: None,
        aggregate_emails: Some(vec![
            AggregatePattern { pattern: "a*".to_string(), begin: None, end: None },
            AggregatePattern { pattern: "b*".to_string(), begin: None, end: None },
        ]),
    };
    assert_eq!(
        d.sql_emails_selector(),
        "(author_email glob 'a*') or (author_email glob 'b*')",
    );
    let none = DomainMeta { name: "y".to_string(), show: None, aggregate_emails: None };
    assert_eq!(none.sql_emails_selector(), "");
}

#[test]
fn markers_render_for_gnuplot() {
    let meta = ProjectMeta {
        name: None,
        first_year: None,
        last_year: None,
        domains: None,
        markers: Some(vec![
            Marker {
                time: YearMonth { year: 2019, month: Some(4) },
                row: 1,
                text: "release".to_string(),
            },
            Marker { time: YearMonth { year: 2021, month: None }, row: 2, text: "move".to_string() },
        ]),
    };
    let (s, n) = meta.markers_to_gnuplot();
    assert_eq!(n, 2);
    assert_eq!(
        s,
        "array markers = [ '2019', '04', 1, 'release', '2021', '-1', 2, 'move', ];",
    );

    let empty = ProjectMeta::new();
    assert_eq!(empty.markers_to_gnuplot(), (String::new(), 0));
}

#[test]
fn glob_matching() {
    assert!(glob_match(b"*@lebowski.com", b"dude@lebowski.com"));
    assert!(!glob_match(b"*@lebowski.com", b"dude@walter.org"));
    assert!(glob_match(b"a?c", b"abc"));
    assert!(!glob_match(b"a?c", b"ac"));
    assert!(glob_match(b"*", b""));
    assert!(glob_match(b"a*b*c", b"axxbyyc"));
    assert!(!glob_match(b"abc", b"abcd"));
}

#[test]
fn record_keeping_rule() {
    assert!(keep_record(1980, 2026));
    assert!(keep_record(2026, 2026));
    assert!(!keep_record(1979, 2026));
    assert!(!keep_record(2027, 2026));
}

#[test]
fn status_logger_refresh_rule() {
    let mut sl = StatusLogger::new();
    sl.begin_repo(&"repo".to_string());
    let t = Timestamp { secs: 0, year: 2020, month0: 3 };
    // first commit moves the calendar position: refresh
    assert!(sl.log_commit(Some(t), 100));
    // same position, too soon: no refresh
    assert!(!sl.log_commit(Some(t), 200));
    // same position, half a second later: refresh
    assert!(sl.log_commit(Some(t), 700));
    // new month: refresh at once
    let t2 = Timestamp { secs: 0, year: 2020, month0: 4 };
    assert!(sl.log_commit(Some(t2), 701));
    // a commit without a time only counts
    assert!(!sl.log_commit(None, 702));
    assert_eq!(sl.n_commits, 5);
    assert!(sl.has_position());
}
