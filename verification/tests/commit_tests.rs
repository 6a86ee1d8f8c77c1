use fornalder::commit::RawCommit;
use fornalder::commit::Timestamp;
use fornalder::commit::add_path_changes;
use fornalder::commit::email_to_domain;
use fornalder::commit::path_suffix;
use fornalder::commit::to_record;
use fornalder::strutil::i64_to_string;
use fornalder::strutil::i64_to_string_pad2;
use fornalder::strutil::trim_to_string;

#[test]
fn strips_email_username() {
    assert_eq!(email_to_domain("dude@lebowski.com"), "lebowski.com");
}

#[test]
fn email_domain_rules() {
    assert_eq!(email_to_domain("Dude@Lebowski.COM"), "lebowski.com");
    assert_eq!(email_to_domain("who@mail.lebowski.com"), "lebowski.com");
    assert_eq!(email_to_domain("who@dept.uni.ac.uk"), "uni.ac.uk");
    assert_eq!(email_to_domain("who@sub.site.com.au"), "site.com.au");
    assert_eq!(email_to_domain("who@x.example.au"), "example.au");
    assert_eq!(email_to_domain("noat.example.org"), "example.org");
    assert_eq!(email_to_domain("plain"), "plain");
}

#[test]
fn path_suffix_rules() {
    assert_eq!(path_suffix("src/main.rs"), "rs");
    assert_eq!(path_suffix("Makefile"), "Makefile");
    assert_eq!(path_suffix("a/b/c"), "c");
    assert_eq!(path_suffix("archive.tar.gz"), "gz");
    assert_eq!(path_suffix("trailing."), "trailing.");
    assert_eq!(path_suffix("a.b."), "b.");
    assert_eq!(path_suffix(""), "");
}

#[test]
fn path_changes_accumulate_by_suffix() {
    let mut changes: Vec<(String, i64)> = Vec::new();
    add_path_changes(&mut changes, "src/a.rs", 3);
    add_path_changes(&mut changes, "src/b.rs", 4);
    add_path_changes(&mut changes, "doc/readme.md", 1);
    assert_eq!(changes.len(), 2);
    assert_eq!(changes[0], ("rs".to_string(), 7));
    assert_eq!(changes[1], ("md".to_string(), 1));
}

#[test]
fn record_from_commit_defaults() {
    let commit = RawCommit {
        id: "abc".to_string(),
        repo_name: "repo".to_string(),
        author_name: "A".to_string(),
        author_email: "A@Lebowski.com".to_string(),
        author_time: None,
        committer_name: "A".to_string(),
        committer_email: "a@x".to_string(),
        committer_time: None,
        n_insertions: 2,
        n_deletions: 1,
        n_changes_per_suffix: vec![("rs".to_string(), 3)],
    };
    let rec = to_record(&commit);
    assert_eq!(rec.author_time, 0);
    assert_eq!(rec.author_year, 1970);
    assert_eq!(rec.author_month, 0);
    assert_eq!(rec.author_domain, "lebowski.com");
    assert!(rec.show_domain);
    assert_eq!(rec.suffix_changes, vec![("rs".to_string(), 3)]);

    let dated = RawCommit {
        author_time: Some(Timestamp { secs: 1578528000, year: 2020, month0: 0 }),
        ..commit
    };
    let rec2 = to_record(&dated);
    assert_eq!(rec2.author_time, 1578528000);
    assert_eq!(rec2.author_year, 2020);
    assert_eq!(rec2.author_month, 0);
}

#[test]
fn decimal_rendering() {
    assert_eq!(i64_to_string(0), "0");
    assert_eq!(i64_to_string(2019), "2019");
    assert_eq!(i64_to_string(-123), "-123");
    assert_eq!(i64_to_string(i64::MIN), "-9223372036854775808");
    assert_eq!(i64_to_string_pad2(7), "07");
    assert_eq!(i64_to_string_pad2(11), "11");
    assert_eq!(i64_to_string_pad2(-1), "-1");
}

#[test]
fn trimming() {
    assert_eq!(trim_to_string("  a b \t"), "a b");
    assert_eq!(trim_to_string("\u{a0}x\u{2003}"), "x");
    assert_eq!(trim_to_string("   "), "");
}
