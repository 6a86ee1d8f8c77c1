//! Commit records: the raw form parsed from revision history, the stored
//! form the engine aggregates, and the author-email-to-domain rule.

use vstd::prelude::*;
use vstd::string::StrSliceExecFns;
use crate::strutil::lower_of;
use crate::strutil::to_lowercase_string;

verus! {

/// Index of the last occurrence of `c`, or `-1` when `c` does not occur.
pub open spec fn last_index_of(s: Seq<char>, c: char) -> int
    decreases s.len(),
{
    if s.len() == 0 {
        -1
    } else if s.last() == c {
        s.len() - 1
    } else {
        last_index_of(s.drop_last(), c)
    }
}

pub proof fn lemma_last_index_none(s: Seq<char>, c: char)
    requires
        forall|k: int| 0 <= k < s.len() ==> s[k] != c,
    ensures
        last_index_of(s, c) == -1,
    decreases s.len(),
{
    if s.len() > 0 {
        lemma_last_index_none(s.drop_last(), c);
    }
}

pub proof fn lemma_last_index_found(s: Seq<char>, c: char, i: int)
    requires
        0 <= i < s.len(),
        s[i] == c,
        forall|k: int| i < k < s.len() ==> s[k] != c,
    ensures
        last_index_of(s, c) == i,
    decreases s.len(),
{
    if i == s.len() - 1 {
    } else {
        lemma_last_index_found(s.drop_last(), c, i);
    }
}

/// Index in `s` of the last occurrence of `c` within `[from, to)`, if any.
fn find_last_in(s: &str, from: usize, to: usize, c: char) -> (r: Option<usize>)
    requires
        from <= to <= s@.len(),
    ensures
        match r {
            Some(i) => from <= i < to && last_index_of(s@.subrange(from as int, to as int), c) == i
                - from,
            None => last_index_of(s@.subrange(from as int, to as int), c) == -1,
        },
{
    let ghost sub = s@.subrange(from as int, to as int);
    let mut i = to;
    while i > from
        invariant
            from <= i <= to <= s@.len(),
            sub == s@.subrange(from as int, to as int),
            forall|k: int| i <= k < to ==> s@[k] != c,
        decreases i,
    {
        if s.get_char(i - 1) == c {
            proof {
                assert(sub[i - 1 - from] == s@[i - 1]);
                assert forall|k: int| (i - from) <= k < sub.len() implies sub[k] != c by {
                    assert(sub[k] == s@[from + k]);
                }
                lemma_last_index_found(sub, c, i - 1 - from);
            }
            return Some(i - 1);
        }
        i = i - 1;
    }
    proof {
        assert forall|k: int| 0 <= k < sub.len() implies sub[k] != c by {
            assert(sub[k] == s@[from + k]);
        }
        lemma_last_index_none(sub, c);
    }
    None
}

/// The origin domain an author email maps to: everything after the last `@`,
/// trimmed to its last two dot-separated parts, or to three when the last
/// part is shorter than three characters and the one before it shorter than
/// four (so `domain.ac.uk` and `domain.com.au` keep their site name).
pub open spec fn domain_of(s: Seq<char>) -> Seq<char> {
    let t = s.subrange(last_index_of(s, '@') + 1, s.len() as int);
    let d1 = last_index_of(t, '.');
    if d1 < 0 {
        t
    } else {
        let d2 = last_index_of(t.take(d1), '.');
        if d2 < 0 {
            t
        } else {
            let last_len = t.len() - 1 - d1;
            let second_len = d1 - 1 - d2;
            if last_len < 3 {
                if second_len < 4 {
                    let d3 = last_index_of(t.take(d2), '.');
                    t.subrange(d3 + 1, t.len() as int)
                } else {
                    t.subrange(d2 + 1, t.len() as int)
                }
            } else {
                t.subrange(d2 + 1, t.len() as int)
            }
        }
    }
}

/// Maps an author email to its origin domain: the address is lower-cased,
/// the local part stripped, and the domain kept only as far as the rule of
/// `domain_of` retains it.
pub fn email_to_domain(email: &str) -> (r: String)
    ensures
        r@ == domain_of(lower_of(email@)),
{
    let lower = to_lowercase_string(email);
    let ls = lower.as_str();
    let len = ls.unicode_len();
    let ghost full: Seq<char> = ls@;
    let at = find_last_in(ls, 0, len, '@');
    let tstart: usize = match at {
        Some(i) => i + 1,
        None => 0,
    };
    proof {
        assert(full.subrange(0, len as int) =~= full);
        assert(last_index_of(full, '@') + 1 == tstart as int);
    }
    let ghost t: Seq<char> = full.subrange(tstart as int, len as int);
    let d1 = find_last_in(ls, tstart, len, '.');
    match d1 {
        None => {
            let sub = ls.substring_char(tstart, len);
            sub.to_owned()
        },
        Some(i1) => {
            proof {
                assert(t.take(i1 as int - tstart) =~= full.subrange(tstart as int, i1 as int));
            }
            let d2 = find_last_in(ls, tstart, i1, '.');
            match d2 {
                None => {
                    let sub = ls.substring_char(tstart, len);
                    sub.to_owned()
                },
                Some(i2) => {
                    let last_len = len - 1 - i1;
                    let second_len = i1 - 1 - i2;
                    proof {
                        assert(t.len() - 1 - (i1 - tstart) == last_len as int);
                        assert((i1 - tstart) - 1 - (i2 - tstart) == second_len as int);
                    }
                    if last_len < 3 && second_len < 4 {
                        proof {
                            assert(t.take(i2 as int - tstart) =~= full.subrange(
                                tstart as int,
                                i2 as int,
                            ));
                        }
                        let d3 = find_last_in(ls, tstart, i2, '.');
                        let start: usize = match d3 {
                            Some(i3) => i3 + 1,
                            None => tstart,
                        };
                        let sub = ls.substring_char(start, len);
                        proof {
                            let d3t = last_index_of(t.take(i2 as int - tstart), '.');
                            assert(t.subrange(d3t + 1, t.len() as int) =~= full.subrange(
                                start as int,
                                len as int,
                            ));
                        }
                        sub.to_owned()
                    } else {
                        let sub = ls.substring_char(i2 + 1, len);
                        proof {
                            assert(t.subrange(i2 as int - tstart + 1, t.len() as int)
                                =~= full.subrange(i2 as int + 1, len as int));
                        }
                        sub.to_owned()
                    }
                },
            }
        },
    }
}

/// A parsed instant: seconds from the Unix epoch together with the calendar
/// year and zero-based month the instant falls in.
#[derive(Copy, Clone, Debug)]
pub struct Timestamp {
    pub secs: i64,
    pub year: i32,
    pub month0: i32,
}

/// One contribution event as parsed from revision history.
#[derive(Debug)]
pub struct RawCommit {
    pub id: String,
    pub repo_name: String,
    pub author_name: String,
    pub author_email: String,
    pub author_time: Option<Timestamp>,
    pub committer_name: String,
    pub committer_email: String,
    pub committer_time: Option<Timestamp>,
    pub n_insertions: i32,
    pub n_deletions: i32,
    pub n_changes_per_suffix: Vec<(String, i64)>,
}

/// One stored contribution event, as the aggregation engine reads it.
#[derive(Debug)]
pub struct CommitRecord {
    pub repo_name: String,
    pub author_name: String,
    pub author_domain: String,
    pub author_time: i64,
    pub author_year: i32,
    pub author_month: i32,
    pub n_insertions: i32,
    pub n_deletions: i32,
    pub show_domain: bool,
    pub suffix_changes: Vec<(String, i64)>,
}

impl CommitRecord {
    /// What the engine assumes of a stored event: a sane timestamp and
    /// calendar fields, and non-negative size metrics.
    pub open spec fn wf(self) -> bool {
        &&& self.author_time >= 0
        &&& 0 <= self.author_year < i32::MAX
        &&& 0 <= self.author_month <= 11
        &&& self.n_insertions >= 0
        &&& self.n_deletions >= 0
        &&& forall|j: int|
            0 <= j < self.suffix_changes@.len() ==> (#[trigger] self.suffix_changes@[j]).1 >= 0
    }
}

/// The last index of `.` or `/` in `s`, or `-1`.
pub open spec fn last_sep_index(s: Seq<char>) -> int
    decreases s.len(),
{
    if s.len() == 0 {
        -1
    } else if s.last() == '.' || s.last() == '/' {
        s.len() - 1
    } else {
        last_sep_index(s.drop_last(), )
    }
}

proof fn lemma_last_sep_none(s: Seq<char>)
    requires
        forall|k: int| 0 <= k < s.len() ==> s[k] != '.' && s[k] != '/',
    ensures
        last_sep_index(s) == -1,
    decreases s.len(),
{
    if s.len() > 0 {
        lemma_last_sep_none(s.drop_last());
    }
}

proof fn lemma_last_sep_found(s: Seq<char>, i: int)
    requires
        0 <= i < s.len(),
        s[i] == '.' || s[i] == '/',
        forall|k: int| i < k < s.len() ==> s[k] != '.' && s[k] != '/',
    ensures
        last_sep_index(s) == i,
    decreases s.len(),
{
    if i < s.len() - 1 {
        lemma_last_sep_found(s.drop_last(), i);
    }
}

/// The file-type suffix of a path: what follows the last `.` or `/` that has
/// at least one character after it, or the whole path when there is no such
/// separator.
pub open spec fn suffix_of(path: Seq<char>) -> Seq<char> {
    if path.len() == 0 {
        path
    } else {
        let d = last_sep_index(path.take(path.len() - 1));
        if d >= 0 {
            path.subrange(d + 1, path.len() as int)
        } else {
            path
        }
    }
}

/// The file-type suffix of a changed path.
pub fn path_suffix(path: &str) -> (r: String)
    ensures
        r@ == suffix_of(path@),
{
    let len = path.unicode_len();
    if len == 0 {
        return path.to_owned();
    }
    let ghost head = path@.take(len - 1);
    let mut i = len - 1;
    while i > 0
        invariant
            i <= len - 1,
            len == path@.len(),
            head == path@.take(len - 1),
            forall|k: int| i <= k < len - 1 ==> path@[k] != '.' && path@[k] != '/',
        decreases i,
    {
        let c = path.get_char(i - 1);
        if c == '.' || c == '/' {
            proof {
                assert(head[i - 1] == path@[i - 1]);
                assert forall|k: int| (i as int) <= k < head.len() implies head[k] != '.' && head[k]
                    != '/' by {
                    assert(head[k] == path@[k]);
                }
                lemma_last_sep_found(head, i - 1);
            }
            let sub = path.substring_char(i, len);
            return sub.to_owned();
        }
        i = i - 1;
    }
    proof {
        assert forall|k: int| 0 <= k < head.len() implies head[k] != '.' && head[k] != '/' by {
            assert(head[k] == path@[k]);
        }
        lemma_last_sep_none(head);
    }
    path.to_owned()
}

/// Index of the first tally entry carrying the given suffix, or `-1`.
pub open spec fn suffix_index(changes: Seq<(String, i64)>, s: Seq<char>) -> int
    decreases changes.len(),
{
    if changes.len() == 0 {
        -1
    } else if changes[0].0@ == s {
        0
    } else {
        let r = suffix_index(changes.drop_first(), s);
        if r < 0 {
            -1
        } else {
            r + 1
        }
    }
}

proof fn lemma_suffix_index_found(changes: Seq<(String, i64)>, s: Seq<char>, i: int)
    requires
        0 <= i < changes.len(),
        changes[i].0@ == s,
        forall|k: int| 0 <= k < i ==> (#[trigger] changes[k]).0@ != s,
    ensures
        suffix_index(changes, s) == i,
    decreases i,
{
    if i > 0 {
        lemma_suffix_index_found(changes.drop_first(), s, i - 1);
    }
}

proof fn lemma_suffix_index_none(changes: Seq<(String, i64)>, s: Seq<char>)
    requires
        forall|k: int| 0 <= k < changes.len() ==> (#[trigger] changes[k]).0@ != s,
    ensures
        suffix_index(changes, s) == -1,
    decreases changes.len(),
{
    if changes.len() > 0 {
        lemma_suffix_index_none(changes.drop_first(), s);
    }
}

/// A sum clamped to the tally counter's maximum.
pub open spec fn sat_add(a: int, b: int) -> int {
    if a + b <= i64::MAX {
        a + b
    } else {
        i64::MAX as int
    }
}

/// Adds a changed path's weight to the per-suffix tally of a commit: the
/// first entry carrying the path's suffix grows by `n_changes`, saturating
/// at the counter's maximum, and every other entry stays; a suffix without
/// an entry gains one holding `n_changes`.
pub fn add_path_changes(changes: &mut Vec<(String, i64)>, path: &str, n_changes: i64)
    requires
        n_changes >= 0,
        forall|j: int| 0 <= j < old(changes)@.len() ==> (#[trigger] old(changes)@[j]).1 >= 0,
    ensures
        forall|j: int| 0 <= j < final(changes)@.len() ==> (#[trigger] final(changes)@[j]).1 >= 0,
        ({
            let s = suffix_of(path@);
            let i = suffix_index(old(changes)@, s);
            if i >= 0 {
                &&& final(changes)@.len() == old(changes)@.len()
                &&& (forall|k: int|
                    0 <= k < old(changes)@.len() && k != i ==> #[trigger] final(changes)@[k]
                        == old(changes)@[k])
                &&& final(changes)@[i].0 == old(changes)@[i].0
                &&& final(changes)@[i].1 as int == sat_add(
                    old(changes)@[i].1 as int,
                    n_changes as int,
                )
            } else {
                &&& final(changes)@.len() == old(changes)@.len() + 1
                &&& (forall|k: int|
                    0 <= k < old(changes)@.len() ==> #[trigger] final(changes)@[k] == old(
                        changes,
                    )@[k])
                &&& final(changes)@.last().0@ == s
                &&& final(changes)@.last().1 == n_changes
            }
        }),
{
    let suffix = path_suffix(path);
    let n = changes.len();
    let mut i: usize = 0;
    while i < n
        invariant
            n == changes@.len(),
            changes@ == old(changes)@,
            i <= n,
            n_changes >= 0,
            forall|j: int| 0 <= j < changes@.len() ==> (#[trigger] changes@[j]).1 >= 0,
            suffix@ == suffix_of(path@),
            forall|k: int| 0 <= k < i ==> (#[trigger] changes@[k]).0@ != suffix@,
        decreases n - i,
    {
        if changes[i].0 == suffix {
            proof {
                lemma_suffix_index_found(changes@, suffix@, i as int);
            }
            let v = changes[i].1;
            if v <= i64::MAX - n_changes {
                changes[i].1 = v + n_changes;
            } else {
                changes[i].1 = i64::MAX;
            }
            return ;
        }
        i = i + 1;
    }
    proof {
        lemma_suffix_index_none(changes@, suffix@);
    }
    changes.push((suffix, n_changes));
}

/// Builds the stored event for a raw commit: a missing author time falls
/// back to the epoch (year 1970, month 0), the author domain is derived from
/// the email, and the domain is shown by default.
pub fn to_record(c: &RawCommit) -> (r: CommitRecord)
    ensures
        r.repo_name@ == c.repo_name@,
        r.author_name@ == c.author_name@,
        r.author_domain@ == domain_of(lower_of(c.author_email@)),
        r.author_time == (match c.author_time {
            Some(t) => t.secs,
            None => 0,
        }),
        r.author_year == (match c.author_time {
            Some(t) => t.year,
            None => 1970,
        }),
        r.author_month == (match c.author_time {
            Some(t) => t.month0,
            None => 0,
        }),
        r.n_insertions == c.n_insertions,
        r.n_deletions == c.n_deletions,
        r.show_domain == true,
        r.suffix_changes@.len() == c.n_changes_per_suffix@.len(),
        forall|j: int|
            0 <= j < r.suffix_changes@.len() ==> (#[trigger] r.suffix_changes@[j]).0@
                == c.n_changes_per_suffix@[j].0@ && r.suffix_changes@[j].1
                == c.n_changes_per_suffix@[j].1,
{
    let (author_time, author_year, author_month) = match c.author_time {
        Some(t) => (t.secs, t.year, t.month0),
        None => (0i64, 1970i32, 0i32),
    };
    let mut suffix_changes: Vec<(String, i64)> = Vec::new();
    let m = c.n_changes_per_suffix.len();
    let mut j: usize = 0;
    while j < m
        invariant
            m == c.n_changes_per_suffix@.len(),
            j <= m,
            suffix_changes@.len() == j,
            forall|k: int|
                0 <= k < j ==> (#[trigger] suffix_changes@[k]).0@
                    == c.n_changes_per_suffix@[k].0@ && suffix_changes@[k].1
                    == c.n_changes_per_suffix@[k].1,
        decreases m - j,
    {
        let s = c.n_changes_per_suffix[j].0.clone();
        let w = c.n_changes_per_suffix[j].1;
        suffix_changes.push((s, w));
        j = j + 1;
    }
    CommitRecord {
        repo_name: c.repo_name.clone(),
        author_name: c.author_name.clone(),
        author_domain: email_to_domain(c.author_email.as_str()),
        author_time,
        author_year,
        author_month,
        n_insertions: c.n_insertions,
        n_deletions: c.n_deletions,
        show_domain: true,
        suffix_changes,
    }
}


/// Whether a stored event's year is plausible: not before 1980 and not
/// after the current year.  Events outside the range are parse debris and
/// are excluded before aggregation, so they cannot skew range detection.
pub fn keep_record(author_year: i32, current_year: i32) -> (r: bool)
    ensures
        r == (1980 <= author_year <= current_year),
{
    1980 <= author_year && author_year <= current_year
}

} // verus!
