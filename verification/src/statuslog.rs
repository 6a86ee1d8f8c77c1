//! Ingestion progress state: which repository is being read, how many
//! commits were seen, and when the progress line was last refreshed.  The
//! caller prints; this type only counts and decides when a refresh is due.

use vstd::prelude::*;
use crate::commit::Timestamp;

verus! {

/// Progress state for one repository being ingested.
#[derive(Debug)]
pub struct StatusLogger {
    pub repo_name: String,
    pub n_commits: u32,
    pub last_timestamp: i64,
    pub last_year: i32,
    pub last_month: i32,
}

impl StatusLogger {
    /// A fresh logger with no repository and no progress.
    pub fn new() -> (r: StatusLogger)
        ensures
            r.repo_name@ == Seq::<char>::empty(),
            r.n_commits == 0,
            r.last_timestamp == 0,
            r.last_year == 0,
            r.last_month == 0,
    {
        StatusLogger {
            repo_name: String::new(),
            n_commits: 0,
            last_timestamp: 0,
            last_year: 0,
            last_month: 0,
        }
    }

    /// Starts a new repository: remembers its name and resets the counters.
    pub fn begin_repo(&mut self, repo_name: &String)
        ensures
            final(self).repo_name@ == repo_name@,
            final(self).n_commits == 0,
            final(self).last_timestamp == 0,
            final(self).last_year == 0,
            final(self).last_month == 0,
    {
        self.repo_name = repo_name.clone();
        self.n_commits = 0;
        self.last_timestamp = 0;
        self.last_year = 0;
        self.last_month = 0;
    }

    /// Notes one commit and decides whether the progress line is due for a
    /// refresh: when half a second passed since the last one, or when the
    /// commit's calendar position moved.  A commit without a time is only
    /// counted.
    pub fn log_commit(&mut self, author_time: Option<Timestamp>, now_millis: i64) -> (refresh:
        bool)
        requires
            old(self).n_commits < u32::MAX,
            0 <= old(self).last_timestamp,
            now_millis >= 0,
        ensures
            final(self).repo_name@ == old(self).repo_name@,
            final(self).n_commits == old(self).n_commits + 1,
            match author_time {
                None => {
                    &&& refresh == false
                    &&& final(self).last_timestamp == old(self).last_timestamp
                    &&& final(self).last_year == old(self).last_year
                    &&& final(self).last_month == old(self).last_month
                },
                Some(t) => {
                    &&& refresh == (now_millis - old(self).last_timestamp > 500 || t.year
                        != old(self).last_year || t.month0 != old(self).last_month)
                    &&& (refresh ==> final(self).last_timestamp == now_millis
                        && final(self).last_year == t.year && final(self).last_month == t.month0)
                    &&& (!refresh ==> final(self).last_timestamp == old(self).last_timestamp
                        && final(self).last_year == old(self).last_year
                        && final(self).last_month == old(self).last_month)
                },
            },
    {
        self.n_commits = self.n_commits + 1;
        match author_time {
            None => false,
            Some(t) => {
                let refresh = now_millis - self.last_timestamp > 500 || t.year != self.last_year
                    || t.month0 != self.last_month;
                if refresh {
                    self.last_timestamp = now_millis;
                    self.last_year = t.year;
                    self.last_month = t.month0;
                }
                refresh
            },
        }
    }

    /// Whether a calendar position was ever recorded, so the closing line
    /// can name it.
    pub fn has_position(&self) -> (r: bool)
        ensures
            r == (self.last_year != 0),
    {
        self.last_year != 0
    }
}

} // verus!
