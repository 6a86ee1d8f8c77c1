//! Cohort histograms of version-control contribution activity.
//!
//! The crate turns dated, per-author commit records into time-binned
//! histograms that classify activity by cohort: the calendar year of an
//! author's first contribution, or a categorical attribute (origin domain,
//! repository, file-type suffix).  Short-tenure contributors are routed to a
//! reserved "Brief" bucket; categorical cohorts are ranked and capped at a
//! top-N set with an "Other" overflow bucket.

pub mod colstrat;
pub mod commit;
pub mod engine;
pub mod groupby;
pub mod hist;
pub mod meta;
pub mod statuslog;
pub mod strutil;
pub mod yearmonth;
