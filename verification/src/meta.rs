//! Project metadata: per-domain aggregation patterns with their relational
//! selector fragments, and timeline markers rendered for the plotter.

use vstd::prelude::*;
use vstd::string::StringExecFns;
use crate::yearmonth::YearMonth;
use crate::yearmonth::CHRONO_MIN_YEAR;
use crate::yearmonth::CHRONO_MAX_YEAR;
use crate::strutil::int_str;
use crate::strutil::pad2_str;
use crate::strutil::i64_to_string;
use crate::strutil::i64_to_string_pad2;

verus! {

/// A timeline marker the renderer overlays: a bin, a row offset and a label.
pub struct Marker {
    pub time: YearMonth,
    pub row: i32,
    pub text: String,
}

/// An e-mail pattern that maps matching addresses to one domain, optionally
/// limited to a time window.
pub struct AggregatePattern {
    pub pattern: String,
    pub begin: Option<YearMonth>,
    pub end: Option<YearMonth>,
}

/// Whether a window bound can be turned into an instant.
pub open spec fn bound_ok(b: Option<YearMonth>) -> bool {
    match b {
        Some(ym) => ym.wf() && CHRONO_MIN_YEAR <= ym.year <= CHRONO_MAX_YEAR - 1,
        None => true,
    }
}

impl AggregatePattern {
    /// The relational selector fragment for this pattern over the given
    /// string and timestamp columns.
    pub open spec fn spec_selector(
        self,
        string_field: Seq<char>,
        timestamp_field: Seq<char>,
    ) -> Seq<char> {
        "("@ + string_field + " glob '"@ + self.pattern@ + "'"@ + (match self.begin {
            Some(b) => " and "@ + timestamp_field + " >= "@ + int_str(b.begin_instant()),
            None => Seq::<char>::empty(),
        }) + (match self.end {
            Some(e) => " and "@ + timestamp_field + " < "@ + int_str(e.end_instant()),
            None => Seq::<char>::empty(),
        }) + ")"@
    }

    /// Builds the selector fragment.
    pub fn sql_selector(&self, string_field: &str, timestamp_field: &str) -> (r: String)
        requires
            bound_ok(self.begin),
            bound_ok(self.end),
        ensures
            r@ == self.spec_selector(string_field@, timestamp_field@),
    {
        let mut s = String::new();
        s.append("(");
        s.append(string_field);
        s.append(" glob '");
        s.append(self.pattern.as_str());
        s.append("'");
        match self.begin {
            Some(b) => {
                s.append(" and ");
                s.append(timestamp_field);
                s.append(" >= ");
                let t = b.begin_dt();
                let ts = i64_to_string(t);
                s.append(ts.as_str());
            },
            None => {},
        }
        match self.end {
            Some(e) => {
                s.append(" and ");
                s.append(timestamp_field);
                s.append(" < ");
                let t = e.end_dt();
                let ts = i64_to_string(t);
                s.append(ts.as_str());
            },
            None => {},
        }
        s.append(")");
        proof {
            assert(s@ =~= self.spec_selector(string_field@, timestamp_field@));
        }
        s
    }
}

/// Metadata for one origin domain: its display name, an optional visibility
/// flag, and the e-mail patterns folded into it.
pub struct DomainMeta {
    pub name: String,
    pub show: Option<bool>,
    pub aggregate_emails: Option<Vec<AggregatePattern>>,
}

/// The selector fragments of the first `k` patterns, joined by `or`.
pub open spec fn spec_selectors_joined(patterns: Seq<AggregatePattern>, k: int) -> Seq<char>
    decreases k,
{
    if k <= 0 || k > patterns.len() {
        Seq::empty()
    } else if k == 1 {
        patterns[0].spec_selector("author_email"@, "author_time"@)
    } else {
        spec_selectors_joined(patterns, k - 1) + " or "@ + patterns[k - 1].spec_selector(
            "author_email"@,
            "author_time"@,
        )
    }
}

impl DomainMeta {
    /// The domain's full e-mail selector: its patterns' fragments over the
    /// author e-mail and time columns, joined by `or`; empty when the
    /// domain aggregates nothing.
    pub open spec fn spec_emails_selector(self) -> Seq<char> {
        match self.aggregate_emails {
            Some(ps) => spec_selectors_joined(ps@, ps@.len() as int),
            None => Seq::empty(),
        }
    }

    /// Builds the domain's e-mail selector.
    pub fn sql_emails_selector(&self) -> (r: String)
        requires
            match self.aggregate_emails {
                Some(ps) => forall|i: int|
                    0 <= i < ps@.len() ==> bound_ok((#[trigger] ps@[i]).begin) && bound_ok(
                        ps@[i].end,
                    ),
                None => true,
            },
        ensures
            r@ == self.spec_emails_selector(),
    {
        let mut s = String::new();
        match &self.aggregate_emails {
            None => {
                proof {
                    assert(s@ =~= self.spec_emails_selector());
                }
                s
            },
            Some(ps) => {
                let n = ps.len();
                let mut i: usize = 0;
                while i < n
                    invariant
                        n == ps@.len(),
                        i <= n,
                        forall|k: int|
                            0 <= k < ps@.len() ==> bound_ok((#[trigger] ps@[k]).begin)
                                && bound_ok(ps@[k].end),
                        s@ == spec_selectors_joined(ps@, i as int),
                    decreases n - i,
                {
                    if i > 0 {
                        s.append(" or ");
                    }
                    let frag = ps[i].sql_selector("author_email", "author_time");
                    s.append(frag.as_str());
                    proof {
                        assert(s@ =~= spec_selectors_joined(ps@, i as int + 1));
                    }
                    i = i + 1;
                }
                proof {
                    assert(s@ =~= self.spec_emails_selector());
                }
                s
            },
        }
    }
}

/// Project-level metadata: display bounds, domain rules and markers.
pub struct ProjectMeta {
    pub name: Option<String>,
    pub first_year: Option<i32>,
    pub last_year: Option<i32>,
    pub domains: Option<Vec<DomainMeta>>,
    pub markers: Option<Vec<Marker>>,
}

/// One marker's four-element rendering.
pub open spec fn spec_marker_str(m: Marker) -> Seq<char> {
    "'"@ + int_str(m.time.year as int) + "', '"@ + pad2_str(
        match m.time.month {
            Some(mm) => mm as int,
            None => -1,
        },
    ) + "', "@ + int_str(m.row as int) + ", '"@ + m.text@ + "',"@
}

/// The first `k` marker renderings, joined by spaces.
pub open spec fn spec_markers_joined(markers: Seq<Marker>, k: int) -> Seq<char>
    decreases k,
{
    if k <= 0 || k > markers.len() {
        Seq::empty()
    } else if k == 1 {
        spec_marker_str(markers[0])
    } else {
        spec_markers_joined(markers, k - 1) + " "@ + spec_marker_str(markers[k - 1])
    }
}

impl ProjectMeta {
    /// Empty metadata.
    pub fn new() -> (r: ProjectMeta)
        ensures
            r.name is None,
            r.first_year is None,
            r.last_year is None,
            r.domains is None,
            r.markers is None,
    {
        ProjectMeta { name: None, first_year: None, last_year: None, domains: None, markers: None }
    }

    /// Renders the markers as the array declaration the plotter feeds to
    /// gnuplot, together with the marker count; an absent or empty marker
    /// list renders as the empty string and a count of zero.
    pub fn markers_to_gnuplot(&self) -> (r: (String, i32))
        requires
            match self.markers {
                Some(ms) => ms@.len() <= i32::MAX,
                None => true,
            },
        ensures
            match self.markers {
                Some(ms) => if ms@.len() == 0 {
                    r.0@ == Seq::<char>::empty() && r.1 == 0
                } else {
                    r.0@ == "array markers = [ "@ + spec_markers_joined(ms@, ms@.len() as int)
                        + " ];"@ && r.1 == ms@.len()
                },
                None => r.0@ == Seq::<char>::empty() && r.1 == 0,
            },
    {
        let ms = match &self.markers {
            None => {
                return (String::new(), 0);
            },
            Some(ms) => ms,
        };
        let n = ms.len();
        if n == 0 {
            return (String::new(), 0);
        }
        let mut s = String::new();
        s.append("array markers = [ ");
        let ghost lead: Seq<char> = "array markers = [ "@;
        let mut i: usize = 0;
        while i < n
            invariant
                n == ms@.len(),
                0 < n <= i32::MAX,
                i <= n,
                s@ == lead + spec_markers_joined(ms@, i as int),
                lead == "array markers = [ "@,
            decreases n - i,
        {
            if i > 0 {
                s.append(" ");
            }
            let m = &ms[i];
            s.append("'");
            let ys = i64_to_string(m.time.year as i64);
            s.append(ys.as_str());
            s.append("', '");
            let month: i64 = match m.time.month {
                Some(mm) => mm as i64,
                None => -1,
            };
            let mm = i64_to_string_pad2(month);
            s.append(mm.as_str());
            s.append("', ");
            let rs = i64_to_string(m.row as i64);
            s.append(rs.as_str());
            s.append(", '");
            s.append(m.text.as_str());
            s.append("',");
            proof {
                assert(s@ =~= lead + spec_markers_joined(ms@, i as int + 1));
            }
            i = i + 1;
        }
        s.append(" ];");
        proof {
            assert(s@ =~= lead + spec_markers_joined(ms@, ms@.len() as int) + " ];"@);
        }
        (s, n as i32)
    }
}


/// Whether a glob pattern matches a byte string: `*` matches any run of
/// bytes, `?` any single byte, anything else itself — the semantics the
/// store's pattern operator gave the e-mail patterns.
pub open spec fn glob_matches(p: Seq<u8>, t: Seq<u8>) -> bool
    decreases p.len(), t.len(),
{
    if p.len() == 0 {
        t.len() == 0
    } else if p[0] == 42 {
        glob_matches(p.drop_first(), t) || (t.len() > 0 && glob_matches(p, t.drop_first()))
    } else if p[0] == 63 {
        t.len() > 0 && glob_matches(p.drop_first(), t.drop_first())
    } else {
        t.len() > 0 && t[0] == p[0] && glob_matches(p.drop_first(), t.drop_first())
    }
}

fn glob_match_at(p: &[u8], t: &[u8], pi: usize, ti: usize) -> (r: bool)
    requires
        pi <= p@.len(),
        ti <= t@.len(),
    ensures
        r == glob_matches(p@.skip(pi as int), t@.skip(ti as int)),
    decreases p@.len() - pi, t@.len() - ti,
{
    let ghost ps = p@.skip(pi as int);
    let ghost ts = t@.skip(ti as int);
    if pi == p.len() {
        proof {
            assert(ps.len() == 0);
        }
        ti == t.len()
    } else {
        let c = p[pi];
        proof {
            assert(ps[0] == p@[pi as int]);
            assert(ps.drop_first() =~= p@.skip(pi as int + 1));
            assert(ts.len() > 0 ==> ts[0] == t@[ti as int]);
            assert(ts.len() > 0 ==> ts.drop_first() =~= t@.skip(ti as int + 1));
        }
        if c == 42 {
            glob_match_at(p, t, pi + 1, ti) || (ti < t.len() && glob_match_at(p, t, pi, ti + 1))
        } else if c == 63 {
            ti < t.len() && glob_match_at(p, t, pi + 1, ti + 1)
        } else {
            ti < t.len() && t[ti] == c && glob_match_at(p, t, pi + 1, ti + 1)
        }
    }
}

/// Whether the pattern matches the whole byte string.
pub fn glob_match(pattern: &[u8], text: &[u8]) -> (r: bool)
    ensures
        r == glob_matches(pattern@, text@),
{
    proof {
        assert(pattern@.skip(0) =~= pattern@);
        assert(text@.skip(0) =~= text@);
    }
    glob_match_at(pattern, text, 0, 0)
}

} // verus!
