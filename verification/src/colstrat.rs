//! Categorical cohort strategies: per-category counts with top-N selection
//! and the "Other" overflow bucket, and the fractional-attribution author
//! count.

use vstd::prelude::*;
use crate::commit::CommitRecord;
use crate::yearmonth::YearMonth;
use crate::hist::CohortHist;
use crate::hist::NO_COHORT;
use crate::groupby::Key;
use crate::groupby::key_view;
use crate::groupby::sum_where;
use crate::groupby::has_key;
use crate::groupby::has_group;
use crate::groupby::strs_where;
use crate::groupby::has_skey;
use crate::groupby::elem_of;
use crate::groupby::clone_key;
use crate::groupby::group_sum;
use crate::groupby::group_count_distinct;
use crate::groupby::rank_top;
use crate::engine::AuthorSummary;
use crate::engine::CohortType;
use crate::engine::UnitType;
use crate::engine::IntervalType;
use crate::engine::EngineError;
use crate::engine::records_wf;
use crate::engine::has_author;
use crate::engine::has_author_summary;
use crate::engine::brief_author;
use crate::engine::rec_bin;
use crate::engine::rec_weight;
use crate::engine::compute_author_summaries;
use crate::engine::find_summary;
use crate::engine::build_hist;
use crate::engine::has_cell;
use crate::engine::MAX_RECORDS;

verus! {

/// One categorical contribution: a whole record (domain and repository
/// cohorts), or one per-suffix entry of a record.
pub struct ItemSpec {
    pub ym: YearMonth,
    pub author: Seq<char>,
    pub cat: Seq<char>,
    pub weight: int,
    pub show: bool,
}

/// The items one record contributes under a categorical strategy.
pub open spec fn rec_items(
    r: CommitRecord,
    kind: CohortType,
    unit: UnitType,
    interval: IntervalType,
) -> Seq<ItemSpec> {
    match kind {
        CohortType::Suffix => Seq::new(
            r.suffix_changes@.len(),
            |j: int|
                ItemSpec {
                    ym: rec_bin(r, interval),
                    author: r.author_name@,
                    cat: r.suffix_changes@[j].0@,
                    weight: match unit {
                        UnitType::Changes => r.suffix_changes@[j].1 as int,
                        _ => 1,
                    },
                    show: r.show_domain,
                },
        ),
        CohortType::Domain => seq![
            ItemSpec {
                ym: rec_bin(r, interval),
                author: r.author_name@,
                cat: r.author_domain@,
                weight: rec_weight(r, unit),
                show: r.show_domain,
            },
        ],
        CohortType::Repo => seq![
            ItemSpec {
                ym: rec_bin(r, interval),
                author: r.author_name@,
                cat: r.repo_name@,
                weight: rec_weight(r, unit),
                show: r.show_domain,
            },
        ],
        CohortType::FirstYear => Seq::empty(),
    }
}

/// The item stream of the first `k` records.
pub open spec fn items_of(
    recs: Seq<CommitRecord>,
    k: int,
    kind: CohortType,
    unit: UnitType,
    interval: IntervalType,
) -> Seq<ItemSpec>
    decreases k,
{
    if k <= 0 || k > recs.len() {
        Seq::empty()
    } else {
        items_of(recs, k - 1, kind, unit, interval) + rec_items(recs[k - 1], kind, unit, interval)
    }
}

/// Whether a category is in the ranked top list.
pub open spec fn in_top(topv: Seq<Seq<char>>, cat: Seq<char>) -> bool {
    exists|k: int| 0 <= k < topv.len() && topv[k] == cat
}

/// The rank position of a category in the top list.
pub open spec fn top_index(topv: Seq<Seq<char>>, cat: Seq<char>) -> int {
    choose|k: int| 0 <= k < topv.len() && topv[k] == cat
}

/// The cohort id a category maps to: the first-ranked category gets id
/// `topn`, the last-ranked id `topn + 1 - len`, and everything outside the
/// top gets the "Other" id `topn + 1`.
pub open spec fn cat_id(topv: Seq<Seq<char>>, topn: int, cat: Seq<char>) -> int {
    if in_top(topv, cat) {
        topn - top_index(topv, cat)
    } else {
        topn + 1
    }
}

/// The cohort an item lands in: the sentinel for brief authors, overriding
/// the category, else the category's id.
pub open spec fn item_cohort(
    recs: Seq<CommitRecord>,
    it: ItemSpec,
    thr: int,
    topv: Seq<Seq<char>>,
    topn: int,
) -> int {
    if brief_author(recs, it.author, thr) {
        NO_COHORT as int
    } else {
        cat_id(topv, topn, it.cat)
    }
}

/// Whether an item lands on `(b, c)`.
pub open spec fn col_match(
    recs: Seq<CommitRecord>,
    it: ItemSpec,
    thr: int,
    topv: Seq<Seq<char>>,
    topn: int,
    b: YearMonth,
    c: int,
) -> bool {
    it.ym == b && item_cohort(recs, it, thr, topv, topn) == c
}

/// Sum of the weights of the first `j` items landing on `(b, c)`.
pub open spec fn col_sum(
    recs: Seq<CommitRecord>,
    items: Seq<ItemSpec>,
    j: int,
    thr: int,
    topv: Seq<Seq<char>>,
    topn: int,
    b: YearMonth,
    c: int,
) -> int
    decreases j,
{
    if j <= 0 || j > items.len() {
        0
    } else {
        col_sum(recs, items, j - 1, thr, topv, topn, b, c) + if col_match(
            recs,
            items[j - 1],
            thr,
            topv,
            topn,
            b,
            c,
        ) {
            items[j - 1].weight
        } else {
            0int
        }
    }
}

/// Whether any item lands on `(b, c)`.
pub open spec fn col_used(
    recs: Seq<CommitRecord>,
    items: Seq<ItemSpec>,
    thr: int,
    topv: Seq<Seq<char>>,
    topn: int,
    b: YearMonth,
    c: int,
) -> bool {
    exists|j: int|
        0 <= j < items.len() && col_match(recs, #[trigger] items[j], thr, topv, topn, b, c)
}

/// Whether any item gives cohort id `c`.
pub open spec fn col_cohort_used(
    recs: Seq<CommitRecord>,
    items: Seq<ItemSpec>,
    thr: int,
    topv: Seq<Seq<char>>,
    topn: int,
    c: int,
) -> bool {
    exists|j: int|
        0 <= j < items.len() && item_cohort(recs, #[trigger] items[j], thr, topv, topn) == c
}

/// A category's ranking metric: the summed weight of its visible items from
/// above-threshold authors, over the first `j` items.
pub open spec fn col_metric(
    recs: Seq<CommitRecord>,
    items: Seq<ItemSpec>,
    j: int,
    thr: int,
    cat: Seq<char>,
) -> int
    decreases j,
{
    if j <= 0 || j > items.len() {
        0
    } else {
        col_metric(recs, items, j - 1, thr, cat) + if items[j - 1].show && !brief_author(
            recs,
            items[j - 1].author,
            thr,
        ) && items[j - 1].cat == cat {
            items[j - 1].weight
        } else {
            0int
        }
    }
}

/// Whether a category has a visible item from an above-threshold author.
pub open spec fn is_candidate(
    recs: Seq<CommitRecord>,
    items: Seq<ItemSpec>,
    thr: int,
    cat: Seq<char>,
) -> bool {
    exists|j: int|
        0 <= j < items.len() && (#[trigger] items[j]).show && !brief_author(
            recs,
            items[j].author,
            thr,
        ) && items[j].cat == cat
}

/// One categorical contribution, in executable form.
pub struct Item {
    pub ym: YearMonth,
    pub author: String,
    pub cat: String,
    pub weight: i64,
    pub show: bool,
}

/// The mathematical value of an item.
pub open spec fn item_abs(it: Item) -> ItemSpec {
    ItemSpec { ym: it.ym, author: it.author@, cat: it.cat@, weight: it.weight as int, show: it.show }
}

/// The mathematical value of an item list.
pub open spec fn items_abs(items: Seq<Item>) -> Seq<ItemSpec> {
    items.map_values(|it: Item| item_abs(it))
}

/// Flattens the records into their categorical item stream.
fn build_items(
    records: &Vec<CommitRecord>,
    kind: CohortType,
    unit: UnitType,
    interval: IntervalType,
) -> (items: Vec<Item>)
    requires
        records_wf(records@),
        kind != CohortType::FirstYear,
    ensures
        items_abs(items@) == items_of(records@, records@.len() as int, kind, unit, interval),
        forall|j: int|
            0 <= j < items@.len() ==> (#[trigger] items@[j]).ym.wf() && items@[j].ym.year
                < i32::MAX && ((items@[j].ym.month is Some) <==> (interval == IntervalType::Month))
                && items@[j].weight >= 0 && has_author(records@, items@[j].author@),
{
    let n = records.len();
    let mut items: Vec<Item> = Vec::new();
    let mut k: usize = 0;
    while k < n
        invariant
            records_wf(records@),
            n == records@.len(),
            k <= n,
            kind != CohortType::FirstYear,
            items_abs(items@) =~= items_of(records@, k as int, kind, unit, interval),
            forall|j: int|
                0 <= j < items@.len() ==> (#[trigger] items@[j]).ym.wf() && items@[j].ym.year
                    < i32::MAX && ((items@[j].ym.month is Some) <==> (interval
                    == IntervalType::Month)) && items@[j].weight >= 0 && has_author(
                    records@,
                    items@[j].author@,
                ),
        decreases n - k,
    {
        let r = &records[k];
        let ym = match interval {
            IntervalType::Month => YearMonth { year: r.author_year, month: Some(r.author_month) },
            IntervalType::Year => YearMonth { year: r.author_year, month: None },
        };
        let ghost base = items_abs(items@);
        let ghost ritems = rec_items(records@[k as int], kind, unit, interval);
        match kind {
            CohortType::Suffix => {
                let m = r.suffix_changes.len();
                let mut j: usize = 0;
                while j < m
                    invariant
                        records_wf(records@),
                        kind == CohortType::Suffix,
                        k < n == records@.len(),
                        m == records@[k as int].suffix_changes@.len(),
                        j <= m,
                        r == records@[k as int],
                        ym == rec_bin(records@[k as int], interval),
                        records@[k as int].wf(),
                        base == items_of(records@, k as int, kind, unit, interval),
                        ritems == rec_items(records@[k as int], kind, unit, interval),
                        ritems.len() == m,
                        items_abs(items@) =~= base + ritems.take(j as int),
                        forall|j2: int|
                            0 <= j2 < items@.len() ==> (#[trigger] items@[j2]).ym.wf()
                                && items@[j2].ym.year < i32::MAX && ((items@[j2].ym.month is Some)
                                <==> (interval == IntervalType::Month)) && items@[j2].weight >= 0
                                && has_author(records@, items@[j2].author@),
                    decreases m - j,
                {
                    let w: i64 = match unit {
                        UnitType::Changes => r.suffix_changes[j].1,
                        _ => 1,
                    };
                    let it = Item {
                        ym,
                        author: r.author_name.clone(),
                        cat: r.suffix_changes[j].0.clone(),
                        weight: w,
                        show: r.show_domain,
                    };
                    proof {
                        assert(ritems =~= Seq::new(
                            records@[k as int].suffix_changes@.len(),
                            |j2: int|
                                ItemSpec {
                                    ym: rec_bin(records@[k as int], interval),
                                    author: records@[k as int].author_name@,
                                    cat: records@[k as int].suffix_changes@[j2].0@,
                                    weight: match unit {
                                        UnitType::Changes => records@[k as int].suffix_changes@[j2].1 as int,
                                        _ => 1,
                                    },
                                    show: records@[k as int].show_domain,
                                },
                        ));
                        assert(it.ym == ritems[j as int].ym);
                        assert(it.author@ == ritems[j as int].author);
                        assert(it.cat@ == ritems[j as int].cat);
                        assert(it.weight as int == ritems[j as int].weight);
                        assert(it.show == ritems[j as int].show);
                        assert(item_abs(it) == ritems[j as int]);
                        assert(items_abs(items@.push(it)) =~= items_abs(items@).push(item_abs(it)));
                        assert(ritems.take(j + 1) =~= ritems.take(j as int).push(
                            ritems[j as int],
                        ));
                        assert(records@[k as int].author_name@ == it.author@);
                        assert(has_author(records@, it.author@));
                    }
                    items.push(it);
                    j = j + 1;
                }
                proof {
                    assert(ritems.take(m as int) =~= ritems);
                    assert(items_abs(items@) =~= items_of(records@, k as int + 1, kind, unit, interval));
                }
            },
            _ => {
                let w: i64 = match unit {
                    UnitType::Changes => (r.n_insertions as i64) + (r.n_deletions as i64),
                    _ => 1,
                };
                let cat = match kind {
                    CohortType::Domain => r.author_domain.clone(),
                    _ => r.repo_name.clone(),
                };
                let it = Item { ym, author: r.author_name.clone(), cat, weight: w, show: r.show_domain };
                proof {
                    assert(ritems.len() == 1);
                    assert(item_abs(it) == ritems[0]);
                    assert(items_abs(items@.push(it)) =~= items_abs(items@).push(item_abs(it)));
                    assert(base + ritems =~= base.push(ritems[0]));
                    assert(records@[k as int].author_name@ == it.author@);
                    assert(has_author(records@, it.author@));
                }
                items.push(it);
                proof {
                    assert(items_abs(items@) =~= items_of(records@, k as int + 1, kind, unit, interval));
                }
            },
        }
        k = k + 1;
    }
    proof {
        assert(items_abs(items@) =~= items_of(records@, n as int, kind, unit, interval));
    }
    items
}

/// Bin entry `m` encodes item `m`'s bin, cohort id and weight.
spec fn col_entries_ok(
    recs: Seq<CommitRecord>,
    items: Seq<ItemSpec>,
    entries: Seq<(Key, i64)>,
    thr: int,
    topv: Seq<Seq<char>>,
    topn: int,
) -> bool {
    &&& entries.len() == items.len()
    &&& forall|m: int|
        0 <= m < items.len() ==> {
            &&& (#[trigger] entries[m]).0.ym == items[m].ym
            &&& entries[m].0.num as int == item_cohort(recs, items[m], thr, topv, topn)
            &&& entries[m].0.s1@ == Seq::<char>::empty()
            &&& entries[m].0.s2@ == Seq::<char>::empty()
            &&& entries[m].1 as int == items[m].weight
        }
}

proof fn lemma_col_transfer(
    recs: Seq<CommitRecord>,
    items: Seq<ItemSpec>,
    entries: Seq<(Key, i64)>,
    thr: int,
    topv: Seq<Seq<char>>,
    topn: int,
    kk: Key,
    j: int,
)
    requires
        col_entries_ok(recs, items, entries, thr, topv, topn),
        0 <= j <= items.len(),
        kk.s1@ == Seq::<char>::empty(),
        kk.s2@ == Seq::<char>::empty(),
    ensures
        sum_where(entries.take(j), kk) == col_sum(
            recs,
            items,
            j,
            thr,
            topv,
            topn,
            kk.ym,
            kk.num as int,
        ),
    decreases j,
{
    if j > 0 {
        lemma_col_transfer(recs, items, entries, thr, topv, topn, kk, j - 1);
        assert(entries.take(j).drop_last() =~= entries.take(j - 1));
        assert(entries.take(j).last() == entries[j - 1]);
        assert((key_view(entries[j - 1].0) == key_view(kk)) == col_match(
            recs,
            items[j - 1],
            thr,
            topv,
            topn,
            kk.ym,
            kk.num as int,
        ));
    }
}

/// Candidate entry `m` encodes item `m`'s category, its qualification flag
/// and its weight.
spec fn cand_entries_ok(
    recs: Seq<CommitRecord>,
    items: Seq<ItemSpec>,
    entries: Seq<(Key, i64)>,
    thr: int,
) -> bool {
    &&& entries.len() == items.len()
    &&& forall|m: int|
        0 <= m < items.len() ==> {
            &&& (#[trigger] entries[m]).0.ym == (YearMonth { year: 0, month: None })
            &&& entries[m].0.num == (if items[m].show && !brief_author(recs, items[m].author, thr) {
                1i32
            } else {
                0i32
            })
            &&& entries[m].0.s1@ == items[m].cat
            &&& entries[m].0.s2@ == Seq::<char>::empty()
            &&& entries[m].1 as int == items[m].weight
        }
}

proof fn lemma_metric_transfer(
    recs: Seq<CommitRecord>,
    items: Seq<ItemSpec>,
    entries: Seq<(Key, i64)>,
    thr: int,
    kk: Key,
    j: int,
)
    requires
        cand_entries_ok(recs, items, entries, thr),
        0 <= j <= items.len(),
        kk.ym == (YearMonth { year: 0, month: None }),
        kk.num == 1i32,
        kk.s2@ == Seq::<char>::empty(),
    ensures
        sum_where(entries.take(j), kk) == col_metric(recs, items, j, thr, kk.s1@),
    decreases j,
{
    if j > 0 {
        lemma_metric_transfer(recs, items, entries, thr, kk, j - 1);
        assert(entries.take(j).drop_last() =~= entries.take(j - 1));
        assert(entries.take(j).last() == entries[j - 1]);
    }
}

/// The raw display name of a cohort id under a ranking.
pub open spec fn raw_name(topv: Seq<Seq<char>>, topn: int, c: int) -> Seq<char> {
    if c == NO_COHORT as int {
        "Brief"@
    } else if c == topn + 1 {
        "Other"@
    } else {
        topv[topn - c]
    }
}

/// What `set_cohort_name` stores for a raw name: the name, trimmed.  A
/// blank name stores as empty; the export substitutes its placeholder.
pub open spec fn stored_name(s: Seq<char>) -> Seq<char> {
    crate::strutil::trim_spec(s)
}

/// Index of a category in the ranked list, if present.
fn find_cat(top: &Vec<(Key, i128)>, cat: &String) -> (r: Option<usize>)
    ensures
        match r {
            Some(k) => k < top@.len() && top@[k as int].0.s1@ == cat@ && (forall|m: int|
                0 <= m < k ==> (#[trigger] top@[m]).0.s1@ != cat@),
            None => forall|m: int| 0 <= m < top@.len() ==> (#[trigger] top@[m]).0.s1@ != cat@,
        },
{
    let n = top.len();
    let mut i: usize = 0;
    while i < n
        invariant
            n == top@.len(),
            i <= n,
            forall|m: int| 0 <= m < i ==> (#[trigger] top@[m]).0.s1@ != cat@,
        decreases n - i,
    {
        if top[i].0.s1 == *cat {
            return Some(i);
        }
        i = i + 1;
    }
    None
}

/// Whether a brief cell's key comes from one of the first `upto` groups.
spec fn bcell_from(c: (Key, i32), groups: Seq<(Key, i64)>, upto: int) -> bool {
    exists|g: int| 0 <= g < upto && key_view(c.0) == key_view((#[trigger] groups[g]).0)
}

/// Whether a pair is one of the groups below `upto`, key and value alike.
spec fn from_groups(c: (Key, i128), groups: Seq<(Key, i128)>, upto: int) -> bool {
    exists|g: int|
        0 <= g < upto && key_view(c.0) == key_view((#[trigger] groups[g]).0) && c.1 == groups[g].1
}

/// Builds and names the categorical histogram from its finished cells.
#[verifier::rlimit(100)]
fn finish_col_hist(
    cells: &Vec<(Key, i32)>,
    top: &Vec<(Key, i128)>,
    Ghost(recs): Ghost<Seq<CommitRecord>>,
    Ghost(ispec): Ghost<Seq<ItemSpec>>,
    Ghost(thr): Ghost<int>,
    Ghost(topv): Ghost<Seq<Seq<char>>>,
    top_n: i32,
    Ghost(entries): Ghost<Seq<(Key, i64)>>,
    Ghost(groups): Ghost<Seq<(Key, i128)>>,
    interval: IntervalType,
) -> (h: CohortHist)
    requires
        records_wf(recs),
        1 <= top_n <= 0x10000,
        col_entries_ok(recs, ispec, entries, thr, topv, top_n as int),
        entries.take(ispec.len() as int) == entries,
        topv == top@.map_values(|p: (Key, i128)| p.0.s1@),
        topv.len() <= top_n,
        forall|k: int, l: int| 0 <= k < l < topv.len() ==> topv[k] != topv[l],
        forall|i: int|
            0 <= i < groups.len() ==> (#[trigger] groups[i]).1 == sum_where(entries, groups[i].0),
        forall|i: int, l: int|
            0 <= i < l < groups.len() ==> key_view(groups[i].0) != key_view(groups[l].0),
        forall|i: int| 0 <= i < groups.len() ==> has_key(entries, (#[trigger] groups[i]).0),
        forall|i: int| 0 <= i < entries.len() ==> has_group(groups, (#[trigger] entries[i]).0),
        cells@.len() == groups.len(),
        forall|i: int|
            0 <= i < cells@.len() ==> key_view((#[trigger] cells@[i]).0) == key_view(groups[i].0)
                && cells@[i].1 == groups[i].1 && i32::MIN <= groups[i].1 <= i32::MAX,
        forall|j3: int|
            0 <= j3 < ispec.len() ==> (#[trigger] ispec[j3]).ym.wf() && ispec[j3].ym.year
                < i32::MAX && ((ispec[j3].ym.month is Some) <==> (interval
                == IntervalType::Month)),
    ensures
        h.wf(),
        forall|b: YearMonth, c: i32|
            #![trigger h.spec_value(b, c)]
            h.spec_value(b, c) == (if col_used(recs, ispec, thr, topv, top_n as int, b, c as int) {
                Some(
                    col_sum(
                        recs,
                        ispec,
                        ispec.len() as int,
                        thr,
                        topv,
                        top_n as int,
                        b,
                        c as int,
                    ) as i32,
                )
            } else {
                None
            }),
        forall|b: YearMonth, c: i32|
            col_used(recs, ispec, thr, topv, top_n as int, b, c as int) ==> i32::MIN
                <= #[trigger] col_sum(
                recs,
                ispec,
                ispec.len() as int,
                thr,
                topv,
                top_n as int,
                b,
                c as int,
            ) <= i32::MAX,
        forall|c: i32|
            #[trigger] h.spec_name(c) == (if col_cohort_used(
                recs,
                ispec,
                thr,
                topv,
                top_n as int,
                c as int,
            ) {
                stored_name(raw_name(topv, top_n as int, c as int))
            } else {
                Seq::<char>::empty()
            }),
{
    let ghost topn: int = top_n as int;
    let ghost jlen: int = ispec.len() as int;
    proof {
        // each cell's bin comes from some item, so it is well-formed and of
        // the run's granularity; cell keys are distinct on (bin, cohort)
        assert forall|i: int| 0 <= i < cells@.len() implies ((#[trigger] cells@[i]).0.ym.wf()
            && cells@[i].0.ym.year < i32::MAX && ((cells@[i].0.ym.month is Some) <==> (interval
            == IntervalType::Month)) && col_used(
            recs,
            ispec,
            thr,
            topv,
            topn,
            cells@[i].0.ym,
            cells@[i].0.num as int,
        ) && cells@[i].1 as int == col_sum(
            recs,
            ispec,
            jlen,
            thr,
            topv,
            topn,
            cells@[i].0.ym,
            cells@[i].0.num as int,
        )) by {
            let gk = groups[i].0;
            let e = choose|e: int|
                0 <= e < entries.len() && key_view((#[trigger] entries[e]).0) == key_view(gk);
            assert(cells@[i].0.ym == ispec[e].ym);
            assert(col_match(recs, ispec[e], thr, topv, topn, cells@[i].0.ym, cells@[i].0.num as int));
            lemma_col_transfer(recs, ispec, entries, thr, topv, topn, gk, jlen);
        }
        assert forall|i: int, j2: int|
            0 <= i < j2 < cells@.len() implies !((#[trigger] cells@[i]).0.ym == (
        #[trigger] cells@[j2]).0.ym && cells@[i].0.num == cells@[j2].0.num) by {
            if cells@[i].0.ym == cells@[j2].0.ym && cells@[i].0.num == cells@[j2].0.num {
                let gk1 = groups[i].0;
                let gk2 = groups[j2].0;
                let e1 = choose|e: int|
                    0 <= e < entries.len() && key_view((#[trigger] entries[e]).0) == key_view(
                        gk1,
                    );
                let e2 = choose|e: int|
                    0 <= e < entries.len() && key_view((#[trigger] entries[e]).0) == key_view(
                        gk2,
                    );
                assert(key_view(gk1) == key_view(gk2));
            }
        }
        assert forall|b: YearMonth, c: i32|
            col_used(recs, ispec, thr, topv, topn, b, c as int) implies #[trigger] has_cell(
            cells@,
            b,
            c,
        ) by {
            let i = choose|i: int|
                0 <= i < ispec.len() && col_match(recs, #[trigger] ispec[i], thr, topv, topn, b, c as int);
            assert(key_view(entries[i].0) == (b, c, Seq::<char>::empty(), Seq::<char>::empty()));
            assert(has_group(groups, entries[i].0));
            let g = choose|g: int|
                0 <= g < groups.len() && key_view((#[trigger] groups[g]).0) == key_view(
                    entries[i].0,
                );
            assert(cells@[g].0.ym == b && cells@[g].0.num == c);
        }
    }
    let mut h = build_hist(cells);
    let ghost bins0 = h.bins@;
    let cn = cells.len();
    let mut j: usize = 0;
    while j < cn
        invariant
            records_wf(recs),
            1 <= top_n <= 0x10000,
            topn == top_n as int,
            jlen == ispec.len() as int,
            cn == cells@.len(),
            j <= cn,
            h.wf(),
            h.bins@ == bins0,
            topv == top@.map_values(|p: (Key, i128)| p.0.s1@),
            topv.len() <= top_n,
            forall|i: int|
                0 <= i < cells@.len() ==> col_used(
                    recs,
                    ispec,
                    thr,
                    topv,
                    topn,
                    (#[trigger] cells@[i]).0.ym,
                    cells@[i].0.num as int,
                ),
            forall|c: i32|
                #[trigger] h.spec_name(c) == (if (exists|m: int|
                    0 <= m < j && (#[trigger] cells@[m]).0.num == c) {
                    stored_name(raw_name(topv, topn, c as int))
                } else {
                    Seq::<char>::empty()
                }),
        decreases cn - j,
    {
        let c = cells[j].0.num;
        let ghost pre = h;
        proof {
            // a used cohort id is the sentinel, the Other id, or a valid
            // top rank
            let i = choose|i: int|
                0 <= i < ispec.len() && col_match(
                    recs,
                    #[trigger] ispec[i],
                    thr,
                    topv,
                    topn,
                    cells@[j as int].0.ym,
                    cells@[j as int].0.num as int,
                );
            if c != NO_COHORT && c as int != topn + 1 {
                assert(in_top(topv, ispec[i].cat));
                let ti = top_index(topv, ispec[i].cat);
                assert(0 <= topn - c < topv.len());
            }
        }
        if c == NO_COHORT {
            h.set_cohort_name(c, "Brief");
        } else if c == top_n + 1 {
            h.set_cohort_name(c, "Other");
        } else {
            let k2 = (top_n - c) as usize;
            h.set_cohort_name(c, top[k2].0.s1.as_str());
            proof {
                assert(topv[topn - c as int] == top@[k2 as int].0.s1@);
            }
        }
        proof {
            assert(h.spec_name(c) == stored_name(raw_name(topv, topn, c as int)));
            assert forall|c2: i32| c2 != c implies #[trigger] h.spec_name(c2) == (if (exists|
                m: int,
            | 0 <= m < j + 1 && (#[trigger] cells@[m]).0.num == c2) {
                stored_name(raw_name(topv, topn, c2 as int))
            } else {
                Seq::<char>::empty()
            }) by {
                assert(h.spec_name(c2) == pre.spec_name(c2));
                if exists|m: int| 0 <= m < j + 1 && (#[trigger] cells@[m]).0.num == c2 {
                    let m = choose|m: int| 0 <= m < j + 1 && (#[trigger] cells@[m]).0.num == c2;
                    assert(m < j);
                }
            }
        }
        j = j + 1;
    }
    proof {
        // cohorts with no cell have no name and are unused
        assert forall|c: i32| true implies #[trigger] h.spec_name(c) == (if col_cohort_used(
            recs,
            ispec,
            thr,
            topv,
            topn,
            c as int,
        ) {
            stored_name(raw_name(topv, topn, c as int))
        } else {
            Seq::<char>::empty()
        }) by {
            if col_cohort_used(recs, ispec, thr, topv, topn, c as int) {
                let i = choose|i: int|
                    0 <= i < ispec.len() && item_cohort(recs, #[trigger] ispec[i], thr, topv, topn)
                        == c as int;
                let b = ispec[i].ym;
                assert(col_match(recs, ispec[i], thr, topv, topn, b, c as int));
                assert(col_used(recs, ispec, thr, topv, topn, b, c as int));
                assert(has_cell(cells@, b, c));
                let m = choose|m: int|
                    0 <= m < cells@.len() && (#[trigger] cells@[m]).0.ym == b && cells@[m].0.num
                        == c;
                assert(exists|m2: int| 0 <= m2 < cn && (#[trigger] cells@[m2]).0.num == c);
            } else {
                if exists|m: int| 0 <= m < cn && (#[trigger] cells@[m]).0.num == c {
                    let m = choose|m: int| 0 <= m < cn && (#[trigger] cells@[m]).0.num == c;
                    let i = choose|i: int|
                        0 <= i < ispec.len() && col_match(
                            recs,
                            #[trigger] ispec[i],
                            thr,
                            topv,
                            topn,
                            cells@[m].0.ym,
                            c as int,
                        );
                    assert(col_cohort_used(recs, ispec, thr, topv, topn, c as int));
                }
            }
        }
        // the value table
        assert forall|b: YearMonth, c: i32|
            true implies #[trigger] h.spec_value(b, c) == (if col_used(
            recs,
            ispec,
            thr,
            topv,
            topn,
            b,
            c as int,
        ) {
            Some(col_sum(recs, ispec, jlen, thr, topv, topn, b, c as int) as i32)
        } else {
            None
        }) by {
            if col_used(recs, ispec, thr, topv, topn, b, c as int) {
                assert(has_cell(cells@, b, c));
                let m = choose|m: int|
                    0 <= m < cells@.len() && (#[trigger] cells@[m]).0.ym == b && cells@[m].0.num
                        == c;
                assert(h.spec_value(b, c) == Some(cells@[m].1));
            } else {
                if has_cell(cells@, b, c) {
                    let m = choose|m: int|
                        0 <= m < cells@.len() && (#[trigger] cells@[m]).0.ym == b
                            && cells@[m].0.num == c;
                    assert(col_used(recs, ispec, thr, topv, topn, b, c as int));
                }
                assert(h.spec_value(b, c) is None);
            }
        }
        assert forall|b: YearMonth, c: i32|
            col_used(recs, ispec, thr, topv, topn, b, c as int) implies i32::MIN
            <= #[trigger] col_sum(recs, ispec, jlen, thr, topv, topn, b, c as int)
            <= i32::MAX by {
            assert(has_cell(cells@, b, c));
            let m = choose|m: int|
                0 <= m < cells@.len() && (#[trigger] cells@[m]).0.ym == b && cells@[m].0.num
                    == c;
        }
    }
    h
}

/// The scale factor of the fractional-attribution arithmetic: fractions
/// `category_count / author_total` are carried as integers scaled by this
/// power of two, and divided back out when stored.
pub const FRACTION_SCALE: i64 = 0x1_0000_0000;

/// The distinct visible brief authors active in bin `b` among the first `k`
/// records.
pub open spec fn brief_authors_in(
    recs: Seq<CommitRecord>,
    k: int,
    thr: int,
    interval: IntervalType,
    b: YearMonth,
) -> Set<Seq<char>>
    decreases k,
{
    if k <= 0 || k > recs.len() {
        Set::empty()
    } else {
        let rest = brief_authors_in(recs, k - 1, thr, interval, b);
        if recs[k - 1].show_domain && brief_author(recs, recs[k - 1].author_name@, thr) && rec_bin(
            recs[k - 1],
            interval,
        ) == b {
            rest.insert(recs[k - 1].author_name@)
        } else {
            rest
        }
    }
}

/// Whether any visible brief author is active in bin `b`.
pub open spec fn brief_used(
    recs: Seq<CommitRecord>,
    thr: int,
    interval: IntervalType,
    b: YearMonth,
) -> bool {
    exists|i: int|
        0 <= i < recs.len() && (#[trigger] recs[i]).show_domain && brief_author(
            recs,
            recs[i].author_name@,
            thr,
        ) && rec_bin(recs[i], interval) == b
}

/// Brief entry `m` encodes record `m`'s bin, qualification and author.
spec fn brief_entries_ok(
    recs: Seq<CommitRecord>,
    entries: Seq<(Key, String)>,
    thr: int,
    interval: IntervalType,
) -> bool {
    &&& entries.len() == recs.len()
    &&& forall|m: int|
        0 <= m < recs.len() ==> {
            &&& (#[trigger] entries[m]).0.ym == rec_bin(recs[m], interval)
            &&& entries[m].0.num == (if recs[m].show_domain && brief_author(
                recs,
                recs[m].author_name@,
                thr,
            ) {
                NO_COHORT
            } else {
                0i32
            })
            &&& entries[m].0.s1@ == Seq::<char>::empty()
            &&& entries[m].0.s2@ == Seq::<char>::empty()
            &&& entries[m].1@ == recs[m].author_name@
        }
}

proof fn lemma_brief_transfer(
    recs: Seq<CommitRecord>,
    entries: Seq<(Key, String)>,
    thr: int,
    interval: IntervalType,
    kk: Key,
    k: int,
)
    requires
        brief_entries_ok(recs, entries, thr, interval),
        0 <= k <= recs.len(),
        kk.num == NO_COHORT,
        kk.s1@ == Seq::<char>::empty(),
        kk.s2@ == Seq::<char>::empty(),
    ensures
        strs_where(entries.take(k), kk) == brief_authors_in(recs, k, thr, interval, kk.ym),
    decreases k,
{
    if k > 0 {
        lemma_brief_transfer(recs, entries, thr, interval, kk, k - 1);
        assert(entries.take(k).drop_last() =~= entries.take(k - 1));
        assert(entries.take(k).last() == entries[k - 1]);
    }
}

/// A sum over a weaker filter never exceeds one over a stronger filter of
/// the same non-negative weights.
proof fn lemma_sum_where_mono(
    e1: Seq<(Key, i64)>,
    e2: Seq<(Key, i64)>,
    k1: Key,
    k2: Key,
)
    requires
        e1.len() == e2.len(),
        forall|m: int| 0 <= m < e1.len() ==> (#[trigger] e1[m]).1 == e2[m].1 && e1[m].1 >= 0,
        forall|m: int|
            0 <= m < e1.len() && key_view((#[trigger] e1[m]).0) == key_view(k1) ==> key_view(
                e2[m].0,
            ) == key_view(k2),
    ensures
        sum_where(e1, k1) <= sum_where(e2, k2),
    decreases e1.len(),
{
    if e1.len() > 0 {
        assert(e1.drop_last().len() == e2.drop_last().len());
        lemma_sum_where_mono(e1.drop_last(), e2.drop_last(), k1, k2);
    }
}

/// Any single matching entry bounds the key's sum from below.
proof fn lemma_sum_where_lower(entries: Seq<(Key, i64)>, k: Key, m: int)
    requires
        0 <= m < entries.len(),
        key_view(entries[m].0) == key_view(k),
        forall|i: int| 0 <= i < entries.len() ==> (#[trigger] entries[i]).1 >= 0,
    ensures
        sum_where(entries, k) >= entries[m].1,
    decreases entries.len(),
{
    if m < entries.len() - 1 {
        lemma_sum_where_lower(entries.drop_last(), k, m);
    } else {
        crate::groupby::lemma_sum_where_bound(entries.drop_last(), k, 0x7fff_ffff_ffff_ffff);
    }
}

/// Everything the categorical strategy promises of its ranking and result.
pub open spec fn col_hist_post(
    recs: Seq<CommitRecord>,
    kind: CohortType,
    unit: UnitType,
    interval: IntervalType,
    thr: int,
    topn: int,
    topv: Seq<Seq<char>>,
    r: Result<CohortHist, EngineError>,
) -> bool {
    let items = items_of(recs, recs.len() as int, kind, unit, interval);
    let jlen = items.len() as int;
    &&& (forall|k: int, l: int| 0 <= k < l < topv.len() ==> topv[k] != topv[l])
    &&& (forall|k: int| 0 <= k < topv.len() ==> is_candidate(recs, items, thr, #[trigger] topv[k]))
    &&& topv.len() <= topn
    &&& (forall|k: int, l: int|
        0 <= k < l < topv.len() ==> col_metric(recs, items, jlen, thr, #[trigger] topv[k])
            >= col_metric(recs, items, jlen, thr, #[trigger] topv[l]))
    &&& (forall|cat: Seq<char>, k: int|
        #[trigger] is_candidate(recs, items, thr, cat) && !in_top(topv, cat) && 0 <= k
            < topv.len() ==> col_metric(recs, items, jlen, thr, cat) <= col_metric(
            recs,
            items,
            jlen,
            thr,
            #[trigger] topv[k],
        ))
    &&& (forall|cat: Seq<char>|
        #[trigger] is_candidate(recs, items, thr, cat) && !in_top(topv, cat) ==> topv.len()
            == topn)
    &&& match r {
        Ok(h) => {
            &&& h.wf()
            &&& (forall|b: YearMonth, c: i32|
                #![trigger h.spec_value(b, c)]
                h.spec_value(b, c) == (if col_used(recs, items, thr, topv, topn, b, c as int) {
                    Some(col_sum(recs, items, jlen, thr, topv, topn, b, c as int) as i32)
                } else {
                    None
                }))
            &&& (forall|b: YearMonth, c: i32|
                col_used(recs, items, thr, topv, topn, b, c as int) ==> i32::MIN
                    <= #[trigger] col_sum(recs, items, jlen, thr, topv, topn, b, c as int)
                    <= i32::MAX)
            &&& (forall|c: i32|
                #[trigger] h.spec_name(c) == (if col_cohort_used(
                    recs,
                    items,
                    thr,
                    topv,
                    topn,
                    c as int,
                ) {
                    stored_name(raw_name(topv, topn, c as int))
                } else {
                    Seq::<char>::empty()
                }))
        },
        Err(e) => e == EngineError::ValueOutOfRange && (exists|b: YearMonth, c: i32|
            #![trigger col_used(recs, items, thr, topv, topn, b, c as int)]
            col_used(recs, items, thr, topv, topn, b, c as int) && !(i32::MIN <= col_sum(
                recs,
                items,
                jlen,
                thr,
                topv,
                topn,
                b,
                c as int,
            ) <= i32::MAX)),
    }
}

/// The categorical-cohort histogram for the event and size units: each
/// item's category is ranked globally by the unit weight of its visible,
/// above-threshold items; the `top_n` heaviest categories keep their own
/// cohort (named after the category), the rest collapse into "Other", and
/// brief authors' items are routed to the "Brief" sentinel whatever their
/// category.  Each `(bin, cohort)` holds the summed unit weight of the items
/// landing there.  Fails exactly when some value does not fit a cell.
#[verifier::rlimit(100)]
pub fn get_column_hist(
    records: &Vec<CommitRecord>,
    kind: CohortType,
    unit: UnitType,
    interval: IntervalType,
    threshold_secs: i64,
    top_n: i32,
) -> (r: Result<CohortHist, EngineError>)
    requires
        records_wf(records@),
        records@.len() <= MAX_RECORDS,
        threshold_secs >= 0,
        1 <= top_n <= 0x10000,
        kind != CohortType::FirstYear,
        unit != UnitType::Authors,
    ensures
        exists|topv: Seq<Seq<char>>|
            #[trigger] col_hist_post(
                records@,
                kind,
                unit,
                interval,
                threshold_secs as int,
                top_n as int,
                topv,
                r,
            ),
{
    let ghost thr: int = threshold_secs as int;
    let summaries = compute_author_summaries(records);
    let items = build_items(records, kind, unit, interval);
    let ghost ispec = items_abs(items@);
    let ghost jlen = ispec.len() as int;
    let jn = items.len();
    // candidate entries: one per item, flagged when visible and
    // above-threshold
    let mut cand_entries: Vec<(Key, i64)> = Vec::new();
    let mut briefs: Vec<bool> = Vec::new();
    let mut j: usize = 0;
    while j < jn
        invariant
            records_wf(records@),
            thr == threshold_secs as int,
            jn == items@.len(),
            ispec == items_abs(items@),
            j <= jn,
            forall|i: int| 0 <= i < summaries@.len() ==> (#[trigger] summaries@[i]).summarizes(records@),
            forall|m: int|
                0 <= m < records@.len() ==> has_author_summary(
                    summaries@,
                    (#[trigger] records@[m]).author_name@,
                ),
            forall|j2: int|
                0 <= j2 < items@.len() ==> has_author(records@, (#[trigger] items@[j2]).author@)
                    && items@[j2].weight >= 0,
            cand_entries@.len() == j,
            briefs@.len() == j,
            forall|m: int|
                0 <= m < j ==> {
                    &&& (#[trigger] cand_entries@[m]).0.ym == (YearMonth { year: 0, month: None })
                    &&& cand_entries@[m].0.num == (if ispec[m].show && !brief_author(
                        records@,
                        ispec[m].author,
                        thr,
                    ) {
                        1i32
                    } else {
                        0i32
                    })
                    &&& cand_entries@[m].0.s1@ == ispec[m].cat
                    &&& cand_entries@[m].0.s2@ == Seq::<char>::empty()
                    &&& cand_entries@[m].1 as int == ispec[m].weight
                },
            forall|m: int|
                0 <= m < j ==> (#[trigger] briefs@[m]) == brief_author(
                    records@,
                    ispec[m].author,
                    thr,
                ),
            forall|m: int| 0 <= m < cand_entries@.len() ==> (#[trigger] cand_entries@[m]).1 >= 0,
        decreases jn - j,
    {
        let si = match find_summary(&summaries, &items[j].author) {
            Some(i) => i,
            None => {
                proof {
                    assert(has_author(records@, items@[j as int].author@));
                    let m = choose|m: int|
                        0 <= m < records@.len() && (#[trigger] records@[m]).author_name@
                            == items@[j as int].author@;
                    assert(false);
                }
                0
            },
        };
        let s = &summaries[si];
        let is_brief = s.active_time <= threshold_secs;
        proof {
            assert(s.summarizes(records@));
            assert(is_brief == brief_author(records@, ispec[j as int].author, thr));
        }
        let qual: i32 = if items[j].show && !is_brief {
            1
        } else {
            0
        };
        cand_entries.push(
            (
                Key {
                    ym: YearMonth { year: 0, month: None },
                    num: qual,
                    s1: items[j].cat.clone(),
                    s2: String::new(),
                },
                items[j].weight,
            ),
        );
        briefs.push(is_brief);
        j = j + 1;
    }
    proof {
        assert(cand_entries_ok(records@, ispec, cand_entries@, thr));
    }
    let cgroups = group_sum(&cand_entries);
    // keep the qualifying categories as ranking candidates
    let mut cands: Vec<(Key, i128)> = Vec::new();
    let gn = cgroups.len();
    let mut g: usize = 0;
    while g < gn
        invariant
            gn == cgroups@.len(),
            g <= gn,
            forall|i: int, l: int|
                0 <= i < l < cgroups@.len() ==> key_view(cgroups@[i].0) != key_view(
                    cgroups@[l].0,
                ),
            forall|i: int| 0 <= i < cands@.len() ==> from_groups(#[trigger] cands@[i], cgroups@, g as int),
            forall|i: int| 0 <= i < cands@.len() ==> (#[trigger] cands@[i]).0.num == 1i32,
            forall|i: int, l: int|
                0 <= i < l < cands@.len() ==> key_view(cands@[i].0) != key_view(cands@[l].0),
            forall|g2: int|
                0 <= g2 < g && (#[trigger] cgroups@[g2]).0.num == 1i32 ==> has_group(
                    cands@,
                    cgroups@[g2].0,
                ),
        decreases gn - g,
    {
        let ghost pre_cands = cands@;
        if cgroups[g].0.num == 1 {
            let ghost old_cands = cands@;
            let kk = clone_key(&cgroups[g].0);
            cands.push((kk, cgroups[g].1));
            proof {
                assert(cands@.drop_last() =~= old_cands);
                assert(key_view(cands@[cands@.len() - 1].0) == key_view(
                    cgroups@[g as int].0,
                ));
                assert forall|i: int, l: int|
                    0 <= i < l < cands@.len() implies key_view(cands@[i].0) != key_view(
                    cands@[l].0,
                ) by {
                    if l == cands@.len() - 1 {
                        assert(cands@[i] == old_cands[i]);
                        assert(from_groups(old_cands[i], cgroups@, g as int));
                        let g2 = choose|g2: int|
                            0 <= g2 < g && key_view(old_cands[i].0) == key_view(
                                (#[trigger] cgroups@[g2]).0,
                            ) && old_cands[i].1 == cgroups@[g2].1;
                        assert(key_view(cgroups@[g2].0) != key_view(cgroups@[g as int].0));
                    }
                }
                assert forall|i: int| 0 <= i < cands@.len() implies from_groups(
                    #[trigger] cands@[i],
                    cgroups@,
                    g as int + 1,
                ) by {
                    if i < cands@.len() - 1 {
                        assert(cands@[i] == old_cands[i]);
                        assert(from_groups(old_cands[i], cgroups@, g as int));
                        let g2 = choose|g2: int|
                            0 <= g2 < g && key_view(old_cands[i].0) == key_view(
                                (#[trigger] cgroups@[g2]).0,
                            ) && old_cands[i].1 == cgroups@[g2].1;
                        assert(key_view(cands@[i].0) == key_view(cgroups@[g2].0));
                    } else {
                        assert(key_view(cands@[i].0) == key_view(cgroups@[g as int].0));
                        assert(cands@[i].1 == cgroups@[g as int].1);
                    }
                }
                assert forall|g2: int|
                    0 <= g2 <= g && (#[trigger] cgroups@[g2]).0.num == 1i32 implies has_group(
                    cands@,
                    cgroups@[g2].0,
                ) by {
                    if g2 < g {
                        let w = choose|w: int|
                            0 <= w < old_cands.len() && key_view(
                                (#[trigger] old_cands[w]).0,
                            ) == key_view(cgroups@[g2].0);
                        assert(key_view(cands@[w].0) == key_view(cgroups@[g2].0));
                    } else {
                        assert(key_view(cands@[cands@.len() - 1].0) == key_view(
                            cgroups@[g2].0,
                        ));
                    }
                }
            }
        }
        proof {
            assert forall|i: int| 0 <= i < cands@.len() implies from_groups(
                #[trigger] cands@[i],
                cgroups@,
                g as int + 1,
            ) by {
                assert(from_groups(cands@[i], cgroups@, g as int) || from_groups(
                    cands@[i],
                    cgroups@,
                    g as int + 1,
                ));
                if from_groups(cands@[i], cgroups@, g as int) {
                    let g2 = choose|g2: int|
                        0 <= g2 < g && key_view(cands@[i].0) == key_view(
                            (#[trigger] cgroups@[g2]).0,
                        ) && cands@[i].1 == cgroups@[g2].1;
                    assert(0 <= g2 < g + 1 && key_view(cands@[i].0) == key_view(
                        cgroups@[g2].0,
                    ) && cands@[i].1 == cgroups@[g2].1);
                }
            }
        }
        g = g + 1;
    }
    let top = rank_top(cands, top_n as usize);
    let ghost topv: Seq<Seq<char>> = top@.map_values(|p: (Key, i128)| p.0.s1@);
    let ghost topn: int = top_n as int;
    proof {
        assert(cand_entries@.take(jlen) =~= cand_entries@);
        // every top element carries a qualifying candidate key and its exact
        // metric
        assert forall|k: int| 0 <= k < top@.len() implies ((#[trigger] top@[k]).0.num == 1i32 && (
        top@[k]).0.ym == (YearMonth { year: 0, month: None }) && (top@[k]).0.s2@ == Seq::<
            char,
        >::empty() && top@[k].1 == col_metric(records@, ispec, jlen, thr, top@[k].0.s1@)
            && is_candidate(records@, ispec, thr, top@[k].0.s1@)) by {
            assert(elem_of(top@[k], cands@));
            let cj = choose|cj: int| 0 <= cj < cands@.len() && top@[k] == (#[trigger] cands@[cj]);
            assert(from_groups(cands@[cj], cgroups@, gn as int));
            let g2 = choose|g2: int|
                0 <= g2 < gn && key_view(cands@[cj].0) == key_view((#[trigger] cgroups@[g2]).0)
                    && cands@[cj].1 == cgroups@[g2].1;
            assert(has_key(cand_entries@, cgroups@[g2].0));
            let e = choose|e: int|
                0 <= e < cand_entries@.len() && key_view((#[trigger] cand_entries@[e]).0)
                    == key_view(cgroups@[g2].0);
            assert(ispec[e].show && !brief_author(records@, ispec[e].author, thr));
            assert(ispec[e].cat == top@[k].0.s1@);
            assert(is_candidate(records@, ispec, thr, top@[k].0.s1@));
            lemma_metric_transfer(records@, ispec, cand_entries@, thr, top@[k].0, jlen);
            crate::groupby::lemma_sum_where_congr(cand_entries@, cgroups@[g2].0, top@[k].0);
        }
        assert(topv.len() == top@.len());
        assert(forall|k: int| 0 <= k < topv.len() ==> topv[k] == (#[trigger] top@[k]).0.s1@);
        // distinct categories
        assert forall|k: int, l: int| 0 <= k < l < topv.len() implies topv[k] != topv[l] by {
            assert(key_view(top@[k].0) != key_view(top@[l].0));
        }
        // ranking is sorted by metric
        assert forall|k: int, l: int| 0 <= k < l < topv.len() implies col_metric(
            records@,
            ispec,
            jlen,
            thr,
            #[trigger] topv[k],
        ) >= col_metric(records@, ispec, jlen, thr, #[trigger] topv[l]) by {
            assert(top@[k].1 >= top@[l].1);
        }
        // dominance and length pinning for categories left outside the top
        assert forall|cat: Seq<char>|
            #[trigger] is_candidate(records@, ispec, thr, cat) && !in_top(topv, cat) implies (
        topv.len() == topn && forall|k: int|
            0 <= k < topv.len() ==> col_metric(records@, ispec, jlen, thr, cat) <= col_metric(
                records@,
                ispec,
                jlen,
                thr,
                #[trigger] topv[k],
            )) by {
            let e = choose|e: int|
                0 <= e < ispec.len() && (#[trigger] ispec[e]).show && !brief_author(
                    records@,
                    ispec[e].author,
                    thr,
                ) && ispec[e].cat == cat;
            assert(key_view(cand_entries@[e].0) == (
                YearMonth { year: 0, month: None },
                1i32,
                cat,
                Seq::<char>::empty(),
            ));
            assert(has_group(cgroups@, cand_entries@[e].0));
            let g3 = choose|g3: int|
                0 <= g3 < cgroups@.len() && key_view((#[trigger] cgroups@[g3]).0) == key_view(
                    cand_entries@[e].0,
                );
            assert(cgroups@[g3].0.num == 1i32);
            assert(has_group(cands@, cgroups@[g3].0));
            let w = choose|w: int|
                0 <= w < cands@.len() && key_view((#[trigger] cands@[w]).0) == key_view(
                    cgroups@[g3].0,
                );
            assert(!has_group(top@, cands@[w].0)) by {
                if has_group(top@, cands@[w].0) {
                    let tk = choose|tk: int|
                        0 <= tk < top@.len() && key_view((#[trigger] top@[tk]).0) == key_view(
                            cands@[w].0,
                        );
                    assert(topv[tk] == cat);
                }
            }
            assert(top@.len() == top_n as int);
            assert(from_groups(cands@[w], cgroups@, gn as int));
            let g4 = choose|g4: int|
                0 <= g4 < gn && key_view(cands@[w].0) == key_view((#[trigger] cgroups@[g4]).0)
                    && cands@[w].1 == cgroups@[g4].1;
            lemma_metric_transfer(records@, ispec, cand_entries@, thr, cgroups@[g4].0, jlen);
            crate::groupby::lemma_sum_where_congr(cand_entries@, cgroups@[g4].0, cgroups@[g3].0);
            assert(cands@[w].1 == col_metric(records@, ispec, jlen, thr, cat));
            assert forall|k: int| 0 <= k < topv.len() implies col_metric(
                records@,
                ispec,
                jlen,
                thr,
                cat,
            ) <= col_metric(records@, ispec, jlen, thr, #[trigger] topv[k]) by {
                assert(cands@[w].1 <= top@[k].1);
            }
        }
    }
    let ghost rank_facts: bool = true;
    // bin entries: each item lands on its bin and cohort id
    let mut entries: Vec<(Key, i64)> = Vec::new();
    let mut j2: usize = 0;
    while j2 < jn
        invariant
            records_wf(records@),
            thr == threshold_secs as int,
            topn == top_n as int,
            1 <= top_n <= 0x10000,
            jn == items@.len(),
            ispec == items_abs(items@),
            j2 <= jn,
            briefs@.len() == jn,
            topv == top@.map_values(|p: (Key, i128)| p.0.s1@),
            topv.len() == top@.len(),
            top@.len() <= top_n,
            forall|k: int, l: int| 0 <= k < l < topv.len() ==> topv[k] != topv[l],
            forall|m: int|
                0 <= m < jn ==> (#[trigger] briefs@[m]) == brief_author(
                    records@,
                    ispec[m].author,
                    thr,
                ),
            forall|m: int| 0 <= m < jn ==> (#[trigger] items@[m]).weight >= 0,
            entries@.len() == j2,
            forall|m: int|
                0 <= m < j2 ==> {
                    &&& (#[trigger] entries@[m]).0.ym == ispec[m].ym
                    &&& entries@[m].0.num as int == item_cohort(records@, ispec[m], thr, topv, topn)
                    &&& entries@[m].0.s1@ == Seq::<char>::empty()
                    &&& entries@[m].0.s2@ == Seq::<char>::empty()
                    &&& entries@[m].1 as int == ispec[m].weight
                },
        decreases jn - j2,
    {
        let id: i32 = if briefs[j2] {
            NO_COHORT
        } else {
            match find_cat(&top, &items[j2].cat) {
                Some(k2) => {
                    proof {
                        assert(topv[k2 as int] == items@[j2 as int].cat@);
                        assert(in_top(topv, ispec[j2 as int].cat));
                        let ti = top_index(topv, ispec[j2 as int].cat);
                        if ti != k2 as int {
                            assert(topv[ti] == topv[k2 as int]);
                        }
                        assert(cat_id(topv, topn, ispec[j2 as int].cat) == topn - k2);
                    }
                    top_n - (k2 as i32)
                },
                None => {
                    proof {
                        if in_top(topv, ispec[j2 as int].cat) {
                            let ti = top_index(topv, ispec[j2 as int].cat);
                            assert(top@[ti].0.s1@ == items@[j2 as int].cat@);
                        }
                        assert(cat_id(topv, topn, ispec[j2 as int].cat) == topn + 1);
                    }
                    top_n + 1
                },
            }
        };
        entries.push(
            (
                Key { ym: items[j2].ym, num: id, s1: String::new(), s2: String::new() },
                items[j2].weight,
            ),
        );
        j2 = j2 + 1;
    }
    proof {
        assert(col_entries_ok(records@, ispec, entries@, thr, topv, topn));
        assert(entries@.take(jlen) =~= entries@);
    }
    let groups = group_sum(&entries);
    // range check: every group value must fit a histogram cell
    let gn2 = groups.len();
    let mut gchk: usize = 0;
    while gchk < gn2
        invariant
            records_wf(records@),
            thr == threshold_secs as int,
            topn == top_n as int,
            ispec == items_of(records@, records@.len() as int, kind, unit, interval),
            jlen == ispec.len() as int,
            col_entries_ok(records@, ispec, entries@, thr, topv, topn),
            entries@.take(jlen) == entries@,
            gn2 == groups@.len(),
            gchk <= gn2,
            forall|i: int|
                0 <= i < groups@.len() ==> (#[trigger] groups@[i]).1 == sum_where(
                    entries@,
                    groups@[i].0,
                ),
            forall|i: int| 0 <= i < groups@.len() ==> has_key(entries@, (#[trigger] groups@[i]).0),
            forall|i: int| 0 <= i < gchk ==> i32::MIN <= (#[trigger] groups@[i]).1 <= i32::MAX,
            forall|k: int, l: int| 0 <= k < l < topv.len() ==> topv[k] != topv[l],
            forall|k: int|
                0 <= k < topv.len() ==> is_candidate(records@, ispec, thr, #[trigger] topv[k]),
            topv.len() <= topn,
            forall|k: int, l: int|
                0 <= k < l < topv.len() ==> col_metric(records@, ispec, jlen, thr, #[trigger] topv[k])
                    >= col_metric(records@, ispec, jlen, thr, #[trigger] topv[l]),
            forall|cat: Seq<char>, k: int|
                #[trigger] is_candidate(records@, ispec, thr, cat) && !in_top(topv, cat) && 0 <= k
                    < topv.len() ==> col_metric(records@, ispec, jlen, thr, cat) <= col_metric(
                    records@,
                    ispec,
                    jlen,
                    thr,
                    #[trigger] topv[k],
                ),
            forall|cat: Seq<char>|
                #[trigger] is_candidate(records@, ispec, thr, cat) && !in_top(topv, cat)
                    ==> topv.len() == topn,
        decreases gn2 - gchk,
    {
        let v = groups[gchk].1;
        if v < i32::MIN as i128 || v > i32::MAX as i128 {
            proof {
                let gk = groups@[gchk as int].0;
                let e = choose|e: int|
                    0 <= e < entries@.len() && key_view((#[trigger] entries@[e]).0) == key_view(
                        gk,
                    );
                lemma_col_transfer(records@, ispec, entries@, thr, topv, topn, gk, jlen);
                assert(col_match(records@, ispec[e], thr, topv, topn, gk.ym, gk.num as int));
                assert(col_used(records@, ispec, thr, topv, topn, gk.ym, gk.num as int));
                assert(col_sum(records@, ispec, jlen, thr, topv, topn, gk.ym, gk.num as int)
                    == groups@[gchk as int].1);
                assert(!(i32::MIN <= col_sum(
                    records@,
                    ispec,
                    jlen,
                    thr,
                    topv,
                    topn,
                    gk.ym,
                    gk.num as int,
                ) <= i32::MAX));
                assert(col_hist_post(
                    records@,
                    kind,
                    unit,
                    interval,
                    thr,
                    topn,
                    topv,
                    Err(EngineError::ValueOutOfRange),
                ));
            }
            return Err(EngineError::ValueOutOfRange);
        }
        gchk = gchk + 1;
    }
    let mut cells: Vec<(Key, i32)> = Vec::new();
    let mut g2: usize = 0;
    while g2 < gn2
        invariant
            gn2 == groups@.len(),
            g2 <= gn2,
            forall|i: int| 0 <= i < gn2 ==> i32::MIN <= (#[trigger] groups@[i]).1 <= i32::MAX,
            cells@.len() == g2,
            forall|i: int|
                0 <= i < g2 ==> key_view((#[trigger] cells@[i]).0) == key_view(groups@[i].0)
                    && cells@[i].1 == groups@[i].1,
        decreases gn2 - g2,
    {
        let v = groups[g2].1;
        let kk = clone_key(&groups[g2].0);
        cells.push((kk, v as i32));
        g2 = g2 + 1;
    }
    let h = finish_col_hist(
        &cells,
        &top,
        Ghost(records@),
        Ghost(ispec),
        Ghost(thr),
        Ghost(topv),
        top_n,
        Ghost(entries@),
        Ghost(groups@),
        interval,
    );
    proof {
        assert(col_hist_post(records@, kind, unit, interval, thr, topn, topv, Ok(h)));
    }
    Ok(h)
}


/// Whether an item takes part in fractional attribution: visible, and from
/// an above-threshold author.
pub open spec fn item_qualifies(recs: Seq<CommitRecord>, it: ItemSpec, thr: int) -> bool {
    it.show && !brief_author(recs, it.author, thr)
}

/// Number of qualifying items of author `a` in bin `b` among the first `j`
/// items: the author's total activity in the bin.
pub open spec fn frac_t(
    recs: Seq<CommitRecord>,
    items: Seq<ItemSpec>,
    j: int,
    thr: int,
    b: YearMonth,
    a: Seq<char>,
) -> int
    decreases j,
{
    if j <= 0 || j > items.len() {
        0
    } else {
        frac_t(recs, items, j - 1, thr, b, a) + if item_qualifies(recs, items[j - 1], thr)
            && items[j - 1].ym == b && items[j - 1].author == a {
            1int
        } else {
            0int
        }
    }
}

/// As `frac_t`, restricted to category `g`.
pub open spec fn frac_c(
    recs: Seq<CommitRecord>,
    items: Seq<ItemSpec>,
    j: int,
    thr: int,
    b: YearMonth,
    a: Seq<char>,
    g: Seq<char>,
) -> int
    decreases j,
{
    if j <= 0 || j > items.len() {
        0
    } else {
        frac_c(recs, items, j - 1, thr, b, a, g) + if item_qualifies(recs, items[j - 1], thr)
            && items[j - 1].ym == b && items[j - 1].author == a && items[j - 1].cat == g {
            1int
        } else {
            0int
        }
    }
}

/// The scaled share of author `a`'s one unit of credit in bin `b` that
/// category `g` receives: `category_count * scale / author_total`,
/// truncated.
pub open spec fn frac_share(
    recs: Seq<CommitRecord>,
    items: Seq<ItemSpec>,
    thr: int,
    b: YearMonth,
    a: Seq<char>,
    g: Seq<char>,
) -> int {
    (frac_c(recs, items, items.len() as int, thr, b, a, g) * (FRACTION_SCALE as int)) / frac_t(
        recs,
        items,
        items.len() as int,
        thr,
        b,
        a,
    )
}

/// Whether some qualifying item realizes the `(bin, author, category)`
/// triple.
pub open spec fn triple_in_items(
    recs: Seq<CommitRecord>,
    items: Seq<ItemSpec>,
    thr: int,
    tr: (YearMonth, Seq<char>, Seq<char>),
) -> bool {
    exists|j: int|
        0 <= j < items.len() && item_qualifies(recs, #[trigger] items[j], thr) && items[j].ym
            == tr.0 && items[j].author == tr.1 && items[j].cat == tr.2
}

/// Whether the enumeration carries the triple.
pub open spec fn has_trip(
    trips: Seq<(YearMonth, Seq<char>, Seq<char>)>,
    tr: (YearMonth, Seq<char>, Seq<char>),
) -> bool {
    exists|i: int| 0 <= i < trips.len() && (#[trigger] trips[i]) == tr
}

/// The enumeration lists exactly the qualifying `(bin, author, category)`
/// triples, each once.
pub open spec fn trips_ok(
    recs: Seq<CommitRecord>,
    items: Seq<ItemSpec>,
    thr: int,
    trips: Seq<(YearMonth, Seq<char>, Seq<char>)>,
) -> bool {
    &&& (forall|i: int, l: int| 0 <= i < l < trips.len() ==> trips[i] != trips[l])
    &&& (forall|i: int| 0 <= i < trips.len() ==> triple_in_items(recs, items, thr, #[trigger] trips[i]))
    &&& (forall|tr: (YearMonth, Seq<char>, Seq<char>)|
        #[trigger] triple_in_items(recs, items, thr, tr) ==> has_trip(trips, tr))
}

/// The summed scaled credit landing on `(b, c)` over the first `k` triples.
pub open spec fn frac_cell_sum(
    recs: Seq<CommitRecord>,
    items: Seq<ItemSpec>,
    thr: int,
    trips: Seq<(YearMonth, Seq<char>, Seq<char>)>,
    topv: Seq<Seq<char>>,
    topn: int,
    k: int,
    b: YearMonth,
    c: int,
) -> int
    decreases k,
{
    if k <= 0 || k > trips.len() {
        0
    } else {
        frac_cell_sum(recs, items, thr, trips, topv, topn, k - 1, b, c) + if trips[k - 1].0 == b
            && cat_id(topv, topn, trips[k - 1].2) == c {
            frac_share(recs, items, thr, trips[k - 1].0, trips[k - 1].1, trips[k - 1].2)
        } else {
            0int
        }
    }
}

/// A category's ranking metric: its total scaled credit across all bins,
/// over the first `k` triples.
pub open spec fn frac_metric(
    recs: Seq<CommitRecord>,
    items: Seq<ItemSpec>,
    thr: int,
    trips: Seq<(YearMonth, Seq<char>, Seq<char>)>,
    k: int,
    g: Seq<char>,
) -> int
    decreases k,
{
    if k <= 0 || k > trips.len() {
        0
    } else {
        frac_metric(recs, items, thr, trips, k - 1, g) + if trips[k - 1].2 == g {
            frac_share(recs, items, thr, trips[k - 1].0, trips[k - 1].1, trips[k - 1].2)
        } else {
            0int
        }
    }
}

/// Whether any scaled credit lands on `(b, c)`.
pub open spec fn frac_used(
    trips: Seq<(YearMonth, Seq<char>, Seq<char>)>,
    topv: Seq<Seq<char>>,
    topn: int,
    b: YearMonth,
    c: int,
) -> bool {
    exists|i: int|
        0 <= i < trips.len() && (#[trigger] trips[i]).0 == b && cat_id(topv, topn, trips[i].2)
            == c
}

/// Whether any scaled credit lands on cohort id `c`, in any bin.
pub open spec fn frac_cohort_used(
    trips: Seq<(YearMonth, Seq<char>, Seq<char>)>,
    topv: Seq<Seq<char>>,
    topn: int,
    c: int,
) -> bool {
    exists|i: int| 0 <= i < trips.len() && cat_id(topv, topn, (#[trigger] trips[i]).2) == c
}

/// Author-total entry `m` encodes item `m`'s bin, qualification and author.
spec fn frac_tentries_ok(
    recs: Seq<CommitRecord>,
    items: Seq<ItemSpec>,
    entries: Seq<(Key, i64)>,
    thr: int,
) -> bool {
    &&& entries.len() == items.len()
    &&& forall|m: int|
        0 <= m < items.len() ==> {
            &&& (#[trigger] entries[m]).0.ym == items[m].ym
            &&& entries[m].0.num == (if item_qualifies(recs, items[m], thr) {
                1i32
            } else {
                0i32
            })
            &&& entries[m].0.s1@ == items[m].author
            &&& entries[m].0.s2@ == Seq::<char>::empty()
            &&& entries[m].1 == 1i64
        }
}

/// Category-count entry `m` adds item `m`'s category to the key.
spec fn frac_centries_ok(
    recs: Seq<CommitRecord>,
    items: Seq<ItemSpec>,
    entries: Seq<(Key, i64)>,
    thr: int,
) -> bool {
    &&& entries.len() == items.len()
    &&& forall|m: int|
        0 <= m < items.len() ==> {
            &&& (#[trigger] entries[m]).0.ym == items[m].ym
            &&& entries[m].0.num == (if item_qualifies(recs, items[m], thr) {
                1i32
            } else {
                0i32
            })
            &&& entries[m].0.s1@ == items[m].author
            &&& entries[m].0.s2@ == items[m].cat
            &&& entries[m].1 == 1i64
        }
}

proof fn lemma_frac_t_transfer(
    recs: Seq<CommitRecord>,
    items: Seq<ItemSpec>,
    entries: Seq<(Key, i64)>,
    thr: int,
    kk: Key,
    j: int,
)
    requires
        frac_tentries_ok(recs, items, entries, thr),
        0 <= j <= items.len(),
        kk.num == 1i32,
        kk.s2@ == Seq::<char>::empty(),
    ensures
        sum_where(entries.take(j), kk) == frac_t(recs, items, j, thr, kk.ym, kk.s1@),
    decreases j,
{
    if j > 0 {
        lemma_frac_t_transfer(recs, items, entries, thr, kk, j - 1);
        assert(entries.take(j).drop_last() =~= entries.take(j - 1));
        assert(entries.take(j).last() == entries[j - 1]);
    }
}

proof fn lemma_frac_c_transfer(
    recs: Seq<CommitRecord>,
    items: Seq<ItemSpec>,
    entries: Seq<(Key, i64)>,
    thr: int,
    kk: Key,
    j: int,
)
    requires
        frac_centries_ok(recs, items, entries, thr),
        0 <= j <= items.len(),
        kk.num == 1i32,
    ensures
        sum_where(entries.take(j), kk) == frac_c(recs, items, j, thr, kk.ym, kk.s1@, kk.s2@),
    decreases j,
{
    if j > 0 {
        lemma_frac_c_transfer(recs, items, entries, thr, kk, j - 1);
        assert(entries.take(j).drop_last() =~= entries.take(j - 1));
        assert(entries.take(j).last() == entries[j - 1]);
    }
}

/// Scaled entry `i` carries triple `i`'s bin and category and its share.
spec fn frac_scaled_ok(
    recs: Seq<CommitRecord>,
    items: Seq<ItemSpec>,
    thr: int,
    trips: Seq<(YearMonth, Seq<char>, Seq<char>)>,
    scaled: Seq<(Key, i64)>,
    interval: IntervalType,
) -> bool {
    &&& scaled.len() == trips.len()
    &&& forall|i: int|
        0 <= i < trips.len() ==> {
            &&& (#[trigger] scaled[i]).0.ym == trips[i].0
            &&& scaled[i].0.num == 1i32
            &&& scaled[i].0.s1@ == trips[i].2
            &&& scaled[i].0.s2@ == Seq::<char>::empty()
            &&& scaled[i].1 as int == frac_share(recs, items, thr, trips[i].0, trips[i].1, trips[i].2)
            &&& 0 <= scaled[i].1 <= FRACTION_SCALE
            &&& scaled[i].0.ym.wf() && scaled[i].0.ym.year < i32::MAX && ((scaled[i].0.ym.month
                is Some) <==> (interval == IntervalType::Month))
        }
}

proof fn lemma_frac_metric_transfer(
    recs: Seq<CommitRecord>,
    items: Seq<ItemSpec>,
    thr: int,
    trips: Seq<(YearMonth, Seq<char>, Seq<char>)>,
    rentries: Seq<(Key, i64)>,
    scaled: Seq<(Key, i64)>,
    interval: IntervalType,
    kk: Key,
    k: int,
)
    requires
        frac_scaled_ok(recs, items, thr, trips, scaled, interval),
        rentries.len() == trips.len(),
        forall|i: int|
            0 <= i < trips.len() ==> (#[trigger] rentries[i]).0.ym == (
            YearMonth { year: 0, month: None }) && rentries[i].0.num == 1i32
                && rentries[i].0.s1@ == trips[i].2 && rentries[i].0.s2@ == Seq::<char>::empty()
                && rentries[i].1 == scaled[i].1,
        0 <= k <= trips.len(),
        kk.ym == (YearMonth { year: 0, month: None }),
        kk.num == 1i32,
        kk.s2@ == Seq::<char>::empty(),
    ensures
        sum_where(rentries.take(k), kk) == frac_metric(recs, items, thr, trips, k, kk.s1@),
    decreases k,
{
    if k > 0 {
        lemma_frac_metric_transfer(recs, items, thr, trips, rentries, scaled, interval, kk, k - 1);
        assert(rentries.take(k).drop_last() =~= rentries.take(k - 1));
        assert(rentries.take(k).last() == rentries[k - 1]);
    }
}

proof fn lemma_frac_cell_transfer(
    recs: Seq<CommitRecord>,
    items: Seq<ItemSpec>,
    thr: int,
    trips: Seq<(YearMonth, Seq<char>, Seq<char>)>,
    fentries: Seq<(Key, i64)>,
    scaled: Seq<(Key, i64)>,
    interval: IntervalType,
    topv: Seq<Seq<char>>,
    topn: int,
    kk: Key,
    k: int,
)
    requires
        frac_scaled_ok(recs, items, thr, trips, scaled, interval),
        fentries.len() == trips.len(),
        forall|i: int|
            0 <= i < trips.len() ==> (#[trigger] fentries[i]).0.ym == trips[i].0
                && fentries[i].0.num as int == cat_id(topv, topn, trips[i].2)
                && fentries[i].0.s1@ == Seq::<char>::empty() && fentries[i].0.s2@ == Seq::<
                char,
            >::empty() && fentries[i].1 == scaled[i].1,
        0 <= k <= trips.len(),
        kk.s1@ == Seq::<char>::empty(),
        kk.s2@ == Seq::<char>::empty(),
    ensures
        sum_where(fentries.take(k), kk) == frac_cell_sum(
            recs,
            items,
            thr,
            trips,
            topv,
            topn,
            k,
            kk.ym,
            kk.num as int,
        ),
    decreases k,
{
    if k > 0 {
        lemma_frac_cell_transfer(
            recs,
            items,
            thr,
            trips,
            fentries,
            scaled,
            interval,
            topv,
            topn,
            kk,
            k - 1,
        );
        assert(fentries.take(k).drop_last() =~= fentries.take(k - 1));
        assert(fentries.take(k).last() == fentries[k - 1]);
        assert((key_view(fentries[k - 1].0) == key_view(kk)) == (trips[k - 1].0 == kk.ym
            && cat_id(topv, topn, trips[k - 1].2) == kk.num as int));
    }
}

/// Everything the fractional strategy promises of its ranking, its triples
/// and its result.
pub open spec fn frac_hist_post(
    recs: Seq<CommitRecord>,
    kind: CohortType,
    interval: IntervalType,
    thr: int,
    topn: int,
    topv: Seq<Seq<char>>,
    trips: Seq<(YearMonth, Seq<char>, Seq<char>)>,
    r: Result<CohortHist, EngineError>,
) -> bool {
    let items = items_of(recs, recs.len() as int, kind, UnitType::Authors, interval);
    let klen = trips.len() as int;
    &&& trips_ok(recs, items, thr, trips)
    &&& (forall|k: int, l: int| 0 <= k < l < topv.len() ==> topv[k] != topv[l])
    &&& (forall|k: int| 0 <= k < topv.len() ==> is_candidate(recs, items, thr, #[trigger] topv[k]))
    &&& topv.len() <= topn
    &&& (forall|k: int, l: int|
        0 <= k < l < topv.len() ==> frac_metric(recs, items, thr, trips, klen, #[trigger] topv[k])
            >= frac_metric(recs, items, thr, trips, klen, #[trigger] topv[l]))
    &&& (forall|cat: Seq<char>, k: int|
        #[trigger] is_candidate(recs, items, thr, cat) && !in_top(topv, cat) && 0 <= k
            < topv.len() ==> frac_metric(recs, items, thr, trips, klen, cat) <= frac_metric(
            recs,
            items,
            thr,
            trips,
            klen,
            #[trigger] topv[k],
        ))
    &&& (forall|cat: Seq<char>|
        #[trigger] is_candidate(recs, items, thr, cat) && !in_top(topv, cat) ==> topv.len()
            == topn)
    &&& match r {
        Ok(h) => {
            &&& h.wf()
            &&& (forall|b: YearMonth|
                #![trigger h.spec_value(b, NO_COHORT)]
                h.spec_value(b, NO_COHORT) == (if brief_used(recs, thr, interval, b) {
                    Some(brief_authors_in(recs, recs.len() as int, thr, interval, b).len() as i32)
                } else {
                    None
                }))
            &&& (forall|b: YearMonth, c: i32|
                #![trigger h.spec_value(b, c)]
                c != NO_COHORT ==> h.spec_value(b, c) == (if frac_used(
                    trips,
                    topv,
                    topn,
                    b,
                    c as int,
                ) {
                    Some(
                        (frac_cell_sum(recs, items, thr, trips, topv, topn, klen, b, c as int) / (
                        FRACTION_SCALE as int)) as i32,
                    )
                } else {
                    None
                }))
            &&& (forall|b: YearMonth, c: i32|
                c != NO_COHORT && frac_used(trips, topv, topn, b, c as int) ==> 0
                    <= #[trigger] frac_cell_sum(
                    recs,
                    items,
                    thr,
                    trips,
                    topv,
                    topn,
                    klen,
                    b,
                    c as int,
                ) / (FRACTION_SCALE as int) <= i32::MAX)
            &&& h.spec_name(NO_COHORT) == "Brief"@
            &&& (forall|c: i32|
                c != NO_COHORT ==> #[trigger] h.spec_name(c) == (if frac_cohort_used(
                    trips,
                    topv,
                    topn,
                    c as int,
                ) {
                    stored_name(raw_name(topv, topn, c as int))
                } else {
                    Seq::<char>::empty()
                }))
        },
        Err(e) => e == EngineError::ValueOutOfRange && (exists|b: YearMonth, c: i32|
            #![trigger frac_used(trips, topv, topn, b, c as int)]
            c != NO_COHORT && frac_used(trips, topv, topn, b, c as int) && !(0 <= frac_cell_sum(
                recs,
                items,
                thr,
                trips,
                topv,
                topn,
                klen,
                b,
                c as int,
            ) / (FRACTION_SCALE as int) <= i32::MAX)),
    }
}


/// The triple a category-count key denotes.
pub open spec fn key_triple(k: Key) -> (YearMonth, Seq<char>, Seq<char>) {
    (k.ym, k.s1@, k.s2@)
}

/// Whether a triple comes from one of the first `upto` qualifying groups.
spec fn trip_from(
    tr: (YearMonth, Seq<char>, Seq<char>),
    cgroups: Seq<(Key, i128)>,
    upto: int,
) -> bool {
    exists|g2: int|
        0 <= g2 < upto && (#[trigger] cgroups[g2]).0.num == 1i32 && tr == key_triple(
            cgroups[g2].0,
        )
}


/// The triples collected from the qualifying category groups enumerate
/// exactly the qualifying `(bin, author, category)` combinations.
proof fn lemma_frac_trips_ok(
    recs: Seq<CommitRecord>,
    ispec: Seq<ItemSpec>,
    thr: int,
    centries: Seq<(Key, i64)>,
    cgroups: Seq<(Key, i128)>,
    trips: Seq<(YearMonth, Seq<char>, Seq<char>)>,
)
    requires
        frac_centries_ok(recs, ispec, centries, thr),
        forall|i: int| 0 <= i < cgroups.len() ==> has_key(centries, (#[trigger] cgroups[i]).0),
        forall|i: int| 0 <= i < centries.len() ==> has_group(cgroups, (#[trigger] centries[i]).0),
        forall|i: int| 0 <= i < trips.len() ==> trip_from(#[trigger] trips[i], cgroups, cgroups.len() as int),
        forall|g2: int|
            0 <= g2 < cgroups.len() && (#[trigger] cgroups[g2]).0.num == 1i32 ==> has_trip(
                trips,
                key_triple(cgroups[g2].0),
            ),
        forall|i: int, l: int| 0 <= i < l < trips.len() ==> trips[i] != trips[l],
    ensures
        trips_ok(recs, ispec, thr, trips),
{
    assert forall|i: int| 0 <= i < trips.len() implies triple_in_items(
        recs,
        ispec,
        thr,
        #[trigger] trips[i],
    ) by {
        assert(trip_from(trips[i], cgroups, cgroups.len() as int));
        let g2 = choose|g2: int|
            0 <= g2 < cgroups.len() && (#[trigger] cgroups[g2]).0.num == 1i32 && trips[i]
                == key_triple(cgroups[g2].0);
        let e = choose|e: int|
            0 <= e < centries.len() && key_view((#[trigger] centries[e]).0) == key_view(
                cgroups[g2].0,
            );
        assert(item_qualifies(recs, ispec[e], thr));
        assert(ispec[e].ym == trips[i].0 && ispec[e].author == trips[i].1 && ispec[e].cat
            == trips[i].2);
    }
    assert forall|tr: (YearMonth, Seq<char>, Seq<char>)|
        #[trigger] triple_in_items(recs, ispec, thr, tr) implies has_trip(trips, tr) by {
        let j2 = choose|j2: int|
            0 <= j2 < ispec.len() && item_qualifies(recs, #[trigger] ispec[j2], thr)
                && ispec[j2].ym == tr.0 && ispec[j2].author == tr.1 && ispec[j2].cat == tr.2;
        assert(key_view(centries[j2].0) == (tr.0, 1i32, tr.1, tr.2));
        assert(has_group(cgroups, centries[j2].0));
        let g2 = choose|g2: int|
            0 <= g2 < cgroups.len() && key_view((#[trigger] cgroups[g2]).0) == key_view(
                centries[j2].0,
            );
        assert(cgroups[g2].0.num == 1i32);
        assert(key_triple(cgroups[g2].0) == tr);
    }
}


/// What the ranking gives the fractional strategy: distinct candidate
/// categories, sorted by and dominant in the scaled-credit metric, with the
/// length pinned when a candidate was left out.
proof fn lemma_frac_rank_facts(
    recs: Seq<CommitRecord>,
    ispec: Seq<ItemSpec>,
    thr: int,
    trips: Seq<(YearMonth, Seq<char>, Seq<char>)>,
    scaled: Seq<(Key, i64)>,
    rents: Seq<(Key, i64)>,
    rg: Seq<(Key, i128)>,
    topseq: Seq<(Key, i128)>,
    topv: Seq<Seq<char>>,
    topn: int,
    interval: IntervalType,
    klen: int,
)
    requires
        frac_scaled_ok(recs, ispec, thr, trips, scaled, interval),
        trips_ok(recs, ispec, thr, trips),
        klen == trips.len() as int,
        rents.len() == trips.len(),
        rents.take(klen) == rents,
        forall|i: int|
            0 <= i < trips.len() ==> (#[trigger] rents[i]).0.ym == (
            YearMonth { year: 0, month: None }) && rents[i].0.num == 1i32 && rents[i].0.s1@
                == trips[i].2 && rents[i].0.s2@ == Seq::<char>::empty() && rents[i].1
                == scaled[i].1,
        forall|i: int| 0 <= i < rg.len() ==> (#[trigger] rg[i]).1 == sum_where(rents, rg[i].0),
        forall|i: int, l: int| 0 <= i < l < rg.len() ==> key_view(rg[i].0) != key_view(rg[l].0),
        forall|i: int| 0 <= i < rg.len() ==> has_key(rents, (#[trigger] rg[i]).0),
        forall|i: int| 0 <= i < rents.len() ==> has_group(rg, (#[trigger] rents[i]).0),
        topseq.len() == (if topn <= rg.len() {
            topn
        } else {
            rg.len() as int
        }),
        forall|i: int| 0 <= i < topseq.len() ==> elem_of(#[trigger] topseq[i], rg),
        forall|i: int, l: int|
            0 <= i < l < topseq.len() ==> key_view(topseq[i].0) != key_view(topseq[l].0),
        forall|i: int, l: int| 0 <= i < l < topseq.len() ==> topseq[i].1 >= topseq[l].1,
        forall|m: int, i: int|
            0 <= m < rg.len() && 0 <= i < topseq.len() && !has_group(
                topseq,
                (#[trigger] rg[m]).0,
            ) ==> rg[m].1 <= (#[trigger] topseq[i]).1,
        forall|m: int|
            0 <= m < rg.len() ==> has_group(topseq, (#[trigger] rg[m]).0) || topseq.len() == topn,
        topv == topseq.map_values(|p: (Key, i128)| p.0.s1@),
        topn >= 1,
    ensures
        topv.len() == topseq.len(),
        topv.len() <= topn,
        forall|k: int| 0 <= k < topv.len() ==> topv[k] == (#[trigger] topseq[k]).0.s1@,
        forall|k: int, l: int| 0 <= k < l < topv.len() ==> topv[k] != topv[l],
        forall|k: int| 0 <= k < topv.len() ==> is_candidate(recs, ispec, thr, #[trigger] topv[k]),
        forall|k: int, l: int|
            0 <= k < l < topv.len() ==> frac_metric(recs, ispec, thr, trips, klen, #[trigger] topv[k])
                >= frac_metric(recs, ispec, thr, trips, klen, #[trigger] topv[l]),
        forall|cat: Seq<char>, k: int|
            #[trigger] is_candidate(recs, ispec, thr, cat) && !in_top(topv, cat) && 0 <= k
                < topv.len() ==> frac_metric(recs, ispec, thr, trips, klen, cat) <= frac_metric(
                recs,
                ispec,
                thr,
                trips,
                klen,
                #[trigger] topv[k],
            ),
        forall|cat: Seq<char>|
            #[trigger] is_candidate(recs, ispec, thr, cat) && !in_top(topv, cat) ==> topv.len()
                == topn,
{
    assert forall|k: int| 0 <= k < topseq.len() implies ((#[trigger] topseq[k]).0.num == 1i32 && (
    topseq[k]).0.ym == (YearMonth { year: 0, month: None }) && (topseq[k]).0.s2@ == Seq::<
        char,
    >::empty() && topseq[k].1 == frac_metric(recs, ispec, thr, trips, klen, topseq[k].0.s1@)
        && is_candidate(recs, ispec, thr, topseq[k].0.s1@)) by {
        lemma_frac_top_elem(
            recs,
            ispec,
            thr,
            trips,
            scaled,
            rents,
            rg,
            topseq,
            interval,
            klen,
            k,
        );
    }
    assert(topv.len() == topseq.len());
    assert(forall|k: int| 0 <= k < topv.len() ==> topv[k] == (#[trigger] topseq[k]).0.s1@);
    assert forall|k: int, l: int| 0 <= k < l < topv.len() implies topv[k] != topv[l] by {
        assert(key_view(topseq[k].0) != key_view(topseq[l].0));
    }
    assert forall|k: int, l: int| 0 <= k < l < topv.len() implies frac_metric(
        recs,
        ispec,
        thr,
        trips,
        klen,
        #[trigger] topv[k],
    ) >= frac_metric(recs, ispec, thr, trips, klen, #[trigger] topv[l]) by {
        assert(topseq[k].1 >= topseq[l].1);
    }
    assert forall|cat: Seq<char>|
        #[trigger] is_candidate(recs, ispec, thr, cat) && !in_top(topv, cat) implies (topv.len()
        == topn && forall|k: int|
        0 <= k < topv.len() ==> frac_metric(recs, ispec, thr, trips, klen, cat) <= frac_metric(
            recs,
            ispec,
            thr,
            trips,
            klen,
            #[trigger] topv[k],
        )) by {
        lemma_frac_dominance(
            recs,
            ispec,
            thr,
            trips,
            scaled,
            rents,
            rg,
            topseq,
            topv,
            topn,
            interval,
            klen,
            cat,
        );
    }
}

/// One ranked entry's shape, exact metric and candidacy.
proof fn lemma_frac_top_elem(
    recs: Seq<CommitRecord>,
    ispec: Seq<ItemSpec>,
    thr: int,
    trips: Seq<(YearMonth, Seq<char>, Seq<char>)>,
    scaled: Seq<(Key, i64)>,
    rents: Seq<(Key, i64)>,
    rg: Seq<(Key, i128)>,
    topseq: Seq<(Key, i128)>,
    interval: IntervalType,
    klen: int,
    k: int,
)
    requires
        frac_scaled_ok(recs, ispec, thr, trips, scaled, interval),
        trips_ok(recs, ispec, thr, trips),
        klen == trips.len() as int,
        rents.len() == trips.len(),
        rents.take(klen) == rents,
        forall|i: int|
            0 <= i < trips.len() ==> (#[trigger] rents[i]).0.ym == (
            YearMonth { year: 0, month: None }) && rents[i].0.num == 1i32 && rents[i].0.s1@
                == trips[i].2 && rents[i].0.s2@ == Seq::<char>::empty() && rents[i].1
                == scaled[i].1,
        forall|i: int| 0 <= i < rg.len() ==> (#[trigger] rg[i]).1 == sum_where(rents, rg[i].0),
        forall|i: int| 0 <= i < rg.len() ==> has_key(rents, (#[trigger] rg[i]).0),
        forall|i: int| 0 <= i < topseq.len() ==> elem_of(#[trigger] topseq[i], rg),
        0 <= k < topseq.len(),
    ensures
        topseq[k].0.num == 1i32,
        topseq[k].0.ym == (YearMonth { year: 0, month: None }),
        topseq[k].0.s2@ == Seq::<char>::empty(),
        topseq[k].1 == frac_metric(recs, ispec, thr, trips, klen, topseq[k].0.s1@),
        is_candidate(recs, ispec, thr, topseq[k].0.s1@),
{
    assert(elem_of(topseq[k], rg));
    let cj = choose|cj: int| 0 <= cj < rg.len() && topseq[k] == (#[trigger] rg[cj]);
    assert(has_key(rents, rg[cj].0));
    let e = choose|e: int|
        0 <= e < rents.len() && key_view((#[trigger] rents[e]).0) == key_view(rg[cj].0);
    lemma_frac_metric_transfer(
        recs,
        ispec,
        thr,
        trips,
        rents,
        scaled,
        interval,
        topseq[k].0,
        klen,
    );
    crate::groupby::lemma_sum_where_congr(rents, rg[cj].0, topseq[k].0);
    assert(triple_in_items(recs, ispec, thr, trips[e]));
    let j2 = choose|j2: int|
        0 <= j2 < ispec.len() && item_qualifies(recs, #[trigger] ispec[j2], thr) && ispec[j2].ym
            == trips[e].0 && ispec[j2].author == trips[e].1 && ispec[j2].cat == trips[e].2;
    assert(is_candidate(recs, ispec, thr, topseq[k].0.s1@));
}

/// A candidate category left out of the top pins the ranking's length and
/// is dominated by every ranked category.
proof fn lemma_frac_dominance(
    recs: Seq<CommitRecord>,
    ispec: Seq<ItemSpec>,
    thr: int,
    trips: Seq<(YearMonth, Seq<char>, Seq<char>)>,
    scaled: Seq<(Key, i64)>,
    rents: Seq<(Key, i64)>,
    rg: Seq<(Key, i128)>,
    topseq: Seq<(Key, i128)>,
    topv: Seq<Seq<char>>,
    topn: int,
    interval: IntervalType,
    klen: int,
    cat: Seq<char>,
)
    requires
        frac_scaled_ok(recs, ispec, thr, trips, scaled, interval),
        trips_ok(recs, ispec, thr, trips),
        klen == trips.len() as int,
        rents.len() == trips.len(),
        rents.take(klen) == rents,
        forall|i: int|
            0 <= i < trips.len() ==> (#[trigger] rents[i]).0.ym == (
            YearMonth { year: 0, month: None }) && rents[i].0.num == 1i32 && rents[i].0.s1@
                == trips[i].2 && rents[i].0.s2@ == Seq::<char>::empty() && rents[i].1
                == scaled[i].1,
        forall|i: int| 0 <= i < rg.len() ==> (#[trigger] rg[i]).1 == sum_where(rents, rg[i].0),
        forall|i: int| 0 <= i < rents.len() ==> has_group(rg, (#[trigger] rents[i]).0),
        forall|m: int, i: int|
            0 <= m < rg.len() && 0 <= i < topseq.len() && !has_group(
                topseq,
                (#[trigger] rg[m]).0,
            ) ==> rg[m].1 <= (#[trigger] topseq[i]).1,
        forall|m: int|
            0 <= m < rg.len() ==> has_group(topseq, (#[trigger] rg[m]).0) || topseq.len() == topn,
        topv == topseq.map_values(|p: (Key, i128)| p.0.s1@),
        forall|k: int|
            0 <= k < topseq.len() ==> (#[trigger] topseq[k]).1 == frac_metric(
                recs,
                ispec,
                thr,
                trips,
                klen,
                topseq[k].0.s1@,
            ),
        is_candidate(recs, ispec, thr, cat),
        !in_top(topv, cat),
    ensures
        topseq.len() == topn,
        topv.len() == topn,
        forall|k: int|
            0 <= k < topv.len() ==> frac_metric(recs, ispec, thr, trips, klen, cat)
                <= frac_metric(recs, ispec, thr, trips, klen, #[trigger] topv[k]),
{
    let j2 = choose|j2: int|
        0 <= j2 < ispec.len() && (#[trigger] ispec[j2]).show && !brief_author(
            recs,
            ispec[j2].author,
            thr,
        ) && ispec[j2].cat == cat;
    assert(item_qualifies(recs, ispec[j2], thr));
    assert(triple_in_items(recs, ispec, thr, (ispec[j2].ym, ispec[j2].author, cat)));
    assert(has_trip(trips, (ispec[j2].ym, ispec[j2].author, cat)));
    let i = choose|i: int|
        0 <= i < trips.len() && (#[trigger] trips[i]) == (ispec[j2].ym, ispec[j2].author, cat);
    assert(key_view(rents[i].0) == (
        YearMonth { year: 0, month: None },
        1i32,
        cat,
        Seq::<char>::empty(),
    ));
    assert(has_group(rg, rents[i].0));
    let w = choose|w: int|
        0 <= w < rg.len() && key_view((#[trigger] rg[w]).0) == key_view(rents[i].0);
    assert(!has_group(topseq, rg[w].0)) by {
        if has_group(topseq, rg[w].0) {
            let tk2 = choose|tk2: int|
                0 <= tk2 < topseq.len() && key_view((#[trigger] topseq[tk2]).0) == key_view(
                    rg[w].0,
                );
            assert(topv[tk2] == cat);
        }
    }
    assert(topseq.len() == topn);
    lemma_frac_metric_transfer(recs, ispec, thr, trips, rents, scaled, interval, rg[w].0, klen);
    assert(rg[w].1 == frac_metric(recs, ispec, thr, trips, klen, cat));
    assert forall|k: int| 0 <= k < topv.len() implies frac_metric(
        recs,
        ispec,
        thr,
        trips,
        klen,
        cat,
    ) <= frac_metric(recs, ispec, thr, trips, klen, #[trigger] topv[k]) by {
        assert(rg[w].1 <= topseq[k].1);
        assert(topseq[k].1 == frac_metric(recs, ispec, thr, trips, klen, topv[k]));
    }
}

/// Converts the grouped scaled credit into histogram cells, checking that
/// every stored value fits a cell.
#[verifier::rlimit(100)]
fn frac_credit_cells(
    fgroups: &Vec<(Key, i128)>,
    Ghost(recs): Ghost<Seq<CommitRecord>>,
    Ghost(ispec): Ghost<Seq<ItemSpec>>,
    Ghost(thr): Ghost<int>,
    Ghost(trips): Ghost<Seq<(YearMonth, Seq<char>, Seq<char>)>>,
    Ghost(scaled): Ghost<Seq<(Key, i64)>>,
    Ghost(fent): Ghost<Seq<(Key, i64)>>,
    Ghost(topv): Ghost<Seq<Seq<char>>>,
    Ghost(topn): Ghost<int>,
    interval: IntervalType,
    top_n: i32,
) -> (r: Result<Vec<(Key, i32)>, EngineError>)
    requires
        records_wf(recs),
        topn == top_n as int,
        1 <= top_n <= 0x10000,
        frac_scaled_ok(recs, ispec, thr, trips, scaled, interval),
        fent.len() == trips.len(),
        fent.take(trips.len() as int) == fent,
        forall|i: int|
            0 <= i < trips.len() ==> (#[trigger] fent[i]).0.ym == trips[i].0
                && fent[i].0.num as int == cat_id(topv, topn, trips[i].2) && fent[i].0.s1@
                == Seq::<char>::empty() && fent[i].0.s2@ == Seq::<char>::empty() && fent[i].1
                == scaled[i].1 && 1 <= fent[i].0.num && (fent[i].0.num as int) <= topn + 1,
        forall|i: int|
            0 <= i < fgroups@.len() ==> (#[trigger] fgroups@[i]).1 == sum_where(
                fent,
                fgroups@[i].0,
            ),
        forall|i: int, l: int|
            0 <= i < l < fgroups@.len() ==> key_view(fgroups@[i].0) != key_view(fgroups@[l].0),
        forall|i: int| 0 <= i < fgroups@.len() ==> has_key(fent, (#[trigger] fgroups@[i]).0),
        forall|i: int| 0 <= i < fent.len() ==> has_group(fgroups@, (#[trigger] fent[i]).0),
    ensures
        match r {
            Ok(cells) => {
                &&& (forall|i: int|
                    0 <= i < cells@.len() ==> 1 <= (#[trigger] cells@[i]).0.num && (
                    cells@[i].0.num as int) <= topn + 1 && frac_used(
                        trips,
                        topv,
                        topn,
                        cells@[i].0.ym,
                        cells@[i].0.num as int,
                    ) && cells@[i].1 as int == frac_cell_sum(
                        recs,
                        ispec,
                        thr,
                        trips,
                        topv,
                        topn,
                        trips.len() as int,
                        cells@[i].0.ym,
                        cells@[i].0.num as int,
                    ) / (FRACTION_SCALE as int) && cells@[i].1 >= 0 && cells@[i].0.ym.wf()
                        && cells@[i].0.ym.year < i32::MAX && ((cells@[i].0.ym.month is Some) <==> (
                    interval == IntervalType::Month)))
                &&& (forall|i: int, l: int|
                    0 <= i < l < cells@.len() ==> !((#[trigger] cells@[i]).0.ym == (
                    #[trigger] cells@[l]).0.ym && cells@[i].0.num == cells@[l].0.num))
                &&& (forall|b: YearMonth, c: i32|
                    c != NO_COHORT && frac_used(trips, topv, topn, b, c as int)
                        ==> #[trigger] has_cell(cells@, b, c))
            },
            Err(e) => e == EngineError::ValueOutOfRange && (exists|b: YearMonth, c: i32|
                #![trigger frac_used(trips, topv, topn, b, c as int)]
                c != NO_COHORT && frac_used(trips, topv, topn, b, c as int) && !(0
                    <= frac_cell_sum(
                    recs,
                    ispec,
                    thr,
                    trips,
                    topv,
                    topn,
                    trips.len() as int,
                    b,
                    c as int,
                ) / (FRACTION_SCALE as int) <= i32::MAX)),
        },
{
    let ghost klen: int = trips.len() as int;
    let fgn = fgroups.len();
    let mut fchk: usize = 0;
    while fchk < fgn
        invariant
            records_wf(recs),
            frac_scaled_ok(recs, ispec, thr, trips, scaled, interval),
            klen == trips.len() as int,
            fent.len() == trips.len(),
            fent.take(klen) == fent,
            forall|i: int|
                0 <= i < trips.len() ==> (#[trigger] fent[i]).0.ym == trips[i].0
                    && fent[i].0.num as int == cat_id(topv, topn, trips[i].2) && fent[i].0.s1@
                    == Seq::<char>::empty() && fent[i].0.s2@ == Seq::<char>::empty() && fent[i].1
                    == scaled[i].1 && 1 <= fent[i].0.num,
            fgn == fgroups@.len(),
            fchk <= fgn,
            forall|i: int|
                0 <= i < fgroups@.len() ==> (#[trigger] fgroups@[i]).1 == sum_where(
                    fent,
                    fgroups@[i].0,
                ),
            forall|i: int| 0 <= i < fgroups@.len() ==> has_key(fent, (#[trigger] fgroups@[i]).0),
            forall|i: int|
                0 <= i < fchk ==> 0 <= (#[trigger] fgroups@[i]).1 / (FRACTION_SCALE as i128)
                    <= i32::MAX as i128,
        decreases fgn - fchk,
    {
        let v = fgroups[fchk].1;
        proof {
            crate::groupby::lemma_sum_where_bound(fent, fgroups@[fchk as int].0, FRACTION_SCALE as int);
            assert(v >= 0);
        }
        let val128: i128 = v / (FRACTION_SCALE as i128);
        if val128 > i32::MAX as i128 {
            proof {
                let gk = fgroups@[fchk as int].0;
                let e = choose|e: int|
                    0 <= e < fent.len() && key_view((#[trigger] fent[e]).0) == key_view(gk);
                lemma_frac_cell_transfer(
                    recs,
                    ispec,
                    thr,
                    trips,
                    fent,
                    scaled,
                    interval,
                    topv,
                    topn,
                    gk,
                    klen,
                );
                assert(trips[e].0 == gk.ym && cat_id(topv, topn, trips[e].2) == gk.num as int);
                assert(frac_used(trips, topv, topn, gk.ym, gk.num as int));
                assert(gk.num != NO_COHORT);
                assert(!(0 <= frac_cell_sum(
                    recs,
                    ispec,
                    thr,
                    trips,
                    topv,
                    topn,
                    klen,
                    gk.ym,
                    gk.num as int,
                ) / (FRACTION_SCALE as int) <= i32::MAX));
            }
            return Err(EngineError::ValueOutOfRange);
        }
        proof {
            assert(val128 >= 0) by (nonlinear_arith)
                requires
                    v >= 0,
                    val128 == v / (FRACTION_SCALE as i128),
                    FRACTION_SCALE as i128 > 0,
            ;
        }
        fchk = fchk + 1;
    }
    let mut cells: Vec<(Key, i32)> = Vec::new();
    let mut fc: usize = 0;
    while fc < fgn
        invariant
            fgn == fgroups@.len(),
            forall|i: int|
                0 <= i < fgn ==> 0 <= (#[trigger] fgroups@[i]).1 / (FRACTION_SCALE as i128)
                    <= i32::MAX as i128,
            fc <= fgn,
            cells@.len() == fc,
            forall|i: int|
                0 <= i < fc ==> key_view((#[trigger] cells@[i]).0) == key_view(fgroups@[i].0)
                    && cells@[i].1 as i128 == fgroups@[i].1 / (FRACTION_SCALE as i128),
        decreases fgn - fc,
    {
        let v = fgroups[fc].1;
        let val128: i128 = v / (FRACTION_SCALE as i128);
        let kk = clone_key(&fgroups[fc].0);
        cells.push((kk, val128 as i32));
        fc = fc + 1;
    }
    proof {
        assert forall|i: int| 0 <= i < cells@.len() implies (1 <= (#[trigger] cells@[i]).0.num
            && (cells@[i].0.num as int) <= topn + 1 && frac_used(
            trips,
            topv,
            topn,
            cells@[i].0.ym,
            cells@[i].0.num as int,
        ) && cells@[i].1 as int == frac_cell_sum(
            recs,
            ispec,
            thr,
            trips,
            topv,
            topn,
            klen,
            cells@[i].0.ym,
            cells@[i].0.num as int,
        ) / (FRACTION_SCALE as int) && cells@[i].1 >= 0 && cells@[i].0.ym.wf()
            && cells@[i].0.ym.year < i32::MAX && ((cells@[i].0.ym.month is Some) <==> (interval
            == IntervalType::Month))) by {
            let gk = fgroups@[i].0;
            let e = choose|e: int|
                0 <= e < fent.len() && key_view((#[trigger] fent[e]).0) == key_view(gk);
            assert(cells@[i].0.ym == trips[e].0);
            assert(scaled[e].0.ym == trips[e].0);
            lemma_frac_cell_transfer(
                recs,
                ispec,
                thr,
                trips,
                fent,
                scaled,
                interval,
                topv,
                topn,
                gk,
                klen,
            );
            assert(frac_used(trips, topv, topn, gk.ym, gk.num as int));
        }
        assert forall|i: int, l: int|
            0 <= i < l < cells@.len() implies !((#[trigger] cells@[i]).0.ym == (
        #[trigger] cells@[l]).0.ym && cells@[i].0.num == cells@[l].0.num) by {
            if cells@[i].0.ym == cells@[l].0.ym && cells@[i].0.num == cells@[l].0.num {
                let e1 = choose|e: int|
                    0 <= e < fent.len() && key_view((#[trigger] fent[e]).0) == key_view(
                        fgroups@[i].0,
                    );
                let e2 = choose|e: int|
                    0 <= e < fent.len() && key_view((#[trigger] fent[e]).0) == key_view(
                        fgroups@[l].0,
                    );
                assert(key_view(fgroups@[i].0) == key_view(fgroups@[l].0));
            }
        }
        assert forall|b: YearMonth, c: i32|
            c != NO_COHORT && frac_used(trips, topv, topn, b, c as int) implies #[trigger] has_cell(
            cells@,
            b,
            c,
        ) by {
            let i = choose|i: int|
                0 <= i < trips.len() && (#[trigger] trips[i]).0 == b && cat_id(
                    topv,
                    topn,
                    trips[i].2,
                ) == c as int;
            assert(key_view(fent[i].0) == (b, c, Seq::<char>::empty(), Seq::<char>::empty()));
            assert(has_group(fgroups@, fent[i].0));
            let g3 = choose|g3: int|
                0 <= g3 < fgroups@.len() && key_view((#[trigger] fgroups@[g3]).0) == key_view(
                    fent[i].0,
                );
            assert(cells@[g3].0.ym == b && cells@[g3].0.num == c);
        }
    }
    Ok(cells)
}

/// Counts the distinct visible brief authors of each bin, as sentinel cells.
#[verifier::rlimit(100)]
fn frac_brief_cells(
    records: &Vec<CommitRecord>,
    summaries: &Vec<AuthorSummary>,
    threshold_secs: i64,
    interval: IntervalType,
    Ghost(thr): Ghost<int>,
) -> (bcells: Vec<(Key, i32)>)
    requires
        records_wf(records@),
        records@.len() <= MAX_RECORDS,
        thr == threshold_secs as int,
        forall|i: int| 0 <= i < summaries@.len() ==> (#[trigger] summaries@[i]).summarizes(records@),
        forall|m: int|
            0 <= m < records@.len() ==> has_author_summary(
                summaries@,
                (#[trigger] records@[m]).author_name@,
            ),
    ensures
        forall|i: int|
            0 <= i < bcells@.len() ==> (#[trigger] bcells@[i]).0.num == NO_COHORT
                && bcells@[i].0.ym.wf() && bcells@[i].0.ym.year < i32::MAX && ((
            bcells@[i].0.ym.month is Some) <==> (interval == IntervalType::Month))
                && bcells@[i].1 as int == brief_authors_in(
                records@,
                records@.len() as int,
                thr,
                interval,
                bcells@[i].0.ym,
            ).len() && brief_used(records@, thr, interval, bcells@[i].0.ym) && bcells@[i].0.s1@
                == Seq::<char>::empty() && bcells@[i].0.s2@ == Seq::<char>::empty(),
        forall|i: int, l: int|
            0 <= i < l < bcells@.len() ==> key_view(bcells@[i].0) != key_view(bcells@[l].0),
        forall|b: YearMonth|
            #[trigger] brief_used(records@, thr, interval, b) ==> has_cell(
                bcells@,
                b,
                NO_COHORT,
            ),
{
    let n = records.len();
    let mut bentries: Vec<(Key, String)> = Vec::new();
    let mut k: usize = 0;
    while k < n
        invariant
            records_wf(records@),
            thr == threshold_secs as int,
            n == records@.len(),
            k <= n,
            forall|i: int| 0 <= i < summaries@.len() ==> (#[trigger] summaries@[i]).summarizes(records@),
            forall|m: int|
                0 <= m < records@.len() ==> has_author_summary(
                    summaries@,
                    (#[trigger] records@[m]).author_name@,
                ),
            bentries@.len() == k,
            forall|m: int|
                0 <= m < k ==> {
                    &&& (#[trigger] bentries@[m]).0.ym == rec_bin(records@[m], interval)
                    &&& bentries@[m].0.num == (if records@[m].show_domain && brief_author(
                        records@,
                        records@[m].author_name@,
                        thr,
                    ) {
                        NO_COHORT
                    } else {
                        0i32
                    })
                    &&& bentries@[m].0.s1@ == Seq::<char>::empty()
                    &&& bentries@[m].0.s2@ == Seq::<char>::empty()
                    &&& bentries@[m].1@ == records@[m].author_name@
                },
        decreases n - k,
    {
        let rrec = &records[k];
        let si = match find_summary(summaries, &rrec.author_name) {
            Some(i) => i,
            None => {
                proof {
                    assert(false);
                }
                0
            },
        };
        let is_brief = summaries[si].active_time <= threshold_secs;
        let qual: i32 = if rrec.show_domain && is_brief {
            NO_COHORT
        } else {
            0
        };
        let ym = match interval {
            IntervalType::Month => YearMonth {
                year: rrec.author_year,
                month: Some(rrec.author_month),
            },
            IntervalType::Year => YearMonth { year: rrec.author_year, month: None },
        };
        bentries.push(
            (Key { ym, num: qual, s1: String::new(), s2: String::new() }, rrec.author_name.clone()),
        );
        k = k + 1;
    }
    proof {
        assert(brief_entries_ok(records@, bentries@, thr, interval));
        assert(bentries@.take(n as int) =~= bentries@);
    }
    let bgroups = group_count_distinct(&bentries);
    let mut bcells: Vec<(Key, i32)> = Vec::new();
    let bgn = bgroups.len();
    let mut bi: usize = 0;
    while bi < bgn
        invariant
            records_wf(records@),
            thr == threshold_secs as int,
            n == records@.len(),
            n <= MAX_RECORDS,
            brief_entries_ok(records@, bentries@, thr, interval),
            bentries@.take(n as int) == bentries@,
            bgn == bgroups@.len(),
            forall|i: int, l: int|
                0 <= i < l < bgroups@.len() ==> key_view(bgroups@[i].0) != key_view(
                    bgroups@[l].0,
                ),
            forall|i: int| 0 <= i < bgroups@.len() ==> has_skey(bentries@, (#[trigger] bgroups@[i]).0),
            forall|i: int|
                0 <= i < bgroups@.len() ==> (#[trigger] bgroups@[i]).1 == strs_where(
                    bentries@,
                    bgroups@[i].0,
                ).len(),
            forall|i: int| 0 <= i < bgroups@.len() ==> 0 <= (#[trigger] bgroups@[i]).1 <= n,
            bi <= bgn,
            forall|i: int| 0 <= i < bcells@.len() ==> bcell_from(#[trigger] bcells@[i], bgroups@, bi as int),
            forall|i: int|
                0 <= i < bcells@.len() ==> (#[trigger] bcells@[i]).0.num == NO_COHORT
                    && bcells@[i].0.ym.wf() && bcells@[i].0.ym.year < i32::MAX && ((
                bcells@[i].0.ym.month is Some) <==> (interval == IntervalType::Month))
                    && bcells@[i].1 as int == brief_authors_in(
                    records@,
                    n as int,
                    thr,
                    interval,
                    bcells@[i].0.ym,
                ).len() && brief_used(records@, thr, interval, bcells@[i].0.ym)
                    && bcells@[i].0.s1@ == Seq::<char>::empty() && bcells@[i].0.s2@ == Seq::<
                    char,
                >::empty(),
            forall|i: int, l: int|
                0 <= i < l < bcells@.len() ==> key_view(bcells@[i].0) != key_view(
                    bcells@[l].0,
                ),
            forall|g3: int|
                0 <= g3 < bi && (#[trigger] bgroups@[g3]).0.num == NO_COHORT ==> has_cell(
                    bcells@,
                    bgroups@[g3].0.ym,
                    NO_COHORT,
                ),
        decreases bgn - bi,
    {
        if bgroups[bi].0.num == NO_COHORT {
            proof {
                let e = choose|e: int|
                    0 <= e < bentries@.len() && key_view((#[trigger] bentries@[e]).0)
                        == key_view(bgroups@[bi as int].0);
                assert(records@[e].wf());
                assert(bgroups@[bi as int].0.ym == rec_bin(records@[e], interval));
                assert(records@[e].show_domain && brief_author(
                    records@,
                    records@[e].author_name@,
                    thr,
                ));
                assert(brief_used(records@, thr, interval, bgroups@[bi as int].0.ym));
                lemma_brief_transfer(records@, bentries@, thr, interval, bentries@[e].0, n as int);
                crate::groupby::lemma_strs_where_congr(
                    bentries@,
                    bgroups@[bi as int].0,
                    bentries@[e].0,
                );
            }
            let ghost old_bcells = bcells@;
            let kk = clone_key(&bgroups[bi].0);
            let v = bgroups[bi].1;
            bcells.push((kk, v as i32));
            proof {
                assert(bcells@.drop_last() =~= old_bcells);
                assert(key_view(bcells@[bcells@.len() - 1].0) == key_view(
                    bgroups@[bi as int].0,
                ));
                assert forall|i: int| 0 <= i < bcells@.len() implies bcell_from(
                    #[trigger] bcells@[i],
                    bgroups@,
                    bi as int + 1,
                ) by {
                    if i < bcells@.len() - 1 {
                        assert(bcells@[i] == old_bcells[i]);
                        assert(bcell_from(old_bcells[i], bgroups@, bi as int));
                        let m = choose|m: int|
                            0 <= m < bi && key_view(old_bcells[i].0) == key_view(
                                (#[trigger] bgroups@[m]).0,
                            );
                        assert(0 <= m < bi + 1 && key_view(bcells@[i].0) == key_view(
                            bgroups@[m].0,
                        ));
                    } else {
                        assert(0 <= (bi as int) && (bi as int) < bi + 1 && key_view(
                            bcells@[i].0,
                        ) == key_view(bgroups@[bi as int].0));
                    }
                }
                assert forall|i: int, l: int|
                    0 <= i < l < bcells@.len() implies key_view(bcells@[i].0) != key_view(
                    bcells@[l].0,
                ) by {
                    if l == bcells@.len() - 1 {
                        assert(bcells@[i] == old_bcells[i]);
                        assert(bcell_from(old_bcells[i], bgroups@, bi as int));
                        let m = choose|m: int|
                            0 <= m < bi && key_view(old_bcells[i].0) == key_view(
                                (#[trigger] bgroups@[m]).0,
                            );
                        assert(key_view(bgroups@[m].0) != key_view(bgroups@[bi as int].0));
                    }
                }
                assert(has_cell(bcells@, bgroups@[bi as int].0.ym, NO_COHORT)) by {
                    assert(bcells@[bcells@.len() - 1].0.ym == bgroups@[bi as int].0.ym
                        && bcells@[bcells@.len() - 1].0.num == NO_COHORT);
                }
                assert forall|g3: int|
                    0 <= g3 <= bi && (#[trigger] bgroups@[g3]).0.num == NO_COHORT implies has_cell(
                    bcells@,
                    bgroups@[g3].0.ym,
                    NO_COHORT,
                ) by {
                    if g3 < bi {
                        let m = choose|m: int|
                            0 <= m < old_bcells.len() && (#[trigger] old_bcells[m]).0.ym
                                == bgroups@[g3].0.ym && old_bcells[m].0.num == NO_COHORT;
                        assert(bcells@[m].0.ym == bgroups@[g3].0.ym && bcells@[m].0.num
                            == NO_COHORT);
                    }
                }
            }
        }
        bi = bi + 1;
    }
    proof {
        // every bin with a visible brief author has its sentinel cell
        assert forall|b: YearMonth|
            #[trigger] brief_used(records@, thr, interval, b) implies has_cell(
            bcells@,
            b,
            NO_COHORT,
        ) by {
            let i = choose|i: int|
                0 <= i < records@.len() && (#[trigger] records@[i]).show_domain && brief_author(
                    records@,
                    records@[i].author_name@,
                    thr,
                ) && rec_bin(records@[i], interval) == b;
            assert(key_view(bentries@[i].0) == (
                b,
                NO_COHORT,
                Seq::<char>::empty(),
                Seq::<char>::empty(),
            ));
            assert(crate::groupby::has_count(bgroups@, bentries@[i].0));
            let g3 = choose|g3: int|
                0 <= g3 < bgroups@.len() && key_view((#[trigger] bgroups@[g3]).0) == key_view(
                    bentries@[i].0,
                );
            assert(bgroups@[g3].0.num == NO_COHORT && bgroups@[g3].0.ym == b);
        }
    }
    bcells
}

/// Builds and names the fractional histogram from its finished cells: the
/// first `fcells` cells carry the scaled credit per `(bin, cohort)`, the
/// rest the per-bin brief-author counts at the sentinel.
#[verifier::rlimit(100)]
fn finish_frac_hist(
    cells: &Vec<(Key, i32)>,
    top: &Vec<(Key, i128)>,
    Ghost(recs): Ghost<Seq<CommitRecord>>,
    Ghost(ispec): Ghost<Seq<ItemSpec>>,
    Ghost(thr): Ghost<int>,
    Ghost(topv): Ghost<Seq<Seq<char>>>,
    Ghost(trips): Ghost<Seq<(YearMonth, Seq<char>, Seq<char>)>>,
    top_n: i32,
    Ghost(fcells): Ghost<int>,
    interval: IntervalType,
) -> (h: CohortHist)
    requires
        records_wf(recs),
        1 <= top_n <= 0x10000,
        topv == top@.map_values(|p: (Key, i128)| p.0.s1@),
        topv.len() <= top_n,
        forall|k: int, l: int| 0 <= k < l < topv.len() ==> topv[k] != topv[l],
        0 <= fcells <= cells@.len(),
        forall|i: int|
            0 <= i < fcells ==> 1 <= (#[trigger] cells@[i]).0.num && (cells@[i].0.num as int)
                <= top_n as int + 1 && frac_used(
                trips,
                topv,
                top_n as int,
                cells@[i].0.ym,
                cells@[i].0.num as int,
            ) && cells@[i].1 as int == frac_cell_sum(
                recs,
                ispec,
                thr,
                trips,
                topv,
                top_n as int,
                trips.len() as int,
                cells@[i].0.ym,
                cells@[i].0.num as int,
            ) / (FRACTION_SCALE as int) && cells@[i].1 >= 0,
        forall|i: int|
            fcells <= i < cells@.len() ==> (#[trigger] cells@[i]).0.num == NO_COHORT
                && cells@[i].1 as int == brief_authors_in(
                recs,
                recs.len() as int,
                thr,
                interval,
                cells@[i].0.ym,
            ).len() && brief_used(recs, thr, interval, cells@[i].0.ym),
        forall|i: int|
            0 <= i < cells@.len() ==> (#[trigger] cells@[i]).0.ym.wf() && cells@[i].0.ym.year
                < i32::MAX && ((cells@[i].0.ym.month is Some) <==> (interval
                == IntervalType::Month)),
        forall|i: int, l: int|
            0 <= i < l < cells@.len() ==> !((#[trigger] cells@[i]).0.ym == (
        #[trigger] cells@[l]).0.ym && cells@[i].0.num == cells@[l].0.num),
        forall|b: YearMonth, c: i32|
            c != NO_COHORT && frac_used(trips, topv, top_n as int, b, c as int)
                ==> #[trigger] has_cell(cells@, b, c),
        forall|b: YearMonth|
            #[trigger] brief_used(recs, thr, interval, b) ==> has_cell(cells@, b, NO_COHORT),
    ensures
        h.wf(),
        forall|b: YearMonth|
            #![trigger h.spec_value(b, NO_COHORT)]
            h.spec_value(b, NO_COHORT) == (if brief_used(recs, thr, interval, b) {
                Some(brief_authors_in(recs, recs.len() as int, thr, interval, b).len() as i32)
            } else {
                None
            }),
        forall|b: YearMonth, c: i32|
            #![trigger h.spec_value(b, c)]
            c != NO_COHORT ==> h.spec_value(b, c) == (if frac_used(
                trips,
                topv,
                top_n as int,
                b,
                c as int,
            ) {
                Some(
                    (frac_cell_sum(
                        recs,
                        ispec,
                        thr,
                        trips,
                        topv,
                        top_n as int,
                        trips.len() as int,
                        b,
                        c as int,
                    ) / (FRACTION_SCALE as int)) as i32,
                )
            } else {
                None
            }),
        forall|b: YearMonth, c: i32|
            c != NO_COHORT && frac_used(trips, topv, top_n as int, b, c as int) ==> 0
                <= #[trigger] frac_cell_sum(
                recs,
                ispec,
                thr,
                trips,
                topv,
                top_n as int,
                trips.len() as int,
                b,
                c as int,
            ) / (FRACTION_SCALE as int) <= i32::MAX,
        h.spec_name(NO_COHORT) == "Brief"@,
        forall|c: i32|
            c != NO_COHORT ==> #[trigger] h.spec_name(c) == (if frac_cohort_used(
                trips,
                topv,
                top_n as int,
                c as int,
            ) {
                stored_name(raw_name(topv, top_n as int, c as int))
            } else {
                Seq::<char>::empty()
            }),
{
    let ghost topn: int = top_n as int;
    let ghost klen: int = trips.len() as int;
    let mut h = build_hist(cells);
    let ghost bins0 = h.bins@;
    let cn = cells.len();
    let mut j: usize = 0;
    while j < cn
        invariant
            cn == cells@.len(),
            j <= cn,
            h.wf(),
            h.bins@ == bins0,
            1 <= top_n <= 0x10000,
            topn == top_n as int,
            topv == top@.map_values(|p: (Key, i128)| p.0.s1@),
            topv.len() <= top_n,
            0 <= fcells <= cells@.len(),
            forall|i: int|
                0 <= i < fcells ==> 1 <= (#[trigger] cells@[i]).0.num && (cells@[i].0.num as int)
                    <= topn + 1 && frac_used(trips, topv, topn, cells@[i].0.ym, cells@[i].0.num as int),
            forall|i: int|
                fcells <= i < cells@.len() ==> (#[trigger] cells@[i]).0.num == NO_COHORT,
            forall|c: i32|
                c != NO_COHORT ==> #[trigger] h.spec_name(c) == (if (exists|m: int|
                    0 <= m < j && (#[trigger] cells@[m]).0.num == c) {
                    stored_name(raw_name(topv, topn, c as int))
                } else {
                    Seq::<char>::empty()
                }),
            h.spec_name(NO_COHORT) == Seq::<char>::empty(),
        decreases cn - j,
    {
        let c = cells[j].0.num;
        let ghost pre = h;
        if c != NO_COHORT {
            proof {
                // a used non-sentinel id is the Other id or a valid rank
                let i = choose|i: int|
                    0 <= i < trips.len() && (#[trigger] trips[i]).0 == cells@[j as int].0.ym
                        && cat_id(topv, topn, trips[i].2) == cells@[j as int].0.num as int;
                if c as int != topn + 1 {
                    assert(in_top(topv, trips[i].2));
                    let ti = top_index(topv, trips[i].2);
                    assert(0 <= topn - c < topv.len());
                }
            }
            if c == top_n + 1 {
                h.set_cohort_name(c, "Other");
            } else {
                let k2 = (top_n - c) as usize;
                h.set_cohort_name(c, top[k2].0.s1.as_str());
                proof {
                    assert(topv[topn - c as int] == top@[k2 as int].0.s1@);
                }
            }
            proof {
                assert(h.spec_name(c) == stored_name(raw_name(topv, topn, c as int)));
            }
        }
        proof {
            assert forall|c2: i32| c2 != NO_COHORT && c2 != c implies #[trigger] h.spec_name(c2)
                == (if (exists|m: int| 0 <= m < j + 1 && (#[trigger] cells@[m]).0.num == c2) {
                stored_name(raw_name(topv, topn, c2 as int))
            } else {
                Seq::<char>::empty()
            }) by {
                assert(h.spec_name(c2) == pre.spec_name(c2));
                if exists|m: int| 0 <= m < j + 1 && (#[trigger] cells@[m]).0.num == c2 {
                    let m = choose|m: int| 0 <= m < j + 1 && (#[trigger] cells@[m]).0.num == c2;
                    assert(m < j);
                }
            }
        }
        j = j + 1;
    }
    let ghost pre2 = h;
    h.set_cohort_name(NO_COHORT, "Brief");
    proof {
        reveal_strlit("Brief");
        crate::strutil::lemma_trim_id("Brief"@);
        assert(h.spec_name(NO_COHORT) == "Brief"@);
        // names: a cohort id has a cell exactly when some credit lands on it
        assert forall|c: i32| c != NO_COHORT implies #[trigger] h.spec_name(c) == (
        if frac_cohort_used(trips, topv, topn, c as int) {
            stored_name(raw_name(topv, topn, c as int))
        } else {
            Seq::<char>::empty()
        }) by {
            assert(h.spec_name(c) == pre2.spec_name(c));
            if frac_cohort_used(trips, topv, topn, c as int) {
                let i = choose|i: int|
                    0 <= i < trips.len() && cat_id(topv, topn, (#[trigger] trips[i]).2)
                        == c as int;
                assert(frac_used(trips, topv, topn, trips[i].0, c as int));
                assert(has_cell(cells@, trips[i].0, c));
                let m = choose|m: int|
                    0 <= m < cells@.len() && (#[trigger] cells@[m]).0.ym == trips[i].0
                        && cells@[m].0.num == c;
                assert(exists|m2: int| 0 <= m2 < cn && (#[trigger] cells@[m2]).0.num == c);
            } else {
                if exists|m: int| 0 <= m < cn && (#[trigger] cells@[m]).0.num == c {
                    let m = choose|m: int| 0 <= m < cn && (#[trigger] cells@[m]).0.num == c;
                    assert(m < fcells);
                    let i = choose|i: int|
                        0 <= i < trips.len() && (#[trigger] trips[i]).0 == cells@[m].0.ym
                            && cat_id(topv, topn, trips[i].2) == c as int;
                    assert(frac_cohort_used(trips, topv, topn, c as int));
                }
            }
        }
        // the sentinel column
        assert forall|b: YearMonth| true implies #[trigger] h.spec_value(b, NO_COHORT) == (
        if brief_used(recs, thr, interval, b) {
            Some(brief_authors_in(recs, recs.len() as int, thr, interval, b).len() as i32)
        } else {
            None
        }) by {
            if brief_used(recs, thr, interval, b) {
                assert(has_cell(cells@, b, NO_COHORT));
                let m = choose|m: int|
                    0 <= m < cells@.len() && (#[trigger] cells@[m]).0.ym == b && cells@[m].0.num
                        == NO_COHORT;
                assert(m >= fcells);
                assert(h.spec_value(b, NO_COHORT) == Some(cells@[m].1));
            } else {
                if has_cell(cells@, b, NO_COHORT) {
                    let m = choose|m: int|
                        0 <= m < cells@.len() && (#[trigger] cells@[m]).0.ym == b
                            && cells@[m].0.num == NO_COHORT;
                    assert(m >= fcells);
                    assert(brief_used(recs, thr, interval, b));
                }
                assert(h.spec_value(b, NO_COHORT) is None);
            }
        }
        // the credit columns
        assert forall|b: YearMonth, c: i32|
            c != NO_COHORT implies #[trigger] h.spec_value(b, c) == (if frac_used(
            trips,
            topv,
            topn,
            b,
            c as int,
        ) {
            Some(
                (frac_cell_sum(recs, ispec, thr, trips, topv, topn, klen, b, c as int) / (
                FRACTION_SCALE as int)) as i32,
            )
        } else {
            None
        }) by {
            if frac_used(trips, topv, topn, b, c as int) {
                assert(has_cell(cells@, b, c));
                let m = choose|m: int|
                    0 <= m < cells@.len() && (#[trigger] cells@[m]).0.ym == b && cells@[m].0.num
                        == c;
                assert(m < fcells);
                assert(h.spec_value(b, c) == Some(cells@[m].1));
            } else {
                if has_cell(cells@, b, c) {
                    let m = choose|m: int|
                        0 <= m < cells@.len() && (#[trigger] cells@[m]).0.ym == b
                            && cells@[m].0.num == c;
                    assert(m < fcells);
                    assert(frac_used(trips, topv, topn, b, c as int));
                }
                assert(h.spec_value(b, c) is None);
            }
        }
        assert forall|b: YearMonth, c: i32|
            c != NO_COHORT && frac_used(trips, topv, topn, b, c as int) implies 0
            <= #[trigger] frac_cell_sum(recs, ispec, thr, trips, topv, topn, klen, b, c as int)
            / (FRACTION_SCALE as int) <= i32::MAX by {
            assert(has_cell(cells@, b, c));
            let m = choose|m: int|
                0 <= m < cells@.len() && (#[trigger] cells@[m]).0.ym == b && cells@[m].0.num
                    == c;
            assert(m < fcells);
        }
    }
    h
}

/// The fractional-attribution author histogram: for every bin and every
/// visible above-threshold author, the author's unit of credit is split
/// across the categories of the author's items in that bin in proportion to
/// their item counts, carried as integers scaled by `FRACTION_SCALE`.
/// Categories are ranked by their total scaled credit; the `top_n` heaviest
/// keep their own cohort, named after the category, the rest collapse into
/// "Other", and each stored value is the bin's summed scaled credit divided
/// by the scale.  The sentinel holds the count of distinct visible brief
/// authors per bin and is named "Brief".  Fails exactly when a stored value
/// does not fit a histogram cell.
#[verifier::rlimit(100)]
pub fn get_column_authors_hist(
    records: &Vec<CommitRecord>,
    kind: CohortType,
    interval: IntervalType,
    threshold_secs: i64,
    top_n: i32,
) -> (r: Result<CohortHist, EngineError>)
    requires
        records_wf(records@),
        records@.len() <= MAX_RECORDS,
        threshold_secs >= 0,
        1 <= top_n <= 0x10000,
        kind != CohortType::FirstYear,
        items_of(
            records@,
            records@.len() as int,
            kind,
            UnitType::Authors,
            interval,
        ).len() <= MAX_RECORDS,
    ensures
        exists|topv: Seq<Seq<char>>, trips: Seq<(YearMonth, Seq<char>, Seq<char>)>|
            #[trigger] frac_hist_post(
                records@,
                kind,
                interval,
                threshold_secs as int,
                top_n as int,
                topv,
                trips,
                r,
            ),
{
    let ghost thr: int = threshold_secs as int;
    let summaries = compute_author_summaries(records);
    let items = build_items(records, kind, UnitType::Authors, interval);
    let ghost ispec = items_abs(items@);
    let ghost jlen = ispec.len() as int;
    let jn = items.len();
    let n = records.len();
    proof {
        assert(items_abs(items@).len() == items@.len());
        assert(jn <= MAX_RECORDS);
    }
    // per-item author totals and per-category counts, restricted to visible
    // items of above-threshold authors
    let mut tentries: Vec<(Key, i64)> = Vec::new();
    let mut centries: Vec<(Key, i64)> = Vec::new();
    let mut j: usize = 0;
    while j < jn
        invariant
            records_wf(records@),
            thr == threshold_secs as int,
            jn == items@.len(),
            ispec == items_abs(items@),
            j <= jn,
            forall|i: int| 0 <= i < summaries@.len() ==> (#[trigger] summaries@[i]).summarizes(records@),
            forall|m: int|
                0 <= m < records@.len() ==> has_author_summary(
                    summaries@,
                    (#[trigger] records@[m]).author_name@,
                ),
            forall|j2: int|
                0 <= j2 < items@.len() ==> has_author(records@, (#[trigger] items@[j2]).author@)
                    && items@[j2].ym.wf() && items@[j2].ym.year < i32::MAX && ((
                items@[j2].ym.month is Some) <==> (interval == IntervalType::Month)),
            tentries@.len() == j,
            centries@.len() == j,
            forall|m: int|
                0 <= m < j ==> {
                    &&& (#[trigger] tentries@[m]).0.ym == ispec[m].ym
                    &&& tentries@[m].0.num == (if item_qualifies(records@, ispec[m], thr) {
                        1i32
                    } else {
                        0i32
                    })
                    &&& tentries@[m].0.s1@ == ispec[m].author
                    &&& tentries@[m].0.s2@ == Seq::<char>::empty()
                    &&& tentries@[m].1 == 1i64
                },
            forall|m: int|
                0 <= m < j ==> {
                    &&& (#[trigger] centries@[m]).0.ym == ispec[m].ym
                    &&& centries@[m].0.num == (if item_qualifies(records@, ispec[m], thr) {
                        1i32
                    } else {
                        0i32
                    })
                    &&& centries@[m].0.s1@ == ispec[m].author
                    &&& centries@[m].0.s2@ == ispec[m].cat
                    &&& centries@[m].1 == 1i64
                },
        decreases jn - j,
    {
        let si = match find_summary(&summaries, &items[j].author) {
            Some(i) => i,
            None => {
                proof {
                    assert(has_author(records@, items@[j as int].author@));
                    let m = choose|m: int|
                        0 <= m < records@.len() && (#[trigger] records@[m]).author_name@
                            == items@[j as int].author@;
                    assert(false);
                }
                0
            },
        };
        let is_brief = summaries[si].active_time <= threshold_secs;
        proof {
            assert(summaries@[si as int].summarizes(records@));
            assert(is_brief == brief_author(records@, ispec[j as int].author, thr));
        }
        let qual: i32 = if items[j].show && !is_brief {
            1
        } else {
            0
        };
        tentries.push(
            (
                Key { ym: items[j].ym, num: qual, s1: items[j].author.clone(), s2: String::new() },
                1i64,
            ),
        );
        centries.push(
            (
                Key {
                    ym: items[j].ym,
                    num: qual,
                    s1: items[j].author.clone(),
                    s2: items[j].cat.clone(),
                },
                1i64,
            ),
        );
        j = j + 1;
    }
    proof {
        assert(frac_tentries_ok(records@, ispec, tentries@, thr));
        assert(frac_centries_ok(records@, ispec, centries@, thr));
        assert(tentries@.take(jlen) =~= tentries@);
        assert(centries@.take(jlen) =~= centries@);
    }
    let tgroups = group_sum(&tentries);
    let cgroups = group_sum(&centries);
    // the scaled share of each distinct (bin, author, category) triple
    let mut scaled: Vec<(Key, i64)> = Vec::new();
    let ghost mut trips: Seq<(YearMonth, Seq<char>, Seq<char>)> = Seq::empty();
    let cgn = cgroups.len();
    let mut g: usize = 0;
    while g < cgn
        invariant
            records_wf(records@),
            thr == threshold_secs as int,
            jn == items@.len(),
            jn <= MAX_RECORDS,
            jlen == ispec.len() as int,
            frac_tentries_ok(records@, ispec, tentries@, thr),
            frac_centries_ok(records@, ispec, centries@, thr),
            tentries@.take(jlen) == tentries@,
            centries@.take(jlen) == centries@,
            forall|j2: int|
                0 <= j2 < items@.len() ==> (#[trigger] ispec[j2]).ym.wf() && ispec[j2].ym.year
                    < i32::MAX && ((ispec[j2].ym.month is Some) <==> (interval
                    == IntervalType::Month)),
            items@.len() == ispec.len(),
            forall|i: int|
                0 <= i < tgroups@.len() ==> (#[trigger] tgroups@[i]).1 == sum_where(
                    tentries@,
                    tgroups@[i].0,
                ),
            forall|i: int|
                0 <= i < tentries@.len() ==> has_group(tgroups@, (#[trigger] tentries@[i]).0),
            forall|i: int|
                0 <= i < cgroups@.len() ==> (#[trigger] cgroups@[i]).1 == sum_where(
                    centries@,
                    cgroups@[i].0,
                ),
            forall|i: int| 0 <= i < cgroups@.len() ==> has_key(centries@, (#[trigger] cgroups@[i]).0),
            forall|i: int, l: int|
                0 <= i < l < cgroups@.len() ==> key_view(cgroups@[i].0) != key_view(
                    cgroups@[l].0,
                ),
            cgn == cgroups@.len(),
            g <= cgn,
            frac_scaled_ok(records@, ispec, thr, trips, scaled@, interval),
            forall|i: int| 0 <= i < trips.len() ==> trip_from(#[trigger] trips[i], cgroups@, g as int),
            forall|g2: int|
                0 <= g2 < g && (#[trigger] cgroups@[g2]).0.num == 1i32 ==> has_trip(
                    trips,
                    key_triple(cgroups@[g2].0),
                ),
            forall|i: int, l: int| 0 <= i < l < trips.len() ==> trips[i] != trips[l],
        decreases cgn - g,
    {
        if cgroups[g].0.num == 1 {
            proof {
                assert(has_key(centries@, cgroups@[g as int].0));
                let e = choose|e: int|
                    0 <= e < centries@.len() && key_view((#[trigger] centries@[e]).0)
                        == key_view(cgroups@[g as int].0);
                assert(key_view(tentries@[e].0) == (
                    cgroups@[g as int].0.ym,
                    1i32,
                    cgroups@[g as int].0.s1@,
                    Seq::<char>::empty(),
                ));
                assert(has_group(tgroups@, tentries@[e].0));
            }
            let tk = Key {
                ym: cgroups[g].0.ym,
                num: 1,
                s1: cgroups[g].0.s1.clone(),
                s2: String::new(),
            };
            let ti = match crate::groupby::find_group(&tgroups, &tk) {
                Some(i) => i,
                None => {
                    proof {
                        let e = choose|e: int|
                            0 <= e < centries@.len() && key_view((#[trigger] centries@[e]).0)
                                == key_view(cgroups@[g as int].0);
                        let w = choose|w: int|
                            0 <= w < tgroups@.len() && key_view((#[trigger] tgroups@[w]).0)
                                == key_view(tentries@[e].0);
                        assert(false);
                    }
                    0
                },
            };
            let t = tgroups[ti].1;
            let c = cgroups[g].1;
            let ghost cgk = cgroups@[g as int].0;
            let ghost tr = key_triple(cgk);
            proof {
                let e = choose|e: int|
                    0 <= e < centries@.len() && key_view((#[trigger] centries@[e]).0)
                        == key_view(cgk);
                // the exact counts behind this triple
                crate::groupby::lemma_sum_where_congr(centries@, cgk, centries@[e].0);
                lemma_frac_c_transfer(records@, ispec, centries@, thr, centries@[e].0, jlen);
                assert(c == frac_c(records@, ispec, jlen, thr, tr.0, tr.1, tr.2));
                crate::groupby::lemma_sum_where_congr(tentries@, tgroups@[ti as int].0, tentries@[e].0);
                lemma_frac_t_transfer(records@, ispec, tentries@, thr, tentries@[e].0, jlen);
                assert(t == frac_t(records@, ispec, jlen, thr, tr.0, tr.1));
                lemma_sum_where_mono(centries@, tentries@, cgk, tentries@[e].0);
                assert(c <= t);
                lemma_sum_where_lower(centries@, centries@[e].0, e);
                assert(c >= 1);
                assert((c as int * (FRACTION_SCALE as int)) / (t as int) <= FRACTION_SCALE as int)
                    by (nonlinear_arith)
                    requires
                        1 <= c as int <= t as int,
                        FRACTION_SCALE as int > 0,
                ;
                assert((c as int * (FRACTION_SCALE as int)) / (t as int) >= 0) by (nonlinear_arith)
                    requires
                        c as int >= 0,
                        t as int >= 1,
                ;
                crate::groupby::lemma_sum_where_bound(centries@, cgk, 1);
                assert(c <= jn as int);
                assert(cgk.ym == ispec[e].ym);
            }
            let w128: i128 = (c * (FRACTION_SCALE as i128)) / t;
            let w: i64 = w128 as i64;
            let kk = Key {
                ym: cgroups[g].0.ym,
                num: 1,
                s1: cgroups[g].0.s2.clone(),
                s2: String::new(),
            };
            let ghost old_trips = trips;
            proof {
                trips = trips.push(tr);
            }
            scaled.push((kk, w));
            proof {
                assert(trips.drop_last() =~= old_trips);
                assert(scaled@.drop_last()
                    =~= scaled@.subrange(0, scaled@.len() - 1));
                assert(trips[trips.len() - 1] == tr);
                assert(scaled@[scaled@.len() - 1] == (kk, w));
                assert(w as int == frac_share(records@, ispec, thr, tr.0, tr.1, tr.2));
                assert forall|i: int, l: int|
                    0 <= i < l < trips.len() implies trips[i] != trips[l] by {
                    if l == trips.len() - 1 {
                        assert(trips[i] == old_trips[i]);
                        assert(trip_from(old_trips[i], cgroups@, g as int));
                        let g2 = choose|g2: int|
                            0 <= g2 < g && (#[trigger] cgroups@[g2]).0.num == 1i32 && old_trips[i]
                                == key_triple(cgroups@[g2].0);
                        assert(key_view(cgroups@[g2].0) != key_view(cgk));
                    }
                }
                assert forall|i: int| 0 <= i < trips.len() implies trip_from(
                    #[trigger] trips[i],
                    cgroups@,
                    g as int + 1,
                ) by {
                    if i < trips.len() - 1 {
                        assert(trips[i] == old_trips[i]);
                        assert(trip_from(old_trips[i], cgroups@, g as int));
                        let g2 = choose|g2: int|
                            0 <= g2 < g && (#[trigger] cgroups@[g2]).0.num == 1i32 && old_trips[i]
                                == key_triple(cgroups@[g2].0);
                        assert(0 <= g2 < g + 1 && cgroups@[g2].0.num == 1i32 && trips[i]
                            == key_triple(cgroups@[g2].0));
                    } else {
                        assert(0 <= (g as int) && (g as int) < g + 1 && cgroups@[g as int].0.num
                            == 1i32 && trips[i] == key_triple(cgroups@[g as int].0));
                    }
                }
                assert forall|g2: int|
                    0 <= g2 <= g && (#[trigger] cgroups@[g2]).0.num == 1i32 implies has_trip(
                    trips,
                    key_triple(cgroups@[g2].0),
                ) by {
                    if g2 < g {
                        let i = choose|i: int|
                            0 <= i < old_trips.len() && (#[trigger] old_trips[i]) == key_triple(
                                cgroups@[g2].0,
                            );
                        assert(trips[i] == key_triple(cgroups@[g2].0));
                    } else {
                        assert(trips[trips.len() - 1] == key_triple(cgroups@[g2].0));
                    }
                }
            }
        } else {
            proof {
                assert forall|g2: int|
                    0 <= g2 <= g && (#[trigger] cgroups@[g2]).0.num == 1i32 implies has_trip(
                    trips,
                    key_triple(cgroups@[g2].0),
                ) by {
                    if g2 < g {
                        let i = choose|i: int|
                            0 <= i < trips.len() && (#[trigger] trips[i]) == key_triple(
                                cgroups@[g2].0,
                            );
                    }
                }
                assert forall|i: int| 0 <= i < trips.len() implies trip_from(
                    #[trigger] trips[i],
                    cgroups@,
                    g as int + 1,
                ) by {
                    assert(trip_from(trips[i], cgroups@, g as int));
                    let g2 = choose|g2: int|
                        0 <= g2 < g && (#[trigger] cgroups@[g2]).0.num == 1i32 && trips[i]
                            == key_triple(cgroups@[g2].0);
                    assert(0 <= g2 < g + 1 && cgroups@[g2].0.num == 1i32 && trips[i]
                        == key_triple(cgroups@[g2].0));
                }
            }
        }
        g = g + 1;
    }
    proof {
        lemma_frac_trips_ok(records@, ispec, thr, centries@, cgroups@, trips);
    }
    let ghost klen: int = trips.len() as int;
    // rank categories by their total scaled credit
    let mut rentries: Vec<(Key, i64)> = Vec::new();
    let sn = scaled.len();
    let mut g2: usize = 0;
    while g2 < sn
        invariant
            sn == scaled@.len(),
            scaled@.len() == trips.len(),
            frac_scaled_ok(records@, ispec, thr, trips, scaled@, interval),
            g2 <= sn,
            rentries@.len() == g2,
            forall|i: int|
                0 <= i < g2 ==> (#[trigger] rentries@[i]).0.ym == (
                YearMonth { year: 0, month: None }) && rentries@[i].0.num == 1i32
                    && rentries@[i].0.s1@ == trips[i].2 && rentries@[i].0.s2@ == Seq::<
                    char,
                >::empty() && rentries@[i].1 == scaled@[i].1,
        decreases sn - g2,
    {
        rentries.push(
            (
                Key {
                    ym: YearMonth { year: 0, month: None },
                    num: 1,
                    s1: scaled[g2].0.s1.clone(),
                    s2: String::new(),
                },
                scaled[g2].1,
            ),
        );
        g2 = g2 + 1;
    }
    let ghost rents = rentries@;
    let rgroups = group_sum(&rentries);
    let ghost rg = rgroups@;
    let top = rank_top(rgroups, top_n as usize);
    let ghost topv: Seq<Seq<char>> = top@.map_values(|p: (Key, i128)| p.0.s1@);
    let ghost topn: int = top_n as int;
    proof {
        assert(rents.take(klen) =~= rents);
        lemma_frac_rank_facts(
            records@,
            ispec,
            thr,
            trips,
            scaled@,
            rents,
            rg,
            top@,
            topv,
            topn,
            interval,
            klen,
        );
    }
    // each triple's scaled credit lands on its bin and cohort id
    let mut fentries: Vec<(Key, i64)> = Vec::new();
    let mut f: usize = 0;
    while f < sn
        invariant
            sn == scaled@.len(),
            scaled@.len() == trips.len(),
            frac_scaled_ok(records@, ispec, thr, trips, scaled@, interval),
            topn == top_n as int,
            1 <= top_n <= 0x10000,
            topv == top@.map_values(|p: (Key, i128)| p.0.s1@),
            topv.len() == top@.len(),
            top@.len() <= top_n,
            forall|k: int, l: int| 0 <= k < l < topv.len() ==> topv[k] != topv[l],
            f <= sn,
            fentries@.len() == f,
            forall|i: int|
                0 <= i < f ==> (#[trigger] fentries@[i]).0.ym == trips[i].0
                    && fentries@[i].0.num as int == cat_id(topv, topn, trips[i].2)
                    && fentries@[i].0.s1@ == Seq::<char>::empty() && fentries@[i].0.s2@ == Seq::<
                    char,
                >::empty() && fentries@[i].1 == scaled@[i].1 && 1 <= fentries@[i].0.num && (
                fentries@[i].0.num as int) <= topn + 1,
        decreases sn - f,
    {
        let id: i32 = match find_cat(&top, &scaled[f].0.s1) {
            Some(k2) => {
                proof {
                    assert(topv[k2 as int] == scaled@[f as int].0.s1@);
                    assert(in_top(topv, trips[f as int].2));
                    let ti = top_index(topv, trips[f as int].2);
                    if ti != k2 as int {
                        assert(topv[ti] == topv[k2 as int]);
                    }
                    assert(cat_id(topv, topn, trips[f as int].2) == topn - k2);
                }
                top_n - (k2 as i32)
            },
            None => {
                proof {
                    if in_top(topv, trips[f as int].2) {
                        let ti = top_index(topv, trips[f as int].2);
                        assert(top@[ti].0.s1@ == scaled@[f as int].0.s1@);
                    }
                    assert(cat_id(topv, topn, trips[f as int].2) == topn + 1);
                }
                top_n + 1
            },
        };
        fentries.push(
            (Key { ym: scaled[f].0.ym, num: id, s1: String::new(), s2: String::new() }, scaled[f].1),
        );
        f = f + 1;
    }
    proof {
        assert(fentries@.take(klen) =~= fentries@);
    }
    let fgroups = group_sum(&fentries);
    let cells_r = frac_credit_cells(
        &fgroups,
        Ghost(records@),
        Ghost(ispec),
        Ghost(thr),
        Ghost(trips),
        Ghost(scaled@),
        Ghost(fentries@),
        Ghost(topv),
        Ghost(topn),
        interval,
        top_n,
    );
    let mut cells = match cells_r {
        Ok(cs) => cs,
        Err(e) => {
            proof {
                assert(frac_hist_post(records@, kind, interval, thr, topn, topv, trips, Err(e)));
            }
            return Err(e);
        },
    };
    let ghost fcells: int = cells@.len() as int;
    let mut bcells = frac_brief_cells(records, &summaries, threshold_secs, interval, Ghost(thr));
    let ghost fseq = cells@;
    let ghost bseq = bcells@;
    cells.append(&mut bcells);
    proof {
        assert(cells@ =~= fseq + bseq);
        assert forall|i: int, l: int|
            0 <= i < l < cells@.len() implies !((#[trigger] cells@[i]).0.ym == (
        #[trigger] cells@[l]).0.ym && cells@[i].0.num == cells@[l].0.num) by {
            if i < fcells && l >= fcells {
                assert(cells@[i].0.num != NO_COHORT && cells@[l].0.num == NO_COHORT);
            } else if i >= fcells {
                assert(cells@[i] == bseq[i - fcells] && cells@[l] == bseq[l - fcells]);
                if cells@[i].0.ym == cells@[l].0.ym && cells@[i].0.num == cells@[l].0.num {
                    assert(key_view(bseq[i - fcells].0) == key_view(bseq[l - fcells].0));
                }
            }
        }
        // coverage carries over the concatenation
        assert forall|b: YearMonth, c: i32|
            c != NO_COHORT && frac_used(trips, topv, topn, b, c as int) implies #[trigger] has_cell(
            cells@,
            b,
            c,
        ) by {
            assert(has_cell(fseq, b, c));
            let m = choose|m: int|
                0 <= m < fseq.len() && (#[trigger] fseq[m]).0.ym == b && fseq[m].0.num == c;
            assert(cells@[m].0.ym == b && cells@[m].0.num == c);
        }
        assert forall|b: YearMonth|
            #[trigger] brief_used(records@, thr, interval, b) implies has_cell(
            cells@,
            b,
            NO_COHORT,
        ) by {
            assert(has_cell(bseq, b, NO_COHORT));
            let m = choose|m: int|
                0 <= m < bseq.len() && (#[trigger] bseq[m]).0.ym == b && bseq[m].0.num
                    == NO_COHORT;
            assert(cells@[fcells + m].0.ym == b && cells@[fcells + m].0.num == NO_COHORT);
        }
    }
    let h = finish_frac_hist(
        &cells,
        &top,
        Ghost(records@),
        Ghost(ispec),
        Ghost(thr),
        Ghost(topv),
        Ghost(trips),
        top_n,
        Ghost(fcells),
        interval,
    );
    proof {
        assert(frac_hist_post(records@, kind, interval, thr, topn, topv, trips, Ok(h)));
    }
    Ok(h)
}



/// Sum of the scaled shares `(counts[i] * s) / t` of the first `k` counts.
pub open spec fn scaled_share_sum(counts: Seq<int>, t: int, s: int, k: int) -> int
    decreases k,
{
    if k <= 0 || k > counts.len() {
        0
    } else {
        scaled_share_sum(counts, t, s, k - 1) + (counts[k - 1] * s) / t
    }
}

/// Sum of the first `k` counts.
pub open spec fn counts_sum(counts: Seq<int>, k: int) -> int
    decreases k,
{
    if k <= 0 || k > counts.len() {
        0
    } else {
        counts_sum(counts, k - 1) + counts[k - 1]
    }
}

proof fn lemma_scaled_share_bounds(counts: Seq<int>, t: int, s: int, k: int)
    requires
        t > 0,
        s > 0,
        0 <= k <= counts.len(),
        forall|i: int| 0 <= i < counts.len() ==> counts[i] >= 0,
    ensures
        t * scaled_share_sum(counts, t, s, k) >= counts_sum(counts, k) * s - k * t + k,
        t * scaled_share_sum(counts, t, s, k) <= counts_sum(counts, k) * s,
    decreases k,
{
    if k > 0 {
        lemma_scaled_share_bounds(counts, t, s, k - 1);
        let c = counts[k - 1];
        assert(c * s - t + 1 <= t * ((c * s) / t) <= c * s) by (nonlinear_arith)
            requires
                t > 0,
                c >= 0,
                s > 0,
        ;
        assert((counts_sum(counts, k - 1) + c) * s == counts_sum(counts, k - 1) * s + c * s)
            by (nonlinear_arith);
        assert(t * (scaled_share_sum(counts, t, s, k - 1) + (c * s) / t) == t * scaled_share_sum(
            counts,
            t,
            s,
            k - 1,
        ) + t * ((c * s) / t)) by (nonlinear_arith);
        assert(scaled_share_sum(counts, t, s, k) == scaled_share_sum(counts, t, s, k - 1) + (c
            * s) / t);
        assert(counts_sum(counts, k) == counts_sum(counts, k - 1) + c);
        assert(t * scaled_share_sum(counts, t, s, k) == t * scaled_share_sum(counts, t, s, k - 1)
            + t * ((c * s) / t));
        assert(counts_sum(counts, k) * s == counts_sum(counts, k - 1) * s + c * s)
            by (nonlinear_arith)
            requires
                counts_sum(counts, k) == counts_sum(counts, k - 1) + c,
        ;
        assert((k - 1) * t == k * t - t) by (nonlinear_arith);
    }
}

/// Law: for any bin and any above-threshold author active in it, the
/// author's fractional contributions across that bin's categories sum to
/// one whole unit of credit before truncation: with per-category item
/// counts summing to the author's bin total `t`, the scaled shares
/// `(count * scale) / t` sum to a value in `(scale - n, scale]`, where `n`
/// is the number of categories — exactly `scale` but for the truncation of
/// each share.
pub proof fn lemma_fraction_sum(counts: Seq<int>, t: int, s: int)
    requires
        t > 0,
        s > 0,
        counts.len() >= 1,
        forall|i: int| 0 <= i < counts.len() ==> counts[i] >= 0,
        counts_sum(counts, counts.len() as int) == t,
    ensures
        s - counts.len() < scaled_share_sum(counts, t, s, counts.len() as int) <= s,
{
    let k = counts.len() as int;
    lemma_scaled_share_bounds(counts, t, s, k);
    let total = scaled_share_sum(counts, t, s, k);
    assert(t * total >= t * s - k * t + k);
    assert(t * (s - k) < t * total) by (nonlinear_arith)
        requires
            k >= 1,
            t * total >= t * s - k * t + k,
    ;
    assert(s - k < total && total <= s) by (nonlinear_arith)
        requires
            t > 0,
            t * (s - k) < t * total,
            t * total <= t * s,
    ;
}

/// Law: when more categories qualify than the ranking keeps, the cohorts
/// other than the sentinel consist of exactly `topn` named categories plus
/// the one "Other" bucket, and no category is both named and folded into
/// "Other": a category's id is the "Other" id exactly when it is outside
/// the ranked list.
pub proof fn lemma_top_n_other(
    recs: Seq<CommitRecord>,
    items: Seq<ItemSpec>,
    thr: int,
    topn: int,
    topv: Seq<Seq<char>>,
)
    requires
        topn >= 1,
        topv.len() <= topn,
        forall|k: int, l: int| 0 <= k < l < topv.len() ==> topv[k] != topv[l],
        forall|cat: Seq<char>|
            #[trigger] is_candidate(recs, items, thr, cat) && !in_top(topv, cat) ==> topv.len()
                == topn,
        exists|cat: Seq<char>| #[trigger] is_candidate(recs, items, thr, cat) && !in_top(topv, cat),
    ensures
        topv.len() == topn,
        forall|cat: Seq<char>|
            in_top(topv, cat) ==> #[trigger] cat_id(topv, topn, cat) != topn + 1,
        forall|cat: Seq<char>|
            !in_top(topv, cat) ==> #[trigger] cat_id(topv, topn, cat) == topn + 1,
        forall|k: int| 0 <= k < topv.len() ==> #[trigger] cat_id(topv, topn, topv[k]) == topn - k,
{
    let w = choose|cat: Seq<char>|
        #[trigger] is_candidate(recs, items, thr, cat) && !in_top(topv, cat);
    assert(topv.len() == topn);
    assert forall|cat: Seq<char>| in_top(topv, cat) implies #[trigger] cat_id(topv, topn, cat)
        != topn + 1 by {
        let k = top_index(topv, cat);
        assert(0 <= k < topv.len());
    }
    assert forall|k: int| 0 <= k < topv.len() implies #[trigger] cat_id(topv, topn, topv[k])
        == topn - k by {
        assert(in_top(topv, topv[k]));
        let k2 = top_index(topv, topv[k]);
        if k2 != k {
            assert(topv[k2] == topv[k]);
        }
    }
}

/// Law: a brief author's activity is always routed to the sentinel cohort,
/// whatever strategy is in effect — under the tenure strategy the author's
/// records take the sentinel cohort; under a categorical strategy every
/// item of the author lands on the sentinel, never on a named category or
/// the "Other" bucket; and under fractional attribution none of the
/// author's items qualifies for credit, so the author is counted only in
/// the sentinel's distinct-author tally.
pub proof fn lemma_brief_override(
    recs: Seq<CommitRecord>,
    thr: int,
    i: int,
    interval: IntervalType,
    topv: Seq<Seq<char>>,
    topn: int,
    it: ItemSpec,
)
    requires
        0 <= i < recs.len(),
        brief_author(recs, recs[i].author_name@, thr),
        it.author == recs[i].author_name@,
    ensures
        crate::engine::tenure_cohort(recs, recs[i], thr) == NO_COHORT as int,
        item_cohort(recs, it, thr, topv, topn) == NO_COHORT as int,
        forall|b: YearMonth, c: int|
            c != NO_COHORT as int ==> !#[trigger] crate::engine::tenure_match(
                recs,
                recs[i],
                thr,
                interval,
                b,
                c,
            ),
        forall|b: YearMonth, c: int|
            c != NO_COHORT as int ==> !#[trigger] col_match(recs, it, thr, topv, topn, b, c),
        !item_qualifies(recs, it, thr),
{
}

/// Computes one histogram for a cohort strategy, unit and interval, with
/// the default brief-tenure threshold and top-N width, and passes on the
/// chosen strategy's full contract.
pub fn get_hist(
    records: &Vec<CommitRecord>,
    cohort: CohortType,
    unit: UnitType,
    interval: IntervalType,
) -> (r: Result<CohortHist, EngineError>)
    requires
        records_wf(records@),
        records@.len() <= MAX_RECORDS,
        items_of(
            records@,
            records@.len() as int,
            cohort,
            UnitType::Authors,
            interval,
        ).len() <= MAX_RECORDS,
    ensures
        match r {
            Ok(h) => h.wf(),
            Err(e) => e == EngineError::ValueOutOfRange,
        },
        cohort == CohortType::FirstYear ==> (match r {
            Ok(h) => {
                &&& (forall|b: YearMonth, c: i32|
                    #![trigger h.spec_value(b, c)]
                    h.spec_value(b, c) == (if crate::engine::tenure_used(
                        records@,
                        crate::engine::BRIEF_THRESHOLD_SECS as int,
                        interval,
                        b,
                        c as int,
                    ) {
                        Some(
                            crate::engine::tenure_value(
                                records@,
                                crate::engine::BRIEF_THRESHOLD_SECS as int,
                                unit,
                                interval,
                                b,
                                c as int,
                            ) as i32,
                        )
                    } else {
                        None
                    }))
                &&& (forall|b: YearMonth, c: i32|
                    crate::engine::tenure_used(
                        records@,
                        crate::engine::BRIEF_THRESHOLD_SECS as int,
                        interval,
                        b,
                        c as int,
                    ) ==> i32::MIN <= #[trigger] crate::engine::tenure_value(
                        records@,
                        crate::engine::BRIEF_THRESHOLD_SECS as int,
                        unit,
                        interval,
                        b,
                        c as int,
                    ) <= i32::MAX)
                &&& h.spec_name(NO_COHORT) == "Brief"@
                &&& (forall|c: i32|
                    c != NO_COHORT ==> #[trigger] h.spec_name(c) == (
                    if crate::engine::tenure_cohort_used(
                        records@,
                        crate::engine::BRIEF_THRESHOLD_SECS as int,
                        c as int,
                    ) {
                        crate::strutil::int_str(c as int)
                    } else {
                        Seq::<char>::empty()
                    }))
            },
            Err(e) => true,
        }),
        cohort == CohortType::FirstYear ==> ((r is Err) <==> (exists|b: YearMonth, c: i32|
            #![trigger crate::engine::tenure_used(records@, crate::engine::BRIEF_THRESHOLD_SECS as int, interval, b, c as int)]
            crate::engine::tenure_used(
                records@,
                crate::engine::BRIEF_THRESHOLD_SECS as int,
                interval,
                b,
                c as int,
            ) && !(i32::MIN <= crate::engine::tenure_value(
                records@,
                crate::engine::BRIEF_THRESHOLD_SECS as int,
                unit,
                interval,
                b,
                c as int,
            ) <= i32::MAX))),
        cohort != CohortType::FirstYear && unit != UnitType::Authors ==> (exists|
            topv: Seq<Seq<char>>,
        |
            #[trigger] col_hist_post(
                records@,
                cohort,
                unit,
                interval,
                crate::engine::BRIEF_THRESHOLD_SECS as int,
                crate::engine::TOP_N as int,
                topv,
                r,
            )),
        cohort != CohortType::FirstYear && unit == UnitType::Authors ==> (exists|
            topv: Seq<Seq<char>>,
            trips: Seq<(YearMonth, Seq<char>, Seq<char>)>,
        |
            #[trigger] frac_hist_post(
                records@,
                cohort,
                interval,
                crate::engine::BRIEF_THRESHOLD_SECS as int,
                crate::engine::TOP_N as int,
                topv,
                trips,
                r,
            )),
{
    match cohort {
        CohortType::FirstYear => crate::engine::get_firstyear_hist(
            records,
            unit,
            interval,
            crate::engine::BRIEF_THRESHOLD_SECS,
        ),
        _ => match unit {
            UnitType::Authors => {
                let r = get_column_authors_hist(
                    records,
                    cohort,
                    interval,
                    crate::engine::BRIEF_THRESHOLD_SECS,
                    crate::engine::TOP_N,
                );
                proof {
                    let (topv, trips) = choose|
                        topv: Seq<Seq<char>>,
                        trips: Seq<(YearMonth, Seq<char>, Seq<char>)>,
                    |
                        #[trigger] frac_hist_post(
                            records@,
                            cohort,
                            interval,
                            crate::engine::BRIEF_THRESHOLD_SECS as int,
                            crate::engine::TOP_N as int,
                            topv,
                            trips,
                            r,
                        );
                }
                r
            },
            _ => {
                let r = get_column_hist(
                    records,
                    cohort,
                    unit,
                    interval,
                    crate::engine::BRIEF_THRESHOLD_SECS,
                    crate::engine::TOP_N,
                );
                proof {
                    let topv = choose|topv: Seq<Seq<char>>|
                        #[trigger] col_hist_post(
                            records@,
                            cohort,
                            unit,
                            interval,
                            crate::engine::BRIEF_THRESHOLD_SECS as int,
                            crate::engine::TOP_N as int,
                            topv,
                            r,
                        );
                }
                r
            },
        },
    }
}


} // verus!
