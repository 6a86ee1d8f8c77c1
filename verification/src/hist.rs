//! The cohort histogram: a sparse `(bin, cohort) -> value` table with cohort
//! display names, bounds, and a gap-free delimited export.

use vstd::prelude::*;
use vstd::string::StrSliceExecFns;
use vstd::string::StringExecFns;
use crate::yearmonth::YearMonth;
use crate::yearmonth::nth_next;
use crate::strutil::int_str;
use crate::strutil::i64_to_string;
use crate::strutil::trim_spec;
use crate::strutil::trim_to_string;

verus! {

/// The reserved sentinel cohort id: the "Brief" bucket, and the leading sum
/// column of the export.  It is lower than every ordinary cohort id.
pub const NO_COHORT: i32 = -1;

/// Value of the first `(key, value)` pair with the given key, if any.
pub open spec fn assoc_i32<V>(s: Seq<(i32, V)>, key: i32) -> Option<V>
    decreases s.len(),
{
    if s.len() == 0 {
        None
    } else if s[0].0 == key {
        Some(s[0].1)
    } else {
        assoc_i32(s.drop_first(), key)
    }
}

/// Value of the first `(bin, value)` pair with the given bin, if any.
pub open spec fn assoc_ym<V>(s: Seq<(YearMonth, V)>, key: YearMonth) -> Option<V>
    decreases s.len(),
{
    if s.len() == 0 {
        None
    } else if s[0].0 == key {
        Some(s[0].1)
    } else {
        assoc_ym(s.drop_first(), key)
    }
}

pub proof fn lemma_assoc_i32_index<V>(s: Seq<(i32, V)>, key: i32)
    ensures
        (assoc_i32(s, key) is Some) <==> (exists|i: int| 0 <= i < s.len() && s[i].0 == key),
    decreases s.len(),
{
    if s.len() > 0 && s[0].0 != key {
        lemma_assoc_i32_index(s.drop_first(), key);
        if assoc_i32(s, key) is Some {
            let i = choose|i: int| 0 <= i < s.drop_first().len() && s.drop_first()[i].0 == key;
            assert(s[i + 1].0 == key);
        }
        if exists|i: int| 0 <= i < s.len() && s[i].0 == key {
            let i = choose|i: int| 0 <= i < s.len() && s[i].0 == key;
            assert(s.drop_first()[i - 1].0 == key);
        }
    }
}

pub proof fn lemma_assoc_i32_found<V>(s: Seq<(i32, V)>, key: i32, i: int)
    requires
        0 <= i < s.len(),
        s[i].0 == key,
        forall|k: int| 0 <= k < i ==> s[k].0 != key,
    ensures
        assoc_i32(s, key) == Some(s[i].1),
    decreases i,
{
    if i > 0 {
        lemma_assoc_i32_found(s.drop_first(), key, i - 1);
    }
}

pub proof fn lemma_assoc_ym_index<V>(s: Seq<(YearMonth, V)>, key: YearMonth)
    ensures
        (assoc_ym(s, key) is Some) <==> (exists|i: int| 0 <= i < s.len() && s[i].0 == key),
    decreases s.len(),
{
    if s.len() > 0 && s[0].0 != key {
        lemma_assoc_ym_index(s.drop_first(), key);
        if assoc_ym(s, key) is Some {
            let i = choose|i: int| 0 <= i < s.drop_first().len() && s.drop_first()[i].0 == key;
            assert(s[i + 1].0 == key);
        }
        if exists|i: int| 0 <= i < s.len() && s[i].0 == key {
            let i = choose|i: int| 0 <= i < s.len() && s[i].0 == key;
            assert(s.drop_first()[i - 1].0 == key);
        }
    }
}

pub proof fn lemma_assoc_ym_found<V>(s: Seq<(YearMonth, V)>, key: YearMonth, i: int)
    requires
        0 <= i < s.len(),
        s[i].0 == key,
        forall|k: int| 0 <= k < i ==> s[k].0 != key,
    ensures
        assoc_ym(s, key) == Some(s[i].1),
    decreases i,
{
    if i > 0 {
        lemma_assoc_ym_found(s.drop_first(), key, i - 1);
    }
}

/// Appending a pair with a fresh key leaves other lookups unchanged and adds
/// the new one.
pub proof fn lemma_assoc_i32_push<V>(s: Seq<(i32, V)>, p: (i32, V), key: i32)
    ensures
        assoc_i32(s.push(p), key) == (if assoc_i32(s, key) is Some {
            assoc_i32(s, key)
        } else if p.0 == key {
            Some(p.1)
        } else {
            None
        }),
    decreases s.len(),
{
    if s.len() == 0 {
        assert(s.push(p)[0] == p);
        if p.0 != key {
            assert(s.push(p).drop_first() =~= Seq::<(i32, V)>::empty());
            assert(assoc_i32(s.push(p), key) == assoc_i32(s.push(p).drop_first(), key));
        }
    } else {
        assert(s.push(p)[0] == s[0]);
        if s[0].0 != key {
            assert(s.push(p).drop_first() =~= s.drop_first().push(p));
            lemma_assoc_i32_push(s.drop_first(), p, key);
            assert(assoc_i32(s.push(p), key) == assoc_i32(s.drop_first().push(p), key));
        }
    }
}

pub proof fn lemma_assoc_ym_push<V>(s: Seq<(YearMonth, V)>, p: (YearMonth, V), key: YearMonth)
    ensures
        assoc_ym(s.push(p), key) == (if assoc_ym(s, key) is Some {
            assoc_ym(s, key)
        } else if p.0 == key {
            Some(p.1)
        } else {
            None
        }),
    decreases s.len(),
{
    if s.len() == 0 {
        assert(s.push(p)[0] == p);
        if p.0 != key {
            assert(s.push(p).drop_first() =~= Seq::<(YearMonth, V)>::empty());
            assert(assoc_ym(s.push(p), key) == assoc_ym(s.push(p).drop_first(), key));
        }
    } else {
        assert(s.push(p)[0] == s[0]);
        if s[0].0 != key {
            assert(s.push(p).drop_first() =~= s.drop_first().push(p));
            lemma_assoc_ym_push(s.drop_first(), p, key);
            assert(assoc_ym(s.push(p), key) == assoc_ym(s.drop_first().push(p), key));
        }
    }
}

/// Updating the entry at index `i` (whose key stays the same) changes that
/// key's lookup and no other, provided keys are distinct.
pub proof fn lemma_assoc_i32_update<V>(s: Seq<(i32, V)>, i: int, v: V, key: i32)
    requires
        0 <= i < s.len(),
        forall|k: int, l: int| 0 <= k < l < s.len() ==> s[k].0 != s[l].0,
    ensures
        assoc_i32(s.update(i, (s[i].0, v)), key) == (if key == s[i].0 {
            Some(v)
        } else {
            assoc_i32(s, key)
        }),
    decreases i,
{
    let t = s.update(i, (s[i].0, v));
    if i == 0 {
        if key != s[0].0 {
            assert(t.drop_first() =~= s.drop_first());
        }
    } else {
        assert(t.drop_first() =~= s.drop_first().update(i - 1, (s[i].0, v)));
        lemma_assoc_i32_update(s.drop_first(), i - 1, v, key);
        if key == s[i].0 {
            assert(s[0].0 != s[i].0);
        }
    }
}

/// Sum of the values stored in a bin's cells.
pub open spec fn cells_sum(cells: Seq<(i32, i32)>) -> int
    decreases cells.len(),
{
    if cells.len() == 0 {
        0
    } else {
        cells_sum(cells.drop_last()) + cells.last().1
    }
}

/// A sparse histogram over `(bin, cohort)` keys with per-cohort display
/// names and tracked cohort bounds.
#[derive(Debug)]
pub struct CohortHist {
    pub bins: Vec<(YearMonth, Vec<(i32, i32)>)>,
    pub first_cohort: i32,
    pub last_cohort: i32,
    pub cohort_names: Vec<(i32, String)>,
}

impl CohortHist {
    /// The stored value for `(ym, cohort)`, if any.
    pub open spec fn spec_value(self, ym: YearMonth, cohort: i32) -> Option<i32> {
        match assoc_ym(self.bins@, ym) {
            None => None,
            Some(cells) => assoc_i32(cells@, cohort),
        }
    }

    /// Whether any value was ever stored in bin `ym`.
    pub open spec fn has_bin(self, ym: YearMonth) -> bool {
        assoc_ym(self.bins@, ym) is Some
    }

    /// The display name of a cohort; empty when unset.
    pub open spec fn spec_name(self, cohort: i32) -> Seq<char> {
        match assoc_i32(self.cohort_names@, cohort) {
            None => Seq::empty(),
            Some(n) => n@,
        }
    }

    /// Whether the histogram's bins carry months (as opposed to whole years).
    pub open spec fn monthly(self) -> bool {
        self.bins@.len() > 0 && self.bins@[0].0.month is Some
    }

    /// Sum of all values recorded directly in bin `ym` (sentinel included).
    pub open spec fn bin_sum(self, ym: YearMonth) -> int {
        match assoc_ym(self.bins@, ym) {
            None => 0,
            Some(cells) => cells_sum(cells@),
        }
    }

    /// Internal consistency: distinct keys, uniform bin granularity,
    /// well-formed bins, and cohort bounds that are exactly the least and
    /// greatest non-sentinel cohort ids ever written.
    pub open spec fn wf(self) -> bool {
        &&& (forall|i: int, j: int|
            0 <= i < j < self.bins@.len() ==> self.bins@[i].0 != self.bins@[j].0)
        &&& (forall|i: int|
            0 <= i < self.bins@.len() ==> (#[trigger] self.bins@[i].0).wf()
                && self.bins@[i].0.year < i32::MAX)
        &&& (forall|i: int|
            0 <= i < self.bins@.len() ==> ((#[trigger] self.bins@[i].0).month is Some
                <==> self.bins@[0].0.month is Some))
        &&& (forall|i: int| 0 <= i < self.bins@.len() ==> (#[trigger] self.bins@[i].1)@.len() > 0)
        &&& (forall|i: int, k: int, l: int|
            #![trigger self.bins@[i].1@[k], self.bins@[i].1@[l]]
            0 <= i < self.bins@.len() && 0 <= k < l < self.bins@[i].1@.len()
                ==> self.bins@[i].1@[k].0 != self.bins@[i].1@[l].0)
        &&& (forall|i: int, j: int|
            0 <= i < j < self.cohort_names@.len() ==> self.cohort_names@[i].0
                != self.cohort_names@[j].0)
        &&& (forall|i: int, k: int|
            #![trigger self.bins@[i].1@[k]]
            0 <= i < self.bins@.len() && 0 <= k < self.bins@[i].1@.len()
                && self.bins@[i].1@[k].0 != NO_COHORT ==> self.first_cohort
                <= self.bins@[i].1@[k].0 <= self.last_cohort)
        &&& (self.first_cohort <= self.last_cohort ==> exists|i: int, k: int|
            #![trigger self.bins@[i].1@[k]]
            0 <= i < self.bins@.len() && 0 <= k < self.bins@[i].1@.len()
                && self.bins@[i].1@[k].0 == self.first_cohort)
        &&& (self.first_cohort <= self.last_cohort ==> exists|i: int, k: int|
            #![trigger self.bins@[i].1@[k]]
            0 <= i < self.bins@.len() && 0 <= k < self.bins@[i].1@.len()
                && self.bins@[i].1@[k].0 == self.last_cohort)
        &&& (self.first_cohort > self.last_cohort ==> self.first_cohort == i32::MAX
            && self.last_cohort == i32::MIN)
    }

    /// A fresh, empty histogram.
    pub fn new() -> (r: CohortHist)
        ensures
            r.wf(),
            r.bins@.len() == 0,
            r.cohort_names@.len() == 0,
            r.first_cohort == i32::MAX,
            r.last_cohort == i32::MIN,
            forall|b: YearMonth, c: i32| r.spec_value(b, c) is None,
            forall|b: YearMonth| !r.has_bin(b),
            forall|c: i32| r.spec_name(c) =~= Seq::<char>::empty(),
    {
        CohortHist {
            bins: Vec::new(),
            first_cohort: i32::MAX,
            last_cohort: i32::MIN,
            cohort_names: Vec::new(),
        }
    }

    /// Index of the row for bin `ym`, if one exists.
    fn find_bin_index(&self, ym: YearMonth) -> (r: Option<usize>)
        ensures
            match r {
                Some(i) => i < self.bins@.len() && self.bins@[i as int].0 == ym && (forall|k: int|
                    0 <= k < i ==> self.bins@[k].0 != ym),
                None => forall|k: int| 0 <= k < self.bins@.len() ==> self.bins@[k].0 != ym,
            },
    {
        let n = self.bins.len();
        let mut i: usize = 0;
        while i < n
            invariant
                n == self.bins@.len(),
                i <= n,
                forall|k: int| 0 <= k < i ==> self.bins@[k].0 != ym,
            decreases n - i,
        {
            if self.bins[i].0 == ym {
                return Some(i);
            }
            i = i + 1;
        }
        None
    }

    /// Index of the cell for `cohort` within a row's cells, if one exists.
    fn find_cell_index(cells: &Vec<(i32, i32)>, cohort: i32) -> (r: Option<usize>)
        ensures
            match r {
                Some(i) => i < cells@.len() && cells@[i as int].0 == cohort && (forall|k: int|
                    0 <= k < i ==> cells@[k].0 != cohort),
                None => forall|k: int| 0 <= k < cells@.len() ==> cells@[k].0 != cohort,
            },
    {
        let n = cells.len();
        let mut i: usize = 0;
        while i < n
            invariant
                n == cells@.len(),
                i <= n,
                forall|k: int| 0 <= k < i ==> cells@[k].0 != cohort,
            decreases n - i,
        {
            if cells[i].0 == cohort {
                return Some(i);
            }
            i = i + 1;
        }
        None
    }

    /// Index of a cohort's name entry, if one exists.
    fn find_name_index(&self, cohort: i32) -> (r: Option<usize>)
        ensures
            match r {
                Some(i) => i < self.cohort_names@.len() && self.cohort_names@[i as int].0 == cohort
                    && (forall|k: int| 0 <= k < i ==> self.cohort_names@[k].0 != cohort),
                None => forall|k: int|
                    0 <= k < self.cohort_names@.len() ==> self.cohort_names@[k].0 != cohort,
            },
    {
        let n = self.cohort_names.len();
        let mut i: usize = 0;
        while i < n
            invariant
                n == self.cohort_names@.len(),
                i <= n,
                forall|k: int| 0 <= k < i ==> self.cohort_names@[k].0 != cohort,
            decreases n - i,
        {
            if self.cohort_names[i].0 == cohort {
                return Some(i);
            }
            i = i + 1;
        }
        None
    }

    /// Stores a value for `(ym, cohort)` and widens the tracked cohort
    /// bounds when the cohort is not the sentinel.  The engine writes each
    /// key at most once; a second write to the same key is excluded by
    /// contract rather than silently overwritten.
    pub fn set_value(&mut self, ym: YearMonth, cohort: i32, value: i32)
        requires
            old(self).wf(),
            ym.wf(),
            ym.year < i32::MAX,
            old(self).spec_value(ym, cohort) is None,
            old(self).bins@.len() > 0 ==> ((ym.month is Some) <==> old(self).monthly()),
        ensures
            final(self).wf(),
            final(self).spec_value(ym, cohort) == Some(value),
            forall|b: YearMonth, c: i32|
                !(b == ym && c == cohort) ==> final(self).spec_value(b, c) == old(
                    self,
                ).spec_value(b, c),
            forall|b: YearMonth| final(self).has_bin(b) <==> (old(self).has_bin(b) || b == ym),
            final(self).cohort_names@ == old(self).cohort_names@,
            final(self).first_cohort == (if cohort != NO_COHORT && cohort < old(self).first_cohort {
                cohort
            } else {
                old(self).first_cohort
            }),
            final(self).last_cohort == (if cohort != NO_COHORT && cohort > old(self).last_cohort {
                cohort
            } else {
                old(self).last_cohort
            }),
            final(self).monthly() == if old(self).bins@.len() > 0 {
                old(self).monthly()
            } else {
                ym.month is Some
            },
    {
        if cohort != NO_COHORT {
            if cohort < self.first_cohort {
                self.first_cohort = cohort;
            }
            if cohort > self.last_cohort {
                self.last_cohort = cohort;
            }
        }
        match self.find_bin_index(ym) {
            Some(i) => {
                proof {
                    lemma_assoc_ym_found(self.bins@, ym, i as int);
                }
                let ghost old_bins = self.bins@;
                let ghost old_cells = self.bins@[i as int].1@;
                self.bins[i].1.push((cohort, value));
                proof {
                    let new_cells = old_cells.push((cohort, value));
                    assert(self.bins@ =~= old_bins.update(i as int, (ym, self.bins@[i as int].1)));
                    assert(self.bins@[i as int].1@ =~= new_cells);
                    lemma_assoc_i32_index(old_cells, cohort);
                    // the new cohort key was absent, so cell keys stay distinct
                    assert forall|b: YearMonth| true implies #[trigger] assoc_ym(self.bins@, b)
                        == (if b == ym {
                        Some(self.bins@[i as int].1)
                    } else {
                        assoc_ym(old_bins, b)
                    }) by {
                        if b == ym {
                            lemma_assoc_ym_found(self.bins@, b, i as int);
                        } else {
                            lemma_assoc_ym_index(old_bins, b);
                            lemma_assoc_ym_index(self.bins@, b);
                            if assoc_ym(old_bins, b) is Some {
                                lemma_first_occurrence_ym(old_bins, b);
                                let k0 = choose|k0: int|
                                    0 <= k0 < old_bins.len() && old_bins[k0].0 == b && (forall|
                                        m: int,
                                    | 0 <= m < k0 ==> old_bins[m].0 != b);
                                lemma_assoc_ym_found(old_bins, b, k0);
                                lemma_assoc_ym_found(self.bins@, b, k0);
                            }
                        }
                    }
                    assert forall|b: YearMonth, c: i32|
                        !(b == ym && c == cohort) implies final(self).spec_value(b, c) == old(
                        self,
                    ).spec_value(b, c) by {
                        if b == ym {
                            lemma_assoc_i32_push(old_cells, (cohort, value), c);
                        }
                    }
                    lemma_assoc_i32_push(old_cells, (cohort, value), cohort);
                    // well-formedness: bin keys and granularity are untouched,
                    // row `i` gained one cell with a fresh cohort key
                    let nb = self.bins@;
                    let ni = old_cells.len() as int;
                    assert(forall|k: int| 0 <= k < nb.len() ==> nb[k].0 == old_bins[k].0);
                    assert(forall|k: int|
                        0 <= k < nb.len() && k != i as int ==> (#[trigger] nb[k]).1
                            == old_bins[k].1);
                    assert(nb[i as int].1@[ni] == (cohort, value));
                    assert(forall|k: int| 0 <= k < ni ==> nb[i as int].1@[k] == old_cells[k]);
                    assert(forall|k: int| 0 <= k < ni ==> old_cells[k].0 != cohort);
                    // transfer or create the extremal cohort witnesses
                    let f2 = self.first_cohort;
                    let l2 = self.last_cohort;
                    let of = old(self).first_cohort;
                    let ol = old(self).last_cohort;
                    if f2 <= l2 {
                        if cohort != NO_COHORT && f2 == cohort {
                            assert(nb[i as int].1@[ni].0 == f2);
                        } else {
                            assert(of <= ol);
                            let (i0, k0) = choose|i0: int, k0: int|
                                0 <= i0 < old_bins.len() && 0 <= k0 < old_bins[i0].1@.len()
                                    && old_bins[i0].1@[k0].0 == of;
                            assert(nb[i0].1@[k0].0 == f2);
                        }
                        if cohort != NO_COHORT && l2 == cohort {
                            assert(nb[i as int].1@[ni].0 == l2);
                        } else {
                            assert(of <= ol);
                            let (i1, k1) = choose|i1: int, k1: int|
                                0 <= i1 < old_bins.len() && 0 <= k1 < old_bins[i1].1@.len()
                                    && old_bins[i1].1@[k1].0 == ol;
                            assert(nb[i1].1@[k1].0 == l2);
                        }
                    }
                }
            },
            None => {
                let ghost old_bins = self.bins@;
                let mut cells: Vec<(i32, i32)> = Vec::new();
                cells.push((cohort, value));
                self.bins.push((ym, cells));
                proof {
                    let nb = self.bins@;
                    let nlen = old_bins.len() as int;
                    assert forall|b: YearMonth| true implies #[trigger] assoc_ym(nb, b) == (if b
                        == ym {
                        Some(nb[nlen].1)
                    } else {
                        assoc_ym(old_bins, b)
                    }) by {
                        lemma_assoc_ym_index(old_bins, ym);
                        lemma_assoc_ym_push(old_bins, nb[nlen], b);
                    }
                    assert(final(self).spec_value(ym, cohort) == Some(value));
                    assert(forall|k: int| 0 <= k < nlen ==> nb[k] == old_bins[k]);
                    assert(nb[nlen].0 == ym);
                    assert(nb[nlen].1@.len() == 1);
                    assert(nb[nlen].1@[0] == (cohort, value));
                    assert(assoc_ym(old_bins, ym) is None) by {
                        lemma_assoc_ym_index(old_bins, ym);
                    }
                    assert forall|b: YearMonth, c: i32|
                        !(b == ym && c == cohort) implies final(self).spec_value(b, c) == old(
                        self,
                    ).spec_value(b, c) by {
                        if b == ym {
                            assert(c != cohort);
                            assert(nb[nlen].1@.drop_first() =~= Seq::<(i32, i32)>::empty());
                            assert(assoc_i32(nb[nlen].1@, c) == assoc_i32(
                                nb[nlen].1@.drop_first(),
                                c,
                            ));
                            assert(assoc_i32(nb[nlen].1@, c) is None);
                        }
                    }
                    // the extremal cohort witnesses: carried over, or the new cell
                    let f2 = self.first_cohort;
                    let l2 = self.last_cohort;
                    let of = old(self).first_cohort;
                    let ol = old(self).last_cohort;
                    if f2 <= l2 {
                        if cohort != NO_COHORT && f2 == cohort {
                            assert(nb[nlen].1@[0].0 == f2);
                        } else {
                            assert(of <= ol);
                            let (i0, k0) = choose|i0: int, k0: int|
                                0 <= i0 < old_bins.len() && 0 <= k0 < old_bins[i0].1@.len()
                                    && old_bins[i0].1@[k0].0 == of;
                            assert(nb[i0].1@[k0].0 == f2);
                        }
                        if cohort != NO_COHORT && l2 == cohort {
                            assert(nb[nlen].1@[0].0 == l2);
                        } else {
                            assert(of <= ol);
                            let (i1, k1) = choose|i1: int, k1: int|
                                0 <= i1 < old_bins.len() && 0 <= k1 < old_bins[i1].1@.len()
                                    && old_bins[i1].1@[k1].0 == ol;
                            assert(nb[i1].1@[k1].0 == l2);
                        }
                    }
                }
            },
        }
    }

    /// The stored value for `(ym, cohort)`; `None` when that key was never
    /// written (distinct from a stored zero).
    pub fn get_value(&self, ym: YearMonth, cohort: i32) -> (r: Option<i32>)
        ensures
            r == self.spec_value(ym, cohort),
    {
        match self.find_bin_index(ym) {
            Some(i) => {
                proof {
                    lemma_assoc_ym_found(self.bins@, ym, i as int);
                }
                let cells = &self.bins[i].1;
                match Self::find_cell_index(cells, cohort) {
                    Some(k) => {
                        proof {
                            lemma_assoc_i32_found(cells@, cohort, k as int);
                        }
                        Some(cells[k].1)
                    },
                    None => {
                        proof {
                            lemma_assoc_i32_index(cells@, cohort);
                        }
                        None
                    },
                }
            },
            None => {
                proof {
                    lemma_assoc_ym_index(self.bins@, ym);
                }
                None
            },
        }
    }

    /// Sets a cohort's display name to the given name, trimmed.  A name of
    /// nothing but white space stores as the empty name, which renders as
    /// empty; the export alone substitutes its placeholder.
    pub fn set_cohort_name(&mut self, cohort: i32, name: &str)
        requires
            old(self).wf(),
        ensures
            final(self).wf(),
            final(self).spec_name(cohort) == trim_spec(name@),
            forall|c: i32| c != cohort ==> final(self).spec_name(c) == old(self).spec_name(c),
            final(self).bins@ == old(self).bins@,
            final(self).first_cohort == old(self).first_cohort,
            final(self).last_cohort == old(self).last_cohort,
    {
        let name_string = trim_to_string(name);
        let ghost stored: Seq<char> = name_string@;
        match self.find_name_index(cohort) {
            Some(i) => {
                let ghost old_names = self.cohort_names@;
                self.cohort_names[i] = (cohort, name_string);
                proof {
                    assert(self.cohort_names@ =~= old_names.update(
                        i as int,
                        (old_names[i as int].0, self.cohort_names@[i as int].1),
                    ));
                    assert forall|c: i32| true implies #[trigger] assoc_i32(self.cohort_names@, c)
                        == (if c == cohort {
                        Some(self.cohort_names@[i as int].1)
                    } else {
                        assoc_i32(old_names, c)
                    }) by {
                        lemma_assoc_i32_update(
                            old_names,
                            i as int,
                            self.cohort_names@[i as int].1,
                            c,
                        );
                    }
                }
            },
            None => {
                let ghost old_names = self.cohort_names@;
                self.cohort_names.push((cohort, name_string));
                proof {
                    assert forall|c: i32| true implies #[trigger] assoc_i32(self.cohort_names@, c)
                        == (if c == cohort {
                        Some(self.cohort_names@[old_names.len() as int].1)
                    } else {
                        assoc_i32(old_names, c)
                    }) by {
                        lemma_assoc_i32_index(old_names, cohort);
                        lemma_assoc_i32_push(
                            old_names,
                            self.cohort_names@[old_names.len() as int],
                            c,
                        );
                    }
                }
            },
        }
    }

    /// A cohort's display name, or the empty string when unset.
    pub fn get_cohort_name(&self, cohort: i32) -> (r: String)
        ensures
            r@ == self.spec_name(cohort),
    {
        match self.find_name_index(cohort) {
            Some(i) => {
                proof {
                    lemma_assoc_i32_found(self.cohort_names@, cohort, i as int);
                }
                self.cohort_names[i].1.clone()
            },
            None => {
                proof {
                    lemma_assoc_i32_index(self.cohort_names@, cohort);
                }
                String::new()
            },
        }
    }

    /// The first and last bin ever written (in bin order) and the tracked
    /// cohort bounds; `None` when no bin was ever written.
    pub fn get_bounds(&self) -> (r: Option<(YearMonth, YearMonth, i32, i32)>)
        requires
            self.wf(),
        ensures
            (r is Some) <==> self.bins@.len() > 0,
            match r {
                Some((f, l, fc, lc)) => {
                    &&& self.has_bin(f)
                    &&& self.has_bin(l)
                    &&& (forall|b: YearMonth|
                        self.has_bin(b) ==> f.spec_le(b) && b.spec_le(l))
                    &&& fc == self.first_cohort
                    &&& lc == self.last_cohort
                    &&& self.is_min_bin(f)
                    &&& self.is_max_bin(l)
                },
                None => true,
            },
    {
        let n = self.bins.len();
        if n == 0 {
            proof {
                lemma_assoc_ym_index(self.bins@, YearMonth { year: 0, month: None });
            }
            return None;
        }
        let mut f = self.bins[0].0;
        let mut l = self.bins[0].0;
        let mut i: usize = 1;
        while i < n
            invariant
                n == self.bins@.len(),
                1 <= i <= n,
                exists|k: int| 0 <= k < i && self.bins@[k].0 == f,
                exists|k: int| 0 <= k < i && self.bins@[k].0 == l,
                forall|k: int| 0 <= k < i ==> f.spec_le(#[trigger] self.bins@[k].0),
                forall|k: int| 0 <= k < i ==> (#[trigger] self.bins@[k].0).spec_le(l),
            decreases n - i,
        {
            let b = self.bins[i].0;
            if b.le(&f) {
                f = b;
            }
            if l.le(&b) {
                l = b;
            }
            i = i + 1;
        }
        proof {
            lemma_assoc_ym_index(self.bins@, f);
            lemma_assoc_ym_index(self.bins@, l);
            assert forall|b: YearMonth| self.has_bin(b) implies f.spec_le(b) && b.spec_le(l) by {
                lemma_assoc_ym_index(self.bins@, b);
            }
        }
        Some((f, l, self.first_cohort, self.last_cohort))
    }

    /// Whether `b` is the least bin ever written.
    pub open spec fn is_min_bin(self, b: YearMonth) -> bool {
        self.has_bin(b) && forall|c: YearMonth| self.has_bin(c) ==> b.spec_le(c)
    }

    /// Whether `b` is the greatest bin ever written.
    pub open spec fn is_max_bin(self, b: YearMonth) -> bool {
        self.has_bin(b) && forall|c: YearMonth| self.has_bin(c) ==> c.spec_le(b)
    }

    /// The least bin ever written (meaningful only when bins exist).
    pub open spec fn spec_first_bin(self) -> YearMonth {
        choose|b: YearMonth| self.is_min_bin(b)
    }

    /// The greatest bin ever written (meaningful only when bins exist).
    pub open spec fn spec_last_bin(self) -> YearMonth {
        choose|b: YearMonth| self.is_max_bin(b)
    }

    /// Number of cohort columns between the tracked bounds, inclusive.
    pub fn get_n_cohorts(&self) -> (r: i32)
        requires
            self.first_cohort <= self.last_cohort,
            self.last_cohort - self.first_cohort + 1 <= i32::MAX,
        ensures
            r == self.last_cohort - self.first_cohort + 1,
    {
        self.last_cohort - self.first_cohort + 1
    }

    /// The stored value as an integer, absent keys reading as zero.
    pub open spec fn val_or_0(self, ym: YearMonth, cohort: i32) -> int {
        match self.spec_value(ym, cohort) {
            Some(v) => v as int,
            None => 0,
        }
    }

    /// Whether every bin's value sum fits the export's cell type.
    pub open spec fn sums_fit_spec(self) -> bool {
        forall|i: int|
            0 <= i < self.bins@.len() ==> i32::MIN <= cells_sum(
                (#[trigger] self.bins@[i]).1@,
            ) <= i32::MAX
    }

    /// One export row for bin `ym`: the leading sentinel sum column, one
    /// column per cohort between the tracked bounds (absent values read as
    /// zero), and a trailing sentinel column when the sentinel has a name.
    pub open spec fn spec_row(self, ym: YearMonth) -> Seq<(i32, i32)> {
        let lead = seq![(NO_COHORT, self.bin_sum(ym) as i32)];
        let ncoh: int = if self.first_cohort <= self.last_cohort {
            self.last_cohort - self.first_cohort + 1
        } else {
            0
        };
        let mid = Seq::new(
            ncoh as nat,
            |g: int|
                (
                    (self.first_cohort + g) as i32,
                    self.val_or_0(ym, (self.first_cohort + g) as i32) as i32,
                ),
        );
        let tail = if self.spec_name(NO_COHORT).len() > 0 {
            seq![(NO_COHORT, self.val_or_0(ym, NO_COHORT) as i32)]
        } else {
            Seq::<(i32, i32)>::empty()
        };
        lead + mid + tail
    }

    /// The first exported bin: the least bin written, with a present month
    /// truncated to the first month of its year.
    pub open spec fn aligned_first_bin(self) -> YearMonth {
        let f = self.spec_first_bin();
        match f.month {
            Some(_) => YearMonth { year: f.year, month: Some(0) },
            None => f,
        }
    }

    /// How many rows the export has: every bin from the aligned first to the
    /// last, inclusive, with no gaps.
    pub open spec fn spec_n_rows(self) -> int {
        if self.bins@.len() == 0 {
            0
        } else {
            self.spec_last_bin().idx() - self.aligned_first_bin().idx() + 1
        }
    }

    /// Sum of a row's cells.
    fn cells_total(cells: &Vec<(i32, i32)>) -> (r: i128)
        ensures
            r == cells_sum(cells@),
    {
        let n = cells.len();
        let mut acc: i128 = 0;
        let mut k: usize = 0;
        while k < n
            invariant
                n == cells@.len(),
                k <= n,
                acc == cells_sum(cells@.take(k as int)),
                -(k * 0x8000_0000) <= acc <= k * 0x8000_0000,
            decreases n - k,
        {
            let v = cells[k].1;
            proof {
                assert(cells@.take(k + 1).drop_last() =~= cells@.take(k as int));
                assert(cells@.take(k + 1).last() == cells@[k as int]);
            }
            acc = acc + (v as i128);
            k = k + 1;
        }
        proof {
            assert(cells@.take(n as int) =~= cells@);
        }
        acc
    }

    /// Whether the export can render every bin's sum: true exactly when each
    /// bin's value total is in cell range.  Callers check this before
    /// `to_vecs` or `to_csv`.
    pub fn sums_fit(&self) -> (r: bool)
        ensures
            r == self.sums_fit_spec(),
    {
        let n = self.bins.len();
        let mut i: usize = 0;
        while i < n
            invariant
                n == self.bins@.len(),
                i <= n,
                forall|k: int|
                    0 <= k < i ==> i32::MIN <= cells_sum((#[trigger] self.bins@[k]).1@)
                        <= i32::MAX,
            decreases n - i,
        {
            let t = Self::cells_total(&self.bins[i].1);
            if t < i32::MIN as i128 || t > i32::MAX as i128 {
                return false;
            }
            i = i + 1;
        }
        true
    }

    /// Sum of all values recorded in bin `ym`, zero when the bin is absent.
    fn bin_total(&self, ym: YearMonth) -> (r: i32)
        requires
            self.sums_fit_spec(),
        ensures
            r as int == self.bin_sum(ym),
    {
        match self.find_bin_index(ym) {
            Some(i) => {
                proof {
                    lemma_assoc_ym_found(self.bins@, ym, i as int);
                }
                let t = Self::cells_total(&self.bins[i].1);
                t as i32
            },
            None => {
                proof {
                    lemma_assoc_ym_index(self.bins@, ym);
                }
                0
            },
        }
    }

    /// The stored value, or zero when absent.
    fn get_value_or0(&self, ym: YearMonth, cohort: i32) -> (r: i32)
        ensures
            r as int == self.val_or_0(ym, cohort),
    {
        match self.get_value(ym, cohort) {
            Some(v) => v,
            None => 0,
        }
    }

    /// Builds one export row for bin `ym`.
    fn build_row(&self, ym: YearMonth) -> (cells: Vec<(i32, i32)>)
        requires
            self.wf(),
            self.sums_fit_spec(),
        ensures
            cells@ == self.spec_row(ym),
    {
        let ghost row = self.spec_row(ym);
        let ghost ncoh: int = if self.first_cohort <= self.last_cohort {
            self.last_cohort - self.first_cohort + 1
        } else {
            0
        };
        let mut cells: Vec<(i32, i32)> = Vec::new();
        let total = self.bin_total(ym);
        cells.push((NO_COHORT, total));
        let fc = self.first_cohort;
        let lc = self.last_cohort;
        if fc <= lc {
            let mut g = fc;
            while g < lc
                invariant
                    self.wf(),
                    fc == self.first_cohort,
                    lc == self.last_cohort,
                    fc <= g <= lc,
                    cells@.len() == 1 + (g - fc),
                    cells@[0] == (NO_COHORT, self.bin_sum(ym) as i32),
                    forall|k: int|
                        1 <= k < cells@.len() ==> #[trigger] cells@[k] == (
                            (fc + k - 1) as i32,
                            self.val_or_0(ym, (fc + k - 1) as i32) as i32,
                        ),
                decreases lc - g,
            {
                let v = self.get_value_or0(ym, g);
                cells.push((g, v));
                g = g + 1;
            }
            let v = self.get_value_or0(ym, lc);
            cells.push((lc, v));
        }
        let nm = self.get_cohort_name(NO_COHORT);
        if nm.as_str().unicode_len() > 0 {
            let v = self.get_value_or0(ym, NO_COHORT);
            cells.push((NO_COHORT, v));
        }
        proof {
            assert(cells@ =~= self.spec_row(ym));
        }
        cells
    }

    /// The export table as rows: one row per bin from the aligned first bin
    /// to the last bin, stepping by the bin successor, so every intermediate
    /// bin is materialized even when it holds no data.
    ///
    /// Law: the rows cover the range gap-free; the row count equals the
    /// number of bins from first (aligned) to last inclusive, whatever bins
    /// the data skips.
    pub fn to_vecs(&self) -> (r: Vec<(YearMonth, Vec<(i32, i32)>)>)
        requires
            self.wf(),
            self.sums_fit_spec(),
        ensures
            r@.len() == self.spec_n_rows(),
            forall|k: int|
                0 <= k < r@.len() ==> (#[trigger] r@[k]).0 == nth_next(
                    self.aligned_first_bin(),
                    k as nat,
                ),
            forall|k: int| 0 <= k < r@.len() ==> (#[trigger] r@[k]).1@ == self.spec_row(r@[k].0),
    {
        let mut rows: Vec<(YearMonth, Vec<(i32, i32)>)> = Vec::new();
        let bounds = self.get_bounds();
        match bounds {
            None => {
                rows
            },
            Some((f, l, fc, lc)) => {
                proof {
                    // the computed extremes pin down the chosen ones
                    let fb = self.spec_first_bin();
                    assert(self.is_min_bin(fb)) by {
                        assert(self.is_min_bin(f));
                    }
                    assert(fb.spec_le(f) && f.spec_le(fb));
                    lemma_bin_granularity(self, f);
                    lemma_bin_granularity(self, fb);
                    crate::yearmonth::lemma_idx_order(fb, f);
                    assert(fb == f);
                    let lb = self.spec_last_bin();
                    assert(self.is_max_bin(lb)) by {
                        assert(self.is_max_bin(l));
                    }
                    assert(lb.spec_le(l) && l.spec_le(lb));
                    lemma_bin_granularity(self, l);
                    lemma_bin_granularity(self, lb);
                    crate::yearmonth::lemma_idx_order(lb, l);
                    assert(lb == l);
                }
                let aligned = match f.month {
                    Some(_) => YearMonth { year: f.year, month: Some(0) },
                    None => f,
                };
                let ghost af = self.aligned_first_bin();
                proof {
                    assert(aligned == af);
                    assert(af.wf() && f.wf() && l.wf());
                    assert((af.month is Some) <==> (f.month is Some));
                    crate::yearmonth::lemma_idx_order(f, l);
                    assert(af.idx() <= f.idx());
                    assert((f.month is Some) <==> (l.month is Some)) by {
                        lemma_bin_granularity(self, f);
                        lemma_bin_granularity(self, l);
                    }
                    assert(l.year < i32::MAX) by {
                        lemma_bin_granularity(self, l);
                    }
                }
                let mut ym = aligned;
                while ym.le(&l)
                    invariant
                        self.wf(),
                        self.sums_fit_spec(),
                        self.bins@.len() > 0,
                        af == self.aligned_first_bin(),
                        l == self.spec_last_bin(),
                        l.wf(),
                        l.year < i32::MAX,
                        ym.wf(),
                        (ym.month is Some) <==> (l.month is Some),
                        af.idx() <= ym.idx() <= l.idx() + 1,
                        ym == nth_next(af, rows@.len() as nat),
                        rows@.len() == ym.idx() - af.idx(),
                        forall|k: int|
                            0 <= k < rows@.len() ==> (#[trigger] rows@[k]).0 == nth_next(
                                af,
                                k as nat,
                            ),
                        forall|k: int|
                            0 <= k < rows@.len() ==> (#[trigger] rows@[k]).1@ == self.spec_row(
                                rows@[k].0,
                            ),
                    decreases l.idx() + 1 - ym.idx(),
                {
                    proof {
                        crate::yearmonth::lemma_idx_order(ym, l);
                    }
                    let cells = self.build_row(ym);
                    rows.push((ym, cells));
                    proof {
                        crate::yearmonth::lemma_next_idx(ym);
                    }
                    ym = ym.next();
                }
                proof {
                    crate::yearmonth::lemma_idx_order(ym, l);
                    assert(ym.idx() == l.idx() + 1);
                    assert(rows@.len() == self.spec_n_rows());
                }
                rows
            },
        }
    }
}

/// A row's cell values joined by the column separator.
pub open spec fn cells_str(cells: Seq<(i32, i32)>) -> Seq<char>
    decreases cells.len(),
{
    if cells.len() == 0 {
        Seq::empty()
    } else if cells.len() == 1 {
        int_str(cells[0].1 as int)
    } else {
        cells_str(cells.drop_last()) + seq!['|'] + int_str(cells.last().1 as int)
    }
}

/// The bin-identifying columns that begin a data row.
pub open spec fn row_prefix_str(ym: YearMonth) -> Seq<char> {
    match ym.month {
        Some(m) => int_str(ym.year as int) + seq!['|'] + int_str(m as int) + seq!['|'],
        None => int_str(ym.year as int) + seq!['|'],
    }
}

impl CohortHist {
    /// A cohort's display name, with the placeholder for empty names so no
    /// export column header is ever blank.
    pub open spec fn name_or_blank(self, cohort: i32) -> Seq<char> {
        if self.spec_name(cohort).len() == 0 {
            "(blank)"@
        } else {
            self.spec_name(cohort)
        }
    }

    /// The header cells for cohorts `g ..= lc`, each preceded by the column
    /// separator.
    pub open spec fn header_cells_str(self, g: int, lc: int) -> Seq<char>
        decreases lc + 1 - g,
    {
        if g > lc {
            Seq::empty()
        } else {
            self.header_cells_str(g, lc - 1) + seq!['|'] + self.name_or_blank(lc as i32)
        }
    }

    /// The export's header row.
    pub open spec fn header_str(self) -> Seq<char> {
        (if self.monthly() {
            "Year|Month|Sum"@
        } else {
            "Year|Sum"@
        }) + self.header_cells_str(self.first_cohort as int, self.last_cohort as int) + (
        if self.spec_name(NO_COHORT).len() > 0 {
            seq!['|'] + self.spec_name(NO_COHORT)
        } else {
            Seq::<char>::empty()
        }) + seq!['\n']
    }

    /// One data row of the export.
    pub open spec fn row_str(self, ym: YearMonth) -> Seq<char> {
        row_prefix_str(ym) + cells_str(self.spec_row(ym))
    }

    /// The first `n` data rows, joined by line breaks.
    pub open spec fn rows_str_upto(self, n: int) -> Seq<char>
        decreases n,
    {
        if n <= 0 {
            Seq::empty()
        } else if n == 1 {
            self.row_str(self.aligned_first_bin())
        } else {
            self.rows_str_upto(n - 1) + seq!['\n'] + self.row_str(
                nth_next(self.aligned_first_bin(), (n - 1) as nat),
            )
        }
    }

    /// The whole export: the header row, then one data row per bin from the
    /// aligned first bin to the last, gap-free; empty when nothing was ever
    /// written.
    pub open spec fn csv_str(self) -> Seq<char> {
        if self.bins@.len() == 0 {
            Seq::empty()
        } else {
            self.header_str() + self.rows_str_upto(self.spec_n_rows())
        }
    }

    /// Renders the histogram as the delimiter-separated text table the
    /// external renderer consumes.
    #[verifier::rlimit(100)]
    pub fn to_csv(&self) -> (r: String)
        requires
            self.wf(),
            self.sums_fit_spec(),
        ensures
            r@ == self.csv_str(),
    {
        let mut out = String::new();
        let vecs = self.to_vecs();
        let bounds = self.get_bounds();
        match bounds {
            None => {
                proof {
                    assert(out@ =~= self.csv_str());
                }
                out
            },
            Some((f, l, fc, lc)) => {
                let ghost af = self.aligned_first_bin();
                proof {
                    reveal_strlit("|");
                    reveal_strlit("\n");
                    let fb = self.spec_first_bin();
                    assert(self.is_min_bin(fb)) by {
                        assert(self.is_min_bin(f));
                    }
                    lemma_bin_granularity(self, f);
                    lemma_bin_granularity(self, fb);
                    crate::yearmonth::lemma_idx_order(fb, f);
                    assert(fb == f);
                    let lb = self.spec_last_bin();
                    assert(self.is_max_bin(lb)) by {
                        assert(self.is_max_bin(l));
                    }
                    lemma_bin_granularity(self, l);
                    lemma_bin_granularity(self, lb);
                    crate::yearmonth::lemma_idx_order(lb, l);
                    assert(lb == l);
                    crate::yearmonth::lemma_idx_order(f, l);
                    assert(af.idx() <= f.idx());
                    assert(self.spec_n_rows() >= 1);
                    assert(vecs@[0].0 == nth_next(af, 0));
                    assert((af.month is Some) <==> self.monthly());
                }
                match vecs[0].0.month {
                    Some(_) => out.append("Year|Month|Sum"),
                    None => out.append("Year|Sum"),
                }
                if fc <= lc {
                    let ghost base = out@;
                    let mut g = fc;
                    while g < lc
                        invariant
                            self.wf(),
                            fc == self.first_cohort,
                            lc == self.last_cohort,
                            fc <= g <= lc,
                            out@ == base + self.header_cells_str(fc as int, g - 1),
                        decreases lc - g,
                    {
                        proof {
                            reveal_strlit("|");
                        }
                        out.append("|");
                        let nm = self.get_cohort_name(g);
                        if nm.as_str().unicode_len() == 0 {
                            out.append("(blank)");
                        } else {
                            out.append(nm.as_str());
                        }
                        proof {
                            assert(out@ =~= base + self.header_cells_str(fc as int, g as int));
                        }
                        g = g + 1;
                    }
                    proof {
                        reveal_strlit("|");
                    }
                    out.append("|");
                    let nm = self.get_cohort_name(lc);
                    if nm.as_str().unicode_len() == 0 {
                        out.append("(blank)");
                    } else {
                        out.append(nm.as_str());
                    }
                    proof {
                        assert(out@ =~= base + self.header_cells_str(fc as int, lc as int));
                    }
                }
                let nm = self.get_cohort_name(NO_COHORT);
                if nm.as_str().unicode_len() > 0 {
                    out.append("|");
                    out.append(nm.as_str());
                }
                out.append("\n");
                proof {
                    assert(out@ =~= self.header_str());
                }
                let n_rows = vecs.len();
                let mut k: usize = 0;
                while k < n_rows
                    invariant
                        self.wf(),
                        self.sums_fit_spec(),
                        self.bins@.len() > 0,
                        af == self.aligned_first_bin(),
                        n_rows == vecs@.len(),
                        vecs@.len() == self.spec_n_rows(),
                        k <= n_rows,
                        forall|m: int|
                            0 <= m < vecs@.len() ==> (#[trigger] vecs@[m]).0 == nth_next(
                                af,
                                m as nat,
                            ),
                        forall|m: int|
                            0 <= m < vecs@.len() ==> (#[trigger] vecs@[m]).1@ == self.spec_row(
                                vecs@[m].0,
                            ),
                        out@ == self.header_str() + self.rows_str_upto(k as int),
                    decreases n_rows - k,
                {
                    proof {
                        reveal_strlit("|");
                        reveal_strlit("\n");
                    }
                    if k > 0 {
                        out.append("\n");
                    }
                    let ym = vecs[k].0;
                    let ghost pre = out@;
                    let ys = i64_to_string(ym.year as i64);
                    out.append(ys.as_str());
                    out.append("|");
                    match ym.month {
                        Some(m) => {
                            let ms = i64_to_string(m as i64);
                            out.append(ms.as_str());
                            out.append("|");
                        },
                        None => {},
                    }
                    proof {
                        assert(out@ =~= pre + row_prefix_str(ym));
                    }
                    let ghost pre2 = out@;
                    let cells = &vecs[k].1;
                    let n_cells = cells.len();
                    let mut j: usize = 0;
                    while j < n_cells
                        invariant
                            n_cells == cells@.len(),
                            j <= n_cells,
                            out@ == pre2 + cells_str(cells@.take(j as int)),
                        decreases n_cells - j,
                    {
                        proof {
                            reveal_strlit("|");
                        }
                        if j > 0 {
                            out.append("|");
                        }
                        let vs = i64_to_string(cells[j].1 as i64);
                        out.append(vs.as_str());
                        proof {
                            assert(cells@.take(j + 1).drop_last() =~= cells@.take(j as int));
                            assert(cells@.take(j + 1).last() == cells@[j as int]);
                            if j == 0 {
                                assert(cells@.take(1)[0] == cells@[0]);
                            }
                            assert(out@ =~= pre2 + cells_str(cells@.take(j + 1)));
                        }
                        j = j + 1;
                    }
                    proof {
                        assert(cells@.take(n_cells as int) =~= cells@);
                        assert(out@ =~= self.header_str() + self.rows_str_upto(k + 1));
                    }
                    k = k + 1;
                }
                proof {
                    assert(out@ =~= self.csv_str());
                }
                out
            },
        }
    }
}

/// Every written bin has the granularity of the first stored bin, is
/// well-formed, and leaves room for a successor.
proof fn lemma_bin_granularity(h: &CohortHist, b: YearMonth)
    requires
        h.wf(),
        h.has_bin(b),
    ensures
        b.wf(),
        b.year < i32::MAX,
        (b.month is Some) <==> (h.bins@[0].0.month is Some),
{
    lemma_assoc_ym_index(h.bins@, b);
}

proof fn lemma_first_occurrence_ym<V>(s: Seq<(YearMonth, V)>, key: YearMonth)
    requires
        exists|i: int| 0 <= i < s.len() && s[i].0 == key,
    ensures
        exists|i: int|
            0 <= i < s.len() && s[i].0 == key && (forall|m: int| 0 <= m < i ==> s[m].0 != key),
    decreases s.len(),
{
    if s[0].0 == key {
        assert(0 <= 0 < s.len() && s[0].0 == key && (forall|m: int| 0 <= m < 0 ==> s[m].0 != key));
    } else {
        let i = choose|i: int| 0 <= i < s.len() && s[i].0 == key;
        assert(s.drop_first()[i - 1].0 == key);
        lemma_first_occurrence_ym(s.drop_first(), key);
        let j = choose|j: int|
            0 <= j < s.drop_first().len() && s.drop_first()[j].0 == key && (forall|m: int|
                0 <= m < j ==> s.drop_first()[m].0 != key);
        assert(s[j + 1].0 == key);
        assert forall|m: int| 0 <= m < j + 1 implies s[m].0 != key by {
            if m > 0 {
                assert(s.drop_first()[m - 1].0 != key);
            }
        }
    }
}

} // verus!
