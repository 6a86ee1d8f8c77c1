//! Grouped aggregation: summing and distinct-counting entries by key, and
//! ranking categories to select a top set.

use vstd::prelude::*;
use vstd::seq_lib::*;
use crate::yearmonth::YearMonth;

verus! {

/// A grouping key: a bin, a cohort id, and up to two strings (category or
/// author names); parts a grouping does not use hold a default.
#[derive(Debug)]
pub struct Key {
    pub ym: YearMonth,
    pub num: i32,
    pub s1: String,
    pub s2: String,
}

/// The mathematical value of a key.
pub open spec fn key_view(k: Key) -> (YearMonth, i32, Seq<char>, Seq<char>) {
    (k.ym, k.num, k.s1@, k.s2@)
}

/// Key equality, by value.
pub fn key_eq(a: &Key, b: &Key) -> (r: bool)
    ensures
        r == (key_view(*a) == key_view(*b)),
{
    a.ym == b.ym && a.num == b.num && a.s1 == b.s1 && a.s2 == b.s2
}

/// An independent copy of a key.
pub fn clone_key(k: &Key) -> (r: Key)
    ensures
        key_view(r) == key_view(*k),
{
    Key { ym: k.ym, num: k.num, s1: k.s1.clone(), s2: k.s2.clone() }
}

/// Sum of the weights of the entries with the given key.
pub open spec fn sum_where(entries: Seq<(Key, i64)>, k: Key) -> int
    decreases entries.len(),
{
    if entries.len() == 0 {
        0
    } else {
        sum_where(entries.drop_last(), k) + if key_view(entries.last().0) == key_view(k) {
            entries.last().1 as int
        } else {
            0int
        }
    }
}

/// Whether an entry with the given key exists.
pub open spec fn has_key(entries: Seq<(Key, i64)>, k: Key) -> bool {
    exists|i: int| 0 <= i < entries.len() && key_view((#[trigger] entries[i]).0) == key_view(k)
}

/// Whether a group with the given key exists.
pub open spec fn has_group(groups: Seq<(Key, i128)>, k: Key) -> bool {
    exists|i: int| 0 <= i < groups.len() && key_view((#[trigger] groups[i]).0) == key_view(k)
}

pub proof fn lemma_sum_where_absent(entries: Seq<(Key, i64)>, k: Key)
    requires
        forall|i: int| 0 <= i < entries.len() ==> key_view((#[trigger] entries[i]).0) != key_view(k),
    ensures
        sum_where(entries, k) == 0,
    decreases entries.len(),
{
    if entries.len() > 0 {
        lemma_sum_where_absent(entries.drop_last(), k);
    }
}

/// A per-entry weight bound carries over to every key's sum.
pub proof fn lemma_sum_where_bound(entries: Seq<(Key, i64)>, k: Key, b: int)
    requires
        forall|i: int| 0 <= i < entries.len() ==> 0 <= (#[trigger] entries[i]).1 <= b,
    ensures
        0 <= sum_where(entries, k) <= entries.len() * b,
    decreases entries.len(),
{
    if entries.len() > 0 {
        lemma_sum_where_bound(entries.drop_last(), k, b);
        assert(entries[0].1 >= 0);
        assert((entries.len() - 1) * b + b == entries.len() * b) by (nonlinear_arith);
    }
}

/// Keys with equal values have equal sums.
pub proof fn lemma_sum_where_congr(entries: Seq<(Key, i64)>, k1: Key, k2: Key)
    requires
        key_view(k1) == key_view(k2),
    ensures
        sum_where(entries, k1) == sum_where(entries, k2),
    decreases entries.len(),
{
    if entries.len() > 0 {
        lemma_sum_where_congr(entries.drop_last(), k1, k2);
    }
}

/// Index of the group with the given key, if any.
pub(crate) fn find_group(groups: &Vec<(Key, i128)>, k: &Key) -> (r: Option<usize>)
    ensures
        match r {
            Some(i) => i < groups@.len() && key_view(groups@[i as int].0) == key_view(*k),
            None => forall|m: int|
                0 <= m < groups@.len() ==> key_view((#[trigger] groups@[m]).0) != key_view(*k),
        },
{
    let n = groups.len();
    let mut i: usize = 0;
    while i < n
        invariant
            n == groups@.len(),
            i <= n,
            forall|m: int| 0 <= m < i ==> key_view((#[trigger] groups@[m]).0) != key_view(*k),
        decreases n - i,
    {
        if key_eq(&groups[i].0, k) {
            return Some(i);
        }
        i = i + 1;
    }
    None
}

/// Groups the entries by key and sums each key's weights.  The output holds
/// every key that occurs, exactly once, with the exact sum of its weights.
#[verifier::rlimit(100)]
pub fn group_sum(entries: &Vec<(Key, i64)>) -> (out: Vec<(Key, i128)>)
    requires
        forall|i: int| 0 <= i < entries@.len() ==> (#[trigger] entries@[i]).1 >= 0,
    ensures
        forall|i: int|
            0 <= i < out@.len() ==> (#[trigger] out@[i]).1 == sum_where(entries@, out@[i].0),
        forall|i: int, j: int|
            0 <= i < j < out@.len() ==> key_view(out@[i].0) != key_view(out@[j].0),
        forall|i: int| 0 <= i < out@.len() ==> has_key(entries@, (#[trigger] out@[i]).0),
        forall|i: int| 0 <= i < entries@.len() ==> has_group(out@, (#[trigger] entries@[i]).0),
        out@.len() <= entries@.len(),
    decreases entries@.len(),
{
    let n = entries.len();
    let mut out: Vec<(Key, i128)> = Vec::new();
    let mut i: usize = 0;
    while i < n
        invariant
            n == entries@.len(),
            i <= n,
            forall|m: int| 0 <= m < entries@.len() ==> (#[trigger] entries@[m]).1 >= 0,
            forall|j: int|
                0 <= j < out@.len() ==> (#[trigger] out@[j]).1 == sum_where(
                    entries@.take(i as int),
                    out@[j].0,
                ),
            forall|j: int, l: int|
                0 <= j < l < out@.len() ==> key_view(out@[j].0) != key_view(out@[l].0),
            forall|j: int| 0 <= j < out@.len() ==> has_key(entries@.take(i as int), (#[trigger] out@[j]).0),
            forall|m: int| 0 <= m < i ==> has_group(out@, (#[trigger] entries@[m]).0),
            forall|j: int| 0 <= j < out@.len() ==> 0 <= (#[trigger] out@[j]).1 <= (i as int) * 0x7fff_ffff_ffff_ffff,
            out@.len() <= i,
        decreases n - i,
    {
        let ghost prefix = entries@.take(i as int);
        let ghost prefix2 = entries@.take(i as int + 1);
        proof {
            assert(prefix2.drop_last() =~= prefix);
            assert(prefix2.last() == entries@[i as int]);
        }
        let w = entries[i].1;
        match find_group(&out, &entries[i].0) {
            Some(j) => {
                let ghost old_out = out@;
                let cur = out[j].1;
                proof {
                    assert((i as int) * 0x7fff_ffff_ffff_ffff <= (n as int)
                        * 0x7fff_ffff_ffff_ffff);
                    assert(n as int <= 0xffff_ffff_ffff_ffff);
                }
                out[j].1 = cur + (w as i128);
                proof {
                    lemma_sum_where_congr(prefix2, out@[j as int].0, entries@[i as int].0);
                    lemma_sum_where_congr(prefix, out@[j as int].0, entries@[i as int].0);
                    assert forall|l: int| 0 <= l < out@.len() implies (#[trigger] out@[l]).1
                        == sum_where(prefix2, out@[l].0) by {
                        if l != j {
                            assert(out@[l] == old_out[l]);
                            assert(key_view(out@[l].0) != key_view(out@[j as int].0));
                        }
                    }
                    assert forall|m: int| 0 <= m <= i implies has_group(
                        out@,
                        (#[trigger] entries@[m]).0,
                    ) by {
                        if m < i {
                            let v = choose|v: int|
                                0 <= v < old_out.len() && key_view(
                                    (#[trigger] old_out[v]).0,
                                ) == key_view(entries@[m].0);
                            assert(key_view(out@[v].0) == key_view(entries@[m].0));
                        } else {
                            assert(key_view(out@[j as int].0) == key_view(entries@[i as int].0));
                        }
                    }
                }
            },
            None => {
                let ghost old_out = out@;
                let nk = clone_key(&entries[i].0);
                out.push((nk, w as i128));
                proof {
                    assert(out@.drop_last() =~= old_out);
                    let last = out@.len() - 1;
                    assert(key_view(out@[last].0) == key_view(entries@[i as int].0));
                    // the key is new: no entry of the prefix carries it
                    assert forall|m: int| 0 <= m < prefix.len() implies key_view(
                        (#[trigger] prefix[m]).0,
                    ) != key_view(out@[last].0) by {
                        if key_view(prefix[m].0) == key_view(out@[last].0) {
                            assert(prefix[m] == entries@[m]);
                            assert(has_group(old_out, entries@[m].0));
                            let v = choose|v: int|
                                0 <= v < old_out.len() && key_view(
                                    (#[trigger] old_out[v]).0,
                                ) == key_view(entries@[m].0);
                            assert(false);
                        }
                    }
                    lemma_sum_where_absent(prefix, out@[last].0);
                    lemma_sum_where_congr(prefix2, out@[last].0, entries@[i as int].0);
                    assert(sum_where(prefix2, out@[last].0) == w as int);
                    assert forall|l: int| 0 <= l < out@.len() implies (#[trigger] out@[l]).1
                        == sum_where(prefix2, out@[l].0) by {
                        if l < last {
                            assert(out@[l] == old_out[l]);
                            assert(key_view(old_out[l].0) != key_view(entries@[i as int].0));
                        }
                    }
                    assert forall|l: int| 0 <= l < out@.len() implies has_key(
                        prefix2,
                        (#[trigger] out@[l]).0,
                    ) by {
                        if l < last {
                            assert(out@[l] == old_out[l]);
                            let v = choose|v: int|
                                0 <= v < prefix.len() && key_view(
                                    (#[trigger] prefix[v]).0,
                                ) == key_view(old_out[l].0);
                            assert(key_view(prefix2[v].0) == key_view(out@[l].0));
                        } else {
                            assert(key_view(prefix2[i as int].0) == key_view(out@[l].0));
                        }
                    }
                    assert forall|m: int| 0 <= m <= i implies has_group(
                        out@,
                        (#[trigger] entries@[m]).0,
                    ) by {
                        if m < i {
                            let v = choose|v: int|
                                0 <= v < old_out.len() && key_view(
                                    (#[trigger] old_out[v]).0,
                                ) == key_view(entries@[m].0);
                            assert(key_view(out@[v].0) == key_view(entries@[m].0));
                        } else {
                            assert(key_view(out@[last].0) == key_view(entries@[i as int].0));
                        }
                    }
                }
            },
        }
        i = i + 1;
    }
    proof {
        assert(entries@.take(n as int) =~= entries@);
    }
    out
}

/// The set of distinct strings among the entries with the given key.
pub open spec fn strs_where(entries: Seq<(Key, String)>, k: Key) -> Set<Seq<char>>
    decreases entries.len(),
{
    if entries.len() == 0 {
        Set::empty()
    } else {
        let rest = strs_where(entries.drop_last(), k);
        if key_view(entries.last().0) == key_view(k) {
            rest.insert(entries.last().1@)
        } else {
            rest
        }
    }
}

/// Whether an entry with the given key exists.
pub open spec fn has_skey(entries: Seq<(Key, String)>, k: Key) -> bool {
    exists|i: int| 0 <= i < entries.len() && key_view((#[trigger] entries[i]).0) == key_view(k)
}

/// Whether a count group with the given key exists.
pub open spec fn has_count(groups: Seq<(Key, i64)>, k: Key) -> bool {
    exists|i: int| 0 <= i < groups.len() && key_view((#[trigger] groups[i]).0) == key_view(k)
}

pub proof fn lemma_strs_where_absent(entries: Seq<(Key, String)>, k: Key)
    requires
        forall|i: int| 0 <= i < entries.len() ==> key_view((#[trigger] entries[i]).0) != key_view(k),
    ensures
        strs_where(entries, k) == Set::<Seq<char>>::empty(),
    decreases entries.len(),
{
    if entries.len() > 0 {
        lemma_strs_where_absent(entries.drop_last(), k);
    }
}

/// Keys with equal values collect equal sets.
pub proof fn lemma_strs_where_congr(entries: Seq<(Key, String)>, k1: Key, k2: Key)
    requires
        key_view(k1) == key_view(k2),
    ensures
        strs_where(entries, k1) == strs_where(entries, k2),
    decreases entries.len(),
{
    if entries.len() > 0 {
        lemma_strs_where_congr(entries.drop_last(), k1, k2);
    }
}

/// Index of the collection group with the given key, if any.
fn find_sgroup(groups: &Vec<(Key, Vec<String>)>, k: &Key) -> (r: Option<usize>)
    ensures
        match r {
            Some(i) => i < groups@.len() && key_view(groups@[i as int].0) == key_view(*k),
            None => forall|m: int|
                0 <= m < groups@.len() ==> key_view((#[trigger] groups@[m]).0) != key_view(*k),
        },
{
    let n = groups.len();
    let mut i: usize = 0;
    while i < n
        invariant
            n == groups@.len(),
            i <= n,
            forall|m: int| 0 <= m < i ==> key_view((#[trigger] groups@[m]).0) != key_view(*k),
        decreases n - i,
    {
        if key_eq(&groups[i].0, k) {
            return Some(i);
        }
        i = i + 1;
    }
    None
}

/// Whether a string with the given characters is in the list.
fn contains_str(v: &Vec<String>, s: &String) -> (r: bool)
    ensures
        r == v@.map_values(|x: String| x@).contains(s@),
{
    let n = v.len();
    let mut i: usize = 0;
    while i < n
        invariant
            n == v@.len(),
            i <= n,
            forall|m: int| 0 <= m < i ==> (#[trigger] v@[m])@ != s@,
        decreases n - i,
    {
        if v[i] == *s {
            proof {
                assert(v@.map_values(|x: String| x@)[i as int] == s@);
            }
            return true;
        }
        i = i + 1;
    }
    proof {
        let mv = v@.map_values(|x: String| x@);
        assert forall|m: int| 0 <= m < mv.len() implies mv[m] != s@ by {
            assert(mv[m] == v@[m]@);
        }
    }
    false
}

/// Whether some collection group carries the given key.
pub open spec fn covered(groups: Seq<(Key, Vec<String>)>, k: Key) -> bool {
    exists|j: int| 0 <= j < groups.len() && key_view((#[trigger] groups[j]).0) == key_view(k)
}

/// Whether a group is wholly consistent with a prefix of entries.
spec fn sgroup_ok(g: (Key, Vec<String>), prefix: Seq<(Key, String)>) -> bool {
    &&& g.1@.map_values(|x: String| x@).no_duplicates()
    &&& g.1@.map_values(|x: String| x@).to_set() == strs_where(prefix, g.0)
}

/// Groups the entries by key and counts each key's distinct strings.  The
/// output holds every key that occurs, exactly once, with the exact number
/// of distinct strings recorded under it.
#[verifier::rlimit(100)]
pub fn group_count_distinct(entries: &Vec<(Key, String)>) -> (out: Vec<(Key, i64)>)
    requires
        entries@.len() <= 0x4000_0000,
    ensures
        forall|i: int|
            0 <= i < out@.len() ==> (#[trigger] out@[i]).1 == strs_where(
                entries@,
                out@[i].0,
            ).len(),
        forall|i: int, j: int|
            0 <= i < j < out@.len() ==> key_view(out@[i].0) != key_view(out@[j].0),
        forall|i: int| 0 <= i < out@.len() ==> has_skey(entries@, (#[trigger] out@[i]).0),
        forall|i: int|
            0 <= i < entries@.len() ==> has_count(out@, (#[trigger] entries@[i]).0),
        forall|i: int| 0 <= i < out@.len() ==> 0 <= (#[trigger] out@[i]).1 <= entries@.len(),
{
    let n = entries.len();
    let mut groups: Vec<(Key, Vec<String>)> = Vec::new();
    let mut i: usize = 0;
    while i < n
        invariant
            n == entries@.len(),
            n <= 0x4000_0000,
            i <= n,
            forall|j: int|
                0 <= j < groups@.len() ==> sgroup_ok(
                    #[trigger] groups@[j],
                    entries@.take(i as int),
                ),
            forall|j: int, l: int|
                0 <= j < l < groups@.len() ==> key_view(groups@[j].0) != key_view(groups@[l].0),
            forall|j: int|
                0 <= j < groups@.len() ==> has_skey(
                    entries@.take(i as int),
                    (#[trigger] groups@[j]).0,
                ),
            forall|m: int| 0 <= m < i ==> covered(groups@, (#[trigger] entries@[m]).0),
            forall|j: int| 0 <= j < groups@.len() ==> (#[trigger] groups@[j]).1@.len() <= i,
        decreases n - i,
    {
        let ghost prefix = entries@.take(i as int);
        let ghost prefix2 = entries@.take(i as int + 1);
        proof {
            assert(prefix2.drop_last() =~= prefix);
            assert(prefix2.last() == entries@[i as int]);
        }
        match find_sgroup(&groups, &entries[i].0) {
            Some(j) => {
                let ghost old_groups = groups@;
                let ghost gk = groups@[j as int].0;
                let present = contains_str(&groups[j].1, &entries[i].1);
                proof {
                    lemma_strs_where_congr(prefix, gk, entries@[i as int].0);
                    lemma_strs_where_congr(prefix2, gk, entries@[i as int].0);
                }
                if present {
                    proof {
                        let mv = old_groups[j as int].1@.map_values(|x: String| x@);
                        assert(strs_where(prefix2, gk) =~= strs_where(prefix, gk).insert(
                            entries@[i as int].1@,
                        ));
                        assert(strs_where(prefix, gk).contains(entries@[i as int].1@));
                        assert(strs_where(prefix2, gk) =~= strs_where(prefix, gk));
                        assert forall|m: int| 0 <= m <= i implies covered(
                            groups@,
                            (#[trigger] entries@[m]).0,
                        ) by {}
                    }
                } else {
                    let s = entries[i].1.clone();
                    groups[j].1.push(s);
                    proof {
                        let oldv = old_groups[j as int].1@.map_values(|x: String| x@);
                        let newv = groups@[j as int].1@.map_values(|x: String| x@);
                        assert(groups@[j as int].1@ =~= old_groups[j as int].1@.push(
                            entries@[i as int].1,
                        ));
                        assert(newv =~= oldv.push(entries@[i as int].1@));
                        assert(!oldv.contains(entries@[i as int].1@));
                        assert(newv.no_duplicates());
                        oldv.lemma_push_to_set_commute(entries@[i as int].1@);
                        assert(newv.to_set() =~= oldv.to_set().insert(entries@[i as int].1@));
                        assert(strs_where(prefix2, gk) =~= strs_where(prefix, gk).insert(
                            entries@[i as int].1@,
                        ));
                        assert(sgroup_ok(groups@[j as int], prefix2));
                        assert forall|l: int| 0 <= l < groups@.len() implies sgroup_ok(
                            #[trigger] groups@[l],
                            prefix2,
                        ) by {
                            if l != j {
                                assert(groups@[l] == old_groups[l]);
                                assert(key_view(groups@[l].0) != key_view(gk));
                                lemma_strs_where_congr(prefix, groups@[l].0, groups@[l].0);
                            }
                        }
                    }
                }
                proof {
                    assert forall|l: int| 0 <= l < groups@.len() implies sgroup_ok(
                        #[trigger] groups@[l],
                        prefix2,
                    ) by {
                        if l != j {
                            assert(groups@[l] == old_groups[l]);
                            assert(key_view(groups@[l].0) != key_view(entries@[i as int].0));
                        }
                    }
                    assert forall|l: int| 0 <= l < groups@.len() implies has_skey(
                        prefix2,
                        (#[trigger] groups@[l]).0,
                    ) by {
                        assert(key_view(groups@[l].0) == key_view(old_groups[l].0));
                        let v = choose|v: int|
                            0 <= v < prefix.len() && key_view((#[trigger] prefix[v]).0)
                                == key_view(old_groups[l].0);
                        assert(key_view(prefix2[v].0) == key_view(groups@[l].0));
                    }
                    assert forall|m: int| 0 <= m <= i implies covered(
                        groups@,
                        (#[trigger] entries@[m]).0,
                    ) by {
                        if m < i {
                            let v = choose|v: int|
                                0 <= v < old_groups.len() && key_view(
                                    (#[trigger] old_groups[v]).0,
                                ) == key_view(entries@[m].0);
                            assert(key_view(groups@[v].0) == key_view(entries@[m].0));
                        } else {
                            assert(key_view(groups@[j as int].0) == key_view(
                                entries@[i as int].0,
                            ));
                        }
                    }
                }
            },
            None => {
                let ghost old_groups = groups@;
                let nk = clone_key(&entries[i].0);
                let s = entries[i].1.clone();
                let mut v: Vec<String> = Vec::new();
                v.push(s);
                groups.push((nk, v));
                proof {
                    assert(groups@.drop_last() =~= old_groups);
                    let last = groups@.len() - 1;
                    let newv = groups@[last].1@.map_values(|x: String| x@);
                    assert(groups@[last].1@.len() == 1);
                    assert(newv.len() == 1);
                    assert(newv[0] == entries@[i as int].1@);
                    assert(newv.no_duplicates());
                    assert forall|m: int| 0 <= m < prefix.len() implies key_view(
                        (#[trigger] prefix[m]).0,
                    ) != key_view(groups@[last].0) by {
                        if key_view(prefix[m].0) == key_view(groups@[last].0) {
                            assert(prefix[m] == entries@[m]);
                            let v2 = choose|v2: int|
                                0 <= v2 < old_groups.len() && key_view(
                                    (#[trigger] old_groups[v2]).0,
                                ) == key_view(entries@[m].0);
                            assert(false);
                        }
                    }
                    lemma_strs_where_absent(prefix, groups@[last].0);
                    lemma_strs_where_congr(prefix2, groups@[last].0, entries@[i as int].0);
                    assert(strs_where(prefix2, groups@[last].0) =~= Set::<
                        Seq<char>,
                    >::empty().insert(entries@[i as int].1@));
                    assert(newv =~= Seq::<Seq<char>>::empty().push(entries@[i as int].1@));
                    Seq::<Seq<char>>::empty().lemma_push_to_set_commute(entries@[i as int].1@);
                    assert(Seq::<Seq<char>>::empty().to_set() =~= Set::<Seq<char>>::empty());
                    assert(newv.to_set() =~= Set::<Seq<char>>::empty().insert(
                        entries@[i as int].1@,
                    ));
                    assert(sgroup_ok(groups@[last], prefix2));
                    assert forall|l: int| 0 <= l < groups@.len() - 1 implies sgroup_ok(
                        #[trigger] groups@[l],
                        prefix2,
                    ) by {
                        assert(groups@[l] == old_groups[l]);
                        assert(key_view(groups@[l].0) != key_view(entries@[i as int].0));
                    }
                    assert forall|l: int| 0 <= l < groups@.len() implies has_skey(
                        prefix2,
                        (#[trigger] groups@[l]).0,
                    ) by {
                        if l < last {
                            assert(groups@[l] == old_groups[l]);
                            let v2 = choose|v2: int|
                                0 <= v2 < prefix.len() && key_view((#[trigger] prefix[v2]).0)
                                    == key_view(old_groups[l].0);
                            assert(key_view(prefix2[v2].0) == key_view(groups@[l].0));
                        } else {
                            assert(key_view(prefix2[i as int].0) == key_view(groups@[l].0));
                        }
                    }
                    assert forall|m: int| 0 <= m <= i implies covered(
                        groups@,
                        (#[trigger] entries@[m]).0,
                    ) by {
                        if m < i {
                            let v2 = choose|v2: int|
                                0 <= v2 < old_groups.len() && key_view(
                                    (#[trigger] old_groups[v2]).0,
                                ) == key_view(entries@[m].0);
                            assert(key_view(groups@[v2].0) == key_view(entries@[m].0));
                        } else {
                            assert(key_view(groups@[last].0) == key_view(entries@[i as int].0));
                        }
                    }
                }
            },
        }
        i = i + 1;
    }
    proof {
        assert(entries@.take(n as int) =~= entries@);
    }
    let m = groups.len();
    let mut out: Vec<(Key, i64)> = Vec::new();
    let mut j: usize = 0;
    while j < m
        invariant
            m == groups@.len(),
            n == entries@.len(),
            j <= m,
            out@.len() == j,
            forall|l: int|
                0 <= l < groups@.len() ==> sgroup_ok(#[trigger] groups@[l], entries@),
            forall|l: int, l2: int|
                0 <= l < l2 < groups@.len() ==> key_view(groups@[l].0) != key_view(
                    groups@[l2].0,
                ),
            forall|l: int| 0 <= l < groups@.len() ==> has_skey(entries@, (#[trigger] groups@[l]).0),
            n <= 0x4000_0000,
            forall|mm: int| 0 <= mm < entries@.len() ==> covered(groups@, (#[trigger] entries@[mm]).0),
            forall|l: int| 0 <= l < groups@.len() ==> (#[trigger] groups@[l]).1@.len() <= n,
            forall|l: int|
                0 <= l < j ==> key_view((#[trigger] out@[l]).0) == key_view(groups@[l].0),
            forall|l: int|
                0 <= l < j ==> (#[trigger] out@[l]).1 == strs_where(entries@, out@[l].0).len(),
            forall|l: int| 0 <= l < j ==> 0 <= (#[trigger] out@[l]).1 <= n,
        decreases m - j,
    {
        let k = clone_key(&groups[j].0);
        let c = groups[j].1.len();
        proof {
            let mv = groups@[j as int].1@.map_values(|x: String| x@);
            mv.unique_seq_to_set();
            assert(mv.len() == groups@[j as int].1@.len());
            lemma_strs_where_congr(entries@, k, groups@[j as int].0);
        }
        out.push((k, c as i64));
        j = j + 1;
    }
    proof {
        assert forall|i2: int| 0 <= i2 < entries@.len() implies has_count(
            out@,
            (#[trigger] entries@[i2]).0,
        ) by {
            assert(covered(groups@, entries@[i2].0));
            let l = choose|l: int|
                0 <= l < groups@.len() && key_view((#[trigger] groups@[l]).0) == key_view(
                    entries@[i2].0,
                );
            assert(key_view(out@[l].0) == key_view(entries@[i2].0));
        }
        assert forall|i2: int| 0 <= i2 < out@.len() implies has_skey(
            entries@,
            (#[trigger] out@[i2]).0,
        ) by {
            let v = choose|v: int|
                0 <= v < entries@.len() && key_view((#[trigger] entries@[v]).0) == key_view(
                    groups@[i2].0,
                );
            assert(key_view(entries@[v].0) == key_view(out@[i2].0));
        }
    }
    out
}

/// Whether `e` is one of the elements of `s`.
pub open spec fn elem_of(e: (Key, i128), s: Seq<(Key, i128)>) -> bool {
    exists|j: int| 0 <= j < s.len() && e == (#[trigger] s[j])
}

/// Selects the `n` heaviest candidate groups.  The result lists distinct
/// candidate elements in non-increasing weight order, and no candidate
/// outside the result outweighs any selected one.
#[verifier::rlimit(100)]
pub fn rank_top(cands: Vec<(Key, i128)>, n: usize) -> (top: Vec<(Key, i128)>)
    requires
        forall|i: int, j: int|
            0 <= i < j < cands@.len() ==> key_view(cands@[i].0) != key_view(cands@[j].0),
    ensures
        top@.len() == (if n as int <= cands@.len() {
            n as int
        } else {
            cands@.len() as int
        }),
        forall|i: int| 0 <= i < top@.len() ==> elem_of(#[trigger] top@[i], cands@),
        forall|i: int, j: int|
            0 <= i < j < top@.len() ==> key_view(top@[i].0) != key_view(top@[j].0),
        forall|i: int, j: int| 0 <= i < j < top@.len() ==> top@[i].1 >= top@[j].1,
        forall|m: int, i: int|
            0 <= m < cands@.len() && 0 <= i < top@.len() && !has_group(
                top@,
                (#[trigger] cands@[m]).0,
            ) ==> cands@[m].1 <= (#[trigger] top@[i]).1,
        forall|m: int|
            0 <= m < cands@.len() ==> has_group(top@, (#[trigger] cands@[m]).0) || top@.len()
                == n as int,
{
    let mut rest = cands;
    let mut top: Vec<(Key, i128)> = Vec::new();
    let ghost orig = rest@;
    proof {
        assert forall|i: int| 0 <= i < rest@.len() implies elem_of(
            #[trigger] rest@[i],
            orig,
        ) by {
            assert(rest@[i] == orig[i]);
        }
    }
    while top.len() < n && rest.len() > 0
        invariant
            top@.len() <= n,
            top@.len() + rest@.len() == orig.len(),
            top@.len() < n ==> rest@.len() == orig.len() - top@.len(),
            forall|i: int| 0 <= i < top@.len() ==> elem_of(#[trigger] top@[i], orig),
            forall|i: int| 0 <= i < rest@.len() ==> elem_of(#[trigger] rest@[i], orig),
            forall|i: int, j: int|
                0 <= i < j < top@.len() ==> key_view(top@[i].0) != key_view(top@[j].0),
            forall|i: int, j: int|
                0 <= i < j < rest@.len() ==> key_view(rest@[i].0) != key_view(rest@[j].0),
            forall|i: int, j: int|
                0 <= i < top@.len() && 0 <= j < rest@.len() ==> key_view(top@[i].0) != key_view(
                    rest@[j].0,
                ),
            forall|m: int|
                0 <= m < orig.len() ==> has_group(top@, (#[trigger] orig[m]).0) || has_group(
                    rest@,
                    orig[m].0,
                ),
            forall|i: int, j: int|
                0 <= i < top@.len() && 0 <= j < rest@.len() ==> (#[trigger] rest@[j]).1 <= (
                #[trigger] top@[i]).1,
            forall|i: int, j: int| 0 <= i < j < top@.len() ==> top@[i].1 >= top@[j].1,
        decreases n - top@.len(),
    {
        let rn = rest.len();
        let mut best: usize = 0;
        let mut b: usize = 1;
        while b < rn
            invariant
                rn == rest@.len(),
                0 < rn,
                best < rn,
                b <= rn,
                forall|k: int| 0 <= k < b ==> (#[trigger] rest@[k]).1 <= rest@[best as int].1,
            decreases rn - b,
        {
            if rest[b].1 > rest[best].1 {
                best = b;
            }
            b = b + 1;
        }
        let ghost old_top = top@;
        let ghost old_rest = rest@;
        let e = rest.remove(best);
        top.push(e);
        proof {
            assert(rest@ =~= old_rest.subrange(0, best as int) + old_rest.subrange(
                best as int + 1,
                old_rest.len() as int,
            ));
            assert(forall|k: int| 0 <= k < best ==> rest@[k] == old_rest[k]);
            assert(forall|k: int|
                best <= k < rest@.len() ==> rest@[k] == old_rest[k + 1]);
            assert(top@ =~= old_top.push(e));
            assert(e == old_rest[best as int]);
            assert forall|m: int| 0 <= m < orig.len() implies has_group(
                top@,
                (#[trigger] orig[m]).0,
            ) || has_group(rest@, orig[m].0) by {
                if has_group(old_rest, orig[m].0) {
                    let w = choose|w: int|
                        0 <= w < old_rest.len() && key_view(
                            (#[trigger] old_rest[w]).0,
                        ) == key_view(orig[m].0);
                    if w == best {
                        assert(key_view(top@[top@.len() - 1].0) == key_view(orig[m].0));
                    } else if w < best {
                        assert(key_view(rest@[w].0) == key_view(orig[m].0));
                    } else {
                        assert(key_view(rest@[w - 1].0) == key_view(orig[m].0));
                    }
                } else {
                    let w = choose|w: int|
                        0 <= w < old_top.len() && key_view((#[trigger] old_top[w]).0)
                            == key_view(orig[m].0);
                    assert(key_view(top@[w].0) == key_view(orig[m].0));
                }
            }
        }
    }
    proof {
        assert forall|m: int, i: int|
            0 <= m < orig.len() && 0 <= i < top@.len() && !has_group(
                top@,
                (#[trigger] orig[m]).0,
            ) implies orig[m].1 <= (#[trigger] top@[i]).1 by {
            assert(has_group(rest@, orig[m].0));
            let w = choose|w: int|
                0 <= w < rest@.len() && key_view((#[trigger] rest@[w]).0) == key_view(orig[m].0);
            assert(rest@[w].1 <= top@[i].1);
            assert(orig[m].1 == rest@[w].1) by {
                assert(elem_of(rest@[w], orig));
                let j = choose|j: int| 0 <= j < orig.len() && rest@[w] == (#[trigger] orig[j]);
                if j != m {
                    assert(key_view(orig[j].0) == key_view(orig[m].0));
                }
            }
        }
    }
    top
}

} // verus!
