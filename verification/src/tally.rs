//! Adding up the counters of a table.

use crate::table::{
    as_map, distinct_keys, has_key, lemma_entry_in_map, lemma_push_is_insert,
    lemma_remove_is_remove, slot, Entries, StrMap,
};
use vstd::prelude::*;

verus! {

/// The counter under `k`; 0 where there is none.
pub open spec fn count_of(m: Map<Seq<char>, usize>, k: Seq<char>) -> usize {
    if m.contains_key(k) {
        m[k]
    } else {
        0
    }
}

/// The sum of the values of the entries.
pub open spec fn sum(e: Entries<usize>) -> nat
    decreases e.len(),
{
    if e.len() == 0 {
        0
    } else {
        sum(e.drop_last()) + e.last().1 as nat
    }
}

/// Some list of entries that spells out `m`.
pub open spec fn entries_of(m: Map<Seq<char>, usize>) -> Entries<usize> {
    choose|e: Entries<usize>| distinct_keys(e) && as_map(e) == m
}

/// The sum of all counters of a finite map.
pub open spec fn total(m: Map<Seq<char>, usize>) -> nat {
    sum(entries_of(m))
}

/// Taking an entry out takes its value off the sum.
pub proof fn lemma_sum_remove(e: Entries<usize>, j: int)
    requires
        0 <= j < e.len(),
    ensures
        sum(e) == sum(e.remove(j)) + e[j].1,
    decreases e.len(),
{
    if j == e.len() - 1 {
        assert(e.remove(j) =~= e.drop_last());
    } else {
        lemma_sum_remove(e.drop_last(), j);
        assert(e.remove(j).drop_last() =~= e.drop_last().remove(j));
        assert(e.remove(j).last() == e.last());
    }
}

/// The sum of the first entries is no more than the sum of all.
pub proof fn lemma_sum_grows(e: Entries<usize>, i: int)
    requires
        0 <= i <= e.len(),
    ensures
        sum(e.take(i)) <= sum(e),
    decreases e.len() - i,
{
    if i == e.len() {
        assert(e.take(i) =~= e);
    } else {
        lemma_sum_grows(e, i + 1);
        assert(e.take(i + 1).drop_last() =~= e.take(i));
    }
}

/// Two lists of entries that spell out the same map have the same sum.
pub proof fn lemma_sum_by_map(e: Entries<usize>, f: Entries<usize>)
    requires
        distinct_keys(e),
        distinct_keys(f),
        as_map(e) == as_map(f),
    ensures
        sum(e) == sum(f),
    decreases e.len(),
{
    if e.len() == 0 {
        if f.len() > 0 {
            lemma_entry_in_map(f, 0);
            assert(has_key(e, f[0].0));
        }
    } else {
        let last = e.len() - 1;
        let k = e[last].0;
        lemma_entry_in_map(e, last);
        assert(has_key(f, k));
        let j = slot(f, k);
        lemma_entry_in_map(f, j);
        lemma_remove_is_remove(e, last);
        lemma_remove_is_remove(f, j);
        lemma_sum_remove(e, last);
        lemma_sum_remove(f, j);
        lemma_sum_by_map(e.remove(last), f.remove(j));
    }
}

/// The total of the map that a list of entries spells out is their sum.
pub proof fn lemma_total(e: Entries<usize>)
    requires
        distinct_keys(e),
    ensures
        total(as_map(e)) == sum(e),
{
    lemma_sum_by_map(entries_of(as_map(e)), e);
}

/// Every finite map is spelt out by some list of entries.
pub proof fn lemma_has_entries(m: Map<Seq<char>, usize>)
    requires
        m.dom().finite(),
    ensures
        distinct_keys(entries_of(m)),
        as_map(entries_of(m)) == m,
    decreases m.dom().len(),
{
    if m.dom().len() == 0 {
        let e = Seq::<(Seq<char>, usize)>::empty();
        assert(m.dom() =~= Set::<Seq<char>>::empty());
        assert(as_map(e) =~= m);
    } else {
        let k = m.dom().choose();
        let rest = m.remove(k);
        lemma_has_entries(rest);
        let e = entries_of(rest);
        assert(!rest.contains_key(k));
        lemma_push_is_insert(e, k, m[k]);
        assert(rest.insert(k, m[k]) =~= m);
    }
}

/// Taking a key out of a finite map takes its counter off the total.
pub proof fn lemma_total_remove(m: Map<Seq<char>, usize>, k: Seq<char>)
    requires
        m.dom().finite(),
    ensures
        total(m) == total(m.remove(k)) + count_of(m, k),
{
    lemma_has_entries(m);
    let e = entries_of(m);
    if m.contains_key(k) {
        assert(has_key(e, k));
        let j = slot(e, k);
        lemma_entry_in_map(e, j);
        lemma_remove_is_remove(e, j);
        lemma_sum_remove(e, j);
        lemma_total(e.remove(j));
    } else {
        assert(m.remove(k) =~= m);
    }
}

/// Two finite maps that hold the same counter for every name, a missing
/// counter taken as 0, have the same total.
pub proof fn lemma_total_by_counts(m1: Map<Seq<char>, usize>, m2: Map<Seq<char>, usize>)
    requires
        m1.dom().finite(),
        m2.dom().finite(),
        forall|k: Seq<char>| count_of(m1, k) == count_of(m2, k),
    ensures
        total(m1) == total(m2),
    decreases m1.dom().len() + m2.dom().len(),
{
    if m1.dom().len() == 0 && m2.dom().len() == 0 {
        assert(m1.dom() =~= Set::<Seq<char>>::empty());
        assert(m2.dom() =~= Set::<Seq<char>>::empty());
        assert(m1 =~= m2);
    } else {
        let k = if m1.dom().len() > 0 {
            m1.dom().choose()
        } else {
            m2.dom().choose()
        };
        assert(m1.contains_key(k) || m2.contains_key(k));
        lemma_total_remove(m1, k);
        lemma_total_remove(m2, k);
        assert(count_of(m1, k) == count_of(m2, k));
        assert forall|q: Seq<char>| count_of(m1.remove(k), q) == count_of(m2.remove(k), q) by {
            assert(count_of(m1, q) == count_of(m2, q));
        }
        if !m1.contains_key(k) {
            assert(m1.remove(k) =~= m1);
        }
        if !m2.contains_key(k) {
            assert(m2.remove(k) =~= m2);
        }
        lemma_total_by_counts(m1.remove(k), m2.remove(k));
    }
}

/// The sum of all counters of the table, if it fits in `usize`.
pub fn sum_values(m: &StrMap<usize>) -> (r: Option<usize>)
    ensures
        match r {
            Some(n) => n == total(m@),
            None => total(m@) > usize::MAX,
        },
{
    let ghost e = m.entries();
    let n = m.len();
    let mut acc: usize = 0;
    let mut i: usize = 0;
    proof {
        lemma_total(e);
        assert(e.take(0) =~= Seq::<(Seq<char>, usize)>::empty());
    }
    while i < n
        invariant
            e == m.entries(),
            n == e.len(),
            i <= n,
            acc == sum(e.take(i as int)),
            total(m@) == sum(e),
        decreases n - i,
    {
        let v = *m.value_at(i);
        proof {
            assert(e.take(i + 1).drop_last() =~= e.take(i as int));
            assert(e.take(i + 1).last() == e[i as int]);
            lemma_sum_grows(e, i + 1);
        }
        if v > usize::MAX - acc {
            return None;
        }
        acc = acc + v;
        i = i + 1;
    }
    assert(e.take(n as int) =~= e);
    Some(acc)
}

/// A copy of a table of counters.
pub fn copy_counts(m: &StrMap<usize>) -> (r: StrMap<usize>)
    ensures
        r@ == m@,
{
    let ghost e = m.entries();
    let n = m.len();
    let mut r: StrMap<usize> = StrMap::new();
    let mut i: usize = 0;
    proof {
        assert(as_map(e.take(0)) =~= Map::<Seq<char>, usize>::empty());
    }
    while i < n
        invariant
            e == m.entries(),
            distinct_keys(e),
            n == e.len(),
            i <= n,
            r@ == as_map(e.take(i as int)),
        decreases n - i,
    {
        proof {
            crate::table::lemma_take_next(e, i as int);
        }
        r.insert(m.key_at(i).clone(), *m.value_at(i));
        i = i + 1;
    }
    assert(e.take(n as int) =~= e);
    r
}

} // verus!
