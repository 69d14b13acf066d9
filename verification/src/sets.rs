//! Walking and filling hash sets of numbers.

use std::collections::HashSet;
use vstd::prelude::*;
use vstd::std_specs::iter::IteratorSpec;

verus! {

/// The elements of `all` that `known` lacks, each once, in the order in which
/// the set hands them out.
pub fn difference(all: &HashSet<usize>, known: &HashSet<usize>) -> (v: Vec<usize>)
    ensures
        v@.to_set() == all@.difference(known@),
        v@.no_duplicates(),
{
    let mut v: Vec<usize> = Vec::new();
    for x in it: all.iter()
        invariant
            it.seq() == all.iter().remaining(),
            it.seq().no_duplicates(),
            forall|j: int|
                0 <= j < v@.len() ==> {
                    &&& !known@.contains(#[trigger] v@[j])
                    &&& exists|p: int| 0 <= p < it.index() && *(#[trigger] it.seq()[p]) == v@[j]
                },
            forall|p: int|
                0 <= p < it.index() && !known@.contains(*(#[trigger] it.seq()[p])) ==> v@.contains(
                    *it.seq()[p],
                ),
            v@.no_duplicates(),
    {
        let ghost before = v@;
        let ghost all_seq = it.seq();
        let ghost n = it.index();
        if !known.contains(x) {
            v.push(*x);
        }
        proof {
            assert(all_seq[n] == x);
            assert forall|j: int| 0 <= j < v@.len() implies {
                &&& !known@.contains(#[trigger] v@[j])
                &&& exists|p: int| 0 <= p < n + 1 && *(#[trigger] all_seq[p]) == v@[j]
            } by {
                if j < before.len() {
                    assert(v@[j] == before[j]);
                    let p = choose|p: int| 0 <= p < n && *(#[trigger] all_seq[p]) == before[j];
                    assert(*all_seq[p] == v@[j]);
                } else {
                    assert(*all_seq[n] == v@[j]);
                }
            }
            assert forall|p: int|
                0 <= p < n + 1 && !known@.contains(*(#[trigger] all_seq[p])) implies v@.contains(
                *all_seq[p],
            ) by {
                if p < n {
                    let j = choose|j: int| 0 <= j < before.len() && before[j] == *all_seq[p];
                    assert(v@[j] == *all_seq[p]);
                } else {
                    assert(v@[v@.len() - 1] == *all_seq[p]);
                }
            }
            assert forall|a: int, b: int| 0 <= a < v@.len() && 0 <= b < v@.len() && a != b implies v@[a]
                != v@[b] by {
                if a < before.len() && b < before.len() {
                    assert(v@[a] == before[a] && v@[b] == before[b]);
                } else {
                    let old_one = if a < before.len() { a } else { b };
                    let p = choose|p: int|
                        0 <= p < n && *(#[trigger] all_seq[p]) == before[old_one];
                    assert(all_seq[p] != all_seq[n]);
                }
            }
        }
    }
    proof {
        let seq = all.iter().remaining();
        assert forall|m: usize| v@.to_set().contains(m) <==> all@.difference(known@).contains(
            m,
        ) by {
            if v@.to_set().contains(m) {
                let j = choose|j: int| 0 <= j < v@.len() && v@[j] == m;
                let p = choose|p: int| 0 <= p < seq.len() && *(#[trigger] seq[p]) == v@[j];
                assert(seq.unref()[p] == m);
                assert(seq.unref().to_set().contains(m));
            }
            if all@.difference(known@).contains(m) {
                assert(seq.unref().to_set().contains(m));
                let p = choose|p: int| 0 <= p < seq.unref().len() && seq.unref()[p] == m;
                assert(*seq[p] == m);
                assert(v@.contains(*seq[p]));
            }
        }
        assert(v@.to_set() =~= all@.difference(known@));
    }
    v
}

/// The elements of `all`, each once, in the order in which the set hands
/// them out.
pub fn elements(all: &HashSet<usize>) -> (v: Vec<usize>)
    ensures
        v@.to_set() == all@,
        v@.no_duplicates(),
{
    let none: HashSet<usize> = HashSet::new();
    let v = difference(all, &none);
    assert(all@.difference(none@) =~= all@);
    v
}

/// Puts every element of `items` into `target`.
pub fn insert_all(target: &mut HashSet<usize>, items: &Vec<usize>)
    ensures
        final(target)@ == old(target)@.union(items@.to_set()),
{
    let ghost before = target@;
    let mut i: usize = 0;
    assert(target@ =~= before.union(items@.take(0).to_set()));
    while i < items.len()
        invariant
            i <= items@.len(),
            target@ == before.union(items@.take(i as int).to_set()),
        decreases items@.len() - i,
    {
        let ghost sofar = items@.take(i as int);
        target.insert(items[i]);
        proof {
            let next = items@.take(i + 1);
            assert forall|m: usize| next.to_set().contains(m) <==> sofar.to_set().contains(m) || m
                == items@[i as int] by {
                if sofar.to_set().contains(m) {
                    let j = choose|j: int| 0 <= j < sofar.len() && sofar[j] == m;
                    assert(next[j] == m);
                }
                if m == items@[i as int] {
                    assert(next[i as int] == m);
                }
                if next.to_set().contains(m) {
                    let j = choose|j: int| 0 <= j < next.len() && next[j] == m;
                    if j < i {
                        assert(sofar[j] == m);
                    }
                }
            }
            assert(target@ =~= before.union(next.to_set()));
        }
        i = i + 1;
    }
    assert(items@.take(items@.len() as int) =~= items@);
}

/// The set of the elements of `items`.
pub fn collect(items: &Vec<usize>) -> (s: HashSet<usize>)
    ensures
        s@ == items@.to_set(),
{
    let mut s: HashSet<usize> = HashSet::new();
    insert_all(&mut s, items);
    assert(s@ =~= items@.to_set());
    s
}

} // verus!
