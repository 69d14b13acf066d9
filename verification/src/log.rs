//! One key's log: the messages committed under it, each at its offset.

use std::collections::BTreeMap;
use vstd::prelude::*;
use vstd::std_specs::cmp::OrdSpec;
use vstd::std_specs::iter::IteratorSpec;

verus! {

/// `v` lists, by ascending offset, exactly the entries of `log` at or after
/// the offset `from`.
pub open spec fn is_tail(v: Seq<(usize, usize)>, log: Map<usize, usize>, from: usize) -> bool {
    &&& forall|i: int, j: int| 0 <= i < j < v.len() ==> (#[trigger] v[i]).0 < (#[trigger] v[j]).0
    &&& forall|i: int|
        0 <= i < v.len() ==> {
            &&& log.contains_key((#[trigger] v[i]).0)
            &&& log[v[i].0] == v[i].1
            &&& v[i].0 >= from
        }
    &&& forall|k: usize|
        log.contains_key(k) && k >= from ==> exists|i: int|
            0 <= i < v.len() && (#[trigger] v[i]).0 == k
}

/// The keys of `all` ascend.
pub open spec fn ascending(all: Seq<(&usize, &usize)>) -> bool {
    forall|p: int, q: int| 0 <= p < q < all.len() ==> *(#[trigger] all[p]).0 < *(#[trigger] all[q]).0
}

/// A sequence of entries whose keys are increasing in the order of `usize`
/// has ascending keys.
proof fn lemma_ascending(all: Seq<(&usize, &usize)>, keys: Seq<usize>)
    requires
        vstd::std_specs::btree::increasing_seq(keys),
        keys.len() == all.len(),
        forall|p: int| 0 <= p < all.len() ==> #[trigger] keys[p] == *all[p].0,
    ensures
        ascending(all),
{
    broadcast use vstd::laws_cmp::group_laws_cmp;

    assert(vstd::laws_cmp::obeys_cmp::<usize>());
    vstd::std_specs::btree::axiom_increasing_seq_meaning(keys);
    assert forall|p: int, q: int| 0 <= p < q < all.len() implies *(#[trigger] all[p]).0 < *(
    #[trigger] all[q]).0 by {
        assert(keys[p] == *all[p].0);
        assert(keys[q] == *all[q].0);
        assert(keys[p].cmp_spec(&keys[q]) is Less);
    }
}

/// The entries of `log` at or after the offset `from`, by ascending offset.
pub fn tail(log: &BTreeMap<usize, usize>, from: usize) -> (v: Vec<(usize, usize)>)
    ensures
        is_tail(v@, log@, from),
{
    let mut v: Vec<(usize, usize)> = Vec::new();
    // `iter` hands the entries out by increasing key: its contract says so,
    // once for every walk of the same map.
    let _walk = log.iter();
    proof {
        broadcast use vstd::laws_cmp::group_laws_cmp;
        broadcast use vstd::std_specs::btree::axiom_key_obeys_cmp_spec_meaning;

        let all = log.iter().remaining();
        lemma_ascending(all, all.map_values(|kv: (&usize, &usize)| *kv.0));
    }
    for kv in it: log.iter()
        invariant
            it.seq() == log.iter().remaining(),
            ascending(log.iter().remaining()),
            forall|i: int, j: int|
                0 <= i < j < v@.len() ==> (#[trigger] v@[i]).0 < (#[trigger] v@[j]).0,
            forall|i: int|
                0 <= i < v@.len() ==> {
                    &&& log@.contains_key((#[trigger] v@[i]).0)
                    &&& log@[v@[i].0] == v@[i].1
                    &&& v@[i].0 >= from
                    &&& exists|p: int| 0 <= p < it.index() && *(#[trigger] it.seq()[p]).0 == v@[i].0
                },
            forall|p: int|
                0 <= p < it.index() && *(#[trigger] it.seq()[p]).0 >= from ==> exists|i: int|
                    0 <= i < v@.len() && (#[trigger] v@[i]).0 == *it.seq()[p].0,
    {
        let ghost before = v@;
        let ghost all = it.seq();
        let ghost n = it.index();
        if *kv.0 >= from {
            v.push((*kv.0, *kv.1));
        }
        proof {
            assert(all[n] == kv);
            assert forall|i: int, j: int| 0 <= i < j < v@.len() implies (#[trigger] v@[i]).0 < (
            #[trigger] v@[j]).0 by {
                if j == before.len() {
                    assert(v@[i] == before[i]);
                    let p = choose|p: int| 0 <= p < n && *(#[trigger] all[p]).0 == before[i].0;
                    assert(*all[p].0 < *all[n].0);
                } else {
                    assert(v@[i] == before[i] && v@[j] == before[j]);
                }
            }
            assert forall|i: int| 0 <= i < v@.len() implies exists|p: int|
                0 <= p < n + 1 && *(#[trigger] all[p]).0 == (#[trigger] v@[i]).0 by {
                if i == before.len() {
                    assert(*all[n].0 == v@[i].0);
                } else {
                    assert(v@[i] == before[i]);
                    let p = choose|p: int| 0 <= p < n && *(#[trigger] all[p]).0 == before[i].0;
                    assert(*all[p].0 == v@[i].0);
                }
            }
            assert forall|p: int|
                0 <= p < n + 1 && *(#[trigger] all[p]).0 >= from implies exists|i: int|
                0 <= i < v@.len() && (#[trigger] v@[i]).0 == *all[p].0 by {
                if p == n {
                    assert(v@[v@.len() - 1].0 == *kv.0);
                } else {
                    let i = choose|i: int|
                        0 <= i < before.len() && (#[trigger] before[i]).0 == *all[p].0;
                    assert(v@[i] == before[i]);
                }
            }
        }
    }
    proof {
        let all = log.iter().remaining();
        assert forall|k: usize| log@.contains_key(k) && k >= from implies exists|i: int|
            0 <= i < v@.len() && (#[trigger] v@[i]).0 == k by {
            assert(all.contains((&k, &log@[k])));
            let p = choose|p: int| 0 <= p < all.len() && all[p] == (&k, &log@[k]);
            assert(*all[p].0 == k);
        }
    }
    v
}

} // verus!
