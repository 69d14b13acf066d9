//! A small map keyed by strings, kept as a list of entries in insertion order.
//!
//! Node names and log keys arrive as strings, so the workloads keep their
//! per-name state in a [`StrMap`]. Its model is a sequence of entries with
//! pairwise distinct keys; its view is the finite map those entries spell out.

use vstd::prelude::*;

verus! {

/// The entries of a string-keyed table: each key with its value, in table order.
pub type Entries<V> = Seq<(Seq<char>, V)>;

/// `k` is the key of one of the entries.
pub open spec fn has_key<V>(e: Entries<V>, k: Seq<char>) -> bool {
    exists|i: int| 0 <= i < e.len() && (#[trigger] e[i]).0 == k
}

/// No key occurs in two entries.
pub open spec fn distinct_keys<V>(e: Entries<V>) -> bool {
    forall|i: int, j: int|
        0 <= i < e.len() && 0 <= j < e.len() && i != j ==> (#[trigger] e[i]).0 != (#[trigger] e[j]).0
}

/// The position of an entry whose key is `k`.
pub open spec fn slot<V>(e: Entries<V>, k: Seq<char>) -> int {
    choose|i: int| 0 <= i < e.len() && (#[trigger] e[i]).0 == k
}

/// The finite map that the entries spell out.
pub open spec fn as_map<V>(e: Entries<V>) -> Map<Seq<char>, V> {
    Map::new(|k: Seq<char>| has_key(e, k), |k: Seq<char>| e[slot(e, k)].1)
}

/// With distinct keys, the entry at position `i` is what the map holds for its key.
pub proof fn lemma_entry_in_map<V>(e: Entries<V>, i: int)
    requires
        distinct_keys(e),
        0 <= i < e.len(),
    ensures
        as_map(e).contains_key(e[i].0),
        as_map(e)[e[i].0] == e[i].1,
        slot(e, e[i].0) == i,
{
    assert(has_key(e, e[i].0));
}

/// Appending an entry under a fresh key inserts it into the map.
pub proof fn lemma_push_is_insert<V>(e: Entries<V>, k: Seq<char>, v: V)
    requires
        distinct_keys(e),
        !has_key(e, k),
    ensures
        distinct_keys(e.push((k, v))),
        as_map(e.push((k, v))) == as_map(e).insert(k, v),
{
    let e2 = e.push((k, v));
    assert forall|i: int, j: int|
        0 <= i < e2.len() && 0 <= j < e2.len() && i != j implies (#[trigger] e2[i]).0 != (
    #[trigger] e2[j]).0 by {
        if i < e.len() {
            assert(e2[i] == e[i]);
        }
        if j < e.len() {
            assert(e2[j] == e[j]);
        }
    }
    assert forall|q: Seq<char>| has_key(e2, q) <==> (q == k || has_key(e, q)) by {
        if has_key(e2, q) {
            let i = slot(e2, q);
            if i < e.len() {
                assert(e[i].0 == q);
            }
        }
        if has_key(e, q) {
            let i = slot(e, q);
            assert(e2[i].0 == q);
        }
        if q == k {
            assert(e2[e.len() as int].0 == q);
        }
    }
    assert forall|q: Seq<char>| has_key(e2, q) implies as_map(e2)[q] == as_map(e).insert(k, v)[q] by {
        let i = slot(e2, q);
        lemma_entry_in_map(e2, i);
        if q != k {
            assert(i < e.len());
            lemma_entry_in_map(e, i);
        }
    }
    assert(as_map(e2) =~= as_map(e).insert(k, v));
}

/// Overwriting the value of the entry at `i` inserts under its key.
pub proof fn lemma_update_is_insert<V>(e: Entries<V>, i: int, v: V)
    requires
        distinct_keys(e),
        0 <= i < e.len(),
    ensures
        distinct_keys(e.update(i, (e[i].0, v))),
        as_map(e.update(i, (e[i].0, v))) == as_map(e).insert(e[i].0, v),
{
    let k = e[i].0;
    let e2 = e.update(i, (k, v));
    assert forall|a: int, b: int|
        0 <= a < e2.len() && 0 <= b < e2.len() && a != b implies (#[trigger] e2[a]).0 != (
    #[trigger] e2[b]).0 by {
        assert(e2[a].0 == e[a].0);
        assert(e2[b].0 == e[b].0);
    }
    assert forall|q: Seq<char>| has_key(e2, q) <==> has_key(e, q) by {
        if has_key(e2, q) {
            let a = slot(e2, q);
            assert(e[a].0 == q);
        }
        if has_key(e, q) {
            let a = slot(e, q);
            assert(e2[a].0 == q);
        }
    }
    assert(has_key(e, k));
    assert forall|q: Seq<char>| has_key(e2, q) implies as_map(e2)[q] == as_map(e).insert(k, v)[q] by {
        let a = slot(e2, q);
        lemma_entry_in_map(e2, a);
        if q != k {
            assert(a != i);
            lemma_entry_in_map(e, a);
        }
    }
    assert(as_map(e2) =~= as_map(e).insert(k, v));
}

/// Dropping the entry at `i` removes its key from the map.
pub proof fn lemma_remove_is_remove<V>(e: Entries<V>, i: int)
    requires
        distinct_keys(e),
        0 <= i < e.len(),
    ensures
        distinct_keys(e.remove(i)),
        as_map(e.remove(i)) == as_map(e).remove(e[i].0),
{
    let k = e[i].0;
    let e2 = e.remove(i);
    assert forall|a: int| 0 <= a < e2.len() implies #[trigger] e2[a] == e[if a < i {
        a
    } else {
        a + 1
    }] by {}
    assert forall|a: int, b: int|
        0 <= a < e2.len() && 0 <= b < e2.len() && a != b implies (#[trigger] e2[a]).0 != (
    #[trigger] e2[b]).0 by {
        let a1 = if a < i { a } else { a + 1 };
        let b1 = if b < i { b } else { b + 1 };
        assert(e2[a] == e[a1]);
        assert(e2[b] == e[b1]);
    }
    assert forall|q: Seq<char>| has_key(e2, q) <==> (q != k && has_key(e, q)) by {
        if has_key(e2, q) {
            let a = slot(e2, q);
            let a1 = if a < i { a } else { a + 1 };
            assert(e2[a] == e[a1]);
            assert(e[a1].0 == q);
        }
        if q != k && has_key(e, q) {
            let a = slot(e, q);
            assert(a != i);
            let a2 = if a < i { a } else { a - 1 };
            assert(e2[a2] == e[a]);
            assert(e2[a2].0 == q);
        }
    }
    assert forall|q: Seq<char>| has_key(e2, q) implies as_map(e2)[q] == as_map(e).remove(k)[q] by {
        let a = slot(e2, q);
        lemma_entry_in_map(e2, a);
        let a1 = if a < i { a } else { a + 1 };
        assert(e2[a] == e[a1]);
        lemma_entry_in_map(e, a1);
    }
    assert(as_map(e2) =~= as_map(e).remove(k));
}

/// Walking the entries in order: the first `i + 1` entries spell out the map
/// of the first `i` with the entry at `i` put in under a key of its own.
pub proof fn lemma_take_next<V>(e: Entries<V>, i: int)
    requires
        distinct_keys(e),
        0 <= i < e.len(),
    ensures
        distinct_keys(e.take(i)),
        distinct_keys(e.take(i + 1)),
        !as_map(e.take(i)).contains_key(e[i].0),
        as_map(e.take(i + 1)) == as_map(e.take(i)).insert(e[i].0, e[i].1),
        as_map(e.take(0)) == Map::<Seq<char>, V>::empty(),
        e.take(e.len() as int) == e,
{
    let front = e.take(i);
    assert forall|a: int, b: int|
        0 <= a < front.len() && 0 <= b < front.len() && a != b implies (#[trigger] front[a]).0 != (
    #[trigger] front[b]).0 by {
        assert(front[a] == e[a]);
        assert(front[b] == e[b]);
    }
    if has_key(front, e[i].0) {
        let a = slot(front, e[i].0);
        assert(front[a] == e[a]);
    }
    lemma_push_is_insert(front, e[i].0, e[i].1);
    assert(front.push((e[i].0, e[i].1)) =~= e.take(i + 1));
    assert(as_map(e.take(0)) =~= Map::<Seq<char>, V>::empty());
    assert(e.take(e.len() as int) =~= e);
}

/// A map from strings to `V`.
#[derive(Debug)]
pub struct StrMap<V> {
    items: Vec<(String, V)>,
}

impl<V> View for StrMap<V> {
    type V = Map<Seq<char>, V>;

    open spec fn view(&self) -> Map<Seq<char>, V> {
        as_map(self.entries())
    }
}

impl<V> StrMap<V> {
    /// The entries in table order.
    pub closed spec fn entries(&self) -> Entries<V> {
        Seq::new(self.items@.len(), |i: int| (self.items@[i].0@, self.items@[i].1))
    }

    /// No key occurs twice.
    #[verifier::type_invariant]
    spec fn wf(self) -> bool {
        distinct_keys(self.entries())
    }

    /// The empty table.
    pub fn new() -> (m: Self)
        ensures
            m.entries() == Seq::<(Seq<char>, V)>::empty(),
            m@ == Map::<Seq<char>, V>::empty(),
    {
        let m = StrMap { items: Vec::new() };
        assert(m.entries() =~= Seq::<(Seq<char>, V)>::empty());
        assert(m@ =~= Map::<Seq<char>, V>::empty());
        m
    }

    /// The number of entries. The entries of a table have distinct keys, so
    /// this is also the number of keys of its view.
    pub fn len(&self) -> (n: usize)
        ensures
            n == self.entries().len(),
            distinct_keys(self.entries()),
            self@.dom().finite(),
            self@.dom().len() == n,
    {
        proof {
            use_type_invariant(&*self);
            lemma_dom_counts(self.entries());
        }
        self.items.len()
    }

    /// The key of the entry at position `i`.
    pub fn key_at(&self, i: usize) -> (k: &String)
        requires
            i < self.entries().len(),
        ensures
            k@ == self.entries()[i as int].0,
            self@.contains_key(k@),
            slot(self.entries(), k@) == i,
    {
        proof {
            use_type_invariant(&*self);
            lemma_entry_in_map(self.entries(), i as int);
        }
        &self.items[i].0
    }

    /// The value of the entry at position `i`.
    pub fn value_at(&self, i: usize) -> (v: &V)
        requires
            i < self.entries().len(),
        ensures
            *v == self.entries()[i as int].1,
            self@[self.entries()[i as int].0] == *v,
    {
        proof {
            use_type_invariant(&*self);
            lemma_entry_in_map(self.entries(), i as int);
        }
        &self.items[i].1
    }

    /// The position of the entry under `key`, if there is one.
    pub fn position(&self, key: &String) -> (r: Option<usize>)
        ensures
            match r {
                Some(i) => {
                    &&& i < self.entries().len()
                    &&& self.entries()[i as int].0 == key@
                    &&& slot(self.entries(), key@) == i
                    &&& self@.contains_key(key@)
                },
                None => !self@.contains_key(key@),
            },
    {
        proof {
            use_type_invariant(&*self);
        }
        let mut i: usize = 0;
        while i < self.items.len()
            invariant
                i <= self.items@.len(),
                distinct_keys(self.entries()),
                forall|j: int| 0 <= j < i ==> (#[trigger] self.entries()[j]).0 != key@,
            decreases self.items@.len() - i,
        {
            if self.items[i].0 == *key {
                proof {
                    lemma_entry_in_map(self.entries(), i as int);
                }
                return Some(i);
            }
            i = i + 1;
        }
        None
    }

    /// Whether there is an entry under `key`.
    pub fn contains_key(&self, key: &String) -> (b: bool)
        ensures
            b == self@.contains_key(key@),
    {
        self.position(key).is_some()
    }

    /// The value under `key`, if there is one.
    pub fn get(&self, key: &String) -> (r: Option<&V>)
        ensures
            match r {
                Some(v) => self@.contains_key(key@) && self@[key@] == *v,
                None => !self@.contains_key(key@),
            },
    {
        proof {
            use_type_invariant(&*self);
        }
        match self.position(key) {
            Some(i) => {
                proof {
                    lemma_entry_in_map(self.entries(), i as int);
                }
                Some(&self.items[i].1)
            },
            None => None,
        }
    }

    /// Puts `value` under `key` and returns what stood there before. A new
    /// key goes to the end of the table; a known key keeps its position.
    pub fn insert(&mut self, key: String, value: V) -> (r: Option<V>)
        ensures
            final(self)@ == old(self)@.insert(key@, value),
            match r {
                Some(v) => old(self)@.contains_key(key@) && old(self)@[key@] == v,
                None => !old(self)@.contains_key(key@),
            },
            old(self)@.contains_key(key@) ==> final(self).entries() == old(self).entries().update(
                slot(old(self).entries(), key@),
                (key@, value),
            ),
            !old(self)@.contains_key(key@) ==> final(self).entries() == old(self).entries().push(
                (key@, value),
            ),
    {
        proof {
            use_type_invariant(&*self);
        }
        let ghost before = self.entries();
        let found = self.position(&key);
        let mut items: Vec<(String, V)> = Vec::new();
        std::mem::swap(&mut items, &mut self.items);
        let ghost mid = StrMap { items };
        assert(mid.entries() =~= before);
        match found {
            Some(i) => {
                proof {
                    lemma_entry_in_map(before, i as int);
                    lemma_update_is_insert(before, i as int, value);
                }
                let (k, prev) = items.remove(i);
                items.insert(i, (key, value));
                let ghost done = StrMap { items };
                assert(done.entries() =~= before.update(i as int, (key@, value)));
                self.items = items;
                Some(prev)
            },
            None => {
                proof {
                    lemma_push_is_insert(before, key@, value);
                }
                items.push((key, value));
                let ghost done = StrMap { items };
                assert(done.entries() =~= before.push((key@, value)));
                self.items = items;
                None
            },
        }
    }

    /// Takes the entry under `key` out of the table and returns its value.
    pub fn remove(&mut self, key: &String) -> (r: Option<V>)
        ensures
            final(self)@ == old(self)@.remove(key@),
            match r {
                Some(v) => old(self)@.contains_key(key@) && old(self)@[key@] == v,
                None => !old(self)@.contains_key(key@),
            },
            old(self)@.contains_key(key@) ==> final(self).entries() == old(self).entries().remove(
                slot(old(self).entries(), key@),
            ),
            !old(self)@.contains_key(key@) ==> final(self).entries() == old(self).entries(),
    {
        proof {
            use_type_invariant(&*self);
        }
        let ghost before = self.entries();
        match self.position(key) {
            Some(i) => {
                proof {
                    lemma_entry_in_map(before, i as int);
                    lemma_remove_is_remove(before, i as int);
                }
                let mut items: Vec<(String, V)> = Vec::new();
                std::mem::swap(&mut items, &mut self.items);
                let ghost mid = StrMap { items };
                assert(mid.entries() =~= before);
                let (k, prev) = items.remove(i);
                let ghost done = StrMap { items };
                assert(done.entries() =~= before.remove(i as int));
                self.items = items;
                Some(prev)
            },
            None => {
                assert(self@ =~= self@.remove(key@));
                None
            },
        }
    }
}

/// The map of entries with distinct keys has as many keys as there are entries.
pub proof fn lemma_dom_counts<V>(e: Entries<V>)
    requires
        distinct_keys(e),
    ensures
        as_map(e).dom().finite(),
        as_map(e).dom().len() == e.len(),
    decreases e.len(),
{
    if e.len() == 0 {
        assert(as_map(e).dom() =~= Set::<Seq<char>>::empty());
    } else {
        let last = e.len() - 1;
        let front = e.drop_last();
        assert forall|i: int, j: int|
            0 <= i < front.len() && 0 <= j < front.len() && i != j implies (#[trigger] front[i]).0
            != (#[trigger] front[j]).0 by {
            assert(front[i] == e[i]);
            assert(front[j] == e[j]);
        }
        lemma_dom_counts(front);
        if has_key(front, e[last].0) {
            let i = slot(front, e[last].0);
            assert(front[i] == e[i]);
        }
        lemma_push_is_insert(front, e[last].0, e[last].1);
        assert(front.push((e[last].0, e[last].1)) =~= e);
        assert(as_map(e).dom() =~= as_map(front).dom().insert(e[last].0));
    }
}

} // verus!
