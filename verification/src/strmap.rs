//! A map keyed by strings, kept as a vector of entries in insertion order.
//!
//! Removal moves the last entry into the freed slot, so the order of the entries is the
//! order in which an insertion-ordered, swap-removing storage map lists its keys.
use vstd::prelude::*;

verus! {

/// Some entry of `es` has key `k`.
pub open spec fn has_key<V>(es: Seq<(String, V)>, k: Seq<char>) -> bool {
    exists|i: int| 0 <= i < es.len() && (#[trigger] es[i]).0@ == k
}

/// The position of the entry with key `k`.
pub open spec fn key_pos<V>(es: Seq<(String, V)>, k: Seq<char>) -> int {
    choose|i: int| 0 <= i < es.len() && (#[trigger] es[i]).0@ == k
}

/// No two entries share a key.
pub open spec fn keys_unique<V>(es: Seq<(String, V)>) -> bool {
    forall|i: int, j: int|
        0 <= i < es.len() && 0 <= j < es.len() && i != j ==> (#[trigger] es[i]).0@ != (
        #[trigger] es[j]).0@
}

/// The values of the entries, in order.
pub open spec fn entry_values<V>(es: Seq<(String, V)>) -> Seq<V> {
    es.map_values(|e: (String, V)| e.1)
}

/// The map that the entries stand for.
pub open spec fn entries_map<V>(es: Seq<(String, V)>) -> Map<Seq<char>, V> {
    Map::new(|k: Seq<char>| has_key(es, k), |k: Seq<char>| es[key_pos(es, k)].1)
}

/// The entries after removing the one at `i`, moving the last entry into its place.
pub open spec fn swap_removed<V>(es: Seq<(String, V)>, i: int) -> Seq<(String, V)> {
    es.update(i, es.last()).drop_last()
}

pub struct StrMap<V> {
    pub entries: Vec<(String, V)>,
}

impl<V> View for StrMap<V> {
    type V = Map<Seq<char>, V>;

    open spec fn view(&self) -> Map<Seq<char>, V> {
        entries_map(self.entries@)
    }
}

/// With unique keys, the entry at `i` is the one a lookup of its key finds.
pub proof fn lemma_key_pos<V>(es: Seq<(String, V)>, i: int)
    requires
        keys_unique(es),
        0 <= i < es.len(),
    ensures
        has_key(es, es[i].0@),
        key_pos(es, es[i].0@) == i,
        entries_map(es).contains_key(es[i].0@),
        entries_map(es)[es[i].0@] == es[i].1,
{
    let k = es[i].0@;
    assert(has_key(es, k));
    let j = key_pos(es, k);
    assert(es[j].0@ == k);
}

pub proof fn lemma_update_same_key<V>(es: Seq<(String, V)>, i: int, e: (String, V))
    requires
        keys_unique(es),
        0 <= i < es.len(),
        e.0@ == es[i].0@,
    ensures
        keys_unique(es.update(i, e)),
        entries_map(es.update(i, e)) == entries_map(es).insert(e.0@, e.1),
{
    let ns = es.update(i, e);
    assert(keys_unique(ns)) by {
        assert forall|a: int, b: int|
            0 <= a < ns.len() && 0 <= b < ns.len() && a != b implies (#[trigger] ns[a]).0@ != (
            #[trigger] ns[b]).0@ by {
            assert(es[a].0@ != es[b].0@);
        }
    }
    assert forall|k: Seq<char>| #[trigger] has_key(ns, k) == has_key(es, k) by {
        if has_key(ns, k) {
            let j = key_pos(ns, k);
            assert(es[j].0@ == k);
        }
        if has_key(es, k) {
            let j = key_pos(es, k);
            assert(ns[j].0@ == k);
        }
    }
    assert forall|k: Seq<char>| has_key(ns, k) implies entries_map(ns)[k] == entries_map(es).insert(
        e.0@,
        e.1,
    )[k] by {
        let j = key_pos(ns, k);
        lemma_key_pos(ns, j);
        if j != i {
            lemma_key_pos(es, j);
        }
    }
    assert(entries_map(ns) =~= entries_map(es).insert(e.0@, e.1));
}

pub proof fn lemma_push_new_key<V>(es: Seq<(String, V)>, e: (String, V))
    requires
        keys_unique(es),
        !has_key(es, e.0@),
    ensures
        keys_unique(es.push(e)),
        entries_map(es.push(e)) == entries_map(es).insert(e.0@, e.1),
{
    let ns = es.push(e);
    assert(keys_unique(ns)) by {
        assert forall|a: int, b: int|
            0 <= a < ns.len() && 0 <= b < ns.len() && a != b implies (#[trigger] ns[a]).0@ != (
            #[trigger] ns[b]).0@ by {
            if a < es.len() && b < es.len() {
                assert(es[a].0@ != es[b].0@);
            } else if a < es.len() {
                assert(ns[a] == es[a]);
            } else {
                assert(ns[b] == es[b]);
            }
        }
    }
    assert forall|k: Seq<char>| #[trigger] has_key(ns, k) == (has_key(es, k) || k == e.0@) by {
        if has_key(ns, k) {
            let j = key_pos(ns, k);
            if j < es.len() {
                assert(es[j].0@ == k);
            }
        }
        if has_key(es, k) {
            let j = key_pos(es, k);
            assert(ns[j].0@ == k);
        }
        if k == e.0@ {
            assert(ns[es.len() as int].0@ == k);
        }
    }
    assert forall|k: Seq<char>| has_key(ns, k) implies entries_map(ns)[k] == entries_map(es).insert(
        e.0@,
        e.1,
    )[k] by {
        let j = key_pos(ns, k);
        lemma_key_pos(ns, j);
        if j < es.len() {
            assert(ns[j] == es[j]);
            lemma_key_pos(es, j);
        }
    }
    assert(entries_map(ns) =~= entries_map(es).insert(e.0@, e.1));
}

pub proof fn lemma_swap_remove<V>(es: Seq<(String, V)>, i: int)
    requires
        keys_unique(es),
        0 <= i < es.len(),
    ensures
        keys_unique(swap_removed(es, i)),
        entries_map(swap_removed(es, i)) == entries_map(es).remove(es[i].0@),
{
    let ns = swap_removed(es, i);
    let last = es.len() - 1;
    let k0 = es[i].0@;
    assert forall|a: int| 0 <= a < ns.len() implies #[trigger] ns[a] == (if a == i {
        es[last]
    } else {
        es[a]
    }) by {}
    assert(keys_unique(ns)) by {
        assert forall|a: int, b: int|
            0 <= a < ns.len() && 0 <= b < ns.len() && a != b implies (#[trigger] ns[a]).0@ != (
            #[trigger] ns[b]).0@ by {
            let ia = if a == i {
                last
            } else {
                a
            };
            let ib = if b == i {
                last
            } else {
                b
            };
            assert(es[ia].0@ != es[ib].0@);
        }
    }
    assert forall|k: Seq<char>| #[trigger] has_key(ns, k) == (has_key(es, k) && k != k0) by {
        if has_key(ns, k) {
            let j = key_pos(ns, k);
            let ij = if j == i {
                last
            } else {
                j
            };
            assert(es[ij].0@ == k);
            assert(es[i].0@ != es[ij].0@);
        }
        if has_key(es, k) && k != k0 {
            let j = key_pos(es, k);
            if j == last {
                assert(ns[i].0@ == k);
            } else {
                assert(ns[j].0@ == k);
            }
        }
    }
    assert forall|k: Seq<char>| has_key(ns, k) implies entries_map(ns)[k] == entries_map(
        es,
    ).remove(k0)[k] by {
        let j = key_pos(ns, k);
        lemma_key_pos(ns, j);
        let ij = if j == i {
            last
        } else {
            j
        };
        lemma_key_pos(es, ij);
    }
    assert(entries_map(ns) =~= entries_map(es).remove(k0));
}

impl<V> StrMap<V> {
    /// The keys are unique.
    pub open spec fn wf(&self) -> bool {
        keys_unique(self.entries@)
    }

    /// An empty map.
    pub fn new() -> (m: Self)
        ensures
            m.wf(),
            m.entries@ == Seq::<(String, V)>::empty(),
            m@ == Map::<Seq<char>, V>::empty(),
    {
        let m = StrMap { entries: Vec::new() };
        assert(m@ =~= Map::<Seq<char>, V>::empty());
        m
    }

    /// The number of entries.
    pub fn len(&self) -> (n: usize)
        ensures
            n == self.entries@.len(),
    {
        self.entries.len()
    }

    /// The position of the entry with key `k`, if there is one.
    pub fn find(&self, k: &String) -> (r: Option<usize>)
        requires
            self.wf(),
        ensures
            r is Some <==> self@.contains_key(k@),
            r matches Some(i) ==> i < self.entries@.len() && self.entries@[i as int].0@ == k@
                && i == key_pos(self.entries@, k@),
    {
        let mut i: usize = 0;
        while i < self.entries.len()
            invariant
                self.wf(),
                i <= self.entries@.len(),
                forall|j: int| 0 <= j < i ==> (#[trigger] self.entries@[j]).0@ != k@,
            decreases self.entries@.len() - i,
        {
            if self.entries[i].0 == *k {
                proof {
                    lemma_key_pos(self.entries@, i as int);
                }
                return Some(i);
            }
            i = i + 1;
        }
        assert(!has_key(self.entries@, k@));
        None
    }

    /// The value under key `k`, if there is one.
    pub fn get(&self, k: &String) -> (r: Option<&V>)
        requires
            self.wf(),
        ensures
            r is Some <==> self@.contains_key(k@),
            r matches Some(v) ==> *v == self@[k@],
    {
        match self.find(k) {
            Some(i) => {
                proof {
                    lemma_key_pos(self.entries@, i as int);
                }
                Some(&self.entries[i].1)
            },
            None => None,
        }
    }

    /// Whether key `k` is present.
    pub fn contains_key(&self, k: &String) -> (r: bool)
        requires
            self.wf(),
        ensures
            r == self@.contains_key(k@),
    {
        self.find(k).is_some()
    }

    /// Stores `v` under `k`: in place where `k` is present, as a new last entry where it is not.
    pub fn insert(&mut self, k: String, v: V) -> (r: Option<V>)
        requires
            old(self).wf(),
        ensures
            final(self).wf(),
            final(self)@ == old(self)@.insert(k@, v),
            r is Some <==> old(self)@.contains_key(k@),
            r matches Some(o) ==> o == old(self)@[k@],
            final(self).entries@ == if old(self)@.contains_key(k@) {
                old(self).entries@.update(key_pos(old(self).entries@, k@), (k, v))
            } else {
                old(self).entries@.push((k, v))
            },
    {
        match self.find(&k) {
            Some(i) => {
                proof {
                    lemma_key_pos(self.entries@, i as int);
                    lemma_update_same_key(self.entries@, i as int, (k, v));
                }
                let mut e = (k, v);
                self.entries.set_and_swap(i, &mut e);
                Some(e.1)
            },
            None => {
                proof {
                    lemma_push_new_key(self.entries@, (k, v));
                }
                self.entries.push((k, v));
                None
            },
        }
    }

    /// Removes the entry with key `k`, moving the last entry into its place.
    pub fn remove(&mut self, k: &String) -> (r: Option<V>)
        requires
            old(self).wf(),
        ensures
            final(self).wf(),
            final(self)@ == old(self)@.remove(k@),
            r is Some <==> old(self)@.contains_key(k@),
            r matches Some(o) ==> o == old(self)@[k@],
            final(self).entries@ == if old(self)@.contains_key(k@) {
                swap_removed(old(self).entries@, key_pos(old(self).entries@, k@))
            } else {
                old(self).entries@
            },
    {
        match self.find(k) {
            Some(i) => {
                proof {
                    lemma_key_pos(self.entries@, i as int);
                    lemma_swap_remove(self.entries@, i as int);
                }
                let e = self.entries.swap_remove(i);
                Some(e.1)
            },
            None => {
                assert(old(self)@.remove(k@) =~= old(self)@);
                None
            },
        }
    }
}

impl<V> StrMap<V> {
    /// Replaces the value of the entry at position `i`, keeping its key and place.
    pub fn set_value(&mut self, i: usize, v: V)
        requires
            old(self).wf(),
            i < old(self).entries@.len(),
        ensures
            final(self).wf(),
            final(self).entries@ == old(self).entries@.update(
                i as int,
                (old(self).entries@[i as int].0, v),
            ),
            final(self)@ == old(self)@.insert(old(self).entries@[i as int].0@, v),
    {
        let k = self.entries[i].0.clone();
        proof {
            lemma_update_same_key(self.entries@, i as int, (k, v));
        }
        self.entries.set(i, (k, v));
    }
}

} // verus!
