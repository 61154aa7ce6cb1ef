//! A map from `u64` keys to values, kept as a vector in ascending key order.
use crate::tools::pairs::{
    index_of, lemma_insert_pair, lemma_pair_in_map, lemma_remove_pair,
    lemma_update_pair, pairs_map,
};
use vstd::prelude::*;

verus! {

/// Keys ascend strictly along `s`.
pub open spec fn ascending<V>(s: Seq<(u64, V)>) -> bool {
    forall|i: int, j: int| 0 <= i < j < s.len() ==> s[i].0 < s[j].0
}

/// The map that the entries `s` spell.
pub open spec fn entries_map<V>(s: Seq<(u64, V)>) -> Map<u64, V> {
    pairs_map(s)
}

/// Each entry of an ascending sequence is found under its key.
pub proof fn lemma_entry_in_map<V>(s: Seq<(u64, V)>, i: int)
    requires
        ascending(s),
        0 <= i < s.len(),
    ensures
        entries_map(s).contains_key(s[i].0),
        entries_map(s)[s[i].0] == s[i].1,
        index_of(s, s[i].0) == i,
{
    lemma_pair_in_map(s, i);
}

/// Putting an entry in at its place is `insert` on the map.
pub proof fn lemma_insert_entry<V>(s: Seq<(u64, V)>, p: int, k: u64, v: V)
    requires
        ascending(s),
        0 <= p <= s.len(),
        forall|i: int| 0 <= i < p ==> s[i].0 < k,
        forall|i: int| p <= i < s.len() ==> k < s[i].0,
    ensures
        ascending(s.insert(p, (k, v))),
        entries_map(s.insert(p, (k, v))) == entries_map(s).insert(k, v),
        !entries_map(s).contains_key(k),
{
    let t = s.insert(p, (k, v));
    assert(ascending(t)) by {
        assert forall|i: int, j: int| 0 <= i < j < t.len() implies t[i].0 < t[j].0 by {
            let a = if i < p { i } else { i - 1 };
            let b = if j < p { j } else { j - 1 };
            if i != p && j != p {
                assert(t[i] == s[a] && t[j] == s[b]);
            } else if i == p {
                assert(t[j] == s[b]);
            } else {
                assert(t[i] == s[a]);
            }
        }
    }
    lemma_insert_pair(s, p, k, v);
}

/// Replacing the value of an entry is `insert` on the map.
pub proof fn lemma_update_entry<V>(s: Seq<(u64, V)>, p: int, v: V)
    requires
        ascending(s),
        0 <= p < s.len(),
    ensures
        ascending(s.update(p, (s[p].0, v))),
        entries_map(s.update(p, (s[p].0, v))) == entries_map(s).insert(s[p].0, v),
{
    let t = s.update(p, (s[p].0, v));
    assert(ascending(t)) by {
        assert forall|i: int, j: int| 0 <= i < j < t.len() implies t[i].0 < t[j].0 by {
            assert(t[i].0 == s[i].0 && t[j].0 == s[j].0);
        }
    }
    lemma_update_pair(s, p, v);
}

/// Taking an entry out is `remove` on the map.
pub proof fn lemma_remove_entry<V>(s: Seq<(u64, V)>, p: int)
    requires
        ascending(s),
        0 <= p < s.len(),
    ensures
        ascending(s.remove(p)),
        entries_map(s.remove(p)) == entries_map(s).remove(s[p].0),
{
    let t = s.remove(p);
    assert(ascending(t)) by {
        assert forall|i: int, j: int| 0 <= i < j < t.len() implies t[i].0 < t[j].0 by {
            let a = if i < p { i } else { i + 1 };
            let b = if j < p { j } else { j + 1 };
            assert(t[i] == s[a] && t[j] == s[b]);
        }
    }
    lemma_remove_pair(s, p);
}

/// Two ascending sequences that spell one map are one sequence.
pub proof fn lemma_ascending_unique<V>(a: Seq<(u64, V)>, b: Seq<(u64, V)>)
    requires
        ascending(a),
        ascending(b),
        entries_map(a) == entries_map(b),
    ensures
        a == b,
    decreases a.len(),
{
    if a.len() == 0 {
        if b.len() > 0 {
            lemma_entry_in_map(b, 0);
            assert(entries_map(a).contains_key(b[0].0));
        }
        assert(a =~= b);
    } else {
        let i = a.len() - 1;
        lemma_entry_in_map(a, i);
        assert(entries_map(b).contains_key(a[i].0));
        let j = index_of(b, a[i].0);
        assert(0 <= j < b.len() && b[j].0 == a[i].0);
        let k = b.len() - 1;
        lemma_entry_in_map(b, k);
        assert(entries_map(a).contains_key(b[k].0));
        let l = index_of(a, b[k].0);
        assert(0 <= l < a.len() && a[l].0 == b[k].0);
        assert(j == k) by {
            if j < k {
                assert(b[j].0 < b[k].0);
                if l < i {
                    assert(a[l].0 < a[i].0);
                }
            }
        }
        lemma_entry_in_map(b, j);
        assert(a[i] == b[k]);
        lemma_remove_entry(a, i);
        lemma_remove_entry(b, k);
        assert(a.remove(i) =~= a.drop_last());
        assert(b.remove(k) =~= b.drop_last());
        lemma_ascending_unique(a.drop_last(), b.drop_last());
        assert(a =~= a.drop_last().push(a[i]));
        assert(b =~= b.drop_last().push(b[k]));
    }
}

/// The entries of a map in ascending order of their keys.
pub open spec fn ascending_entries<V>(m: Map<u64, V>) -> Seq<(u64, V)> {
    choose|s: Seq<(u64, V)>| ascending(s) && entries_map(s) == m
}

/// An ascending sequence is the ascending entries of the map that it spells.
pub proof fn lemma_ascending_entries<V>(s: Seq<(u64, V)>)
    requires
        ascending(s),
    ensures
        ascending_entries(entries_map(s)) == s,
{
    let t = ascending_entries(entries_map(s));
    assert(ascending(s) && entries_map(s) == entries_map(s));
    lemma_ascending_unique(t, s);
}

/// Where a lookup for `key` ended.
#[derive(Debug, Clone, Copy)]
pub enum Place {
    /// The entry with this index has the key.
    At(usize),
    /// No entry has the key; put in at this index, the order is kept.
    Before(usize),
}

#[derive(Debug)]
pub struct OrderedMap<V> {
    items: Vec<(u64, V)>,
}

impl<V> View for OrderedMap<V> {
    type V = Map<u64, V>;

    closed spec fn view(&self) -> Map<u64, V> {
        entries_map(self.items@)
    }
}

impl<V> OrderedMap<V> {
    /// The entries, in the order in which they are held.
    pub closed spec fn entries(&self) -> Seq<(u64, V)> {
        self.items@
    }

    /// The keys ascend strictly.
    pub open spec fn wf(&self) -> bool {
        ascending(self.entries())
    }

    /// The map is the one that the entries spell.
    pub proof fn lemma_view(&self)
        ensures
            self@ == entries_map(self.entries()),
    {
    }

    pub fn new() -> (m: Self)
        ensures
            m.wf(),
            m.entries() == Seq::<(u64, V)>::empty(),
            m@ == Map::<u64, V>::empty(),
    {
        let m = OrderedMap { items: Vec::new() };
        assert(m@ =~= Map::<u64, V>::empty());
        m
    }

    pub fn len(&self) -> (n: usize)
        ensures
            n == self.entries().len(),
    {
        self.items.len()
    }

    /// The key of entry `i`.
    pub fn key_at(&self, i: usize) -> (k: u64)
        requires
            i < self.entries().len(),
        ensures
            k == self.entries()[i as int].0,
    {
        self.items[i].0
    }

    /// The value of entry `i`.
    pub fn value_at(&self, i: usize) -> (v: &V)
        requires
            i < self.entries().len(),
        ensures
            *v == self.entries()[i as int].1,
    {
        &self.items[i].1
    }

    /// The value of entry `i`, to be changed in place; the key stays.
    pub fn value_mut(&mut self, i: usize) -> (v: &mut V)
        requires
            i < old(self).entries().len(),
        ensures
            *v == old(self).entries()[i as int].1,
            final(self).entries() == old(self).entries().update(
                i as int,
                (old(self).entries()[i as int].0, *final(v)),
            ),
    {
        &mut self.items[i].1
    }

    /// Looks for `key` by bisection.
    pub fn search(&self, key: u64) -> (place: Place)
        requires
            self.wf(),
        ensures
            match place {
                Place::At(i) => i < self.entries().len() && self.entries()[i as int].0 == key,
                Place::Before(p) => {
                    &&& p <= self.entries().len()
                    &&& forall|i: int| 0 <= i < p ==> self.entries()[i].0 < key
                    &&& forall|i: int| p <= i < self.entries().len() ==> key < self.entries()[i].0
                },
            },
    {
        let mut lo: usize = 0;
        let mut hi: usize = self.items.len();
        while lo < hi
            invariant
                self.wf(),
                lo <= hi <= self.items.len(),
                forall|i: int| 0 <= i < lo ==> self.entries()[i].0 < key,
                forall|i: int| hi <= i < self.entries().len() ==> key < self.entries()[i].0,
            decreases hi - lo,
        {
            let mid: usize = lo + (hi - lo) / 2;
            let k: u64 = self.items[mid].0;
            if k == key {
                return Place::At(mid);
            } else if k < key {
                lo = mid + 1;
            } else {
                hi = mid;
            }
        }
        Place::Before(lo)
    }

    /// The index of the last entry whose key is at most `key`.
    pub fn floor_index(&self, key: u64) -> (found: Option<usize>)
        requires
            self.wf(),
        ensures
            match found {
                Some(i) => {
                    &&& i < self.entries().len()
                    &&& self.entries()[i as int].0 <= key
                    &&& forall|j: int| i < j < self.entries().len() ==> key < self.entries()[j].0
                },
                None => forall|j: int| 0 <= j < self.entries().len() ==> key < self.entries()[j].0,
            },
    {
        match self.search(key) {
            Place::At(i) => Some(i),
            Place::Before(p) => if p == 0 {
                None
            } else {
                Some(p - 1)
            },
        }
    }

    pub fn contains_key(&self, key: u64) -> (b: bool)
        requires
            self.wf(),
        ensures
            b == self@.contains_key(key),
    {
        match self.search(key) {
            Place::At(i) => {
                proof {
                    lemma_entry_in_map(self.entries(), i as int);
                }
                true
            },
            Place::Before(_) => false,
        }
    }

    pub fn get(&self, key: u64) -> (found: Option<&V>)
        requires
            self.wf(),
        ensures
            match found {
                Some(v) => self@.contains_key(key) && *v == self@[key],
                None => !self@.contains_key(key),
            },
    {
        match self.search(key) {
            Place::At(i) => {
                proof {
                    lemma_entry_in_map(self.entries(), i as int);
                }
                Some(&self.items[i].1)
            },
            Place::Before(_) => None,
        }
    }

    /// Takes out the entry with index `i`.
    pub fn remove_at(&mut self, i: usize) -> (entry: (u64, V))
        requires
            old(self).wf(),
            i < old(self).entries().len(),
        ensures
            final(self).wf(),
            entry == old(self).entries()[i as int],
            final(self).entries() == old(self).entries().remove(i as int),
            final(self)@ == old(self)@.remove(entry.0),
    {
        proof {
            lemma_remove_entry(self.entries(), i as int);
        }
        self.items.remove(i)
    }

    /// Puts in an entry at index `p`, between the keys below `key` and the
    /// keys above it.
    pub fn insert_at(&mut self, p: usize, key: u64, value: V)
        requires
            old(self).wf(),
            p <= old(self).entries().len(),
            forall|i: int| 0 <= i < p ==> old(self).entries()[i].0 < key,
            forall|i: int| p <= i < old(self).entries().len() ==> key < old(self).entries()[i].0,
        ensures
            final(self).wf(),
            final(self).entries() == old(self).entries().insert(p as int, (key, value)),
            final(self)@ == old(self)@.insert(key, value),
    {
        proof {
            lemma_insert_entry(self.entries(), p as int, key, value);
        }
        self.items.insert(p, (key, value));
    }

    /// Binds `key` to `value`; returns what it was bound to before.
    pub fn insert(&mut self, key: u64, value: V) -> (before: Option<V>)
        requires
            old(self).wf(),
        ensures
            final(self).wf(),
            final(self)@ == old(self)@.insert(key, value),
            before == if old(self)@.contains_key(key) {
                Some(old(self)@[key])
            } else {
                None::<V>
            },
            match before {
                Some(_) => final(self).entries() == old(self).entries().update(
                    index_of(old(self).entries(), key),
                    (key, value),
                ),
                None => exists|p: int|
                    0 <= p <= old(self).entries().len() && final(self).entries() == old(
                        self,
                    ).entries().insert(p, (key, value)),
            },
    {
        match self.search(key) {
            Place::At(i) => {
                proof {
                    lemma_entry_in_map(self.entries(), i as int);
                    lemma_update_entry(self.entries(), i as int, value);
                }
                let mut held = value;
                core::mem::swap(&mut self.items[i].1, &mut held);
                Some(held)
            },
            Place::Before(p) => {
                proof {
                    lemma_insert_entry(self.entries(), p as int, key, value);
                }
                self.items.insert(p, (key, value));
                None
            },
        }
    }

    /// Unbinds `key`; returns what it was bound to.
    pub fn remove(&mut self, key: u64) -> (before: Option<V>)
        requires
            old(self).wf(),
        ensures
            final(self).wf(),
            final(self)@ == old(self)@.remove(key),
            before == if old(self)@.contains_key(key) {
                Some(old(self)@[key])
            } else {
                None::<V>
            },
    {
        match self.search(key) {
            Place::At(i) => {
                proof {
                    lemma_entry_in_map(self.entries(), i as int);
                    lemma_remove_entry(self.entries(), i as int);
                }
                let entry = self.items.remove(i);
                Some(entry.1)
            },
            Place::Before(_) => {
                assert(final(self)@ =~= old(self)@.remove(key));
                None
            },
        }
    }
}

} // verus!
