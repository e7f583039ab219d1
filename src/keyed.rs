//! A map from text keys to values, kept as a list of entries with distinct
//! keys.

use vstd::prelude::*;

use crate::text::same_text;

verus! {

/// The entries of `m` whose value satisfies `pred`.
pub open spec fn kept<V>(m: Map<Seq<char>, V>, pred: spec_fn(V) -> bool) -> Map<Seq<char>, V> {
    Map::new(|k: Seq<char>| m.contains_key(k) && pred(m[k]), |k: Seq<char>| m[k])
}

/// Values addressed by text keys; at most one entry per key.
pub struct KeyedList<V> {
    entries: Vec<(String, V)>,
}

impl<V> View for KeyedList<V> {
    type V = Map<Seq<char>, V>;

    closed spec fn view(&self) -> Map<Seq<char>, V> {
        Map::new(
            |k: Seq<char>| self.has_key_spec(k),
            |k: Seq<char>| self.entries@[self.index_spec(k)].1,
        )
    }
}

impl<V> KeyedList<V> {
    spec fn has_key_spec(&self, k: Seq<char>) -> bool {
        exists|i: int| 0 <= i < self.entries@.len() && self.entries@[i].0@ == k
    }

    spec fn index_spec(&self, k: Seq<char>) -> int {
        choose|i: int| 0 <= i < self.entries@.len() && self.entries@[i].0@ == k
    }

    /// No two entries share a key.
    pub closed spec fn wf(&self) -> bool {
        forall|i: int, j: int|
            0 <= i < j < self.entries@.len() ==> self.entries@[i].0@ != self.entries@[j].0@
    }

    proof fn lemma_entry(&self, i: int)
        requires
            self.wf(),
            0 <= i < self.entries@.len(),
        ensures
            self@.contains_key(self.entries@[i].0@),
            self@[self.entries@[i].0@] == self.entries@[i].1,
    {
        let k = self.entries@[i].0@;
        assert(self.has_key_spec(k));
        let j = self.index_spec(k);
        assert(j == i);
    }

    /// Only finitely many keys have an entry.
    pub proof fn lemma_finite(&self)
        ensures
            self@.dom().finite(),
    {
        let keys = self.entries@.map_values(|e: (String, V)| e.0@);
        vstd::seq_lib::seq_to_set_is_finite(keys);
        assert forall|k: Seq<char>| self@.dom().contains(k) implies keys.to_set().contains(k) by {
            let i = self.index_spec(k);
            assert(keys[i] == k);
        }
        vstd::set_lib::lemma_len_subset(self@.dom(), keys.to_set());
    }

    /// An empty list.
    pub fn new() -> (r: KeyedList<V>)
        ensures
            r.wf(),
            r@ == Map::<Seq<char>, V>::empty(),
    {
        let r = KeyedList { entries: Vec::new() };
        assert(r@ =~= Map::<Seq<char>, V>::empty());
        r
    }

    /// Whether an entry has this key.
    pub fn contains_key(&self, key: &str) -> (r: bool)
        requires
            self.wf(),
        ensures
            r == self@.contains_key(key@),
    {
        self.find(key).is_some()
    }

    /// The value under this key, if any.
    pub fn get(&self, key: &str) -> (r: Option<&V>)
        requires
            self.wf(),
        ensures
            match r {
                Some(v) => self@.contains_key(key@) && *v == self@[key@],
                None => !self@.contains_key(key@),
            },
    {
        match self.find(key) {
            Some(i) => Some(&self.entries[i].1),
            None => None,
        }
    }

    /// Puts `value` under `key`, in place of any value already there.
    pub fn insert(&mut self, key: String, value: V)
        requires
            old(self).wf(),
        ensures
            final(self).wf(),
            final(self)@ == old(self)@.insert(key@, value),
    {
        let ghost k = key@;
        let ghost before = self.entries@;
        match self.find(key.as_str()) {
            Some(i) => {
                self.entries.set(i, (key, value));
                assert forall|a: int, b: int|
                    0 <= a < b < self.entries@.len() implies self.entries@[a].0@
                    != self.entries@[b].0@ by {
                    assert(before[a].0@ != before[b].0@);
                }
                assert forall|q: Seq<char>| #[trigger] self@.contains_key(q) == old(self)@.insert(
                    k,
                    value,
                ).contains_key(q) by {
                    if self@.contains_key(q) {
                        let j = self.index_spec(q);
                        if j != i {
                            assert(before[j].0@ == q);
                            assert(old(self).has_key_spec(q));
                        }
                    }
                    if old(self)@.contains_key(q) {
                        let j = old(self).index_spec(q);
                        assert(self.entries@[j].0@ == q);
                        assert(self.has_key_spec(q));
                    }
                    if q == k {
                        assert(self.entries@[i as int].0@ == q);
                        assert(self.has_key_spec(q));
                    }
                }
                assert forall|q: Seq<char>| #[trigger] self@.contains_key(q) implies self@[q]
                    == old(self)@.insert(k, value)[q] by {
                    let j = self.index_spec(q);
                    self.lemma_entry(j);
                    if j != i {
                        old(self).lemma_entry(j);
                    }
                }
                assert(self@ =~= old(self)@.insert(k, value));
            },
            None => {
                self.entries.push((key, value));
                assert forall|q: Seq<char>| #[trigger] self@.contains_key(q) == old(self)@.insert(
                    k,
                    value,
                ).contains_key(q) by {
                    if self@.contains_key(q) {
                        let j = self.index_spec(q);
                        if j < before.len() {
                            assert(before[j].0@ == q);
                            assert(old(self).has_key_spec(q));
                        }
                    }
                    if old(self)@.contains_key(q) {
                        let j = old(self).index_spec(q);
                        assert(self.entries@[j].0@ == q);
                        assert(self.has_key_spec(q));
                    }
                    if q == k {
                        assert(self.entries@[before.len() as int].0@ == q);
                        assert(self.has_key_spec(q));
                    }
                }
                assert forall|a: int, b: int|
                    0 <= a < b < self.entries@.len() implies self.entries@[a].0@
                    != self.entries@[b].0@ by {
                    if b == before.len() {
                        assert(old(self).has_key_spec(before[a].0@));
                    }
                }
                assert forall|q: Seq<char>| #[trigger] self@.contains_key(q) implies self@[q]
                    == old(self)@.insert(k, value)[q] by {
                    let j = self.index_spec(q);
                    self.lemma_entry(j);
                    if j < before.len() {
                        old(self).lemma_entry(j);
                    }
                }
                assert(self@ =~= old(self)@.insert(k, value));
            },
        }
    }

    /// Takes out the value under `key`, if any.
    pub fn remove(&mut self, key: &str) -> (r: Option<V>)
        requires
            old(self).wf(),
        ensures
            final(self).wf(),
            final(self)@ == old(self)@.remove(key@),
            match r {
                Some(v) => old(self)@.contains_key(key@) && v == old(self)@[key@],
                None => !old(self)@.contains_key(key@),
            },
    {
        match self.find(key) {
            Some(i) => {
                let entry = self.remove_at(i);
                Some(entry.1)
            },
            None => {
                assert(self@ =~= old(self)@.remove(key@));
                None
            },
        }
    }

    /// Lends out the value under `key`, if any, for changing in place.
    pub fn get_mut(&mut self, key: &str) -> (r: Option<&mut V>)
        requires
            old(self).wf(),
        ensures
            match r {
                Some(v) => {
                    &&& old(self)@.contains_key(key@)
                    &&& *v == old(self)@[key@]
                    &&& final(self).wf()
                    &&& final(self)@ == old(self)@.insert(key@, *final(v))
                },
                None => !old(self)@.contains_key(key@) && *final(self) == *old(self),
            },
    {
        match self.find(key) {
            Some(i) => {
                let ghost before = *self;
                proof {
                    before.lemma_entry(i as int);
                    let k0 = before.entries@[i as int].0;
                    assert forall|after: KeyedList<V>|
                        #![trigger after@]
                        #![trigger after.wf()]
                        after.entries@ == before.entries@.update(
                            i as int,
                            (k0, after.entries@[i as int].1),
                        ) implies after.wf() && after@ == before@.insert(
                        key@,
                        after.entries@[i as int].1,
                    ) by {
                        KeyedList::lemma_replace_value(before, after, i as int, after.entries@[i as int].1);
                    }
                }
                let entry = &mut self.entries[i];
                Some(&mut entry.1)
            },
            None => None,
        }
    }

    proof fn lemma_replace_value(before: KeyedList<V>, after: KeyedList<V>, i: int, v: V)
        requires
            before.wf(),
            0 <= i < before.entries@.len(),
            after.entries@ == before.entries@.update(i, (before.entries@[i].0, v)),
        ensures
            after.wf(),
            after@ == before@.insert(before.entries@[i].0@, v),
    {
        let k = before.entries@[i].0@;
        assert forall|a: int, b: int|
            0 <= a < b < after.entries@.len() implies after.entries@[a].0@
            != after.entries@[b].0@ by {
            assert(before.entries@[a].0@ != before.entries@[b].0@);
        }
        assert forall|q: Seq<char>| #[trigger] after@.contains_key(q) == before@.insert(
            k,
            v,
        ).contains_key(q) by {
            if after@.contains_key(q) {
                let j = after.index_spec(q);
                assert(before.entries@[j].0@ == q);
                assert(before.has_key_spec(q));
            }
            if before@.contains_key(q) {
                let j = before.index_spec(q);
                assert(after.entries@[j].0@ == q);
                assert(after.has_key_spec(q));
            }
            if q == k {
                assert(after.entries@[i].0@ == q);
                assert(after.has_key_spec(q));
            }
        }
        assert forall|q: Seq<char>| #[trigger] after@.contains_key(q) implies after@[q]
            == before@.insert(k, v)[q] by {
            let j = after.index_spec(q);
            after.lemma_entry(j);
            if j != i {
                before.lemma_entry(j);
            }
        }
        assert(after@ =~= before@.insert(k, v));
    }

    /// Keeps only the entries whose value passes `keep`; `pred` states
    /// what `keep` tests.
    pub(crate) fn retain<F: Fn(&V) -> bool>(&mut self, keep: F, pred: Ghost<spec_fn(V) -> bool>)
        requires
            old(self).wf(),
            forall|v: &V| #[trigger] keep.requires((v,)),
            forall|v: &V, b: bool| keep.ensures((v,), b) ==> b == (pred@)(*v),
        ensures
            final(self).wf(),
            final(self)@ == kept(old(self)@, pred@),
    {
        let ghost before = self@;
        let mut i: usize = 0;
        while i < self.entries.len()
            invariant
                forall|v: &V| #[trigger] keep.requires((v,)),
                forall|v: &V, b: bool| keep.ensures((v,), b) ==> b == (pred@)(*v),
                self.wf(),
                i <= self.entries@.len(),
                forall|k: Seq<char>| #[trigger]
                    self@.contains_key(k) ==> before.contains_key(k) && self@[k] == before[k],
                forall|k: Seq<char>|
                    #[trigger] before.contains_key(k) && (pred@)(before[k]) ==> self@.contains_key(
                        k,
                    ),
                forall|j: int| 0 <= j < i ==> (pred@)(#[trigger] self.entries@[j].1),
            decreases self.entries@.len() - i,
        {
            if keep(&self.entries[i].1) {
                i = i + 1;
            } else {
                let ghost prior = *self;
                proof {
                    prior.lemma_entry(i as int);
                }
                self.remove_at(i);
                assert forall|j: int| 0 <= j < i implies (pred@)(#[trigger] self.entries@[j].1) by {
                    assert(self.entries@[j] == prior.entries@[j]);
                }
            }
        }
        proof {
            assert forall|k: Seq<char>| #[trigger] self@.contains_key(k) implies (pred@)(self@[k]) by {
                let j = self.index_spec(k);
                self.lemma_entry(j);
            }
            assert(self@ =~= kept(before, pred@));
        }
    }

    /// Takes out the entry at index `i`.
    fn remove_at(&mut self, i: usize) -> (r: (String, V))
        requires
            old(self).wf(),
            i < old(self).entries@.len(),
        ensures
            final(self).wf(),
            r == old(self).entries@[i as int],
            final(self).entries@ == old(self).entries@.remove(i as int),
            final(self)@ == old(self)@.remove(r.0@),
    {
        let ghost before = self.entries@;
        let ghost key = before[i as int].0@;
        let entry = self.entries.remove(i);
        assert forall|a: int, b: int|
            0 <= a < b < self.entries@.len() implies self.entries@[a].0@ != self.entries@[b].0@ by {
            if a >= i {
                assert(before[a + 1].0@ != before[b + 1].0@);
            } else if b >= i {
                assert(before[a].0@ != before[b + 1].0@);
            } else {
                assert(before[a].0@ != before[b].0@);
            }
        }
        assert forall|q: Seq<char>| #[trigger] self@.contains_key(q) == old(self)@.remove(
            key,
        ).contains_key(q) by {
            if self@.contains_key(q) {
                let j = self.index_spec(q);
                let o = if j < i {
                    j
                } else {
                    j + 1
                };
                assert(before[o].0@ == q);
                assert(old(self).has_key_spec(q));
                assert(q != key);
            }
            if old(self)@.contains_key(q) && q != key {
                let j = old(self).index_spec(q);
                assert(j != i);
                let n = if j < i {
                    j
                } else {
                    j - 1
                };
                assert(self.entries@[n].0@ == q);
                assert(self.has_key_spec(q));
            }
        }
        assert forall|q: Seq<char>| #[trigger] self@.contains_key(q) implies self@[q]
            == old(self)@.remove(key)[q] by {
            let j = self.index_spec(q);
            self.lemma_entry(j);
            let o = if j < i {
                j
            } else {
                j + 1
            };
            old(self).lemma_entry(o);
        }
        assert(self@ =~= old(self)@.remove(key));
        entry
    }

    fn find(&self, key: &str) -> (r: Option<usize>)
        requires
            self.wf(),
        ensures
            match r {
                Some(i) => i < self.entries@.len() && self.entries@[i as int].0@ == key@
                    && self@.contains_key(key@) && self@[key@] == self.entries@[i as int].1,
                None => !self@.contains_key(key@),
            },
    {
        let mut i: usize = 0;
        while i < self.entries.len()
            invariant
                self.wf(),
                i <= self.entries@.len(),
                forall|j: int| 0 <= j < i ==> self.entries@[j].0@ != key@,
            decreases self.entries@.len() - i,
        {
            if same_text(self.entries[i].0.as_str(), key) {
                proof {
                    self.lemma_entry(i as int);
                }
                return Some(i);
            }
            i = i + 1;
        }
        None
    }
}

} // verus!
