//! A small keyed table: keys that are pairwise different, each with a value.
//! Keys are found by comparing them with `==`.

use vstd::prelude::*;
use vstd::std_specs::cmp::PartialEqSpec;
use crate::equality::lawful_eq;

verus! {

pub struct Table<K, V> {
    keys: Vec<K>,
    values: Vec<V>,
}

impl<K: PartialEq, V> Table<K, V> {
    /// The keys, in the order in which they came.
    pub closed spec fn keys(&self) -> Seq<K> {
        self.keys@
    }

    /// The values, each at the index of its key.
    pub closed spec fn values(&self) -> Seq<V> {
        self.values@
    }

    /// No two keys are equal, and every key has its value.
    pub open spec fn wf(&self) -> bool {
        &&& self.keys().len() == self.values().len()
        &&& forall|i: int, j: int|
            #![trigger self.keys()[i], self.keys()[j]]
            0 <= i < j < self.keys().len() ==> !self.keys()[i].eq_spec(&self.keys()[j])
    }

    /// The key at `i` equals `key`.
    pub open spec fn key_at(&self, i: int, key: K) -> bool {
        0 <= i < self.keys().len() && self.keys()[i].eq_spec(&key)
    }

    pub open spec fn contains_key(&self, key: K) -> bool {
        exists|i: int| self.key_at(i, key)
    }

    /// The value that the table holds for `key`, if it holds one.
    pub open spec fn value_of(&self, key: K) -> Option<V> {
        if self.contains_key(key) {
            Some(self.values()[choose|i: int| self.key_at(i, key)])
        } else {
            None
        }
    }

    /// A key has one place only.
    pub proof fn lemma_one_place(&self, key: K, i: int, j: int)
        requires
            self.wf(),
            lawful_eq::<K>(),
            self.key_at(i, key),
            self.key_at(j, key),
        ensures
            i == j,
    {
        let a = self.keys()[i];
        let b = self.keys()[j];
        assert(key.eq_spec(&b));
        assert(a.eq_spec(&b));
        assert(b.eq_spec(&a));
    }

    /// The value of a key is the value at its place.
    pub proof fn lemma_value_at(&self, key: K, i: int)
        requires
            self.wf(),
            lawful_eq::<K>(),
            self.key_at(i, key),
        ensures
            self.value_of(key) == Some(self.values()[i]),
    {
        let j = choose|j: int| self.key_at(j, key);
        self.lemma_one_place(key, i, j);
    }

    pub fn new() -> (table: Self)
        ensures
            table.wf(),
            table.keys() == Seq::<K>::empty(),
            forall|key: K| !table.contains_key(key),
    {
        Table { keys: Vec::new(), values: Vec::new() }
    }

    /// The place of `key`, if the table holds it.
    fn position(&self, key: &K) -> (at: Option<usize>)
        requires
            self.wf(),
            lawful_eq::<K>(),
        ensures
            match at {
                Some(i) => self.key_at(i as int, *key),
                None => !self.contains_key(*key),
            },
    {
        let n: usize = self.keys.len();
        let mut i: usize = 0;
        while i < n
            invariant
                lawful_eq::<K>(),
                n == self.keys@.len(),
                i <= n,
                forall|j: int| 0 <= j < i ==> !self.key_at(j, *key),
            decreases n - i,
        {
            if self.keys[i] == *key {
                return Some(i);
            }
            i += 1;
        }
        None
    }

    pub fn get(&self, key: &K) -> (found: Option<&V>)
        requires
            self.wf(),
            lawful_eq::<K>(),
        ensures
            match found {
                Some(value) => self.value_of(*key) == Some(*value),
                None => self.value_of(*key).is_none(),
            },
    {
        match self.position(key) {
            Some(i) => {
                proof {
                    self.lemma_value_at(*key, i as int);
                }
                Some(&self.values[i])
            },
            None => None,
        }
    }

    /// Gives `key` the value `value`, whether or not it had one.
    pub fn insert(&mut self, key: K, value: V)
        requires
            old(self).wf(),
            lawful_eq::<K>(),
        ensures
            final(self).wf(),
            forall|other: K| #[trigger]
                final(self).value_of(other) == if key.eq_spec(&other) {
                    Some(value)
                } else {
                    old(self).value_of(other)
                },
    {
        let ghost before = *self;
        match self.position(&key) {
            Some(i) => {
                self.values.set(i, value);
                proof {
                    assert forall|other: K| #[trigger]
                        self.value_of(other) == if key.eq_spec(&other) {
                            Some(value)
                        } else {
                            before.value_of(other)
                        } by {
                        let here = before.keys()[i as int];
                        if key.eq_spec(&other) {
                            assert(here.eq_spec(&other));
                            assert(self.key_at(i as int, other));
                            self.lemma_value_at(other, i as int);
                        } else if before.contains_key(other) {
                            let j = choose|j: int| before.key_at(j, other);
                            if j == i {
                                assert(key.eq_spec(&here));
                            }
                            assert(self.key_at(j, other));
                            self.lemma_value_at(other, j);
                        } else {
                            assert forall|j: int| !self.key_at(j, other) by {
                                assert(self.key_at(j, other) == before.key_at(j, other));
                            }
                        }
                    }
                }
            },
            None => {
                let ghost n = self.keys@.len() as int;
                proof {
                    assert forall|j: int| 0 <= j < n implies !(#[trigger] self.keys()[j]).eq_spec(
                        &key,
                    ) by {
                        assert(!self.key_at(j, key));
                    }
                }
                self.keys.push(key);
                self.values.push(value);
                proof {
                    assert forall|other: K| #[trigger]
                        self.value_of(other) == if key.eq_spec(&other) {
                            Some(value)
                        } else {
                            before.value_of(other)
                        } by {
                        if key.eq_spec(&other) {
                            assert(self.key_at(n, other));
                            self.lemma_value_at(other, n);
                        } else if before.contains_key(other) {
                            let j = choose|j: int| before.key_at(j, other);
                            assert(self.key_at(j, other));
                            self.lemma_value_at(other, j);
                        } else {
                            assert forall|j: int| !self.key_at(j, other) by {
                                if 0 <= j < n {
                                    assert(self.key_at(j, other) == before.key_at(j, other));
                                }
                            }
                        }
                    }
                }
            },
        }
    }

    /// Takes `key` and its value out of the table, if it holds them.
    pub fn remove(&mut self, key: &K) -> (taken: Option<(K, V)>)
        requires
            old(self).wf(),
            lawful_eq::<K>(),
        ensures
            final(self).wf(),
            match taken {
                Some((k, v)) => k.eq_spec(key) && old(self).value_of(*key) == Some(v),
                None => old(self).value_of(*key).is_none(),
            },
            forall|other: K| #[trigger]
                final(self).value_of(other) == if key.eq_spec(&other) {
                    None
                } else {
                    old(self).value_of(other)
                },
    {
        let ghost before = *self;
        match self.position(key) {
            Some(i) => {
                proof {
                    before.lemma_value_at(*key, i as int);
                }
                let k: K = self.keys.remove(i);
                let v: V = self.values.remove(i);
                proof {
                    assert forall|other: K| #[trigger]
                        self.value_of(other) == if key.eq_spec(&other) {
                            None
                        } else {
                            before.value_of(other)
                        } by {
                        if self.contains_key(other) {
                            let j = choose|j: int| self.key_at(j, other);
                            let from = if j < i {
                                j
                            } else {
                                j + 1
                            };
                            assert(before.key_at(from, other));
                            before.lemma_value_at(other, from);
                            self.lemma_value_at(other, j);
                            if key.eq_spec(&other) {
                                assert(k.eq_spec(&other));
                                before.lemma_one_place(other, from, i as int);
                            }
                        } else if before.contains_key(other) {
                            let j = choose|j: int| before.key_at(j, other);
                            if j < i {
                                assert(self.key_at(j, other));
                            } else if j > i {
                                assert(self.key_at(j - 1, other));
                            } else {
                                assert(key.eq_spec(&k));
                            }
                        }
                    }
                }
                Some((k, v))
            },
            None => {
                proof {
                    assert forall|other: K| key.eq_spec(&other) implies !self.contains_key(
                        other,
                    ) by {
                        if self.contains_key(other) {
                            let j = choose|j: int| self.key_at(j, other);
                            let here = self.keys()[j];
                            assert(other.eq_spec(&here));
                            assert(here.eq_spec(&other));
                            assert(here.eq_spec(key));
                            assert(self.key_at(j, *key));
                        }
                    }
                }
                None
            },
        }
    }
}

} // verus!
