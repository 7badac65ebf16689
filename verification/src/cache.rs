//! A memoizing store: what was computed for a key is kept for the lifetime
//! of the store and handed out again on request.

use vstd::prelude::*;
use vstd::std_specs::cmp::PartialEqSpec;
use crate::equality::lawful_eq;
use crate::table::Table;

verus! {

pub struct Cache<K, V> {
    entries: Table<K, V>,
}

impl<K: PartialEq, V> Cache<K, V> {
    pub closed spec fn wf(&self) -> bool {
        self.entries.wf()
    }

    /// What the store holds for `key`, if anything.
    pub closed spec fn value_of(&self, key: K) -> Option<V> {
        self.entries.value_of(key)
    }

    /// This store is `before` after `value` was set for `key`: keys equal
    /// to `key` have `value`, all others what they had.
    pub open spec fn follows_set(&self, before: Self, key: K, value: V) -> bool {
        forall|other: K| #[trigger]
            self.value_of(other) == if key.eq_spec(&other) {
                Some(value)
            } else {
                before.value_of(other)
            }
    }

    /// An empty store.
    pub fn new() -> (cache: Self)
        ensures
            cache.wf(),
            forall|key: K| (#[trigger] cache.value_of(key)).is_none(),
    {
        Cache { entries: Table::new() }
    }

    /// The value that was last set for `key`; `None` if none ever was.
    pub fn get(&self, key: &K) -> (found: Option<&V>)
        requires
            self.wf(),
            lawful_eq::<K>(),
        ensures
            match found {
                Some(value) => self.value_of(*key) == Some(*value),
                None => self.value_of(*key).is_none(),
            },
    {
        self.entries.get(key)
    }

    /// Remembers `value` for `key`; an earlier value for it is forgotten,
    /// the values of all other keys stay.
    pub fn set(&mut self, key: K, value: V)
        requires
            old(self).wf(),
            lawful_eq::<K>(),
        ensures
            final(self).wf(),
            final(self).follows_set(*old(self), key, value),
            final(self).value_of(key) == Some(value),
    {
        self.entries.insert(key, value);
    }

    /// A value that was set is the value that a lookup of its key finds.
    pub proof fn lemma_set_then_get(before: Self, after: Self, key: K, value: V)
        requires
            lawful_eq::<K>(),
            after.follows_set(before, key, value),
        ensures
            after.value_of(key) == Some(value),
    {
    }

    /// A key for which nothing was set stays without a value when another
    /// key is set.
    pub proof fn lemma_unset_stays_unset(before: Self, after: Self, key: K, value: V, other: K)
        requires
            after.follows_set(before, key, value),
            !key.eq_spec(&other),
            before.value_of(other).is_none(),
        ensures
            after.value_of(other).is_none(),
    {
    }
}

} // verus!
