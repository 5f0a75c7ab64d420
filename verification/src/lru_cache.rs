//! Bounded, recency-ordered (least-recently-used) cache.
//!
//! The cache is viewed as a sequence of `(key, value)` pairs ordered from
//! most-recently-used (index 0) to least-recently-used (last index), with
//! pairwise-distinct keys and never more pairs than the capacity chosen at
//! construction. Every hit of `get` and every `insert` moves the touched key
//! to the front; when an insert of a new key finds the cache full, the last
//! pair — the least-recently-used one — is evicted first.

use crate::assoc::contains_key;
use crate::assoc::distinct_keys;
use crate::assoc::lemma_drop_last;
use crate::assoc::lemma_index_of_unique;
use crate::assoc::lemma_insert_front;
use crate::assoc::lemma_remove_key;
use crate::assoc::remove_key;
use crate::assoc::value_of;
use vstd::prelude::*;

verus! {

/// A fixed-capacity cache of `String` values under `u64` keys, evicting the
/// least-recently-used entry when a new key would exceed the capacity.
///
/// Exclusive-owner sharing: no internal lock; all operations take `&mut self`,
/// so one owner (or one external lock) serializes access.
pub struct LruCache {
    /// Recency list and index in one: most-recently-used first, keys distinct.
    entries: Vec<(u64, String)>,
    /// Fixed bound on the number of live entries.
    capacity: usize,
}

impl View for LruCache {
    type V = Seq<(u64, String)>;

    closed spec fn view(&self) -> Seq<(u64, String)> {
        self.entries@
    }
}

/// The recency list after a hit on `k`: its pair, unchanged, moved to the
/// front. Meaningful only when `contains_key(s, k)`.
pub open spec fn promote(s: Seq<(u64, String)>, k: u64) -> Seq<(u64, String)> {
    remove_key(s, k).insert(0, (k, value_of(s, k)))
}

/// The recency list after `insert(k, v)` into a cache of capacity `cap`:
/// a present key is rebound and moved to the front; a new key is placed at
/// the front, evicting the last (least-recently-used) pair when the cache is
/// full. A capacity of zero stores nothing.
pub open spec fn spec_insert(s: Seq<(u64, String)>, k: u64, v: String, cap: nat) -> Seq<
    (u64, String),
> {
    if cap == 0 {
        s
    } else if contains_key(s, k) {
        remove_key(s, k).insert(0, (k, v))
    } else if s.len() >= cap {
        s.drop_last().insert(0, (k, v))
    } else {
        s.insert(0, (k, v))
    }
}

impl LruCache {
    /// The capacity fixed at construction.
    pub closed spec fn cap(&self) -> nat {
        self.capacity as nat
    }

    /// Well-formedness: distinct keys, and never more entries than capacity.
    pub open spec fn wf(&self) -> bool {
        &&& distinct_keys(self@)
        &&& self@.len() <= self.cap()
    }

    /// Create an empty cache that holds at most `capacity` entries.
    ///
    /// `capacity == 0` is degenerate but defined: such a cache stores
    /// nothing, every `insert` is dropped and every `get` misses.
    pub fn new(capacity: usize) -> (result: Self)
        ensures
            result.wf(),
            result@ == Seq::<(u64, String)>::empty(),
            result.cap() == capacity,
    {
        Self { entries: Vec::new(), capacity }
    }

    /// How many entries are live.
    pub fn len(&self) -> (result: usize)
        ensures
            result == self@.len(),
    {
        self.entries.len()
    }

    /// The index of `key`'s entry, scanning from the most recent end.
    fn find_index(&self, key: u64) -> (result: Option<usize>)
        ensures
            match result {
                Some(i) => i < self@.len() && self@[i as int].0 == key,
                None => !contains_key(self@, key),
            },
    {
        let mut i: usize = 0;
        while i < self.entries.len()
            invariant
                i <= self.entries@.len(),
                forall|j: int| 0 <= j < i ==> self.entries@[j].0 != key,
            decreases self.entries@.len() - i,
        {
            if self.entries[i].0 == key {
                return Some(i);
            }
            i = i + 1;
        }
        None
    }

    /// Splice the entry at position `i` out of the recency list and hand it
    /// back.
    fn unlink(&mut self, i: usize) -> (result: (u64, String))
        requires
            i < old(self)@.len(),
        ensures
            final(self)@ == old(self)@.remove(i as int),
            final(self).cap() == old(self).cap(),
            result == old(self)@[i as int],
    {
        self.entries.remove(i)
    }

    /// Place an entry at the front of the recency list: the new entry becomes
    /// the most-recently-used one.
    fn add_to_front(&mut self, key: u64, value: String)
        ensures
            final(self)@ == old(self)@.insert(0, (key, value)),
            final(self).cap() == old(self).cap(),
    {
        self.entries.insert(0, (key, value));
    }

    /// Re-splice the entry at position `i` to the front of the recency list.
    fn move_to_front(&mut self, i: usize)
        requires
            i < old(self)@.len(),
        ensures
            final(self)@ == old(self)@.remove(i as int).insert(0, old(self)@[i as int]),
            final(self).cap() == old(self).cap(),
    {
        let (key, value) = self.unlink(i);
        self.add_to_front(key, value);
    }

    /// Evict the least-recently-used entry: the last one of the recency list.
    fn evict(&mut self)
        requires
            old(self)@.len() > 0,
        ensures
            final(self)@ == old(self)@.drop_last(),
            final(self).cap() == old(self).cap(),
    {
        let _ = self.entries.pop();
        proof {
            assert(self.entries@ =~= old(self)@.drop_last());
        }
    }

    /// Bind `key` to `value` and make it the most-recently-used entry.
    ///
    /// A key already present is rebound in place of its old value, the entry
    /// count unchanged. A new key is created at the front; if the cache is
    /// full, the least-recently-used entry is evicted first. Inserting never
    /// fails on valid input and never leaves more than `cap()` entries; on a
    /// degenerate capacity of zero it stores nothing.
    pub fn insert(&mut self, key: u64, value: String)
        requires
            old(self).wf(),
        ensures
            final(self).wf(),
            final(self).cap() == old(self).cap(),
            final(self)@ == spec_insert(old(self)@, key, value, old(self).cap()),
    {
        if self.capacity == 0 {
            return ;
        }
        let ghost s0 = self@;
        match self.find_index(key) {
            Some(i) => {
                proof {
                    lemma_index_of_unique(s0, key, i as int);
                    lemma_remove_key(s0, key);
                }
                let _ = self.unlink(i);
                proof {
                    lemma_insert_front(self@, key, value);
                }
                self.add_to_front(key, value);
            },
            None => {
                if self.entries.len() == self.capacity {
                    proof {
                        lemma_drop_last(s0);
                    }
                    self.evict();
                }
                proof {
                    lemma_insert_front(self@, key, value);
                }
                self.add_to_front(key, value);
            },
        }
    }

    /// Look `key` up; a hit returns a copy of its value and, as the defining
    /// recency side effect, moves the entry to the front. A miss changes
    /// nothing.
    pub fn get(&mut self, key: u64) -> (result: Option<String>)
        requires
            old(self).wf(),
        ensures
            final(self).wf(),
            final(self).cap() == old(self).cap(),
            match result {
                Some(v) => contains_key(old(self)@, key) && v == value_of(old(self)@, key)
                    && final(self)@ == promote(old(self)@, key),
                None => !contains_key(old(self)@, key) && final(self)@ == old(self)@,
            },
    {
        let ghost s0 = self@;
        match self.find_index(key) {
            Some(i) => {
                proof {
                    lemma_index_of_unique(s0, key, i as int);
                    lemma_remove_key(s0, key);
                }
                self.move_to_front(i);
                proof {
                    lemma_insert_front(remove_key(s0, key), key, value_of(s0, key));
                    assert(s0[i as int] == (key, value_of(s0, key)));
                    assert(self@ == promote(s0, key));
                }
                let value = self.entries[0].1.clone();
                Some(value)
            },
            None => None,
        }
    }

    /// Unbind `key`: a hit unlinks its entry from the recency list, removes
    /// it from the index and returns its value; a miss changes nothing.
    pub fn remove(&mut self, key: u64) -> (result: Option<String>)
        requires
            old(self).wf(),
        ensures
            final(self).wf(),
            final(self).cap() == old(self).cap(),
            final(self)@ == remove_key(old(self)@, key),
            match result {
                Some(v) => contains_key(old(self)@, key) && v == value_of(old(self)@, key),
                None => !contains_key(old(self)@, key),
            },
    {
        let ghost s0 = self@;
        match self.find_index(key) {
            Some(i) => {
                proof {
                    lemma_index_of_unique(s0, key, i as int);
                    lemma_remove_key(s0, key);
                }
                let (_, value) = self.unlink(i);
                Some(value)
            },
            None => None,
        }
    }
}

/// The capacity bound is invariant under every sequence of operations: `new`
/// creates a well-formed cache, each operation's contract turns a well-formed
/// cache into a well-formed one, and a well-formed cache never holds more
/// entries than its capacity.
pub proof fn lemma_size_bounded(c: &LruCache)
    requires
        c.wf(),
    ensures
        c@.len() <= c.cap(),
{
}

/// Inserting binds: immediately after `insert(k, v)` on a cache with
/// positive capacity, `k` is present, bound to `v`, and most-recently-used
/// (the front of the recency list).
pub proof fn lemma_insert_binds(s: Seq<(u64, String)>, k: u64, v: String, cap: nat)
    requires
        distinct_keys(s),
        s.len() <= cap,
        cap > 0,
    ensures
        contains_key(spec_insert(s, k, v, cap), k),
        value_of(spec_insert(s, k, v, cap), k) == v,
        spec_insert(s, k, v, cap)[0] == (k, v),
{
    if contains_key(s, k) {
        lemma_remove_key(s, k);
        lemma_insert_front(remove_key(s, k), k, v);
    } else if s.len() >= cap {
        lemma_drop_last(s);
        lemma_insert_front(s.drop_last(), k, v);
    } else {
        lemma_insert_front(s, k, v);
    }
}

/// A binding outlives unrelated inserts: `insert(k2, v2)` with `k2 != k`
/// leaves `k` present with its value, unless the insert of a *new* key found
/// the cache full while `k` was the least-recently-used key — the one case
/// in which `k` is evicted.
pub proof fn lemma_insert_preserves_other(s: Seq<(u64, String)>, k: u64, k2: u64, v2: String, cap: nat)
    requires
        distinct_keys(s),
        s.len() <= cap,
        cap > 0,
        k != k2,
        contains_key(s, k),
        contains_key(s, k2) || s.len() < cap || s.last().0 != k,
    ensures
        contains_key(spec_insert(s, k2, v2, cap), k),
        value_of(spec_insert(s, k2, v2, cap), k) == value_of(s, k),
{
    if contains_key(s, k2) {
        lemma_remove_key(s, k2);
        lemma_insert_front(remove_key(s, k2), k2, v2);
    } else if s.len() >= cap {
        lemma_drop_last(s);
        lemma_insert_front(s.drop_last(), k2, v2);
    } else {
        lemma_insert_front(s, k2, v2);
    }
}

/// Eviction hits exactly the least-recently-used key: an insert of a new key
/// into a full cache drops the last key of the recency list, and every other
/// key keeps its value.
pub proof fn lemma_evicts_lru(s: Seq<(u64, String)>, k: u64, v: String, cap: nat)
    requires
        distinct_keys(s),
        s.len() == cap,
        cap > 0,
        !contains_key(s, k),
    ensures
        !contains_key(spec_insert(s, k, v, cap), s.last().0),
        forall|k2: u64|
            k2 != s.last().0 && k2 != k ==> #[trigger] contains_key(spec_insert(s, k, v, cap), k2)
                == contains_key(s, k2),
        forall|k2: u64|
            k2 != s.last().0 && k2 != k && contains_key(s, k2) ==> #[trigger] value_of(
                spec_insert(s, k, v, cap),
                k2,
            ) == value_of(s, k2),
{
    assert(s[s.len() - 1].0 == s.last().0);
    assert(contains_key(s, s.last().0));
    lemma_drop_last(s);
    lemma_insert_front(s.drop_last(), k, v);
}

/// A read reorders but never rebinds: after a hit of `get(k)`, every key of
/// the cache is still present with its value; `k` merely moved to the front
/// of the recency list as the most-recently-used key.
pub proof fn lemma_get_promotes(s: Seq<(u64, String)>, k: u64, k2: u64)
    requires
        distinct_keys(s),
        contains_key(s, k),
    ensures
        promote(s, k)[0] == (k, value_of(s, k)),
        contains_key(promote(s, k), k2) == contains_key(s, k2),
        contains_key(s, k2) ==> value_of(promote(s, k), k2) == value_of(s, k2),
{
    lemma_remove_key(s, k);
    lemma_insert_front(remove_key(s, k), k, value_of(s, k));
}

} // verus!
