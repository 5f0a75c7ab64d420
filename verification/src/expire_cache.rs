//! Time-bounded (TTL) cache with lazy expiration.
//!
//! Each record carries an absolute expiry instant; a record is logically
//! absent as soon as the current instant reaches its expiry, even while it is
//! still physically stored. `get` and `insert` sweep the whole index first,
//! discarding every expired record, so no read ever serves a value past its
//! deadline. Time is a caller-supplied instant in whole time-units (`now`);
//! the engine itself never reads a clock.

use crate::assoc::contains_key;
use crate::assoc::distinct_keys;
use crate::assoc::lemma_drop_last;
use crate::assoc::lemma_index_of_unique;
use crate::assoc::lemma_push;
use crate::assoc::lemma_remove_key;
use crate::assoc::remove_key;
use crate::assoc::value_of;
use vstd::prelude::*;

verus! {

/// Ceiling on the time-to-live an insert may ask for, in time-units.
/// Bounds how long a dead record can occupy memory between sweeps.
pub const MAX_TTL: u64 = 60;

/// A stored value together with the absolute instant at which it expires.
pub struct Record {
    pub value: String,
    pub expiry: u64,
}

/// A caller contract violation, surfaced as a typed failure.
#[derive(Clone, Copy, Debug, PartialEq, Eq, Structural)]
pub enum CacheError {
    /// The time-to-live handed to `insert` exceeds [`MAX_TTL`].
    InvalidConfiguration,
}

/// An unbounded cache of `String` values under `String` keys where every
/// record expires at an absolute instant fixed when it is inserted.
///
/// Exclusive-owner sharing: no internal lock; all operations take `&mut self`,
/// so one owner (or one external lock) serializes access.
pub struct ExpireCache {
    /// The index: one record per key, keys distinct, order immaterial.
    entries: Vec<(String, Record)>,
}

impl View for ExpireCache {
    type V = Seq<(Seq<char>, Record)>;

    closed spec fn view(&self) -> Seq<(Seq<char>, Record)> {
        self.entries@.map_values(|p: (String, Record)| (p.0@, p.1))
    }
}

/// A record still serves reads at instant `now`.
pub open spec fn live(r: Record, now: u64) -> bool {
    r.expiry > now
}

/// The index after a full sweep at instant `now`: exactly the live records,
/// in their stored order.
pub open spec fn sweep(s: Seq<(Seq<char>, Record)>, now: u64) -> Seq<(Seq<char>, Record)>
    decreases s.len(),
{
    if s.len() == 0 {
        Seq::empty()
    } else {
        let rest = sweep(s.drop_last(), now);
        if live(s.last().1, now) {
            rest.push(s.last())
        } else {
            rest
        }
    }
}

/// The index after `insert(k, v)` with expiry instant `expiry`, before the
/// sweep: any old record for `k` is overwritten.
pub open spec fn upsert(
    s: Seq<(Seq<char>, Record)>,
    k: Seq<char>,
    v: String,
    expiry: u64,
) -> Seq<(Seq<char>, Record)> {
    remove_key(s, k).push((k, Record { value: v, expiry }))
}

/// A sweep keeps the keys distinct and keeps exactly the bindings of records
/// that are live at `now`, each with its record unchanged.
pub proof fn lemma_sweep(s: Seq<(Seq<char>, Record)>, now: u64)
    requires
        distinct_keys(s),
    ensures
        distinct_keys(sweep(s, now)),
        forall|k: Seq<char>|
            #[trigger] contains_key(sweep(s, now), k) <==> contains_key(s, k) && live(
                value_of(s, k),
                now,
            ),
        forall|k: Seq<char>|
            contains_key(sweep(s, now), k) ==> #[trigger] value_of(sweep(s, now), k) == value_of(
                s,
                k,
            ),
    decreases s.len(),
{
    if s.len() == 0 {
        assert forall|k: Seq<char>| !#[trigger] contains_key(sweep(s, now), k) by {
            assert(sweep(s, now).len() == 0);
        }
    } else {
        let s1 = s.drop_last();
        let x = s.last();
        let t = sweep(s, now);
        let r1 = sweep(s1, now);
        lemma_drop_last(s);
        lemma_sweep(s1, now);
        lemma_index_of_unique(s, x.0, s.len() - 1);
        if live(x.1, now) {
            assert(!contains_key(r1, x.0));
            lemma_push(r1, x.0, x.1);
            assert(t == r1.push(x));
            assert(x == (x.0, x.1));
            assert forall|k: Seq<char>| #[trigger] contains_key(t, k) implies contains_key(s, k)
                && live(value_of(s, k), now) && value_of(t, k) == value_of(s, k) by {
                if k == x.0 {
                    assert(value_of(t, k) == x.1);
                    assert(value_of(s, k) == x.1);
                } else {
                    assert(contains_key(r1, k));
                }
            }
            assert forall|k: Seq<char>| contains_key(s, k) && live(value_of(s, k), now) implies
                #[trigger] contains_key(t, k) by {
                if k != x.0 {
                    assert(value_of(s1, k) == value_of(s, k));
                    assert(contains_key(r1, k));
                }
            }
        } else {
            assert(t == r1);
            assert forall|k: Seq<char>| #[trigger] contains_key(t, k) implies contains_key(s, k)
                && live(value_of(s, k), now) && value_of(t, k) == value_of(s, k) by {
                assert(contains_key(s1, k));
                assert(k != x.0);
            }
            assert forall|k: Seq<char>| contains_key(s, k) && live(value_of(s, k), now) implies
                #[trigger] contains_key(t, k) by {
                if k == x.0 {
                    assert(value_of(s, k) == x.1);
                } else {
                    assert(value_of(s1, k) == value_of(s, k));
                }
            }
        }
    }
}

/// Expiry is a hard deadline, never honored late: once `now` has reached a
/// record's expiry instant, the sweep at `now` drops its key, so a `get` at
/// `now` — which sweeps first — serves nothing for it.
pub proof fn lemma_expired_never_served(s: Seq<(Seq<char>, Record)>, k: Seq<char>, now: u64)
    requires
        distinct_keys(s),
        contains_key(s, k),
        now >= value_of(s, k).expiry,
    ensures
        !contains_key(sweep(s, now), k),
{
    lemma_sweep(s, now);
}

impl ExpireCache {
    /// Well-formedness: distinct keys.
    pub open spec fn wf(&self) -> bool {
        distinct_keys(self@)
    }

    /// Create an empty cache with no capacity bound.
    pub fn new() -> (result: Self)
        ensures
            result.wf(),
            result@ == Seq::<(Seq<char>, Record)>::empty(),
    {
        let entries: Vec<(String, Record)> = Vec::new();
        proof {
            assert(entries@.map_values(|p: (String, Record)| (p.0@, p.1)) =~= Seq::<
                (Seq<char>, Record),
            >::empty());
        }
        Self { entries }
    }

    /// How many records are physically stored (live or awaiting a sweep).
    pub fn len(&self) -> (result: usize)
        ensures
            result == self@.len(),
    {
        self.entries.len()
    }

    /// The index of `key`'s record.
    fn find_index(&self, key: &String) -> (result: Option<usize>)
        ensures
            match result {
                Some(i) => i < self@.len() && self@[i as int].0 == key@,
                None => !contains_key(self@, key@),
            },
    {
        let mut i: usize = 0;
        while i < self.entries.len()
            invariant
                i <= self.entries@.len(),
                forall|j: int| 0 <= j < i ==> self@[j].0 != key@,
            decreases self.entries@.len() - i,
        {
            proof {
                assert(self@[i as int] == (self.entries@[i as int].0@, self.entries@[i as int].1));
            }
            if self.entries[i].0 == *key {
                return Some(i);
            }
            i = i + 1;
        }
        None
    }

    /// The sweep: scan the whole index and discard every record whose expiry
    /// instant has been reached.
    fn clean_expired(&mut self, now: u64)
        requires
            old(self).wf(),
        ensures
            final(self).wf(),
            final(self)@ == sweep(old(self)@, now),
    {
        let ghost orig = self@;
        let mut i: usize = 0;
        let ghost j: int = 0;
        while i < self.entries.len()
            invariant
                0 <= i as int <= self@.len(),
                i as int <= j <= orig.len(),
                i as int == sweep(orig.take(j), now).len(),
                self@ == sweep(orig.take(j), now) + orig.skip(j),
            decreases orig.len() - j,
        {
            proof {
                assert(self@[i as int] == orig.skip(j)[0]);
                assert(self@[i as int] == orig[j]);
                assert(orig.take(j + 1).drop_last() =~= orig.take(j));
                assert(orig.take(j + 1).last() == orig[j]);
            }
            if self.entries[i].1.expiry > now {
                proof {
                    assert(sweep(orig.take(j + 1), now) == sweep(orig.take(j), now).push(orig[j]));
                    assert(self@ =~= sweep(orig.take(j + 1), now) + orig.skip(j + 1));
                }
                i = i + 1;
            } else {
                let ghost before = self@;
                let _ = self.entries.remove(i);
                proof {
                    assert(self@ =~= before.remove(i as int));
                    assert(sweep(orig.take(j + 1), now) == sweep(orig.take(j), now));
                    assert(self@ =~= sweep(orig.take(j + 1), now) + orig.skip(j + 1));
                }
            }
            proof {
                j = j + 1;
            }
        }
        proof {
            assert(orig.skip(j).len() == 0);
            assert(j == orig.len());
            assert(orig.take(j) =~= orig);
            assert(self@ =~= sweep(orig, now));
            lemma_sweep(orig, now);
        }
    }

    /// Bind `key` to `value` until instant `now + ttl`, overwriting any
    /// record `key` had, then sweep the whole index at `now`.
    ///
    /// A time-to-live above [`MAX_TTL`] is a caller contract violation: the
    /// operation fails with [`CacheError::InvalidConfiguration`] and stores
    /// nothing. Any allowed time-to-live — including zero, whose record the
    /// closing sweep discards at once — succeeds.
    pub fn insert(&mut self, key: String, value: String, ttl: u64, now: u64) -> (result: Result<
        (),
        CacheError,
    >)
        requires
            old(self).wf(),
            ttl <= MAX_TTL ==> now + ttl <= u64::MAX,
        ensures
            final(self).wf(),
            match result {
                Ok(()) => ttl <= MAX_TTL && final(self)@ == sweep(
                    upsert(old(self)@, key@, value, (now + ttl) as u64),
                    now,
                ),
                Err(e) => ttl > MAX_TTL && e == CacheError::InvalidConfiguration && final(self)@
                    == old(self)@,
            },
    {
        if ttl > MAX_TTL {
            return Err(CacheError::InvalidConfiguration);
        }
        let expiry = now + ttl;
        let ghost s0 = self@;
        match self.find_index(&key) {
            Some(i) => {
                proof {
                    lemma_index_of_unique(s0, key@, i as int);
                    lemma_remove_key(s0, key@);
                }
                let _ = self.entries.remove(i);
                proof {
                    assert(self@ =~= s0.remove(i as int));
                }
            },
            None => {
                proof {
                    lemma_remove_key(s0, key@);
                }
            },
        }
        proof {
            assert(self@ == remove_key(s0, key@));
            lemma_push(self@, key@, Record { value, expiry });
        }
        let ghost before = self@;
        self.entries.push((key, Record { value, expiry }));
        proof {
            assert(self@ =~= before.push((key@, Record { value, expiry })));
            assert(self@ == upsert(s0, key@, value, expiry));
        }
        self.clean_expired(now);
        Ok(())
    }

    /// Sweep the whole index at `now`, then look `key` up: a record that is
    /// present and live yields a copy of its value, anything else yields
    /// nothing. Expiry is a hard deadline — a record whose expiry instant has
    /// been reached is never served.
    pub fn get(&mut self, key: &String, now: u64) -> (result: Option<String>)
        requires
            old(self).wf(),
        ensures
            final(self).wf(),
            final(self)@ == sweep(old(self)@, now),
            match result {
                Some(v) => contains_key(old(self)@, key@) && live(value_of(old(self)@, key@), now)
                    && v == value_of(old(self)@, key@).value,
                None => !(contains_key(old(self)@, key@) && live(
                    value_of(old(self)@, key@),
                    now,
                )),
            },
    {
        let ghost s0 = self@;
        self.clean_expired(now);
        proof {
            lemma_sweep(s0, now);
        }
        match self.find_index(key) {
            Some(i) => {
                proof {
                    assert(contains_key(self@, key@));
                    assert(contains_key(sweep(s0, now), key@));
                    assert(value_of(sweep(s0, now), key@) == value_of(s0, key@));
                    lemma_index_of_unique(self@, key@, i as int);
                    assert(value_of(self@, key@) == self@[i as int].1);
                    assert(self@[i as int] == (self.entries@[i as int].0@, self.entries@[
                        i as int].1));
                }
                if self.entries[i].1.expiry > now {
                    Some(self.entries[i].1.value.clone())
                } else {
                    None
                }
            },
            None => {
                proof {
                    assert(!contains_key(sweep(s0, now), key@));
                }
                None
            },
        }
    }

    /// Unbind `key` unconditionally, live or expired, and return the value of
    /// the record it had, if any. No sweep is performed.
    pub fn remove(&mut self, key: &String) -> (result: Option<String>)
        requires
            old(self).wf(),
        ensures
            final(self).wf(),
            final(self)@ == remove_key(old(self)@, key@),
            match result {
                Some(v) => contains_key(old(self)@, key@) && v == value_of(old(self)@, key@).value,
                None => !contains_key(old(self)@, key@),
            },
    {
        let ghost s0 = self@;
        match self.find_index(key) {
            Some(i) => {
                proof {
                    lemma_index_of_unique(s0, key@, i as int);
                    lemma_remove_key(s0, key@);
                    assert(s0[i as int] == (self.entries@[i as int].0@, self.entries@[
                        i as int].1));
                }
                let entry = self.entries.remove(i);
                proof {
                    assert(self@ =~= s0.remove(i as int));
                }
                Some(entry.1.value)
            },
            None => None,
        }
    }
}

} // verus!
