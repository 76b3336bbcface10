//! Bounded key-value caches over `std::collections::HashMap`.
//!
//! The contracts speak of the map's view. They hold for key types whose
//! `Eq` and `Hash` agree with each other (`obeys_key_model`), which is what
//! `HashMap` itself relies on; for other key types they promise nothing
//! about the contents.
use std::collections::HashMap;
use std::hash::Hash;
use vstd::prelude::*;
use vstd::std_specs::hash::obeys_key_model;

verus! {

/// A cache holding at most `max_size` entries.
pub struct Cache<K, V> where K: Eq + Hash {
    store: HashMap<K, V>,
    max_size: usize,
}

impl<K: Eq + Hash, V> View for Cache<K, V> {
    type V = Map<K, V>;

    closed spec fn view(&self) -> Map<K, V> {
        self.store@
    }
}

impl<K, V> Cache<K, V> where K: Eq + Hash {
    /// The cache holds finitely many entries.
    pub proof fn lemma_view_finite(&self)
        ensures
            self@.dom().finite(),
    {
        broadcast use vstd::std_specs::hash::axiom_hashmap_view_finite_dom;
    }

    /// The largest number of entries the cache accepts.
    pub closed spec fn capacity(&self) -> nat {
        self.max_size as nat
    }

    /// An empty cache that accepts up to `max_size` entries.
    pub fn new(max_size: usize) -> (c: Self)
        ensures
            c@ == Map::<K, V>::empty(),
            c.capacity() == max_size,
    {
        Cache { store: HashMap::new(), max_size }
    }

    /// Stores `value` under `key`, unless the cache is full: when it already
    /// holds `capacity()` entries nothing is stored and `false` is returned.
    pub fn insert(&mut self, key: K, value: V) -> (ok: bool)
        ensures
            final(self).capacity() == old(self).capacity(),
            obeys_key_model::<K>() ==> {
                &&& ok == (old(self)@.len() < old(self).capacity())
                &&& ok ==> final(self)@ == old(self)@.insert(key, value)
                &&& !ok ==> final(self)@ == old(self)@
            },
    {
        if self.store.len() >= self.max_size {
            return false;
        }
        self.store.insert(key, value);
        true
    }

    /// The value stored under `key`, if any.
    pub fn get(&self, key: &K) -> (r: Option<&V>)
        ensures
            obeys_key_model::<K>() ==> match r {
                Some(v) => self@.contains_key(*key) && *v == self@[*key],
                None => !self@.contains_key(*key),
            },
    {
        self.store.get(key)
    }

    /// A mutable reference to the value stored under `key`, if any; what is
    /// written through it becomes the value under `key`.
    pub fn get_mut(&mut self, key: &K) -> (r: Option<&mut V>)
        ensures
            final(self).capacity() == old(self).capacity(),
            obeys_key_model::<K>() ==> match r {
                Some(v) => {
                    &&& old(self)@.contains_key(*key)
                    &&& *v == old(self)@[*key]
                    &&& final(self)@ == old(self)@.insert(*key, *final(v))
                },
                None => !old(self)@.contains_key(*key) && final(self)@ == old(self)@,
            },
    {
        map_get_mut(&mut self.store, key)
    }

    /// Whether an entry is stored under `key`.
    pub fn contains(&self, key: &K) -> (b: bool)
        ensures
            obeys_key_model::<K>() ==> b == self@.contains_key(*key),
    {
        self.store.contains_key(key)
    }

    /// Removes the entry under `key` and returns its value, if there was one.
    pub fn remove(&mut self, key: &K) -> (r: Option<V>)
        ensures
            final(self).capacity() == old(self).capacity(),
            obeys_key_model::<K>() ==> {
                &&& final(self)@ == old(self)@.remove(*key)
                &&& match r {
                    Some(v) => old(self)@.contains_key(*key) && v == old(self)@[*key],
                    None => !old(self)@.contains_key(*key),
                }
            },
    {
        self.store.remove(key)
    }

    /// The number of entries.
    pub fn len(&self) -> (n: usize)
        ensures
            obeys_key_model::<K>() ==> n == self@.len(),
    {
        self.store.len()
    }

    /// Whether the cache holds no entry.
    pub fn is_empty(&self) -> (b: bool)
        ensures
            b == (self@.len() == 0),
    {
        self.store.is_empty()
    }

    /// Whether the cache holds `capacity()` entries or more.
    pub fn is_full(&self) -> (b: bool)
        ensures
            obeys_key_model::<K>() ==> b == (self@.len() >= self.capacity()),
    {
        self.store.len() >= self.max_size
    }

    /// Removes every entry.
    pub fn clear(&mut self)
        ensures
            final(self)@ == Map::<K, V>::empty(),
            final(self).capacity() == old(self).capacity(),
    {
        self.store.clear();
    }
}

/// Calls `HashMap::get_mut`. Claims, as its documentation says and for key
/// types that obey the hash-table key model, that it returns a mutable reference to the value under `k` when there is one and
/// `None` otherwise, and that the map is otherwise left as it was.
#[verifier::external_body]
fn map_get_mut<'a, K: Eq + Hash, V>(m: &'a mut HashMap<K, V>, k: &K) -> (r: Option<&'a mut V>)
    ensures
        obeys_key_model::<K>() ==> match r {
            Some(v) => {
                &&& old(m)@.contains_key(*k)
                &&& *v == old(m)@[*k]
                &&& final(m)@ == old(m)@.insert(*k, *final(v))
            },
            None => !old(m)@.contains_key(*k) && final(m)@ == old(m)@,
        },
{
    m.get_mut(k)
}


/// A cached value with the time at which it was stored.
#[derive(Debug, Clone)]
pub struct CacheItem<T> {
    pub value: T,
    pub timestamp: u64,
}

/// `item` has outlived `ttl` at time `now` (which is not before its timestamp).
pub open spec fn expired<T>(item: CacheItem<T>, now: u64, ttl: u64) -> bool {
    now - item.timestamp > ttl
}

impl<T> CacheItem<T> {
    /// An item holding `value`, stored at `timestamp`.
    pub fn new(value: T, timestamp: u64) -> (item: Self)
        ensures
            item.value == value,
            item.timestamp == timestamp,
    {
        CacheItem { value, timestamp }
    }

    /// Whether more than `ttl` time units have passed between the item's
    /// timestamp and `current_time`, which must not be earlier.
    pub fn is_expired(&self, current_time: u64, ttl: u64) -> (b: bool)
        requires
            self.timestamp <= current_time,
        ensures
            b == expired(*self, current_time, ttl),
    {
        current_time - self.timestamp > ttl
    }

    /// Whether the item has not expired at `current_time`; an item stamped
    /// later than `current_time` has not.
    pub fn is_fresh(&self, current_time: u64, ttl: u64) -> (b: bool)
        ensures
            b == !expired(*self, current_time, ttl),
    {
        self.timestamp > current_time || current_time - self.timestamp <= ttl
    }
}

/// A cache whose entries expire `ttl` time units after they were stored.
pub struct TtlCache<K, V> where K: Eq + Hash {
    store: HashMap<K, CacheItem<V>>,
    max_size: usize,
    ttl: u64,
}

impl<K: Eq + Hash, V> View for TtlCache<K, V> {
    type V = Map<K, CacheItem<V>>;

    closed spec fn view(&self) -> Map<K, CacheItem<V>> {
        self.store@
    }
}

/// Every item of `m` was stored no later than `now`.
pub open spec fn stored_by<K, V>(m: Map<K, CacheItem<V>>, now: u64) -> bool {
    forall|k: K| m.contains_key(k) ==> #[trigger] m[k].timestamp <= now
}

/// The items of `m` that have not expired at `now`.
pub open spec fn fresh_items<K, V>(m: Map<K, CacheItem<V>>, now: u64, ttl: u64) -> Map<
    K,
    CacheItem<V>,
> {
    m.restrict(m.dom().filter(|k: K| !expired(m[k], now, ttl)))
}

/// The keys of `m` whose items have expired at `now`.
pub open spec fn expired_keys<K, V>(m: Map<K, CacheItem<V>>, now: u64, ttl: u64) -> Set<K> {
    m.dom().filter(|k: K| expired(m[k], now, ttl))
}

/// A finite map splits into its expired items and the fresh ones.
pub proof fn lemma_expired_count<K, V>(m: Map<K, CacheItem<V>>, now: u64, ttl: u64)
    requires
        m.dom().finite(),
    ensures
        m.len() == expired_keys(m, now, ttl).len() + fresh_items(m, now, ttl).len(),
{
    let e = expired_keys(m, now, ttl);
    let f = fresh_items(m, now, ttl).dom();
    assert(f =~= m.dom().filter(|k: K| !expired(m[k], now, ttl)));
    assert(m.dom() =~= e + f);
    vstd::set_lib::lemma_set_disjoint_lens(e, f);
}

impl<K, V> TtlCache<K, V> where K: Eq + Hash {
    /// The cache holds finitely many entries.
    pub proof fn lemma_view_finite(&self)
        ensures
            self@.dom().finite(),
    {
        broadcast use vstd::std_specs::hash::axiom_hashmap_view_finite_dom;
    }

    /// The largest number of entries the cache accepts.
    pub closed spec fn capacity(&self) -> nat {
        self.max_size as nat
    }

    /// How long an entry lives.
    pub closed spec fn time_to_live(&self) -> u64 {
        self.ttl
    }

    /// An empty cache of up to `max_size` entries that live `ttl` time units.
    pub fn new(max_size: usize, ttl: u64) -> (c: Self)
        ensures
            c@ == Map::<K, CacheItem<V>>::empty(),
            c.capacity() == max_size,
            c.time_to_live() == ttl,
    {
        TtlCache { store: HashMap::new(), max_size, ttl }
    }

    /// Stores `value` under `key` with the time `timestamp`. A new key is
    /// refused, and `false` returned, when the cache is full; an existing key
    /// is always updated.
    pub fn insert(&mut self, key: K, value: V, timestamp: u64) -> (ok: bool)
        ensures
            final(self).capacity() == old(self).capacity(),
            final(self).time_to_live() == old(self).time_to_live(),
            obeys_key_model::<K>() ==> {
                &&& ok == (old(self)@.len() < old(self).capacity() || old(self)@.contains_key(key))
                &&& ok ==> final(self)@ == old(self)@.insert(
                    key,
                    CacheItem { value, timestamp },
                )
                &&& !ok ==> final(self)@ == old(self)@
            },
    {
        if self.store.len() >= self.max_size && !self.store.contains_key(&key) {
            return false;
        }
        self.store.insert(key, CacheItem::new(value, timestamp));
        true
    }

    /// The value under `key` if it is stored and has not expired at
    /// `current_time`. The item under `key` must not be stamped later than
    /// `current_time`; an item found with a later stamp (which that rules
    /// out for a key type whose `Eq` and `Hash` agree) counts as fresh.
    pub fn get(&self, key: &K, current_time: u64) -> (r: Option<&V>)
        requires
            self@.contains_key(*key) ==> self@[*key].timestamp <= current_time,
        ensures
            obeys_key_model::<K>() ==> match r {
                Some(v) => {
                    &&& self@.contains_key(*key)
                    &&& !expired(self@[*key], current_time, self.time_to_live())
                    &&& *v == self@[*key].value
                },
                None => !self@.contains_key(*key) || expired(
                    self@[*key],
                    current_time,
                    self.time_to_live(),
                ),
            },
    {
        match self.store.get(key) {
            Some(item) => {
                if item.timestamp <= current_time && item.is_expired(current_time, self.ttl) {
                    None
                } else {
                    Some(&item.value)
                }
            },
            None => None,
        }
    }

    /// Removes every expired entry and returns how many were removed. No
    /// item may be stamped later than `current_time`.
    pub fn cleanup(&mut self, current_time: u64) -> (removed: usize)
        requires
            stored_by(old(self)@, current_time),
        ensures
            final(self).capacity() == old(self).capacity(),
            final(self).time_to_live() == old(self).time_to_live(),
            obeys_key_model::<K>() ==> {
                &&& final(self)@ == fresh_items(old(self)@, current_time, old(self).time_to_live())
                &&& removed == old(self)@.len() - final(self)@.len()
                &&& removed == expired_keys(old(self)@, current_time, old(self).time_to_live()).len()
            },
    {
        let before = self.store.len();
        retain_fresh(&mut self.store, current_time, self.ttl);
        proof {
            if obeys_key_model::<K>() {
                lemma_expired_count(old(self)@, current_time, self.ttl);
            }
        }
        before - self.store.len()
    }

    /// The number of entries, expired ones included.
    pub fn len(&self) -> (n: usize)
        ensures
            obeys_key_model::<K>() ==> n == self@.len(),
    {
        self.store.len()
    }

    /// Whether the cache holds no entry.
    pub fn is_empty(&self) -> (b: bool)
        ensures
            b == (self@.len() == 0),
    {
        self.store.is_empty()
    }
}

/// Calls `HashMap::retain` with the verified `CacheItem::is_fresh` as the
/// predicate, keeping the items that have not expired at `now`. Claims, as its documentation says, that exactly the entries for
/// which the predicate holds remain (for key types that obey the hash-table
/// key model), and that the map does not grow.
#[verifier::external_body]
fn retain_fresh<K: Eq + Hash, V>(m: &mut HashMap<K, CacheItem<V>>, now: u64, ttl: u64)
    requires
        stored_by(old(m)@, now),
    ensures
        final(m).len() <= old(m).len(),
        obeys_key_model::<K>() ==> final(m)@ == fresh_items(old(m)@, now, ttl),
{
    m.retain(|_, item| item.is_fresh(now, ttl));
}

/// A value stored under `k` is what a lookup of `k` finds afterwards; other
/// keys keep their values; and removing a key that was new undoes the
/// insertion.
pub proof fn law_get_after_insert<K, V>(m: Map<K, V>, k: K, v: V, other: K)
    ensures
        m.insert(k, v).contains_key(k),
        m.insert(k, v)[k] == v,
        other != k ==> (m.insert(k, v).contains_key(other) == m.contains_key(other)),
        other != k && m.contains_key(other) ==> m.insert(k, v)[other] == m[other],
        !m.contains_key(k) ==> m.insert(k, v).remove(k) == m,
{
    if !m.contains_key(k) {
        assert(m.insert(k, v).remove(k) =~= m);
    }
}

/// After a cleanup at `now`, no remaining entry has expired, and every entry
/// that had not expired is still there, unchanged.
pub proof fn law_cleanup_keeps_fresh<K, V>(m: Map<K, CacheItem<V>>, now: u64, ttl: u64, k: K)
    ensures
        fresh_items(m, now, ttl).contains_key(k) ==> !expired(fresh_items(m, now, ttl)[k], now, ttl),
        m.contains_key(k) && !expired(m[k], now, ttl) ==> fresh_items(m, now, ttl).contains_key(k)
            && fresh_items(m, now, ttl)[k] == m[k],
        m.contains_key(k) && expired(m[k], now, ttl) ==> !fresh_items(m, now, ttl).contains_key(k),
{
}

} // verus!
