//! Keyed ownership of resources behind opaque integer handles.
//!
//! `KeyedCache` is a flat store of distinct `u64` keys; `HandleMap` builds
//! on it and assigns the keys itself from a monotonically increasing
//! counter, so a handle it returns is never reused while the resource is
//! live, and never again after an unload either.

use vstd::prelude::*;

verus! {

/// One stored resource and the key it is filed under.
pub struct CacheEntry<T> {
    pub key: u64,
    pub value: T,
}

/// The mathematical contents of a run of entries, later entries winning
/// (with distinct keys the order never matters).
pub open spec fn entries_map<T>(s: Seq<CacheEntry<T>>) -> Map<u64, T>
    decreases s.len(),
{
    if s.len() == 0 {
        Map::empty()
    } else {
        entries_map(s.drop_last()).insert(s.last().key, s.last().value)
    }
}

/// A key is in the contents exactly when some entry carries it, and the
/// domain is finite.
pub proof fn lemma_entries_map_membership<T>(s: Seq<CacheEntry<T>>)
    ensures
        forall|k: u64|
            entries_map(s).contains_key(k) <==> exists|i: int|
                0 <= i < s.len() && #[trigger] s[i].key == k,
        entries_map(s).dom().finite(),
    decreases s.len(),
{
    if s.len() > 0 {
        lemma_entries_map_membership(s.drop_last());
        assert forall|k: u64| entries_map(s).contains_key(k) implies exists|i: int|
            0 <= i < s.len() && #[trigger] s[i].key == k by {
            if k == s.last().key {
                assert(s[s.len() - 1].key == k);
            } else {
                let i = choose|i: int|
                    0 <= i < s.drop_last().len() && #[trigger] s.drop_last()[i].key == k;
                assert(s[i].key == k);
            }
        }
        assert forall|k: u64|
            exists|i: int| 0 <= i < s.len() && #[trigger] s[i].key == k implies entries_map(
            s,
        ).contains_key(k) by {
            let i = choose|i: int| 0 <= i < s.len() && #[trigger] s[i].key == k;
            if i < s.len() - 1 {
                assert(s.drop_last()[i].key == k);
            }
        }
    }
}

/// With distinct keys, each entry's value is what the contents hold for
/// its key.
pub proof fn lemma_entries_map_index<T>(s: Seq<CacheEntry<T>>, i: int)
    requires
        forall|p: int, q: int|
            0 <= p < q < s.len() ==> #[trigger] s[p].key != #[trigger] s[q].key,
        0 <= i < s.len(),
    ensures
        entries_map(s).contains_key(s[i].key),
        entries_map(s)[s[i].key] == s[i].value,
    decreases s.len(),
{
    lemma_entries_map_membership(s);
    if i < s.len() - 1 {
        lemma_entries_map_index(s.drop_last(), i);
        assert(s.drop_last()[i] == s[i]);
        assert(s[i].key != s.last().key);
    }
}

/// With distinct keys, the store holds exactly as many resources as it
/// has entries.
pub proof fn lemma_entries_map_len<T>(s: Seq<CacheEntry<T>>)
    requires
        forall|p: int, q: int|
            0 <= p < q < s.len() ==> #[trigger] s[p].key != #[trigger] s[q].key,
    ensures
        entries_map(s).dom().finite(),
        entries_map(s).dom().len() == s.len(),
    decreases s.len(),
{
    lemma_entries_map_membership(s);
    if s.len() > 0 {
        lemma_entries_map_len(s.drop_last());
        lemma_entries_map_membership(s.drop_last());
        assert(!entries_map(s.drop_last()).contains_key(s.last().key));
        assert(entries_map(s).dom() =~= entries_map(s.drop_last()).dom().insert(s.last().key));
    }
}

/// Removing the entry at `i` removes exactly its key from the contents.
pub proof fn lemma_entries_map_remove<T>(s: Seq<CacheEntry<T>>, i: int)
    requires
        forall|p: int, q: int|
            0 <= p < q < s.len() ==> #[trigger] s[p].key != #[trigger] s[q].key,
        0 <= i < s.len(),
    ensures
        entries_map(s.remove(i)) =~= entries_map(s).remove(s[i].key),
    decreases s.len(),
{
    lemma_entries_map_membership(s.drop_last());
    if i == s.len() - 1 {
        assert(s.remove(i) =~= s.drop_last());
        assert(!entries_map(s.drop_last()).contains_key(s.last().key));
        assert(entries_map(s.drop_last()) =~= entries_map(s.drop_last()).insert(
            s.last().key,
            s.last().value,
        ).remove(s.last().key));
    } else {
        lemma_entries_map_remove(s.drop_last(), i);
        assert(s.remove(i).drop_last() =~= s.drop_last().remove(i));
        assert(s.remove(i).last() == s.last());
        assert(entries_map(s.remove(i)) == entries_map(s.drop_last().remove(i)).insert(
            s.last().key,
            s.last().value,
        ));
        assert(s[i].key != s.last().key);
        assert(entries_map(s.drop_last()).remove(s[i].key).insert(s.last().key, s.last().value)
            =~= entries_map(s.drop_last()).insert(s.last().key, s.last().value).remove(s[i].key));
    }
}

/// A store of resources under distinct caller-chosen `u64` keys.
pub struct KeyedCache<T> {
    pub entries: Vec<CacheEntry<T>>,
}

impl<T> KeyedCache<T> {
    /// What the cache holds, as a map from key to resource.
    pub open spec fn contents(self) -> Map<u64, T> {
        entries_map(self.entries@)
    }

    /// Every key is filed at most once.
    pub open spec fn wf(self) -> bool {
        forall|p: int, q: int|
            0 <= p < q < self.entries@.len() ==> #[trigger] self.entries@[p].key
                != #[trigger] self.entries@[q].key
    }

    /// An empty cache.
    pub fn new() -> (r: KeyedCache<T>)
        ensures
            r.wf(),
            r.contents() == Map::<u64, T>::empty(),
            r.entries@.len() == 0,
    {
        KeyedCache { entries: Vec::new() }
    }

    /// How many resources are stored.
    pub fn len(&self) -> (r: usize)
        requires
            self.wf(),
        ensures
            r == self.entries@.len(),
            r == self.contents().dom().len(),
    {
        proof {
            lemma_entries_map_len(self.entries@);
        }
        self.entries.len()
    }

    fn find(&self, key: u64) -> (r: Option<usize>)
        ensures
            match r {
                Some(i) => i < self.entries@.len() && self.entries@[i as int].key == key,
                None => forall|i: int|
                    0 <= i < self.entries@.len() ==> #[trigger] self.entries@[i].key != key,
            },
    {
        let mut i: usize = 0;
        while i < self.entries.len()
            invariant
                i <= self.entries@.len(),
                forall|j: int| 0 <= j < i ==> #[trigger] self.entries@[j].key != key,
            decreases self.entries@.len() - i,
        {
            if self.entries[i].key == key {
                return Some(i);
            }
            i += 1;
        }
        None
    }

    /// Whether a resource is filed under `key`.
    pub fn contains(&self, key: u64) -> (r: bool)
        ensures
            r == self.contents().contains_key(key),
    {
        proof {
            lemma_entries_map_membership(self.entries@);
        }
        self.find(key).is_some()
    }

    /// Borrows the resource filed under `key`, if any.
    pub fn get(&self, key: u64) -> (r: Option<&T>)
        requires
            self.wf(),
        ensures
            match r {
                Some(v) => self.contents().contains_key(key) && *v == self.contents()[key],
                None => !self.contents().contains_key(key),
            },
    {
        proof {
            lemma_entries_map_membership(self.entries@);
        }
        match self.find(key) {
            Some(i) => {
                proof {
                    lemma_entries_map_index(self.entries@, i as int);
                }
                Some(&self.entries[i].value)
            },
            None => None,
        }
    }

    /// Files `value` under the fresh key `key`.
    pub fn insert(&mut self, key: u64, value: T)
        requires
            old(self).wf(),
            !old(self).contents().contains_key(key),
        ensures
            final(self).wf(),
            final(self).contents() == old(self).contents().insert(key, value),
            final(self).entries@.len() == old(self).entries@.len() + 1,
            final(self).entries@ == old(self).entries@.push((CacheEntry { key, value })),
    {
        proof {
            lemma_entries_map_membership(self.entries@);
        }
        self.entries.push(CacheEntry { key, value });
        proof {
            assert(final(self).entries@.drop_last() =~= old(self).entries@);
        }
    }

    /// Takes the resource filed under `key` out of the cache.
    pub fn remove(&mut self, key: u64) -> (r: T)
        requires
            old(self).wf(),
            old(self).contents().contains_key(key),
        ensures
            final(self).wf(),
            final(self).contents() == old(self).contents().remove(key),
            r == old(self).contents()[key],
            final(self).entries@.len() + 1 == old(self).entries@.len(),
            forall|i: int|
                0 <= i < final(self).entries@.len() ==> old(self).entries@.contains(
                    #[trigger] final(self).entries@[i],
                ),
    {
        proof {
            lemma_entries_map_membership(self.entries@);
        }
        let found = self.find(key);
        match found {
            Some(i) => {
                proof {
                    lemma_entries_map_index(self.entries@, i as int);
                    lemma_entries_map_remove(self.entries@, i as int);
                }
                let entry = self.entries.remove(i);
                entry.value
            },
            None => {
                proof {
                    assert(false);
                }
                vstd::pervasive::unreached()
            },
        }
    }
}

/// A store that also allocates its keys: every insertion takes the next
/// counter value as its handle, so handles are unique for the lifetime of
/// the store.
pub struct HandleMap<T> {
    pub store: KeyedCache<T>,
    pub next: u64,
}

impl<T> HandleMap<T> {
    /// What the map holds, keyed by handle.
    pub open spec fn contents(self) -> Map<u64, T> {
        self.store.contents()
    }

    /// Distinct keys, all below the counter: a fresh counter value is
    /// never a live handle.
    pub open spec fn wf(self) -> bool {
        &&& self.store.wf()
        &&& forall|i: int|
            0 <= i < self.store.entries@.len() ==> #[trigger] self.store.entries@[i].key
                < self.next
    }

    /// An empty map whose counter starts at zero.
    pub fn new() -> (r: HandleMap<T>)
        ensures
            r.wf(),
            r.contents() == Map::<u64, T>::empty(),
            r.next == 0,
    {
        HandleMap { store: KeyedCache::new(), next: 0 }
    }

    /// How many resources are live.
    pub fn len(&self) -> (r: usize)
        requires
            self.wf(),
        ensures
            r == self.contents().dom().len(),
    {
        self.store.len()
    }

    /// Whether `handle` is live.
    pub fn contains(&self, handle: u64) -> (r: bool)
        ensures
            r == self.contents().contains_key(handle),
    {
        self.store.contains(handle)
    }

    /// Borrows the resource behind a live handle.
    pub fn get(&self, handle: u64) -> (r: Option<&T>)
        requires
            self.wf(),
        ensures
            match r {
                Some(v) => self.contents().contains_key(handle) && *v == self.contents()[handle],
                None => !self.contents().contains_key(handle),
            },
    {
        self.store.get(handle)
    }

    /// Stores `value` and returns its freshly assigned handle: the
    /// current counter value, which was not live before and is live now.
    pub fn insert(&mut self, value: T) -> (h: u64)
        requires
            old(self).wf(),
            old(self).next < u64::MAX,
        ensures
            final(self).wf(),
            h == old(self).next,
            final(self).next == old(self).next + 1,
            !old(self).contents().contains_key(h),
            final(self).contents() == old(self).contents().insert(h, value),
    {
        let h = self.next;
        proof {
            lemma_entries_map_membership(self.store.entries@);
        }
        self.store.insert(h, value);
        self.next = h + 1;
        h
    }

    /// Destroys the resource behind a live handle; the handle is invalid
    /// afterwards and will never be assigned again.
    pub fn remove(&mut self, handle: u64) -> (r: T)
        requires
            old(self).wf(),
            old(self).contents().contains_key(handle),
        ensures
            final(self).wf(),
            final(self).next == old(self).next,
            final(self).contents() == old(self).contents().remove(handle),
            r == old(self).contents()[handle],
    {
        self.store.remove(handle)
    }
}

} // verus!
