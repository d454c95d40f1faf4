//! The store: a concurrent map from key to entry, each entry holding a value
//! with an optional expiry time and the access statistics used for eviction.

use crate::clock::{current_unix_secs, unix_secs_of};
use crate::config::Config;
use bytes::Bytes;
use dashmap::DashMap;
use std::collections::hash_map::RandomState;
use std::time::SystemTime;
use vstd::prelude::*;

verus! {

/// What a cached value holds.
pub struct CacheValueView {
    pub data: Seq<u8>,
    pub expires_at_unix: Option<u64>,
    pub created_at_unix: u64,
}

#[derive(Debug, Clone)]
pub struct CacheValue {
    pub data: Vec<u8>,
    pub expires_at_unix: Option<u64>,
    pub created_at_unix: u64,
}

impl View for CacheValue {
    type V = CacheValueView;

    open spec fn view(&self) -> CacheValueView {
        CacheValueView {
            data: self.data@,
            expires_at_unix: self.expires_at_unix,
            created_at_unix: self.created_at_unix,
        }
    }
}

/// Whether a value has expired at unix time `now` (in seconds): it has an
/// expiry time and `now` has reached it.
pub open spec fn expired_at(v: CacheValueView, now: u64) -> bool {
    match v.expires_at_unix {
        Some(exp) => now >= exp,
        None => false,
    }
}

/// The expiry time of a value created at `now` with the given time to live
/// (seconds): `now` plus the time to live, held at the largest time when the
/// sum goes beyond it, so a fresh value never counts as already expired.
pub open spec fn expiry(now: u64, ttl_secs: Option<u64>) -> Option<u64> {
    match ttl_secs {
        Some(t) => Some(if now + t > u64::MAX { u64::MAX } else { (now + t) as u64 }),
        None => None,
    }
}

/// The bytes a `Bytes` buffer holds.
pub uninterp spec fn bytes_content(b: Bytes) -> Seq<u8>;

/// Calls `Bytes::from(Vec<u8>)`. Claimed: the buffer holds the vector's
/// bytes, in order (it takes over the vector's storage).
#[verifier::external_body]
fn bytes_from_vec(data: Vec<u8>) -> (r: Bytes)
    ensures
        bytes_content(r) == data@,
{
    Bytes::from(data)
}

#[verifier::external_type_specification]
#[verifier::external_body]
pub struct ExBytes(Bytes);

/// A copy of a byte vector.
pub fn copy_bytes(v: &Vec<u8>) -> (r: Vec<u8>)
    ensures
        r@ == v@,
{
    let r = v.clone();
    assert(r@ =~= v@);
    r
}

impl CacheValue {
    /// A value created now, expiring `ttl_secs` seconds from now when given.
    pub fn new(data: Vec<u8>, ttl_secs: Option<u64>) -> (r: Self)
        ensures
            r.data@ == data@,
            r.expires_at_unix == expiry(r.created_at_unix, ttl_secs),
            exists|t: SystemTime| r.created_at_unix == unix_secs_of(t),
    {
        let now = current_unix_secs();
        Self::new_at(data, ttl_secs, now)
    }

    /// A value created at unix time `now`.
    pub fn new_at(data: Vec<u8>, ttl_secs: Option<u64>, now: u64) -> (r: Self)
        ensures
            r@ == (CacheValueView { data: data@, expires_at_unix: expiry(now, ttl_secs), created_at_unix: now }),
    {
        let expires_at_unix = match ttl_secs {
            Some(t) => Some(now.saturating_add(t)),
            None => None,
        };
        CacheValue { data, expires_at_unix, created_at_unix: now }
    }

    /// Whether the value has expired now; a value without expiry time never
    /// does.
    pub fn is_expired(&self) -> (r: bool)
        ensures
            self.expires_at_unix is None ==> !r,
            exists|now: u64| r == expired_at(self@, now),
            exists|t: SystemTime| r == expired_at(self@, unix_secs_of(t)),
    {
        let now = current_unix_secs();
        self.is_expired_at(now)
    }

    /// Whether the value has expired at unix time `now`.
    pub fn is_expired_at(&self, now: u64) -> (r: bool)
        ensures
            r == expired_at(self@, now),
    {
        match self.expires_at_unix {
            Some(exp) => now >= exp,
            None => false,
        }
    }

    /// The value's bytes as a `Bytes` buffer.
    pub fn to_bytes(&self) -> (r: Bytes)
        ensures
            bytes_content(r) == self.data@,
    {
        bytes_from_vec(copy_bytes(&self.data))
    }

    /// A copy of the value.
    pub fn copy(&self) -> (r: Self)
        ensures
            r@ == self@,
    {
        CacheValue {
            data: copy_bytes(&self.data),
            expires_at_unix: self.expires_at_unix,
            created_at_unix: self.created_at_unix,
        }
    }
}

/// The view of an optional value.
pub open spec fn value_view(r: Option<CacheValue>) -> Option<CacheValueView> {
    match r {
        Some(v) => Some(v@),
        None => None,
    }
}

/// What a stored entry holds.
pub struct EntryView {
    pub value: CacheValueView,
    pub access_count: u64,
    pub last_access: u64,
}

/// A stored value with its access statistics.
#[derive(Clone)]
pub struct Entry {
    value: CacheValue,
    access_count: u64,
    last_access: u64,
}

impl View for Entry {
    type V = EntryView;

    closed spec fn view(&self) -> EntryView {
        EntryView { value: self.value@, access_count: self.access_count, last_access: self.last_access }
    }
}

/// `n + 1` modulo 2^64.
pub open spec fn inc(n: u64) -> u64 {
    ((n + 1) % 0x1_0000_0000_0000_0000) as u64
}

/// `n - k` modulo 2^64.
pub open spec fn sub_mod(n: u64, k: u64) -> u64 {
    ((n - k) % 0x1_0000_0000_0000_0000) as u64
}

/// The access clock after one tick: one more, held at the largest value.
pub open spec fn bump(c: u64) -> u64 {
    if c < u64::MAX {
        (c + 1) as u64
    } else {
        c
    }
}

impl Entry {
    /// A fresh entry: never accessed, stamped with `stamp`.
    fn new(value: CacheValue, stamp: u64) -> (e: Entry)
        ensures
            e@ == (EntryView { value: value@, access_count: 0, last_access: stamp }),
    {
        Entry { value, access_count: 0, last_access: stamp }
    }

    /// Counts one more access and stamps it with `stamp`.
    fn touch(&mut self, stamp: u64)
        ensures
            final(self)@.value == old(self)@.value,
            final(self)@.access_count == inc(old(self)@.access_count),
            final(self)@.last_access == stamp,
    {
        self.access_count = self.access_count.wrapping_add(1);
        self.last_access = stamp;
    }

    fn value(&self) -> (r: &CacheValue)
        ensures
            r@ == self@.value,
    {
        &self.value
    }

    fn last_access(&self) -> (r: u64)
        ensures
            r == self@.last_access,
    {
        self.last_access
    }

    fn access_count(&self) -> (r: u64)
        ensures
            r == self@.access_count,
    {
        self.access_count
    }
}

#[verifier::external_type_specification]
#[verifier::external_body]
#[verifier::reject_recursive_types(K)]
#[verifier::reject_recursive_types(V)]
#[verifier::reject_recursive_types(S)]
pub struct ExDashMap<K, V, S>(DashMap<K, V, S>);

/// What a store map holds: each key's characters mapped to its entry.
pub uninterp spec fn store_contents(m: DashMap<String, Entry>) -> Map<Seq<char>, EntryView>;

/// Calls `DashMap::with_capacity`. Claimed: the map is empty.
#[verifier::external_body]
fn store_with_capacity(capacity: usize) -> (fresh: DashMap<String, Entry>)
    ensures
        store_contents(fresh).dom().is_empty(),
{
    DashMap::with_capacity(capacity)
}

/// Calls `DashMap::get` and copies the entry out. Claimed: the entry stored
/// under the key, or `None` when there is none.
#[verifier::external_body]
fn store_get(m: &DashMap<String, Entry>, key: &str) -> (r: Option<Entry>)
    ensures
        match r {
            Some(e) => store_contents(*m).contains_key(key@) && e@ == store_contents(*m)[key@],
            None => !store_contents(*m).contains_key(key@),
        },
{
    match m.get(key) {
        Some(guard) => Some(guard.value().clone()),
        None => None,
    }
}

/// Calls `DashMap::insert`. Claimed: the key now maps to the entry, and
/// nothing else changed.
#[verifier::external_body]
fn store_insert(m: &mut DashMap<String, Entry>, key: String, e: Entry)
    ensures
        store_contents(*final(m)) == store_contents(*old(m)).insert(key@, e@),
{
    m.insert(key, e);
}

/// Calls `DashMap::remove`. Claimed: the key is gone, nothing else changed,
/// and the result tells whether it was there.
#[verifier::external_body]
fn store_remove(m: &mut DashMap<String, Entry>, key: &str) -> (r: bool)
    ensures
        store_contents(*final(m)) == store_contents(*old(m)).remove(key@),
        r == store_contents(*old(m)).contains_key(key@),
{
    m.remove(key).is_some()
}

/// Calls `DashMap::contains_key`.
#[verifier::external_body]
fn store_contains(m: &DashMap<String, Entry>, key: &str) -> (r: bool)
    ensures
        r == store_contents(*m).contains_key(key@),
{
    m.contains_key(key)
}

/// Calls `DashMap::iter` and copies every key and entry out. Claimed: each
/// stored key appears exactly once, with its entry; the order is the map's
/// own and nothing is claimed of it.
#[verifier::external_body]
fn store_entries(m: &DashMap<String, Entry>) -> (r: Vec<(String, Entry)>)
    ensures
        forall|i: int, j: int| 0 <= i < j < r@.len() ==> r@[i].0@ != r@[j].0@,
        forall|i: int|
            0 <= i < r@.len() ==> store_contents(*m).contains_key(#[trigger] r@[i].0@)
                && store_contents(*m)[r@[i].0@] == r@[i].1@,
        forall|k: Seq<char>|
            store_contents(*m).contains_key(k) ==> exists|i: int| 0 <= i < r@.len() && #[trigger] r@[i].0@ == k,
{
    m.iter().map(|item| (item.key().clone(), item.value().clone())).collect()
}

/// What the store holds.
pub struct StoreView {
    pub entries: Map<Seq<char>, EntryView>,
    pub entry_count: u64,
    pub max_entries: u64,
    /// The stamp the next access gets: each write and each read of a live
    /// entry takes the current value and advances it by one.
    pub access_clock: u64,
}

/// The outcome of reading `key` at unix time `now`: an absent key reads as
/// `None` and changes nothing; an expired entry reads as `None` and is
/// removed, with the count lowered by one; a live entry gives its value,
/// counts one more access and takes the access clock's stamp, the clock
/// advancing.
pub open spec fn get_post(old: StoreView, key: Seq<char>, now: u64, r: Option<CacheValueView>, new: StoreView) -> bool {
    &&& new.max_entries == old.max_entries
    &&& if !old.entries.contains_key(key) {
        r is None && new == old
    } else if expired_at(old.entries[key].value, now) {
        &&& r is None
        &&& new.entries == old.entries.remove(key)
        &&& new.entry_count == sub_mod(old.entry_count, 1)
        &&& new.access_clock == old.access_clock
    } else {
        &&& r == Some(old.entries[key].value)
        &&& new.entry_count == old.entry_count
        &&& new.entries.dom() == old.entries.dom()
        &&& forall|k: Seq<char>| k != key && old.entries.contains_key(k) ==> new.entries[k] == old.entries[k]
        &&& new.entries[key].value == old.entries[key].value
        &&& new.entries[key].access_count == inc(old.entries[key].access_count)
        &&& new.entries[key].last_access == old.access_clock
        &&& new.access_clock == bump(old.access_clock)
    }
}

/// The outcome of storing `value` under `key`: the key maps to a fresh entry
/// holding the value, never accessed and stamped with the access clock (which
/// advances), every other entry is kept, and the count grows by one when the
/// key is new.
pub open spec fn set_post(old: StoreView, key: Seq<char>, value: CacheValueView, new: StoreView) -> bool {
    &&& new.max_entries == old.max_entries
    &&& new.entries == old.entries.insert(key, EntryView { value, access_count: 0, last_access: old.access_clock })
    &&& new.access_clock == bump(old.access_clock)
    &&& new.entry_count == if old.entries.contains_key(key) { old.entry_count } else { inc(old.entry_count) }
}

/// The store after a write of `value` under `key`, as `set_post` states it.
pub open spec fn written(s: StoreView, key: Seq<char>, value: CacheValueView) -> StoreView {
    StoreView {
        entries: s.entries.insert(key, EntryView { value, access_count: 0, last_access: s.access_clock }),
        entry_count: if s.entries.contains_key(key) { s.entry_count } else { inc(s.entry_count) },
        max_entries: s.max_entries,
        access_clock: bump(s.access_clock),
    }
}

/// The store after a removal of `key`.
pub open spec fn removed(s: StoreView, key: Seq<char>) -> StoreView {
    StoreView {
        entries: s.entries.remove(key),
        entry_count: if s.entries.contains_key(key) { sub_mod(s.entry_count, 1) } else { s.entry_count },
        ..s
    }
}

/// The keys whose entries have expired at `now`.
pub open spec fn expired_keys(m: Map<Seq<char>, EntryView>, now: u64) -> Set<Seq<char>> {
    m.dom().filter(|k: Seq<char>| expired_at(m[k].value, now))
}

/// The statistic an eviction pass orders entries by: the access stamp for
/// least-recently-used eviction, the access count for least-frequently-used.
pub open spec fn eviction_rank(e: EntryView, by_recency: bool) -> u64 {
    if by_recency {
        e.last_access
    } else {
        e.access_count
    }
}

/// The outcome of evicting up to `target` entries of lowest rank: exactly
/// `min(target, number of entries)` entries are removed, none of them ranked
/// above an entry that stays, and the count is lowered by as many.
pub open spec fn evicts_lowest(old: StoreView, new: StoreView, r: u64, target: u64, by_recency: bool) -> bool {
    let n = old.entries.dom().len();
    &&& r == if (target as usize) < n { (target as usize) as nat } else { n }
    &&& new.max_entries == old.max_entries
    &&& new.access_clock == old.access_clock
    &&& new.entry_count == sub_mod(old.entry_count, r)
    &&& exists|gone: Set<Seq<char>>| {
        &&& gone.subset_of(old.entries.dom())
        &&& gone.finite()
        &&& gone.len() == r
        &&& new.entries == old.entries.remove_keys(gone)
        &&& forall|a: Seq<char>, b: Seq<char>|
            gone.contains(a) && old.entries.contains_key(b) && !gone.contains(b) ==> eviction_rank(
                #[trigger] old.entries[a],
                by_recency,
            ) <= eviction_rank(#[trigger] old.entries[b], by_recency)
    }
}

/// Calls `slice::sort_by_key` keyed by the first component. Claimed: the
/// result holds the same pairs, each as often, in increasing order of the
/// first component.
#[verifier::external_body]
fn sort_by_first(v: &mut Vec<(u64, usize)>)
    ensures
        final(v)@.to_multiset() == old(v)@.to_multiset(),
        forall|i: int, j: int| 0 <= i < j < final(v)@.len() ==> final(v)@[i].0 <= final(v)@[j].0,
{
    v.sort_by_key(|p| p.0);
}

/// A listing of every stored key once, each with its entry, has as many
/// items as the store has keys.
proof fn lemma_listing_len(items: Seq<(String, Entry)>, m: Map<Seq<char>, EntryView>)
    requires
        forall|i: int, j: int| 0 <= i < j < items.len() ==> items[i].0@ != items[j].0@,
        forall|i: int| 0 <= i < items.len() ==> m.contains_key(#[trigger] items[i].0@),
        forall|k: Seq<char>| m.contains_key(k) ==> exists|i: int| 0 <= i < items.len() && #[trigger] items[i].0@ == k,
    ensures
        m.dom().finite(),
        items.len() == m.dom().len(),
{
    let ks = items.map_values(|p: (String, Entry)| p.0@);
    assert(ks.no_duplicates()) by {
        assert forall|i: int, j: int| 0 <= i < ks.len() && 0 <= j < ks.len() && i != j implies ks[i] != ks[j] by {
            if i < j {
                assert(items[i].0@ != items[j].0@);
            } else {
                assert(items[j].0@ != items[i].0@);
            }
        }
    }
    assert forall|k: Seq<char>| ks.to_set().contains(k) <==> m.dom().contains(k) by {
        if m.dom().contains(k) {
            let i = choose|i: int| 0 <= i < items.len() && #[trigger] items[i].0@ == k;
            assert(ks[i] == k);
        }
        if ks.contains(k) {
            let i = choose|i: int| 0 <= i < ks.len() && ks[i] == k;
            assert(items[i].0@ == k);
        }
    }
    assert(ks.to_set() =~= m.dom());
    ks.unique_seq_to_set();
}

/// The values a store map holds, by key.
pub open spec fn store_values(m: Map<Seq<char>, EntryView>) -> Map<Seq<char>, CacheValueView> {
    m.map_values(|e: EntryView| e.value)
}

/// The views of a list of keys and values.
pub open spec fn item_views(v: Seq<(String, CacheValue)>) -> Seq<(Seq<char>, CacheValueView)> {
    v.map_values(|p: (String, CacheValue)| (p.0@, p.1@))
}

/// `items` lists each entry of `m` live at `now` exactly once, with its value.
pub open spec fn is_snapshot(items: Seq<(Seq<char>, CacheValueView)>, m: Map<Seq<char>, EntryView>, now: u64) -> bool {
    &&& forall|i: int, j: int| 0 <= i < j < items.len() ==> items[i].0 != items[j].0
    &&& forall|i: int|
        0 <= i < items.len() ==> m.contains_key(#[trigger] items[i].0) && m[items[i].0].value == items[i].1
            && !expired_at(items[i].1, now)
    &&& forall|k: Seq<char>|
        m.contains_key(k) && !expired_at(m[k].value, now) ==> exists|i: int| 0 <= i < items.len() && #[trigger] items[i].0 == k
}

/// The values after restoring `items` in order: each item not expired at
/// `now` is stored under its key, a later item replacing an earlier one.
pub open spec fn restore_values(vals: Map<Seq<char>, CacheValueView>, items: Seq<(Seq<char>, CacheValueView)>, now: u64) -> Map<Seq<char>, CacheValueView>
    decreases items.len(),
{
    if items.len() == 0 {
        vals
    } else {
        let prev = restore_values(vals, items.drop_last(), now);
        if expired_at(items.last().1, now) {
            prev
        } else {
            prev.insert(items.last().0, items.last().1)
        }
    }
}

/// Whether some item stored under `k` is not expired at `now`.
pub open spec fn restores_key(items: Seq<(Seq<char>, CacheValueView)>, now: u64, k: Seq<char>) -> bool {
    exists|i: int| 0 <= i < items.len() && #[trigger] items[i].0 == k && !expired_at(items[i].1, now)
}

pub struct StorageEngine {
    store: DashMap<String, Entry>,
    config: Config,
    entry_count: u64,
    access_clock: u64,
}

impl View for StorageEngine {
    type V = StoreView;

    closed spec fn view(&self) -> StoreView {
        StoreView {
            entries: store_contents(self.store),
            entry_count: self.entry_count,
            max_entries: self.config.max_entries,
            access_clock: self.access_clock,
        }
    }
}

impl StorageEngine {
    pub fn new(config: Config) -> (r: Self)
        ensures
            r@.entries == Map::<Seq<char>, EntryView>::empty(),
            r@.entry_count == 0,
            r@.max_entries == config.max_entries,
            r@.access_clock == 0,
            count_matches(r@),
            stamps_below(r@),
    {
        let r = StorageEngine { store: store_with_capacity(1024), config, entry_count: 0, access_clock: 0 };
        assert(r@.entries =~= Map::<Seq<char>, EntryView>::empty());
        r
    }

    /// Reads `key` now; see `get_at`.
    pub fn get(&mut self, key: &str) -> (r: Option<CacheValue>)
        ensures
            exists|now: u64| get_post(old(self)@, key@, now, value_view(r), final(self)@),
            exists|t: SystemTime| get_post(old(self)@, key@, unix_secs_of(t), value_view(r), final(self)@),
    {
        let now = current_unix_secs();
        self.get_at(key, now)
    }

    /// Reads `key` at unix time `now`: an expired entry is removed and reads
    /// as absent; a live one counts an access.
    pub fn get_at(&mut self, key: &str, now: u64) -> (r: Option<CacheValue>)
        ensures
            get_post(old(self)@, key@, now, value_view(r), final(self)@),
    {
        let entry = match store_get(&self.store, key) {
            Some(e) => e,
            None => {
                return None;
            },
        };
        if entry.value().is_expired_at(now) {
            store_remove(&mut self.store, key);
            self.entry_count = self.entry_count.wrapping_sub(1);
            return None;
        }
        let mut entry = entry;
        let stamp = self.take_stamp();
        entry.touch(stamp);
        let value = entry.value().copy();
        store_insert(&mut self.store, key.to_owned(), entry);
        proof {
            assert(store_contents(self.store).dom() =~= store_contents(old(self).store).dom());
        }
        Some(value)
    }

    /// Stores `value` under `key` in a fresh entry.
    pub fn set(&mut self, key: String, value: CacheValue)
        ensures
            set_post(old(self)@, key@, value@, final(self)@),
            final(self)@ == written(old(self)@, key@, value@),
    {
        let is_new = !store_contains(&self.store, key.as_str());
        let ghost k = key@;
        let ghost v = value@;
        let stamp = self.take_stamp();
        store_insert(&mut self.store, key, Entry::new(value, stamp));
        if is_new {
            self.entry_count = self.entry_count.wrapping_add(1);
        }
        proof {
            assert(store_contents(self.store) =~= store_contents(old(self).store).insert(
                k,
                EntryView { value: v, access_count: 0, last_access: stamp },
            ));
        }
    }

    /// Takes the access clock's current stamp and advances the clock.
    fn take_stamp(&mut self) -> (s: u64)
        ensures
            s == old(self)@.access_clock,
            final(self)@ == (StoreView { access_clock: bump(old(self)@.access_clock), ..old(self)@ }),
            final(self).config == old(self).config,
    {
        let s = self.access_clock;
        if s < u64::MAX {
            self.access_clock = s + 1;
        }
        s
    }

    /// Removes `key`; tells whether it was stored.
    pub fn delete(&mut self, key: &str) -> (r: bool)
        ensures
            r == old(self)@.entries.contains_key(key@),
            final(self)@.entries == old(self)@.entries.remove(key@),
            final(self)@.max_entries == old(self)@.max_entries,
            final(self)@.access_clock == old(self)@.access_clock,
            final(self)@.entry_count == if r { sub_mod(old(self)@.entry_count, 1) } else { old(self)@.entry_count },
            final(self)@ == removed(old(self)@, key@),
    {
        if store_remove(&mut self.store, key) {
            self.entry_count = self.entry_count.wrapping_sub(1);
            true
        } else {
            false
        }
    }

    /// Whether `key` is stored, expired or not.
    pub fn contains(&self, key: &str) -> (r: bool)
        ensures
            r == self@.entries.contains_key(key@),
    {
        store_contains(&self.store, key)
    }

    /// The entry count kept alongside the map.
    pub fn len(&self) -> (r: u64)
        ensures
            r == self@.entry_count,
    {
        self.entry_count
    }

    pub fn max_entries(&self) -> (r: u64)
        ensures
            r == self@.max_entries,
    {
        self.config.max_entries
    }

    /// Removes every entry expired now; see `evict_expired_at`.
    pub fn evict_expired(&mut self) -> (r: u64)
        ensures
            exists|now: u64| {
                &&& final(self)@.entries == old(self)@.entries.remove_keys(expired_keys(old(self)@.entries, now))
                &&& r == expired_keys(old(self)@.entries, now).len()
            },
            exists|t: SystemTime| {
                &&& final(self)@.entries == old(self)@.entries.remove_keys(expired_keys(old(self)@.entries, unix_secs_of(t)))
                &&& r == expired_keys(old(self)@.entries, unix_secs_of(t)).len()
            },
            final(self)@.entry_count == sub_mod(old(self)@.entry_count, r),
            final(self)@.max_entries == old(self)@.max_entries,
            final(self)@.access_clock == old(self)@.access_clock,
    {
        let now = current_unix_secs();
        self.evict_expired_at(now)
    }

    /// Removes every entry expired at unix time `now`; returns how many.
    pub fn evict_expired_at(&mut self, now: u64) -> (r: u64)
        ensures
            final(self)@.entries == old(self)@.entries.remove_keys(expired_keys(old(self)@.entries, now)),
            r == expired_keys(old(self)@.entries, now).len(),
            final(self)@.entry_count == sub_mod(old(self)@.entry_count, r),
            final(self)@.max_entries == old(self)@.max_entries,
            final(self)@.access_clock == old(self)@.access_clock,
    {
        let ghost m0 = store_contents(self.store);
        let items = store_entries(&self.store);
        proof {
            lemma_listing_len(items@, m0);
        }
        let mut evicted: u64 = 0;
        let ghost mut gone: Seq<Seq<char>> = Seq::empty();
        let mut i: usize = 0;
        while i < items.len()
            invariant
                i <= items@.len(),
                m0.dom().finite(),
                items@.len() == m0.dom().len(),
                forall|a: int, b: int| 0 <= a < b < items@.len() ==> items@[a].0@ != items@[b].0@,
                forall|a: int|
                    0 <= a < items@.len() ==> m0.contains_key(#[trigger] items@[a].0@) && m0[items@[a].0@] == items@[a].1@,
                forall|k: Seq<char>| m0.contains_key(k) ==> exists|a: int| 0 <= a < items@.len() && #[trigger] items@[a].0@ == k,
                self.config.max_entries == old(self).config.max_entries,
                self.entry_count == old(self).entry_count,
                self.access_clock == old(self).access_clock,
                store_contents(self.store) == m0.remove_keys(gone.to_set()),
                evicted == gone.len(),
                gone.len() <= i,
                gone.no_duplicates(),
                forall|x: Seq<char>| gone.contains(x) <==> exists|a: int| 0 <= a < i && #[trigger] items@[a].0@ == x
                    && expired_at(m0[x].value, now),
            decreases items@.len() - i,
        {
            let key = &items[i].0;
            if items[i].1.value().is_expired_at(now) {
                proof {
                    assert(!gone.contains(key@)) by {
                        if gone.contains(key@) {
                            let a = choose|a: int| 0 <= a < i && #[trigger] items@[a].0@ == key@ && expired_at(m0[key@].value, now);
                            assert(items@[a].0@ != items@[i as int].0@);
                        }
                    }
                    assert(store_contents(self.store).contains_key(key@));
                }
                if store_remove(&mut self.store, key.as_str()) {
                    evicted = evicted + 1;
                    proof {
                        let g2 = gone.push(key@);
                        gone.lemma_push_to_set_commute(key@);
                        assert(g2.to_set() =~= gone.to_set().insert(key@));
                        assert(m0.remove_keys(g2.to_set()) =~= m0.remove_keys(gone.to_set()).remove(key@));
                        assert forall|x: Seq<char>| g2.contains(x) <==> exists|a: int| 0 <= a < i + 1 && #[trigger] items@[a].0@ == x
                            && expired_at(m0[x].value, now) by {
                            if g2.contains(x) && x != key@ {
                                let j = choose|j: int| 0 <= j < g2.len() && g2[j] == x;
                                assert(gone[j] == x);
                                assert(gone.contains(x));
                            }
                            if x == key@ {
                                assert(items@[i as int].0@ == x);
                                assert(g2[gone.len() as int] == x);
                            }
                            if exists|a: int| 0 <= a < i + 1 && #[trigger] items@[a].0@ == x && expired_at(m0[x].value, now) {
                                let a = choose|a: int| 0 <= a < i + 1 && #[trigger] items@[a].0@ == x && expired_at(m0[x].value, now);
                                if a < i {
                                    assert(gone.contains(x));
                                    let j = choose|j: int| 0 <= j < gone.len() && gone[j] == x;
                                    assert(g2[j] == x);
                                } else {
                                    assert(g2[gone.len() as int] == x);
                                }
                            }
                        }
                        gone = g2;
                    }
                }
            } else {
                proof {
                    assert forall|x: Seq<char>| gone.contains(x) <==> exists|a: int| 0 <= a < i + 1 && #[trigger] items@[a].0@ == x
                        && expired_at(m0[x].value, now) by {
                        if exists|a: int| 0 <= a < i + 1 && #[trigger] items@[a].0@ == x && expired_at(m0[x].value, now) {
                            let a = choose|a: int| 0 <= a < i + 1 && #[trigger] items@[a].0@ == x && expired_at(m0[x].value, now);
                            if a == i {
                                assert(m0[items@[i as int].0@] == items@[i as int].1@);
                                assert(false);
                            }
                        }
                    }
                }
            }
            i = i + 1;
        }
        proof {
            assert forall|x: Seq<char>| gone.to_set().contains(x) <==> expired_keys(m0, now).contains(x) by {
                if m0.contains_key(x) && expired_at(m0[x].value, now) {
                    let a = choose|a: int| 0 <= a < items@.len() && #[trigger] items@[a].0@ == x;
                    assert(gone.contains(x));
                }
            }
            assert(gone.to_set() =~= expired_keys(m0, now));
            gone.unique_seq_to_set();
        }
        if evicted > 0 {
            self.entry_count = self.entry_count.wrapping_sub(evicted);
        }
        evicted
    }

    /// Evicts up to `target` least-recently-used entries (lowest access
    /// stamp); returns how many were removed.
    pub fn evict_lru(&mut self, target: u64) -> (r: u64)
        ensures
            evicts_lowest(old(self)@, final(self)@, r, target, true),
    {
        self.evict_lowest(target, true)
    }

    /// Evicts up to `target` least-frequently-used entries (lowest access
    /// count); returns how many were removed.
    pub fn evict_lfu(&mut self, target: u64) -> (r: u64)
        ensures
            evicts_lowest(old(self)@, final(self)@, r, target, false),
    {
        self.evict_lowest(target, false)
    }

    fn evict_lowest(&mut self, target: u64, by_recency: bool) -> (r: u64)
        ensures
            evicts_lowest(old(self)@, final(self)@, r, target, by_recency),
    {
        let ghost m0 = store_contents(self.store);
        let items = store_entries(&self.store);
        proof {
            lemma_listing_len(items@, m0);
        }
        let n = items.len();
        let mut order: Vec<(u64, usize)> = Vec::new();
        let mut i: usize = 0;
        while i < n
            invariant
                i <= n,
                n == items@.len(),
                order@.len() == i,
                forall|a: int| 0 <= a < i ==> (#[trigger] order@[a]).1 == a
                    && order@[a].0 == eviction_rank(items@[a].1@, by_recency),
            decreases n - i,
        {
            let rank = if by_recency { items[i].1.last_access() } else { items[i].1.access_count() };
            order.push((rank, i));
            i = i + 1;
        }
        let ghost orig = order@;
        sort_by_first(&mut order);
        proof {
            crate::seqs::lemma_reordered_indices(orig, order@);
        }
        let t: usize = if (target as usize) < n { target as usize } else { n };
        let mut evicted: u64 = 0;
        let ghost mut gone: Seq<Seq<char>> = Seq::empty();
        let mut j: usize = 0;
        while j < t
            invariant
                t <= n,
                j <= t,
                n == items@.len(),
                order@.len() == n,
                m0.dom().finite(),
                n == m0.dom().len(),
                forall|a: int, b: int| 0 <= a < b < items@.len() ==> items@[a].0@ != items@[b].0@,
                forall|a: int|
                    0 <= a < items@.len() ==> m0.contains_key(#[trigger] items@[a].0@) && m0[items@[a].0@] == items@[a].1@,
                forall|a: int| 0 <= a < n ==> (#[trigger] order@[a]).1 < n,
                forall|a: int, b: int| 0 <= a < n && 0 <= b < n && a != b ==> (#[trigger] order@[a]).1 != (#[trigger] order@[b]).1,
                self.config.max_entries == old(self).config.max_entries,
                self.entry_count == old(self).entry_count,
                self.access_clock == old(self).access_clock,
                store_contents(self.store) == m0.remove_keys(gone.to_set()),
                evicted == j,
                gone.len() == j,
                forall|x: int| 0 <= x < j ==> gone[x] == #[trigger] items@[order@[x].1 as int].0@,
            decreases t - j,
        {
            let idx = order[j].1;
            let key = &items[idx].0;
            proof {
                assert(!gone.contains(key@)) by {
                    if gone.contains(key@) {
                        let x = choose|x: int| 0 <= x < gone.len() && gone[x] == key@;
                        assert(gone[x] == items@[order@[x].1 as int].0@);
                        assert(order@[x].1 != order@[j as int].1);
                    }
                }
                assert(m0.contains_key(key@));
            }
            let removed = store_remove(&mut self.store, key.as_str());
            proof {
                assert(removed);
                let g2 = gone.push(key@);
                gone.lemma_push_to_set_commute(key@);
                assert(m0.remove_keys(g2.to_set()) =~= m0.remove_keys(gone.to_set()).remove(key@));
                gone = g2;
            }
            if removed {
                evicted = evicted + 1;
            }
            j = j + 1;
        }
        proof {
            assert(gone.no_duplicates()) by {
                assert forall|a: int, b: int| 0 <= a < gone.len() && 0 <= b < gone.len() && a != b implies gone[a] != gone[b] by {
                    assert(gone[a] == items@[order@[a].1 as int].0@);
                    assert(gone[b] == items@[order@[b].1 as int].0@);
                    assert(order@[a].1 != order@[b].1);
                }
            }
            gone.unique_seq_to_set();
            let gs = gone.to_set();
            assert(gs.subset_of(m0.dom())) by {
                assert forall|x: Seq<char>| gs.contains(x) implies m0.dom().contains(x) by {
                    let a = choose|a: int| 0 <= a < gone.len() && gone[a] == x;
                    assert(gone[a] == items@[order@[a].1 as int].0@);
                }
            }
            assert forall|a: Seq<char>, b: Seq<char>|
                gs.contains(a) && m0.contains_key(b) && !gs.contains(b) implies eviction_rank(
                    #[trigger] m0[a], by_recency) <= eviction_rank(#[trigger] m0[b], by_recency) by {
                let ja = choose|x: int| 0 <= x < gone.len() && gone[x] == a;
                assert(gone[ja] == items@[order@[ja].1 as int].0@);
                let ia = order@[ja].1 as int;
                assert(order@[ja] == orig[ia]);
                let ib = choose|x: int| 0 <= x < items@.len() && #[trigger] items@[x].0@ == b;
                assert(order@.contains(orig[ib]));
                let jb = choose|x: int| 0 <= x < order@.len() && order@[x] == orig[ib];
                if jb < t {
                    assert(gone[jb] == items@[order@[jb].1 as int].0@);
                    assert(order@[jb].1 == ib);
                    assert(gone.contains(b));
                }
                assert(ja < jb);
                assert(order@[ja].0 <= order@[jb].0);
            }
        }
        if evicted > 0 {
            self.entry_count = self.entry_count.wrapping_sub(evicted);
        }
        evicted
    }

    /// The entries live now, with their values; see `snapshot_entries_at`.
    pub fn snapshot_entries(&self) -> (r: Vec<(String, CacheValue)>)
        ensures
            exists|now: u64| is_snapshot(item_views(r@), self@.entries, now),
            exists|t: SystemTime| is_snapshot(item_views(r@), self@.entries, unix_secs_of(t)),
    {
        let now = current_unix_secs();
        self.snapshot_entries_at(now)
    }

    /// The entries live at unix time `now`, each once with its value.
    #[verifier::spinoff_prover]
    #[verifier::rlimit(40)]
    pub fn snapshot_entries_at(&self, now: u64) -> (r: Vec<(String, CacheValue)>)
        ensures
            is_snapshot(item_views(r@), self@.entries, now),
    {
        let ghost m0 = store_contents(self.store);
        let items = store_entries(&self.store);
        let mut out: Vec<(String, CacheValue)> = Vec::new();
        let mut i: usize = 0;
        while i < items.len()
            invariant
                i <= items@.len(),
                m0 == store_contents(self.store),
                forall|a: int, b: int| 0 <= a < b < items@.len() ==> items@[a].0@ != items@[b].0@,
                forall|a: int|
                    0 <= a < items@.len() ==> m0.contains_key(#[trigger] items@[a].0@) && m0[items@[a].0@] == items@[a].1@,
                forall|k: Seq<char>| m0.contains_key(k) ==> exists|a: int| 0 <= a < items@.len() && #[trigger] items@[a].0@ == k,
                forall|a: int| #![trigger out@[a]] 0 <= a < out@.len() ==> exists|b: int| 0 <= b < i && #[trigger] items@[b].0@ == out@[a].0@,
                forall|a: int, b: int| 0 <= a < b < out@.len() ==> out@[a].0@ != out@[b].0@,
                forall|a: int|
                    0 <= a < out@.len() ==> m0.contains_key(#[trigger] out@[a].0@) && m0[out@[a].0@].value == out@[a].1@
                        && !expired_at(out@[a].1@, now),
                forall|b: int| 0 <= b < i && !expired_at(m0[items@[b].0@].value, now) ==> exists|a: int| 0 <= a < out@.len()
                    && #[trigger] out@[a].0@ == items@[b].0@,
            decreases items@.len() - i,
        {
            let value = items[i].1.value();
            if !value.is_expired_at(now) {
                let ghost prev = out@;
                proof {
                    assert forall|a: int| 0 <= a < prev.len() implies prev[a].0@ != items@[i as int].0@ by {
                        let b = choose|b: int| 0 <= b < i && #[trigger] items@[b].0@ == prev[a].0@;
                        assert(items@[b].0@ != items@[i as int].0@);
                    }
                }
                out.push((items[i].0.clone(), value.copy()));
                proof {
                    assert(out@[prev.len() as int].0@ == items@[i as int].0@);
                    assert forall|b: int| 0 <= b < i + 1 && !expired_at(m0[items@[b].0@].value, now) implies exists|a: int| 0 <= a < out@.len()
                        && #[trigger] out@[a].0@ == items@[b].0@ by {
                        if b < i {
                            let a = choose|a: int| 0 <= a < prev.len() && #[trigger] prev[a].0@ == items@[b].0@;
                            assert(out@[a] == prev[a]);
                        } else {
                            assert(out@[prev.len() as int].0@ == items@[b].0@);
                        }
                    }
                    assert forall|a: int| #![trigger out@[a]] 0 <= a < out@.len() implies exists|b: int| 0 <= b < i + 1 && #[trigger] items@[b].0@ == out@[a].0@ by {
                        if a < prev.len() {
                            assert(out@[a] == prev[a]);
                            let b = choose|b: int| 0 <= b < i && #[trigger] items@[b].0@ == prev[a].0@;
                        } else {
                            assert(items@[i as int].0@ == out@[a].0@);
                        }
                    }
                }
            } else {
                proof {
                    assert(m0[items@[i as int].0@] == items@[i as int].1@);
                }
            }
            i = i + 1;
        }
        proof {
            let v = item_views(out@);
            assert forall|k: Seq<char>| m0.contains_key(k) && !expired_at(m0[k].value, now) implies exists|a: int| 0 <= a < v.len()
                && #[trigger] v[a].0 == k by {
                let b = choose|b: int| 0 <= b < items@.len() && #[trigger] items@[b].0@ == k;
                let a = choose|a: int| 0 <= a < out@.len() && #[trigger] out@[a].0@ == items@[b].0@;
                assert(v[a].0 == k);
            }
            assert forall|a: int| 0 <= a < v.len() implies m0.contains_key(#[trigger] v[a].0) && m0[v[a].0].value == v[a].1
                && !expired_at(v[a].1, now) by {
                assert(v[a].0 == out@[a].0@);
            }
        }
        out
    }

    /// Restores entries in order; see `restore_entries_at`.
    pub fn restore_entries(&mut self, entries: Vec<(String, CacheValue)>)
        ensures
            exists|now: u64| restore_post(old(self)@, item_views(entries@), now, final(self)@),
            exists|t: SystemTime| restore_post(old(self)@, item_views(entries@), unix_secs_of(t), final(self)@),
    {
        let now = current_unix_secs();
        self.restore_entries_at(entries, now)
    }

    /// Stores each item not expired at unix time `now` in a fresh entry, in
    /// order; the count grows by one for each key that was not stored before.
    pub fn restore_entries_at(&mut self, entries: Vec<(String, CacheValue)>, now: u64)
        ensures
            restore_post(old(self)@, item_views(entries@), now, final(self)@),
    {
        let ghost items = item_views(entries@);
        let ghost old_view = self@;
        let stamp = self.take_stamp();
        proof {
            assert(store_values(self@.entries) =~= restore_values(store_values(old_view.entries), items.take(0), now));
        }
        let mut i: usize = 0;
        let n = entries.len();
        let mut rest = entries;
        let mut pending: Vec<(String, CacheValue)> = Vec::new();
        // take the items out back to front, so that popping `pending` yields them in order
        while rest.len() > 0
            invariant
                items == item_views(rest@ + pending@.reverse()),
            decreases rest@.len(),
        {
            let ghost r0 = rest@;
            let ghost p0 = pending@;
            let item = rest.pop().unwrap();
            pending.push(item);
            proof {
                assert(r0 =~= rest@.push(item));
                assert(pending@.reverse() =~= seq![item] + p0.reverse());
                assert(r0 + p0.reverse() =~= rest@ + pending@.reverse());
            }
        }
        proof {
            assert(rest@ + pending@.reverse() =~= pending@.reverse());
        }
        let ghost all = pending@.reverse();
        assert(all.len() == n) by {
            assert(items.len() == n);
        }
        while pending.len() > 0
            invariant
                items == item_views(all),
                all.len() == i + pending@.len(),
                forall|a: int| 0 <= a < pending@.len() ==> #[trigger] pending@[a] == all[all.len() - 1 - a],
                i <= all.len(),
                all.len() == n,
                restore_post(old_view, items.take(i as int), now, self@),
                stamp == old_view.access_clock,
            decreases pending@.len(),
        {
            let ghost p0 = pending@;
            let (key, value) = pending.pop().unwrap();
            let ghost before = self@;
            proof {
                assert(all[i as int] == p0[p0.len() - 1]);
                assert(items[i as int] == (key@, value@));
                assert(items.take(i + 1).drop_last() =~= items.take(i as int));
                assert(items.take(i + 1).last() == items[i as int]);
            }
            if !value.is_expired_at(now) {
                let ghost k = key@;
                let ghost vv = value@;
                let is_new = !store_contains(&self.store, key.as_str());
                store_insert(&mut self.store, key, Entry::new(value, stamp));
                if is_new {
                    self.entry_count = self.entry_count.wrapping_add(1);
                }
                proof {
                    lemma_restore_step(old_view, items.take(i + 1), now, before, self@);
                }
            } else {
                proof {
                    lemma_restore_step(old_view, items.take(i + 1), now, before, self@);
                }
            }
            i = i + 1;
        }
        proof {
            assert(items.take(i as int) =~= items);
        }
    }
}

/// The outcome of restoring `items` at unix time `now`: the values are those
/// of `restore_values`; every key restored holds a fresh entry (never
/// accessed, stamped with the access clock, which advances once for the
/// whole restore); every other entry is kept; the count grows by the number
/// of keys restored that were not stored before.
pub open spec fn restore_post(old: StoreView, items: Seq<(Seq<char>, CacheValueView)>, now: u64, new: StoreView) -> bool {
    &&& store_values(new.entries) == restore_values(store_values(old.entries), items, now)
    &&& forall|k: Seq<char>| restores_key(items, now, k) ==> (#[trigger] new.entries[k]).access_count == 0
        && new.entries[k].last_access == old.access_clock
    &&& new.access_clock == bump(old.access_clock)
    &&& forall|k: Seq<char>| !restores_key(items, now, k) && old.entries.contains_key(k) ==> #[trigger] new.entries[k] == old.entries[k]
    &&& new.entry_count == ((old.entry_count + restored_new_keys(old.entries.dom(), items, now)) % 0x1_0000_0000_0000_0000) as u64
    &&& new.max_entries == old.max_entries
}

/// One more item restored keeps `restore_post`.
proof fn lemma_restore_step(old: StoreView, items: Seq<(Seq<char>, CacheValueView)>, now: u64, before: StoreView, after: StoreView)
    requires
        items.len() > 0,
        restore_post(old, items.drop_last(), now, before),
        after.max_entries == before.max_entries,
        after.access_clock == before.access_clock,
        expired_at(items.last().1, now) ==> after == before,
        !expired_at(items.last().1, now) ==> {
            &&& after.entries.dom() == before.entries.dom().insert(items.last().0)
            &&& forall|k: Seq<char>| k != items.last().0 && before.entries.contains_key(k) ==> after.entries[k] == before.entries[k]
            &&& after.entries[items.last().0].value == items.last().1
            &&& after.entries[items.last().0].access_count == 0
            &&& after.entries[items.last().0].last_access == old.access_clock
            &&& after.entry_count == if before.entries.contains_key(items.last().0) {
                before.entry_count
            } else {
                inc(before.entry_count)
            }
        },
    ensures
        restore_post(old, items, now, after),
{
    let p = items.drop_last();
    let last = items.last();
    assert forall|k: Seq<char>| restores_key(items, now, k) <==> (restores_key(p, now, k) || (k == last.0 && !expired_at(last.1, now))) by {
        if restores_key(items, now, k) {
            let i = choose|i: int| 0 <= i < items.len() && #[trigger] items[i].0 == k && !expired_at(items[i].1, now);
            if i < items.len() - 1 {
                assert(p[i] == items[i]);
            }
        }
        if restores_key(p, now, k) {
            let i = choose|i: int| 0 <= i < p.len() && #[trigger] p[i].0 == k && !expired_at(p[i].1, now);
            assert(items[i] == p[i]);
        }
        if k == last.0 && !expired_at(last.1, now) {
            assert(items[items.len() - 1].0 == k);
        }
    }
    lemma_restore_keeps_keys(store_values(old.entries), p, now);
    lemma_restore_keeps_keys(store_values(old.entries), items, now);
    lemma_restore_dom(store_values(old.entries), p, now);
    assert(store_values(before.entries).contains_key(last.0) == before.entries.contains_key(last.0));
    assert(store_values(old.entries).contains_key(last.0) == old.entries.contains_key(last.0));
    assert(store_values(old.entries).dom() =~= old.entries.dom());
    if !expired_at(last.1, now) {
        assert(store_values(after.entries) =~= store_values(before.entries).insert(last.0, last.1));
        if !before.entries.contains_key(last.0) {
            let a = old.entry_count + restored_new_keys(old.entries.dom(), p, now);
            vstd::arithmetic::div_mod::lemma_add_mod_noop(a, 1, 0x1_0000_0000_0000_0000);
        }
    }
    assert forall|k: Seq<char>| restores_key(items, now, k) implies (#[trigger] after.entries[k]).access_count == 0
        && after.entries[k].last_access == old.access_clock by {
        if !(k == last.0 && !expired_at(last.1, now)) {
            assert(restores_key(p, now, k));
            assert(store_values(before.entries).contains_key(k));
        }
    }
    assert forall|k: Seq<char>| !restores_key(items, now, k) && old.entries.contains_key(k) implies #[trigger] after.entries[k] == old.entries[k] by {
        assert(!restores_key(p, now, k));
        assert(store_values(old.entries).contains_key(k));
        assert(store_values(before.entries).contains_key(k));
    }
}

/// How many of the keys restored from `items` at `now` were neither among
/// `old_keys` nor restored by an earlier item: each live item counts when its
/// key is new.
pub open spec fn restored_new_keys(old_keys: Set<Seq<char>>, items: Seq<(Seq<char>, CacheValueView)>, now: u64) -> nat
    decreases items.len(),
{
    if items.len() == 0 {
        0
    } else {
        let p = items.drop_last();
        let k = items.last().0;
        restored_new_keys(old_keys, p, now) + if !expired_at(items.last().1, now) && !old_keys.contains(k)
            && !restores_key(p, now, k) {
            1nat
        } else {
            0nat
        }
    }
}

/// The keys after restoring are the keys before and those restored; on a
/// finite map, their number grows by `restored_new_keys`.
proof fn lemma_restore_dom(vals: Map<Seq<char>, CacheValueView>, items: Seq<(Seq<char>, CacheValueView)>, now: u64)
    ensures
        forall|k: Seq<char>| #[trigger] restore_values(vals, items, now).contains_key(k) == (vals.contains_key(k) || restores_key(items, now, k)),
        vals.dom().finite() ==> restore_values(vals, items, now).dom().finite()
            && restore_values(vals, items, now).dom().len() == vals.dom().len() + restored_new_keys(vals.dom(), items, now),
    decreases items.len(),
{
    if items.len() > 0 {
        let p = items.drop_last();
        let last = items.last();
        lemma_restore_dom(vals, p, now);
        let prev = restore_values(vals, p, now);
        let cur = restore_values(vals, items, now);
        assert forall|k: Seq<char>| restores_key(items, now, k) <==> (restores_key(p, now, k) || (k == last.0 && !expired_at(last.1, now))) by {
            if restores_key(items, now, k) {
                let i = choose|i: int| 0 <= i < items.len() && #[trigger] items[i].0 == k && !expired_at(items[i].1, now);
                if i < items.len() - 1 {
                    assert(p[i] == items[i]);
                }
            }
            if restores_key(p, now, k) {
                let i = choose|i: int| 0 <= i < p.len() && #[trigger] p[i].0 == k && !expired_at(p[i].1, now);
                assert(items[i] == p[i]);
            }
            if k == last.0 && !expired_at(last.1, now) {
                assert(items[items.len() - 1].0 == k);
            }
        }
        assert forall|k: Seq<char>| #[trigger] cur.contains_key(k) == (vals.contains_key(k) || restores_key(items, now, k)) by {
            assert(prev.contains_key(k) == (vals.contains_key(k) || restores_key(p, now, k)));
        }
        if vals.dom().finite() && !expired_at(last.1, now) {
            assert(cur.dom() =~= prev.dom().insert(last.0));
            assert(prev.contains_key(last.0) == (vals.contains_key(last.0) || restores_key(p, now, last.0)));
        }
    }
}

/// Restoring keeps every key present and adds each restored key.
proof fn lemma_restore_keeps_keys(vals: Map<Seq<char>, CacheValueView>, items: Seq<(Seq<char>, CacheValueView)>, now: u64)
    ensures
        forall|k: Seq<char>| vals.contains_key(k) ==> #[trigger] restore_values(vals, items, now).contains_key(k),
        forall|k: Seq<char>| restores_key(items, now, k) ==> #[trigger] restore_values(vals, items, now).contains_key(k),
    decreases items.len(),
{
    if items.len() > 0 {
        let p = items.drop_last();
        lemma_restore_keeps_keys(vals, p, now);
        let prev = restore_values(vals, p, now);
        let cur = restore_values(vals, items, now);
        assert(forall|k: Seq<char>| prev.contains_key(k) ==> cur.contains_key(k));
        assert forall|k: Seq<char>| vals.contains_key(k) implies #[trigger] cur.contains_key(k) by {
            assert(prev.contains_key(k));
        }
        assert forall|k: Seq<char>| restores_key(items, now, k) implies #[trigger] cur.contains_key(k) by {
            let i = choose|i: int| 0 <= i < items.len() && #[trigger] items[i].0 == k && !expired_at(items[i].1, now);
            if i < items.len() - 1 {
                assert(p[i] == items[i]);
                assert(restores_key(p, now, k));
                assert(prev.contains_key(k));
            } else {
                assert(items.last() == items[i]);
            }
        }
    }
}

/// The store's count equals the number of its keys.
pub open spec fn count_matches(s: StoreView) -> bool {
    s.entries.dom().finite() && s.entry_count == s.entries.dom().len()
}

/// Law: a write keeps the count equal to the number of keys (short of the
/// count's maximum).
pub proof fn lemma_set_keeps_count(s0: StoreView, key: Seq<char>, v: CacheValueView, s1: StoreView)
    requires
        count_matches(s0),
        s0.entry_count < u64::MAX,
        set_post(s0, key, v, s1),
    ensures
        count_matches(s1),
{
    assert(s1.entries.dom() == s0.entries.dom().insert(key));
}

/// Law: a read keeps the count equal to the number of keys.
pub proof fn lemma_get_keeps_count(s0: StoreView, key: Seq<char>, now: u64, r: Option<CacheValueView>, s1: StoreView)
    requires
        count_matches(s0),
        get_post(s0, key, now, r, s1),
    ensures
        count_matches(s1),
{
    if s0.entries.contains_key(key) && expired_at(s0.entries[key].value, now) {
        assert(s1.entries.dom() =~= s0.entries.dom().remove(key));
    }
}

/// Law: a removal keeps the count equal to the number of keys.
pub proof fn lemma_delete_keeps_count(s0: StoreView, key: Seq<char>, deleted: bool, s1: StoreView)
    requires
        count_matches(s0),
        deleted == s0.entries.contains_key(key),
        s1.entries == s0.entries.remove(key),
        s1.entry_count == if deleted { sub_mod(s0.entry_count, 1) } else { s0.entry_count },
    ensures
        count_matches(s1),
{
    assert(s1.entries.dom() =~= s0.entries.dom().remove(key));
}

/// Every stored stamp is below the access clock.
pub open spec fn stamps_below(s: StoreView) -> bool {
    forall|k: Seq<char>| #[trigger] s.entries.contains_key(k) ==> s.entries[k].last_access < s.access_clock
}

/// Law: short of the access clock's maximum, a write stamps its key more
/// recently than every other stored key, and keeps every stamp below the
/// clock.
pub proof fn lemma_set_is_most_recent(s0: StoreView, key: Seq<char>, v: CacheValueView, s1: StoreView)
    requires
        stamps_below(s0),
        s0.access_clock < u64::MAX,
        set_post(s0, key, v, s1),
    ensures
        stamps_below(s1),
        forall|k: Seq<char>| #[trigger] s1.entries.contains_key(k) && k != key ==> s1.entries[k].last_access < s1.entries[key].last_access,
{
    assert forall|k: Seq<char>| #[trigger] s1.entries.contains_key(k) && k != key implies s1.entries[k].last_access < s1.entries[key].last_access by {
        assert(s0.entries.contains_key(k));
    }
    assert forall|k: Seq<char>| #[trigger] s1.entries.contains_key(k) implies s1.entries[k].last_access < s1.access_clock by {
        if k != key {
            assert(s0.entries.contains_key(k));
        }
    }
}

/// Law: short of the access clock's maximum, a read keeps every stamp below
/// the clock, and a read that finds its key stamps it more recently than
/// every other stored key.
pub proof fn lemma_get_is_most_recent(s0: StoreView, key: Seq<char>, now: u64, r: Option<CacheValueView>, s1: StoreView)
    requires
        stamps_below(s0),
        s0.access_clock < u64::MAX,
        get_post(s0, key, now, r, s1),
    ensures
        stamps_below(s1),
        r is Some ==> forall|k: Seq<char>| #[trigger] s1.entries.contains_key(k) && k != key
            ==> s1.entries[k].last_access < s1.entries[key].last_access,
{
    assert forall|k: Seq<char>| #[trigger] s1.entries.contains_key(k) implies s1.entries[k].last_access < s1.access_clock by {
        if k != key || !(s0.entries.contains_key(key) && expired_at(s0.entries[key].value, now)) {
            assert(s0.entries.contains_key(k));
        }
    }
    if r is Some {
        assert forall|k: Seq<char>| #[trigger] s1.entries.contains_key(k) && k != key implies s1.entries[k].last_access
            < s1.entries[key].last_access by {
            assert(s0.entries.contains_key(k));
        }
    }
}

/// Law: least-recently-used eviction that leaves at least one entry spares
/// the key accessed most recently.
pub proof fn lemma_lru_spares_most_recent(old: StoreView, new: StoreView, r: u64, target: u64, key: Seq<char>)
    requires
        evicts_lowest(old, new, r, target, true),
        old.entries.dom().finite(),
        old.entries.contains_key(key),
        forall|k: Seq<char>| #[trigger] old.entries.contains_key(k) && k != key ==> old.entries[k].last_access < old.entries[key].last_access,
        r < old.entries.dom().len(),
    ensures
        new.entries.contains_key(key),
        new.entries[key] == old.entries[key],
{
    let gone = choose|gone: Set<Seq<char>>| {
        &&& gone.subset_of(old.entries.dom())
        &&& gone.finite()
        &&& gone.len() == r
        &&& new.entries == old.entries.remove_keys(gone)
        &&& forall|a: Seq<char>, b: Seq<char>|
            gone.contains(a) && old.entries.contains_key(b) && !gone.contains(b) ==> eviction_rank(
                #[trigger] old.entries[a],
                true,
            ) <= eviction_rank(#[trigger] old.entries[b], true)
    };
    if gone.contains(key) {
        if forall|b: Seq<char>| old.entries.contains_key(b) ==> gone.contains(b) {
            assert(old.entries.dom().subset_of(gone));
            vstd::set_lib::lemma_len_subset(old.entries.dom(), gone);
        }
        let b = choose|b: Seq<char>| old.entries.contains_key(b) && !gone.contains(b);
        assert(eviction_rank(old.entries[key], true) <= eviction_rank(old.entries[b], true));
        assert(old.entries.contains_key(b) && b != key);
    }
}

/// Law: restoring keeps the count equal to the number of keys (short of the
/// count's maximum): it grows by one for each key not stored before.
pub proof fn lemma_restore_keeps_count(old: StoreView, items: Seq<(Seq<char>, CacheValueView)>, now: u64, new: StoreView)
    requires
        count_matches(old),
        restore_post(old, items, now, new),
        old.entry_count + restored_new_keys(old.entries.dom(), items, now) <= u64::MAX,
    ensures
        count_matches(new),
{
    lemma_restore_dom(store_values(old.entries), items, now);
    assert(store_values(old.entries).dom() =~= old.entries.dom());
    assert(new.entries.dom() =~= store_values(new.entries).dom());
}

/// Law: a read right after a write of `key` gives back the value written,
/// unless it has already expired at the time of the read.
pub proof fn lemma_get_after_set(s0: StoreView, key: Seq<char>, v: CacheValueView, s1: StoreView, now: u64, r: Option<CacheValueView>, s2: StoreView)
    requires
        set_post(s0, key, v, s1),
        get_post(s1, key, now, r, s2),
    ensures
        r == if expired_at(v, now) { None } else { Some(v) },
{
    assert(s1.entries.contains_key(key));
}

/// Law: a read right after a delete of `key` finds nothing and changes
/// nothing.
pub proof fn lemma_get_after_delete(s0: StoreView, key: Seq<char>, s1: StoreView, now: u64, r: Option<CacheValueView>, s2: StoreView)
    requires
        s1.entries == s0.entries.remove(key),
        get_post(s1, key, now, r, s2),
    ensures
        r is None,
        s2 == s1,
{
}

/// Law: a read at `now` of a stored key whose value has not expired at `now`
/// returns that value and keeps the entry, with its value and the count
/// unchanged; a read of a key whose value has expired at `now` returns
/// nothing and removes the entry.
pub proof fn lemma_get_returns_live(s0: StoreView, key: Seq<char>, now: u64, r: Option<CacheValueView>, s1: StoreView)
    requires
        get_post(s0, key, now, r, s1),
        s0.entries.contains_key(key),
    ensures
        !expired_at(s0.entries[key].value, now) ==> {
            &&& r == Some(s0.entries[key].value)
            &&& s1.entries.contains_key(key)
            &&& s1.entries[key].value == s0.entries[key].value
            &&& s1.entry_count == s0.entry_count
        },
        expired_at(s0.entries[key].value, now) ==> r is None && !s1.entries.contains_key(key),
{
}

/// Law: a value created at `created` with a time to live of `ttl` seconds
/// has not expired at any time `now` from `created` until `ttl` seconds
/// later (short of the largest time, where the expiry is held), and has
/// expired from then on; a value created without a time to live never
/// expires.
pub proof fn lemma_fresh_value_live(data: Seq<u8>, created: u64, ttl_secs: Option<u64>, now: u64)
    ensures
        ttl_secs is None ==> !expired_at(
            CacheValueView { data, expires_at_unix: expiry(created, ttl_secs), created_at_unix: created },
            now,
        ),
        ttl_secs matches Some(t) && created <= now && now < created + t && now < u64::MAX ==> !expired_at(
            CacheValueView { data, expires_at_unix: expiry(created, ttl_secs), created_at_unix: created },
            now,
        ),
        ttl_secs matches Some(t) && created + t <= now ==> expired_at(
            CacheValueView { data, expires_at_unix: expiry(created, ttl_secs), created_at_unix: created },
            now,
        ),
{
}

/// Law: a value written under `key` at the reading `created` with a time to
/// live of `ttl` seconds is read back unchanged at any reading `now` from
/// `created` until `ttl` seconds later, and the entry stays stored.
pub proof fn lemma_read_within_ttl(
    s0: StoreView,
    key: Seq<char>,
    data: Seq<u8>,
    created: u64,
    ttl: u64,
    s1: StoreView,
    now: u64,
    r: Option<CacheValueView>,
    s2: StoreView,
)
    requires
        set_post(
            s0,
            key,
            CacheValueView { data, expires_at_unix: expiry(created, Some(ttl)), created_at_unix: created },
            s1,
        ),
        get_post(s1, key, now, r, s2),
        created <= now < created + ttl,
        now < u64::MAX,
    ensures
        r == Some(CacheValueView { data, expires_at_unix: expiry(created, Some(ttl)), created_at_unix: created }),
        s2.entries.contains_key(key),
        s2.entry_count == s1.entry_count,
{
    lemma_fresh_value_live(data, created, Some(ttl), now);
    assert(s1.entries.contains_key(key));
}

/// Law: evicting at `now` removes every entry expired at `now` and counts
/// each of them, so a store holding an entry expired at `now` loses it and
/// reports at least one eviction.
pub proof fn lemma_evict_expired_removes_expired(m: Map<Seq<char>, EntryView>, now: u64, key: Seq<char>)
    requires
        m.dom().finite(),
        m.contains_key(key),
        expired_at(m[key].value, now),
    ensures
        !m.remove_keys(expired_keys(m, now)).contains_key(key),
        expired_keys(m, now).len() >= 1,
{
    assert(expired_keys(m, now).contains(key));
    vstd::set_lib::lemma_len_subset(set![key], expired_keys(m, now));
}

/// Law: after the expired entries are evicted at `now`, no entry left has
/// expired at `now`, and every entry live at `now` is kept unchanged.
pub proof fn lemma_evict_expired_keeps_live(m: Map<Seq<char>, EntryView>, now: u64)
    ensures
        forall|k: Seq<char>| #[trigger] m.remove_keys(expired_keys(m, now)).contains_key(k)
            ==> !expired_at(m.remove_keys(expired_keys(m, now))[k].value, now),
        forall|k: Seq<char>| m.contains_key(k) && !expired_at(m[k].value, now)
            ==> #[trigger] m.remove_keys(expired_keys(m, now)).contains_key(k)
            && m.remove_keys(expired_keys(m, now))[k] == m[k],
{
}

/// Law: restoring a snapshot taken at `now` into an empty store at the same
/// `now` gives back exactly the values live at `now`, each item's key new.
pub proof fn lemma_snapshot_restore(items: Seq<(Seq<char>, CacheValueView)>, m: Map<Seq<char>, EntryView>, now: u64)
    requires
        is_snapshot(items, m, now),
    ensures
        restore_values(Map::empty(), items, now) == store_values(m).restrict(
            m.dom().filter(|k: Seq<char>| !expired_at(m[k].value, now)),
        ),
        restored_new_keys(Set::empty(), items, now) == items.len(),
{
    lemma_restore_listing(items, now);
    let live = m.dom().filter(|k: Seq<char>| !expired_at(m[k].value, now));
    let r = restore_values(Map::empty(), items, now);
    assert forall|k: Seq<char>| r.contains_key(k) <==> live.contains(k) by {
        if live.contains(k) {
            let i = choose|i: int| 0 <= i < items.len() && #[trigger] items[i].0 == k;
        }
    }
    assert forall|k: Seq<char>| #[trigger] r.contains_key(k) implies r[k] == store_values(m)[k] by {
        let i = choose|i: int| 0 <= i < items.len() && #[trigger] items[i].0 == k;
    }
    assert(r =~= store_values(m).restrict(live));
}

/// Law: restoring a snapshot taken at `now` into an empty store at the same
/// `now` gives a store holding exactly the values live at `now`, whose count
/// is the number of items and matches its keys.
pub proof fn lemma_snapshot_restore_count(
    items: Seq<(Seq<char>, CacheValueView)>,
    m: Map<Seq<char>, EntryView>,
    now: u64,
    old: StoreView,
    new: StoreView,
)
    requires
        is_snapshot(items, m, now),
        items.len() <= u64::MAX,
        old.entries == Map::<Seq<char>, EntryView>::empty(),
        old.entry_count == 0,
        restore_post(old, items, now, new),
    ensures
        store_values(new.entries) == store_values(m).restrict(m.dom().filter(|k: Seq<char>| !expired_at(m[k].value, now))),
        new.entry_count == items.len(),
        count_matches(new),
{
    lemma_snapshot_restore(items, m, now);
    assert(old.entries.dom() =~= Set::<Seq<char>>::empty());
    assert(store_values(old.entries) =~= Map::<Seq<char>, CacheValueView>::empty());
    assert(count_matches(old));
    lemma_restore_keeps_count(old, items, now, new);
}

/// Restoring live items with distinct keys into an empty store maps each key
/// to its item's value.
proof fn lemma_restore_listing(items: Seq<(Seq<char>, CacheValueView)>, now: u64)
    requires
        forall|i: int, j: int| 0 <= i < j < items.len() ==> items[i].0 != items[j].0,
        forall|i: int| 0 <= i < items.len() ==> !expired_at(#[trigger] items[i].1, now),
    ensures
        forall|k: Seq<char>| restore_values(Map::empty(), items, now).contains_key(k) <==> exists|i: int|
            0 <= i < items.len() && #[trigger] items[i].0 == k,
        forall|i: int| 0 <= i < items.len() ==> restore_values(Map::empty(), items, now)[#[trigger] items[i].0] == items[i].1,
        restored_new_keys(Set::empty(), items, now) == items.len(),
    decreases items.len(),
{
    if items.len() > 0 {
        let p = items.drop_last();
        lemma_restore_listing(p, now);
        let last = items.last();
        assert(!expired_at(items[items.len() - 1].1, now));
        let prev = restore_values(Map::empty(), p, now);
        let cur = restore_values(Map::empty(), items, now);
        assert(cur == prev.insert(last.0, last.1));
        assert forall|k: Seq<char>| cur.contains_key(k) <==> exists|i: int| 0 <= i < items.len() && #[trigger] items[i].0 == k by {
            if prev.contains_key(k) {
                let i = choose|i: int| 0 <= i < p.len() && #[trigger] p[i].0 == k;
                assert(items[i].0 == k);
            }
            if k == last.0 {
                assert(items[items.len() - 1].0 == k);
            }
            if exists|i: int| 0 <= i < items.len() && #[trigger] items[i].0 == k {
                let i = choose|i: int| 0 <= i < items.len() && #[trigger] items[i].0 == k;
                if i < items.len() - 1 {
                    assert(p[i].0 == k);
                }
            }
        }
        assert forall|i: int| 0 <= i < items.len() implies cur[#[trigger] items[i].0] == items[i].1 by {
            if i < items.len() - 1 {
                assert(items[i].0 != items[items.len() - 1].0);
                assert(p[i] == items[i]);
            }
        }
        if restores_key(p, now, last.0) {
            let i = choose|i: int| 0 <= i < p.len() && #[trigger] p[i].0 == last.0 && !expired_at(p[i].1, now);
            assert(items[i].0 != items[items.len() - 1].0);
        }
    }
}

} // verus!
