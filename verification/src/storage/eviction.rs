//! The periodic clean-up pass: drop what has expired, then, when the store
//! holds more entries than allowed, evict the least recently used ones down
//! to a tenth of the capacity below the limit.

use crate::clock::{current_unix_secs, unix_secs_of};
use crate::storage::engine::{eviction_rank, evicts_lowest, expired_keys, sub_mod, StorageEngine, StoreView};
use std::time::SystemTime;
use vstd::prelude::*;

verus! {

/// How many entries the capacity step evicts when the store counts `count`
/// entries against a limit of `max`: the excess plus a tenth of the limit,
/// or none when the count is within the limit.
pub open spec fn capacity_target(count: u64, max: u64) -> u64 {
    if count > max {
        (count - max + max / 10) as u64
    } else {
        0
    }
}

/// The outcome of one clean-up pass at unix time `now`, through the state
/// `mid` left by the expiry step: `r.0` entries expired and were removed;
/// then, over the limit, `r.1` least recently used entries were evicted
/// toward `capacity_target`, and within it nothing more changed.
pub open spec fn pass_post(old: StoreView, now: u64, mid: StoreView, r: (u64, u64), new: StoreView) -> bool {
    &&& mid.entries == old.entries.remove_keys(expired_keys(old.entries, now))
    &&& r.0 == expired_keys(old.entries, now).len()
    &&& mid.entry_count == sub_mod(old.entry_count, r.0)
    &&& mid.max_entries == old.max_entries
    &&& if mid.entry_count > mid.max_entries {
        evicts_lowest(mid, new, r.1, capacity_target(mid.entry_count, mid.max_entries), true)
    } else {
        r.1 == 0 && new == mid
    }
}

/// Runs one clean-up pass at unix time `now`; returns how many entries
/// expired and how many the capacity step evicted.
pub fn eviction_pass_at(engine: &mut StorageEngine, now: u64) -> (r: (u64, u64))
    ensures
        exists|mid: StoreView| pass_post(old(engine)@, now, mid, r, final(engine)@),
{
    let expired = engine.evict_expired_at(now);
    let ghost mid = engine@;
    let current = engine.len();
    let max = engine.max_entries();
    if current > max {
        let excess = current - max;
        let evicted = engine.evict_lru(excess + max / 10);
        assert(pass_post(old(engine)@, now, mid, (expired, evicted), engine@));
        (expired, evicted)
    } else {
        assert(pass_post(old(engine)@, now, mid, (expired, 0), engine@));
        (expired, 0)
    }
}

/// Runs one clean-up pass now; see `eviction_pass_at`.
pub fn eviction_pass(engine: &mut StorageEngine) -> (r: (u64, u64))
    ensures
        exists|now: u64, mid: StoreView| pass_post(old(engine)@, now, mid, r, final(engine)@),
        exists|t: SystemTime, mid: StoreView| pass_post(old(engine)@, unix_secs_of(t), mid, r, final(engine)@),
{
    let now = current_unix_secs();
    eviction_pass_at(engine, now)
}

/// Law: on a store whose count matches the number of its keys (and fits a
/// machine word), a clean-up pass leaves the count matching the keys and
/// within the limit.
pub proof fn lemma_pass_within_capacity(old: StoreView, now: u64, mid: StoreView, r: (u64, u64), new: StoreView)
    requires
        pass_post(old, now, mid, r, new),
        old.entries.dom().finite(),
        old.entry_count == old.entries.dom().len(),
        old.entry_count <= usize::MAX,
    ensures
        new.entries.dom().finite(),
        new.entry_count == new.entries.dom().len(),
        new.entry_count <= new.max_entries,
{
    let ex = expired_keys(old.entries, now);
    assert(ex.subset_of(old.entries.dom()));
    vstd::set_lib::lemma_len_subset(ex, old.entries.dom());
    old.entries.lemma_remove_keys_len(ex);
    assert(mid.entries.dom() =~= old.entries.dom().difference(ex));
    assert(mid.entry_count == mid.entries.dom().len());
    if mid.entry_count > mid.max_entries {
        let c = mid.entry_count;
        let m = mid.max_entries;
        let t = capacity_target(c, m);
        assert(t <= c);
        assert((t as usize) == t);
        let gone = choose|gone: Set<Seq<char>>| {
            &&& gone.subset_of(mid.entries.dom())
            &&& gone.finite()
            &&& gone.len() == r.1
            &&& new.entries == mid.entries.remove_keys(gone)
            &&& forall|a: Seq<char>, b: Seq<char>|
                gone.contains(a) && mid.entries.contains_key(b) && !gone.contains(b) ==> eviction_rank(
                    #[trigger] mid.entries[a],
                    true,
                ) <= eviction_rank(#[trigger] mid.entries[b], true)
        };
        mid.entries.lemma_remove_keys_len(gone);
        assert(new.entries.dom() =~= mid.entries.dom().difference(gone));
    }
}

} // verus!
