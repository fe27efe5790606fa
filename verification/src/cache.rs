//! The TTL-bounded answer cache, backed by the `ttl_cache` crate: a bounded
//! associative store whose entries expire by wall clock. What a lookup
//! returns depends on the clock, so its contract states only what holds of
//! every outcome; what an insert stores does not, and is stated exactly.

use vstd::prelude::*;
use std::time::Duration;
use crate::answer::DnsAnswer;
use crate::query::DnsQuery;

verus! {

#[verifier::external_type_specification]
#[verifier::external_body]
#[verifier::reject_recursive_types(K)]
#[verifier::reject_recursive_types(V)]
#[verifier::reject_recursive_types(S)]
pub struct ExTtlCache<K: Eq + core::hash::Hash, V, S: core::hash::BuildHasher>(
    ttl_cache::TtlCache<K, V, S>,
);

/// The cache from a question to its answer record.
pub type Cache = ttl_cache::TtlCache<DnsQuery, DnsAnswer>;

/// The entries a cache holds, expired ones included: what was stored last
/// for each key still present.
pub uninterp spec fn cache_entries(c: Cache) -> Map<DnsQuery, DnsAnswer>;

/// The bound the cache was made with: how many entries it may hold.
pub uninterp spec fn cache_capacity(c: Cache) -> nat;

/// Relies on TtlCache::new: the new cache holds nothing and keeps the given
/// bound.
#[verifier::external_body]
pub fn cache_new(capacity: usize) -> (c: Cache)
    ensures
        forall|q: DnsQuery| !cache_entries(c).dom().contains(q),
        cache_capacity(c) == capacity,
{
    ttl_cache::TtlCache::new(capacity)
}

/// Relies on TtlCache::insert: afterwards the key holds the given value
/// whenever the cache can hold anything at all (an insert moves its key to
/// the freshest end, and eviction takes only the oldest entry, only past the
/// bound), and every other entry either keeps its old value or is gone. The
/// time to live is capped at 32 bits so that the entry's expiration instant
/// stays representable.
#[verifier::external_body]
pub fn cache_insert(c: &mut Cache, k: DnsQuery, v: DnsAnswer, ttl_secs: u64)
    requires
        ttl_secs <= 0xFFFF_FFFF,
    ensures
        cache_capacity(*final(c)) == cache_capacity(*old(c)),
        cache_capacity(*old(c)) >= 1 ==> cache_entries(*final(c)).dom().contains(k)
            && cache_entries(*final(c))[k] == v,
        forall|q: DnsQuery| #[trigger]
            cache_entries(*final(c)).dom().contains(q) ==> (q == k && cache_entries(*final(c))[q]
                == v) || (cache_entries(*old(c)).dom().contains(q) && cache_entries(*final(c))[q]
                == cache_entries(*old(c))[q]),
{
    c.insert(k, v, Duration::from_secs(ttl_secs));
}

/// Relies on TtlCache::get: a hit returns the value stored for the key; a
/// missing or expired entry is a miss, and expiry may strike at any moment,
/// so a miss says nothing.
#[verifier::external_body]
pub fn cache_get(c: &Cache, k: &DnsQuery) -> (r: Option<DnsAnswer>)
    ensures
        r matches Some(v) ==> cache_entries(*c).dom().contains(*k) && v == cache_entries(*c)[*k],
{
    match c.get(k) {
        Some(v) => Some(v.clone()),
        None => None,
    }
}

} // verus!
