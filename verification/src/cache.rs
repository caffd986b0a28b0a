//! The record cache: a bounded map from owner name to record in which every
//! entry lives for its own time.
//!
//! The map itself is `ttl_cache::TtlCache`. What it holds is named here and
//! not computed: whether an entry is still alive is a matter of the clock,
//! so a lookup may always miss.

use vstd::prelude::*;
use std::collections::hash_map::RandomState;
use std::hash::BuildHasher;
use std::hash::Hash;
use std::time::Duration;
use ttl_cache::TtlCache;
use crate::record::{DnsRecord, RecordView};

verus! {

/// `ttl_cache::TtlCache`, taken as it is: nothing of what is inside a cache
/// is seen from here.
#[verifier::external_type_specification]
#[verifier::external_body]
#[verifier::reject_recursive_types(K)]
#[verifier::reject_recursive_types(V)]
#[verifier::reject_recursive_types(S)]
pub struct ExTtlCache<K: Eq + Hash, V, S: BuildHasher>(TtlCache<K, V, S>);

/// The entries that a cache holds, expired ones included: owner name to record.
pub uninterp spec fn cache_entries(cache: TtlCache<String, DnsRecord, RandomState>) -> Map<
    Seq<char>,
    RecordView,
>;

/// The number of entries that a cache was made to hold.
pub uninterp spec fn cache_limit(cache: TtlCache<String, DnsRecord, RandomState>) -> nat;

/// Calls `TtlCache::new`: an empty cache that holds at most `capacity` entries.
#[verifier::external_body]
fn cache_new(capacity: usize) -> (made: TtlCache<String, DnsRecord, RandomState>)
    ensures
        cache_entries(made).dom() == Set::<Seq<char>>::empty(),
        cache_limit(made) == capacity,
{
    TtlCache::new(capacity)
}

/// Calls `TtlCache::get` and copies what it finds.
///
/// A record that comes back is the one held under the name. That a held
/// record comes back is not promised: the cache withholds an entry whose
/// time has passed.
#[verifier::external_body]
fn cache_get(cache: &TtlCache<String, DnsRecord, RandomState>, name: &str) -> (res: Option<
    DnsRecord,
>)
    ensures
        res matches Some(record) ==> cache_entries(*cache).contains_key(name@) && cache_entries(
            *cache,
        )[name@] == record@,
{
    cache.get(name).cloned()
}

/// Calls `TtlCache::insert` with a time to live in whole seconds.
///
/// The record is put under the name, in place of what was held there. Where
/// the cache then holds more entries than it was made for, it drops one: its
/// oldest, which is not said here. The limit stays. The call does not
/// unwind: a time to live of 32 bits of seconds cannot carry the clock past
/// its range, which is the one thing that the cache would panic on.
#[verifier::external_body]
fn cache_insert(
    cache: &mut TtlCache<String, DnsRecord, RandomState>,
    name: String,
    record: DnsRecord,
    ttl: u32,
)
    ensures
        cache_limit(*final(cache)) == cache_limit(*old(cache)),
        ({
            let full = cache_entries(*old(cache)).insert(name@, record@);
            if full.dom().len() <= cache_limit(*old(cache)) {
                cache_entries(*final(cache)) == full
            } else {
                exists|gone: Seq<char>|
                    full.contains_key(gone) && cache_entries(*final(cache)) == full.remove(gone)
            }
        }),
    no_unwind
{
    cache.insert(name, record, Duration::from_secs(ttl as u64));
}

/// The cache of a resolver. One cache serves all its requests.
pub struct DnsCache {
    inner: TtlCache<String, DnsRecord, RandomState>,
}

impl DnsCache {
    /// The entries held, expired ones included: owner name to record.
    pub closed spec fn entries(&self) -> Map<Seq<char>, RecordView> {
        cache_entries(self.inner)
    }

    /// The number of entries that the cache was made to hold.
    pub closed spec fn limit(&self) -> nat {
        cache_limit(self.inner)
    }

    /// The cache holds finitely many entries, and no more than it was made for.
    #[verifier::type_invariant]
    pub open spec fn wf(&self) -> bool {
        &&& self.entries().dom().finite()
        &&& self.entries().dom().len() <= self.limit()
    }

    /// An empty cache that holds at most `capacity` entries.
    pub fn new(capacity: usize) -> (cache: Self)
        ensures
            cache.entries() == Map::<Seq<char>, RecordView>::empty(),
            cache.limit() == capacity,
    {
        let inner = cache_new(capacity);
        assert(cache_entries(inner) =~= Map::<Seq<char>, RecordView>::empty());
        DnsCache { inner }
    }

    /// The record held under `name`, if the cache gives it out: an entry
    /// whose time has passed is withheld.
    pub fn get(&self, name: &str) -> (res: Option<DnsRecord>)
        ensures
            res matches Some(record) ==> self.entries().contains_key(name@) && self.entries()[name@]
                == record@,
    {
        cache_get(&self.inner, name)
    }

    /// Puts `record` under `name` for `ttl` seconds, in place of what was
    /// held there. A cache that is full drops one entry to make room.
    pub fn insert(&mut self, name: String, record: DnsRecord, ttl: u32)
        ensures
            final(self).limit() == old(self).limit(),
            final(self).entries().submap_of(old(self).entries().insert(name@, record@)),
            old(self).entries().insert(name@, record@).dom().len() <= old(self).limit()
                ==> final(self).entries() == old(self).entries().insert(name@, record@),
            old(self).entries().insert(name@, record@).dom().len() > old(self).limit()
                ==> final(self).entries().dom().len() == old(self).entries().insert(
                name@,
                record@,
            ).dom().len() - 1,
    {
        proof {
            use_type_invariant(&*self);
        }
        cache_insert(&mut self.inner, name, record, ttl);
    }
}

} // verus!
