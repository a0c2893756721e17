//! The cache contract that upstream layers use to hold sealed snapshots: a
//! plain key-value interface with insert/get/may_contain/remove/clear/obtain,
//! its configuration and error types, and an unbounded in-memory cache that
//! never evicts, suited to tests.
//!
//! Disk-backed and bounded in-memory caches are outside collaborators; the
//! configuration variants naming them exist so that callers can be routed,
//! but this crate only builds the unbounded cache.

use vstd::prelude::*;
use vstd::std_specs::cmp::PartialEqSpec;

use crate::storage::Storage;

verus! {

/// Status codes an error maps to at the service boundary.
#[derive(Clone, Copy, Debug, PartialEq, Eq, Structural)]
pub enum ErrorCodes {
    InvalidArgument,
    Unavailable,
}

/// Declares anyhow's error type so that a cache error can carry one; the
/// verifier treats a value of it as opaque.
#[verifier::external_type_specification]
#[verifier::external_body]
pub struct ExAnyhowError(anyhow::Error);

/// An error raised while interacting with a cache.
///
/// `InvalidCacheConfig` is used at configuration time; it should not appear
/// in steady state.  `DiskError` carries a failure from a disk-backed cache
/// while serving.
#[derive(Debug)]
pub enum CacheError {
    InvalidCacheConfig(String),
    DiskError(anyhow::Error),
}

impl CacheError {
    /// The status code this error maps to.
    pub open spec fn spec_code(&self) -> ErrorCodes {
        match self {
            CacheError::InvalidCacheConfig(_) => ErrorCodes::InvalidArgument,
            CacheError::DiskError(_) => ErrorCodes::Unavailable,
        }
    }

    pub fn code(&self) -> (c: ErrorCodes)
        ensures
            c == self.spec_code(),
    {
        match self {
            CacheError::InvalidCacheConfig(_) => ErrorCodes::InvalidArgument,
            CacheError::DiskError(_) => ErrorCodes::Unavailable,
        }
    }
}

/// Configuration of the unbounded cache.  It has no knobs: the cache holds
/// everything it is given.
#[derive(Debug)]
pub struct UnboundedCacheConfig {}

impl Default for UnboundedCacheConfig {
    fn default() -> (r: UnboundedCacheConfig)
        ensures
            r == (UnboundedCacheConfig {}),
    {
        UnboundedCacheConfig {}
    }
}

/// Configuration of a bounded, possibly disk-backed cache.  Such caches are
/// built by an outside collaborator; this crate only records the settings.
#[derive(Debug)]
pub struct FoyerCacheConfig {
    /// Capacity, in weighted units.
    pub capacity: usize,
    /// Directory for the disk-resident part, when there is one.
    pub dir: Option<String>,
}

impl Default for FoyerCacheConfig {
    fn default() -> (r: FoyerCacheConfig)
        ensures
            r == (FoyerCacheConfig { capacity: 0, dir: None }),
    {
        FoyerCacheConfig { capacity: 0, dir: None }
    }
}

/// A cache configuration.
/// "unbounded" is a cache that doesn't evict.
/// "disk" is a cache that lives on disk.
/// "memory" is a bounded cache that lives in memory.
#[derive(Debug)]
pub enum CacheConfig {
    Unbounded(UnboundedCacheConfig),
    Disk(FoyerCacheConfig),
    Memory(FoyerCacheConfig),
    Nop,
}

impl Default for CacheConfig {
    fn default() -> (r: CacheConfig)
        ensures
            r is Nop,
    {
        CacheConfig::Nop
    }
}

/// The weight of an object, for cache accounting.
pub trait Weighted {
    fn weight(&self) -> usize;
}

impl Weighted for Storage {
    /// A snapshot is a cheap shared handle: it weighs one unit.
    fn weight(&self) -> usize {
        1
    }
}

/// A cache offers keyed access.  Whether it is persistent, and whether an
/// entry survives until the next lookup, is unspecified at this level:
/// bounded implementations may evict.
pub trait Cache<K, V> {
    fn insert(&mut self, key: K, value: V);

    fn get(&self, key: &K) -> Result<Option<V>, CacheError>;

    /// Whether the cache holds the key; an implementation may answer with a
    /// false positive.
    fn may_contain(&self, key: &K) -> bool;

    fn remove(&mut self, key: &K);

    fn clear(&mut self) -> Result<(), CacheError>;

    fn obtain(&self, key: K) -> Result<Option<V>, CacheError>;
}

/// A persistent cache: its entries outlive the process.
pub trait PersistentCache<K, V>: Cache<K, V> {

}

/// The entries with keys equal (under `eq_spec`) to `k` taken out, in order.
pub open spec fn without_key<K: PartialEq, V>(s: Seq<(K, V)>, k: K) -> Seq<(K, V)>
    decreases s.len(),
{
    if s.len() == 0 {
        s
    } else {
        let rest = without_key(s.drop_first(), k);
        if s[0].0.eq_spec(&k) {
            rest
        } else {
            seq![s[0]] + rest
        }
    }
}

/// The value most recently stored under a key equal to `k`, if any.
pub open spec fn cache_spec_get<K: PartialEq, V>(s: Seq<(K, V)>, k: K) -> Option<V>
    decreases s.len(),
{
    if s.len() == 0 {
        None
    } else if s.last().0.eq_spec(&k) {
        Some(s.last().1)
    } else {
        cache_spec_get(s.drop_last(), k)
    }
}

/// Appending an entry extends `without_key` by that entry when its key
/// differs.
proof fn lemma_without_key_push<K: PartialEq, V>(s: Seq<(K, V)>, e: (K, V), k: K)
    ensures
        without_key(s.push(e), k) == if e.0.eq_spec(&k) {
            without_key(s, k)
        } else {
            without_key(s, k).push(e)
        },
    decreases s.len(),
{
    if s.len() == 0 {
        let emp = Seq::<(K, V)>::empty();
        assert(s.push(e)[0] == e);
        assert(s.push(e).drop_first() =~= emp);
        assert(without_key(emp, k) == emp);
        if e.0.eq_spec(&k) {
            assert(without_key(s.push(e), k) =~= without_key(s, k));
        } else {
            assert(without_key(s.push(e), k) =~= without_key(s, k).push(e));
        }
    } else {
        assert(s.push(e)[0] == s[0]);
        assert(s.push(e).drop_first() =~= s.drop_first().push(e));
        lemma_without_key_push(s.drop_first(), e, k);
        if e.0.eq_spec(&k) {
            assert(without_key(s.push(e), k) =~= without_key(s, k));
        } else {
            assert(without_key(s.push(e), k) =~= without_key(s, k).push(e));
        }
    }
}

/// A cache that never evicts: every entry stays until removed or cleared.
pub struct UnboundedCache<K, V> {
    entries: Vec<(K, V)>,
}

impl<K, V> View for UnboundedCache<K, V> {
    type V = Seq<(K, V)>;

    closed spec fn view(&self) -> Seq<(K, V)> {
        self.entries@
    }
}

impl<K: PartialEq, V: Clone> UnboundedCache<K, V> {
    /// An empty unbounded cache.
    pub fn new(config: &UnboundedCacheConfig) -> (c: UnboundedCache<K, V>)
        ensures
            c@ == Seq::<(K, V)>::empty(),
    {
        let c = UnboundedCache { entries: Vec::new() };
        proof {
            assert(c@ =~= Seq::<(K, V)>::empty());
        }
        c
    }

    fn lookup(&self, key: &K) -> (r: Option<V>)
        ensures
            K::obeys_eq_spec() ==> match r {
                Some(v) => cache_spec_get(self@, *key) matches Some(w) && cloned(w, v),
                None => cache_spec_get(self@, *key) is None,
            },
    {
        let ghost s = self@;
        let n = self.entries.len();
        let mut j: usize = n;
        proof {
            assert(s.subrange(0, n as int) =~= s);
        }
        while j > 0
            invariant
                self@ == s,
                n == s.len(),
                0 <= j <= n,
                K::obeys_eq_spec() ==> cache_spec_get(s, *key) == cache_spec_get(
                    s.subrange(0, j as int),
                    *key,
                ),
            decreases j,
        {
            proof {
                assert(s.subrange(0, j as int).last() == s[j - 1]);
                assert(s.subrange(0, j as int).drop_last() =~= s.subrange(0, j as int - 1));
            }
            if self.entries[j - 1].0 == *key {
                return Some(self.entries[j - 1].1.clone());
            }
            j -= 1;
        }
        proof {
            assert(s.subrange(0, 0) =~= Seq::<(K, V)>::empty());
        }
        None
    }

    fn take_out(&mut self, key: &K)
        ensures
            K::obeys_eq_spec() ==> final(self)@ == without_key(old(self)@, *key),
    {
        let ghost s = self@;
        let n = self.entries.len();
        let mut m: usize = 0;
        let mut j: usize = 0;
        proof {
            assert(s.subrange(0, 0) =~= Seq::<(K, V)>::empty());
            assert(without_key(Seq::<(K, V)>::empty(), *key) == Seq::<(K, V)>::empty());
            assert(s.skip(0) =~= s);
        }
        while m < n
            invariant
                old(self)@ == s,
                n == s.len(),
                0 <= j <= m <= n,
                self.entries@.len() == n - m + j,
                self@ == self.entries@,
                K::obeys_eq_spec() ==> {
                    &&& self@ =~= without_key(s.subrange(0, m as int), *key) + s.skip(m as int)
                    &&& j == without_key(s.subrange(0, m as int), *key).len()
                },
            decreases n - m,
        {
            proof {
                assert(s.subrange(0, m as int + 1) =~= s.subrange(0, m as int).push(s[m as int]));
                lemma_without_key_push(s.subrange(0, m as int), s[m as int], *key);
                if K::obeys_eq_spec() {
                    assert(self@[j as int] == s.skip(m as int)[0]);
                    assert(s.skip(m as int)[0] == s[m as int]);
                    assert(s.skip(m as int).drop_first() =~= s.skip(m as int + 1));
                }
            }
            let matched = self.entries[j].0 == *key;
            if matched {
                self.entries.remove(j);
                proof {
                    if K::obeys_eq_spec() {
                        assert(self@ =~= without_key(s.subrange(0, m as int + 1), *key) + s.skip(
                            m as int + 1,
                        ));
                    }
                }
            } else {
                j += 1;
                proof {
                    if K::obeys_eq_spec() {
                        assert(self@ =~= without_key(s.subrange(0, m as int + 1), *key) + s.skip(
                            m as int + 1,
                        ));
                    }
                }
            }
            m += 1;
        }
        proof {
            assert(s.subrange(0, n as int) =~= s);
            assert(s.skip(n as int) =~= Seq::<(K, V)>::empty());
            if K::obeys_eq_spec() {
                assert(self@ =~= without_key(s, *key));
            }
        }
    }
}

impl<K: PartialEq, V: Clone> Cache<K, V> for UnboundedCache<K, V> {
    /// Registers `value` under `key`, replacing whatever was stored under an
    /// equal key.
    fn insert(&mut self, key: K, value: V)
        ensures
            K::obeys_eq_spec() ==> final(self)@ == without_key(old(self)@, key).push(
                (key, value),
            ),
    {
        let ghost gk = key;
        let ghost gv = value;
        self.take_out(&key);
        let ghost s = self@;
        self.entries.push((key, value));
        proof {
            assert(self@ =~= s.push((gk, gv)));
        }
    }

    /// The value most recently stored under an equal key, duplicated; never
    /// fails.
    fn get(&self, key: &K) -> (r: Result<Option<V>, CacheError>)
        ensures
            r is Ok,
            K::obeys_eq_spec() ==> match r->Ok_0 {
                Some(v) => cache_spec_get(self@, *key) matches Some(w) && cloned(w, v),
                None => cache_spec_get(self@, *key) is None,
            },
    {
        Ok(self.lookup(key))
    }

    /// Exact for this cache: it holds the key if and only if an equal key
    /// was stored and not removed.
    fn may_contain(&self, key: &K) -> (r: bool)
        ensures
            K::obeys_eq_spec() ==> r == (cache_spec_get(self@, *key) is Some),
    {
        match self.lookup(key) {
            Some(_) => true,
            None => false,
        }
    }

    /// Drops whatever is stored under an equal key.
    fn remove(&mut self, key: &K)
        ensures
            K::obeys_eq_spec() ==> final(self)@ == without_key(old(self)@, *key),
    {
        self.take_out(key)
    }

    /// Drops every entry; never fails.
    fn clear(&mut self) -> (r: Result<(), CacheError>)
        ensures
            r is Ok,
            final(self)@ == Seq::<(K, V)>::empty(),
    {
        self.entries.clear();
        proof {
            assert(self@ =~= Seq::<(K, V)>::empty());
        }
        Ok(())
    }

    /// As `get`; this cache has no slower tier to fall back to.
    fn obtain(&self, key: K) -> (r: Result<Option<V>, CacheError>)
        ensures
            r is Ok,
            K::obeys_eq_spec() ==> match r->Ok_0 {
                Some(v) => cache_spec_get(self@, key) matches Some(w) && cloned(w, v),
                None => cache_spec_get(self@, key) is None,
            },
    {
        Ok(self.lookup(&key))
    }
}

impl<K: PartialEq, V: Clone> PersistentCache<K, V> for UnboundedCache<K, V> {

}

/// An unbounded cache for testing purposes.
pub fn new_cache_for_test<K: PartialEq, V: Clone>() -> (c: UnboundedCache<K, V>)
    ensures
        c@ == Seq::<(K, V)>::empty(),
{
    UnboundedCache::new(&UnboundedCacheConfig::default())
}

/// An unbounded cache for testing purposes, with no persistence asked of it.
pub fn new_non_persistent_cache_for_test<K: PartialEq, V: Clone>() -> (c: UnboundedCache<K, V>)
    ensures
        c@ == Seq::<(K, V)>::empty(),
{
    UnboundedCache::new(&UnboundedCacheConfig::default())
}

} // verus!
