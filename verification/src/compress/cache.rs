//! Memoisation of combined compressed lengths, keyed by a hash of the
//! concatenated text.
use std::collections::BTreeMap;
use std::collections::hash_map::DefaultHasher;
use std::hash::{BuildHasher, BuildHasherDefault};
use std::sync::Arc;

use vstd::prelude::*;
use vstd::rwlock::RwLock;

verus! {

/// The value that std's `DefaultHasher`, created by `new`, gives for a
/// string. `DefaultHasher::new` uses fixed keys, so within one build the
/// same text always hashes to the same value.
pub uninterp spec fn string_hash(s: Seq<char>) -> u64;

/// Hashes `s` with a fresh `DefaultHasher` (std's
/// `BuildHasher::hash_one` on `BuildHasherDefault<DefaultHasher>`). Claims
/// only that the result is the named hash of the text.
#[verifier::external_body]
fn default_hash(s: &str) -> (h: u64)
    ensures
        h == string_hash(s@),
{
    BuildHasherDefault::<DefaultHasher>::default().hash_one(s)
}

/// A store of combined compressed lengths keyed by hash, used through
/// shared references.
pub trait Cache: Sized {
    /// The hash under which this kind of cache keeps a text's length.
    spec fn hash_of(s: Seq<char>) -> u64;

    /// Whether a lookup may find `length` under `hash`.
    spec fn admits(&self, hash: u64, length: usize) -> bool;

    /// Whether this kind of cache may ever find a length. Where it does not,
    /// every lookup finds nothing; where it does, a lookup finds only what
    /// `admits` allows, and a store must be of such an entry. Which stored
    /// length a later lookup finds is not part of this contract.
    spec fn retains() -> bool;

    /// A cache that holds nothing, in which a lookup only ever finds what
    /// `admits` allows and, where the cache retains anything, may hold all
    /// that it allows.
    fn empty_cache(admits: Ghost<spec_fn(u64, usize) -> bool>) -> (c: Self)
        ensures
            forall|h: u64, l: usize| #[trigger] c.admits(h, l) ==> admits@(h, l),
            Self::retains() ==> forall|h: u64, l: usize| #[trigger] c.admits(h, l) == admits@(h, l),
    ;

    /// The hash under which a text's length is kept.
    fn hash_string(&self, s: &str) -> (h: u64)
        ensures
            h == Self::hash_of(s@),
    ;

    /// The length held under `hash`, if any.
    fn get_length_by_hash(&self, hash: u64) -> (r: Option<usize>)
        ensures
            r matches Some(l) ==> self.admits(hash, l),
            !Self::retains() ==> r is None,
    ;

    /// Keeps `length` under `hash`, where this cache retains anything.
    fn store_length_by_hash(&self, hash: u64, length: usize)
        requires
            Self::retains() ==> self.admits(hash, length),
    ;
}

/// A cache that keeps nothing: every length is computed afresh.
#[derive(Clone, Copy, Debug)]
pub struct NoCache;

impl Cache for NoCache {
    open spec fn hash_of(s: Seq<char>) -> u64 {
        string_hash(s)
    }

    open spec fn admits(&self, hash: u64, length: usize) -> bool {
        false
    }

    open spec fn retains() -> bool {
        false
    }

    fn empty_cache(admits: Ghost<spec_fn(u64, usize) -> bool>) -> (c: Self) {
        NoCache
    }

    fn hash_string(&self, s: &str) -> (h: u64) {
        default_hash(s)
    }

    fn get_length_by_hash(&self, hash: u64) -> (r: Option<usize>) {
        None
    }

    fn store_length_by_hash(&self, hash: u64, length: usize) {
    }
}

impl Default for NoCache {
    fn default() -> (c: Self) {
        NoCache
    }
}

/// Whether every entry of `m` is one that `admits` allows.
pub open spec fn all_admitted(admits: spec_fn(u64, usize) -> bool) -> spec_fn(BTreeMap<u64, usize>) -> bool {
    |m: BTreeMap<u64, usize>| forall|h: u64| #[trigger] m@.dom().contains(h) ==> admits(h, m@[h])
}

/// A cache that keeps every length it is given, in an ordered map behind a
/// lock that all clones of the cache share: a length stored through one
/// clone is there for every other.
pub struct InMemoryCache {
    cache: Arc<RwLock<BTreeMap<u64, usize>, spec_fn(BTreeMap<u64, usize>) -> bool>>,
    admits: Ghost<spec_fn(u64, usize) -> bool>,
}

impl InMemoryCache {
    /// The shared map's lock admits exactly the maps whose entries this
    /// cache admits.
    #[verifier::type_invariant]
    spec fn lock_admits(&self) -> bool {
        self.cache.pred() == all_admitted(self.admits@)
    }

    /// Whether `other` is a handle on the same shared map as this cache.
    pub closed spec fn shares_with(&self, other: &InMemoryCache) -> bool {
        self.cache == other.cache && self.admits == other.admits
    }

    /// An empty cache that admits any length under any hash.
    pub fn new() -> (c: Self)
        ensures
            forall|h: u64, l: usize| #[trigger] c.admits(h, l),
    {
        Self::admitting(Ghost(|h: u64, l: usize| true))
    }

    /// An empty cache that admits what `admits` allows.
    fn admitting(admits: Ghost<spec_fn(u64, usize) -> bool>) -> (c: Self)
        ensures
            forall|h: u64, l: usize| #[trigger] c.admits(h, l) == admits@(h, l),
    {
        let m: BTreeMap<u64, usize> = BTreeMap::new();
        assert(all_admitted(admits@)(m));
        let lock = RwLock::new(m, Ghost(all_admitted(admits@)));
        InMemoryCache { cache: Arc::new(lock), admits }
    }

    fn hash_string_internal(s: &str) -> (h: u64)
        ensures
            h == string_hash(s@),
    {
        default_hash(s)
    }
}

impl Cache for InMemoryCache {
    open spec fn hash_of(s: Seq<char>) -> u64 {
        string_hash(s)
    }

    closed spec fn admits(&self, hash: u64, length: usize) -> bool {
        self.admits@(hash, length)
    }

    open spec fn retains() -> bool {
        true
    }

    fn empty_cache(admits: Ghost<spec_fn(u64, usize) -> bool>) -> (c: Self) {
        Self::admitting(admits)
    }

    fn hash_string(&self, s: &str) -> (h: u64) {
        Self::hash_string_internal(s)
    }

    fn get_length_by_hash(&self, hash: u64) -> (r: Option<usize>) {
        proof {
            use_type_invariant(self);
        }
        let guard = self.cache.acquire_read();
        let m = guard.borrow();
        let r = match m.get(&hash) {
            Some(v) => Some(*v),
            None => None,
        };
        proof {
            if r is Some {
                assert(m@.dom().contains(hash));
            }
        }
        guard.release_read();
        r
    }

    fn store_length_by_hash(&self, hash: u64, length: usize) {
        proof {
            use_type_invariant(self);
        }
        let (mut m, guard) = self.cache.acquire_write();
        m.insert(hash, length);
        assert(all_admitted(self.admits@)(m));
        guard.release_write(m);
    }
}

impl Clone for InMemoryCache {
    /// Another handle on the same shared map.
    fn clone(&self) -> (c: Self)
        ensures
            c.shares_with(self),
            forall|h: u64, l: usize| #[trigger] c.admits(h, l) == self.admits(h, l),
    {
        proof {
            use_type_invariant(self);
        }
        InMemoryCache { cache: Arc::clone(&self.cache), admits: Ghost(self.admits@) }
    }
}

impl Default for InMemoryCache {
    fn default() -> (c: Self)
        ensures
            forall|h: u64, l: usize| #[trigger] c.admits(h, l),
    {
        Self::new()
    }
}

} // verus!
