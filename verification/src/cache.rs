//! The shader cache's bookkeeping: compiled shaders keyed by the hash of the
//! post-`#include` source, and the number of real compilations (misses). The
//! caller hashes the source, asks [`CompileCache::lookup`], and on a miss
//! compiles and hands the result to [`CompileCache::record_compile`].

use vstd::prelude::*;
use std::collections::HashMap;

verus! {

broadcast use vstd::std_specs::hash::group_hash_axioms;

/// Compiled shaders keyed by source hash, with a count of compilations.
pub struct CompileCache<T> {
    entries: HashMap<u64, T>,
    compiles: u64,
}

impl<T> View for CompileCache<T> {
    type V = Map<u64, T>;

    /// The cached entries.
    closed spec fn view(&self) -> Map<u64, T> {
        self.entries@
    }
}

impl<T> CompileCache<T> {
    /// How many real compilations have been recorded.
    pub closed spec fn spec_compiles(&self) -> nat {
        self.compiles as nat
    }

    /// A fresh, empty cache that has compiled nothing.
    pub fn new() -> (c: Self)
        ensures
            c@ == Map::<u64, T>::empty(),
            c.spec_compiles() == 0,
    {
        CompileCache { entries: HashMap::new(), compiles: 0 }
    }

    /// The shader cached under `key`, if any (a hit).
    pub fn lookup(&self, key: u64) -> (r: Option<&T>)
        ensures
            match r {
                Some(v) => self@.contains_key(key) && *v == self@[key],
                None => !self@.contains_key(key),
            },
    {
        self.entries.get(&key)
    }

    /// Record a miss: one more compilation, whose result is now cached under
    /// `key`.
    pub fn record_compile(&mut self, key: u64, shader: T)
        requires
            old(self).spec_compiles() < u64::MAX,
        ensures
            final(self)@ == old(self)@.insert(key, shader),
            final(self).spec_compiles() == old(self).spec_compiles() + 1,
    {
        self.compiles = self.compiles + 1;
        self.entries.insert(key, shader);
    }

    /// How many real compilations have run (cache misses).
    pub fn compile_count(&self) -> (n: u64)
        ensures
            n == self.spec_compiles(),
    {
        self.compiles
    }

    /// Number of cached shaders.
    pub fn len(&self) -> (n: usize)
        ensures
            n == self@.len(),
    {
        self.entries.len()
    }

    /// Whether the cache is empty.
    pub fn is_empty(&self) -> (b: bool)
        ensures
            b == (self@.len() == 0),
    {
        self.entries.is_empty()
    }
}

/// Asking for a source twice compiles it once: after a miss on `key` is
/// recorded, the next lookup of `key` hits the shader just compiled, and no
/// other key's entry has changed.
pub proof fn lemma_recorded_compile_hits<T>(before: CompileCache<T>, after: CompileCache<T>, key: u64, shader: T)
    requires
        after@ == before@.insert(key, shader),
        after.spec_compiles() == before.spec_compiles() + 1,
    ensures
        after@.contains_key(key),
        after@[key] == shader,
        forall|k: u64| k != key ==> (#[trigger] after@.contains_key(k) == before@.contains_key(k)),
        forall|k: u64| k != key && before@.contains_key(k) ==> #[trigger] after@[k] == before@[k],
        !before@.contains_key(key) ==> after@.len() == before@.len() + 1,
{
    if !before@.contains_key(key) {
        assert(before@.dom().finite());
    }
}

} // verus!
