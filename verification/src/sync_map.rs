//! The interface of a concurrent associative table.
//!
//! Each mutating operation carries the caller's shard id, which feeds the
//! implementation's per-shard activity counters; callers assign each worker
//! a stable id below `MAX_THREADS` before its first operation.

use crate::counter::MAX_THREADS;
use vstd::prelude::*;

verus! {

pub trait SyncMap<K, V>: Sized {
    /// The implementation's invariant, established by its constructors.
    spec fn sm_inv(&self) -> bool;

    /// The current contents, as a mathematical map.
    spec fn sm_map(&self) -> Map<K, V>;

    /// When an insert of `k` is owed success (for the table: a reusable
    /// slot exists or the key is already present, and machine limits hold).
    spec fn sm_can_insert(&self, k: K) -> bool;

    /// When a query for `k` is owed an answer.
    spec fn sm_can_lookup(&self, k: K) -> bool;

    /// When a removal of `k` is owed an answer.
    spec fn sm_can_remove(&self, k: K) -> bool;

    /// Binds or rebinds `k` to `v`, returning the value it replaced.
    fn insert(&mut self, k: K, v: V, tid: usize) -> (r: Option<V>)
        requires
            old(self).sm_inv(),
            old(self).sm_can_insert(k),
            tid < MAX_THREADS,
        ensures
            final(self).sm_inv(),
            final(self).sm_map() == old(self).sm_map().insert(k, v),
            r == if old(self).sm_map().contains_key(k) {
                Some(old(self).sm_map()[k])
            } else {
                None::<V>
            },
    ;

    /// Unbinds `k`, returning the value it was bound to.
    fn remove(&mut self, k: &K, tid: usize) -> (r: Option<V>)
        requires
            old(self).sm_inv(),
            old(self).sm_can_remove(*k),
            tid < MAX_THREADS,
        ensures
            final(self).sm_inv(),
            final(self).sm_map() == old(self).sm_map().remove(*k),
            r == if old(self).sm_map().contains_key(*k) {
                Some(old(self).sm_map()[*k])
            } else {
                None::<V>
            },
    ;

    /// Whether `k` is currently bound.
    fn contains_key(&self, k: &K) -> (r: bool)
        requires
            self.sm_inv(),
            self.sm_can_lookup(*k),
        ensures
            r == self.sm_map().contains_key(*k),
    ;
}

} // verus!
