//! A bounded store of solved subgoals with least-recently-used eviction.
//!
//! The store is an `lru::LruCache`. Its behaviour is taken on trust from the
//! `lru` crate and described here by two names, [`lru_order`] and
//! [`lru_capacity`]; everything built on top of it is verified against those
//! descriptions.

use lru::LruCache;
use std::num::NonZeroUsize;
use vstd::prelude::*;

verus! {

/// The `lru` crate's cache type. Its fields are hidden from the verifier;
/// what it holds is described by [`lru_order`] and [`lru_capacity`].
#[verifier::external_type_specification]
#[verifier::external_body]
#[verifier::reject_recursive_types(K)]
#[verifier::reject_recursive_types(V)]
#[verifier::reject_recursive_types(S)]
pub struct ExLruCache<K, V, S>(LruCache<K, V, S>);

/// The hasher that an `lru::LruCache` uses unless told otherwise; it is only
/// ever carried along inside the cache.
#[verifier::external_type_specification]
#[verifier::external_body]
pub struct ExDefaultHasher(lru::DefaultHasher);

/// The entries of an `lru::LruCache`, most recently used first.
pub uninterp spec fn lru_order(cache: LruCache<(usize, Vec<usize>), Option<usize>>) -> Seq<
    ((usize, Seq<usize>), Option<usize>),
>;

/// The number of entries an `lru::LruCache` was created to hold at most.
pub uninterp spec fn lru_capacity(cache: LruCache<(usize, Vec<usize>), Option<usize>>) -> nat;

/// A subgoal: how many buttons remain, and the residual target.
pub type SubgoalKey = (usize, Seq<usize>);

/// A stored subgoal together with its answer.
pub type Entry = (SubgoalKey, Option<usize>);

/// Largest capacity a [`SolutionCache`] may be created with.
pub const CAPACITY_LIMIT: usize = 0x1000_0000;

/// Whether some entry of `order` is stored under `key`.
pub open spec fn has_key(order: Seq<Entry>, key: SubgoalKey) -> bool {
    exists|i: int| 0 <= i < order.len() && (#[trigger] order[i]).0 == key
}

/// No two entries of `order` share a key.
pub open spec fn distinct_keys(order: Seq<Entry>) -> bool {
    forall|i: int, j: int|
        0 <= i < j < order.len() ==> (#[trigger] order[i]).0 != (#[trigger] order[j]).0
}

/// Calls `LruCache::new`. The new cache is empty and bounded by `capacity`.
#[verifier::external_body]
fn lru_new(capacity: usize) -> (cache: LruCache<(usize, Vec<usize>), Option<usize>>)
    requires
        0 < capacity <= CAPACITY_LIMIT,
    ensures
        lru_order(cache) == Seq::<Entry>::empty(),
        lru_capacity(cache) == capacity,
{
    LruCache::new(NonZeroUsize::new(capacity).unwrap())
}

/// Calls `LruCache::get`. A hit returns the stored value and makes its entry
/// the most recently used; a miss changes nothing.
#[verifier::external_body]
fn lru_get(
    cache: &mut LruCache<(usize, Vec<usize>), Option<usize>>,
    key: &(usize, Vec<usize>),
) -> (found: Option<Option<usize>>)
    ensures
        lru_capacity(*final(cache)) == lru_capacity(*old(cache)),
        !has_key(lru_order(*old(cache)), key@) ==> found is None && lru_order(*final(cache))
            == lru_order(*old(cache)),
        forall|i: int|
            0 <= i < lru_order(*old(cache)).len() && (#[trigger] lru_order(*old(cache))[i]).0
                == key@ ==> found == Some(lru_order(*old(cache))[i].1) && lru_order(*final(cache))
                == seq![lru_order(*old(cache))[i]] + lru_order(*old(cache)).remove(i),
{
    cache.get(key).copied()
}

/// Calls `LruCache::put`. The entry becomes the most recently used one. It
/// replaces an entry with the same key if there is one; otherwise, when the
/// cache is full, the least recently used entry is dropped to make room.
#[verifier::external_body]
fn lru_put(
    cache: &mut LruCache<(usize, Vec<usize>), Option<usize>>,
    key: (usize, Vec<usize>),
    value: Option<usize>,
)
    ensures
        lru_capacity(*final(cache)) == lru_capacity(*old(cache)),
        forall|i: int|
            0 <= i < lru_order(*old(cache)).len() && (#[trigger] lru_order(*old(cache))[i]).0
                == key@ ==> lru_order(*final(cache)) == seq![(key@, value)] + lru_order(
                *old(cache),
            ).remove(i),
        !has_key(lru_order(*old(cache)), key@) && lru_order(*old(cache)).len() == lru_capacity(
            *old(cache),
        ) ==> lru_order(*final(cache)) == seq![(key@, value)] + lru_order(*old(cache)).drop_last(),
        !has_key(lru_order(*old(cache)), key@) && lru_order(*old(cache)).len() != lru_capacity(
            *old(cache),
        ) ==> lru_order(*final(cache)) == seq![(key@, value)] + lru_order(*old(cache)),
{
    cache.put(key, value);
}

/// Calls `LruCache::clear`. The cache holds nothing afterwards and keeps its
/// bound.
#[verifier::external_body]
fn lru_clear(cache: &mut LruCache<(usize, Vec<usize>), Option<usize>>)
    ensures
        lru_capacity(*final(cache)) == lru_capacity(*old(cache)),
        lru_order(*final(cache)) == Seq::<Entry>::empty(),
{
    cache.clear();
}

/// Calls `LruCache::resize`. The cache is bounded by `capacity` afterwards;
/// where it held more entries than that, the least recently used ones are
/// dropped, and the others keep their order.
#[verifier::external_body]
fn lru_resize(cache: &mut LruCache<(usize, Vec<usize>), Option<usize>>, capacity: usize)
    requires
        0 < capacity,
    ensures
        lru_capacity(*final(cache)) == capacity,
        lru_order(*old(cache)).len() <= capacity ==> lru_order(*final(cache)) == lru_order(
            *old(cache),
        ),
        lru_order(*old(cache)).len() > capacity ==> lru_order(*final(cache)) == lru_order(
            *old(cache),
        ).take(capacity as int),
{
    cache.resize(NonZeroUsize::new(capacity).unwrap());
}

/// Where in `order` the entry stored under `key` stands.
pub open spec fn key_index(order: Seq<Entry>, key: SubgoalKey) -> int {
    choose|i: int| 0 <= i < order.len() && (#[trigger] order[i]).0 == key
}

/// The recency order after `key` has been looked up: a hit moves its entry to
/// the front, a miss leaves the order as it was.
pub open spec fn after_get(order: Seq<Entry>, key: SubgoalKey) -> Seq<Entry> {
    if has_key(order, key) {
        seq![order[key_index(order, key)]] + order.remove(key_index(order, key))
    } else {
        order
    }
}

/// The recency order after `value` has been stored under `key` in a store
/// bounded by `capacity`: the new entry goes to the front; it replaces the
/// entry with the same key, or else pushes out the last (least recently used)
/// entry when the store is full.
pub open spec fn after_put(
    order: Seq<Entry>,
    capacity: nat,
    key: SubgoalKey,
    value: Option<usize>,
) -> Seq<Entry> {
    if has_key(order, key) {
        seq![(key, value)] + order.remove(key_index(order, key))
    } else if order.len() >= capacity {
        seq![(key, value)] + order.drop_last()
    } else {
        seq![(key, value)] + order
    }
}

/// The recency order after a store has been given the bound `capacity`:
/// the most recently used entries, as many as the bound allows.
pub open spec fn after_resize(order: Seq<Entry>, capacity: nat) -> Seq<Entry> {
    if order.len() <= capacity {
        order
    } else {
        order.take(capacity as int)
    }
}

/// A bounded memo table from subgoals to their answers which forgets the
/// least recently used entry when it runs out of room.
pub struct SolutionCache {
    store: LruCache<(usize, Vec<usize>), Option<usize>>,
}

impl SolutionCache {
    /// The stored entries, most recently used first.
    pub closed spec fn recency(&self) -> Seq<Entry> {
        lru_order(self.store)
    }

    /// The most entries the store holds at any time.
    pub closed spec fn capacity(&self) -> nat {
        lru_capacity(self.store)
    }

    /// The store holds at most one entry per key and never more entries than
    /// its capacity.
    pub open spec fn wf(&self) -> bool {
        &&& 0 < self.capacity()
        &&& self.recency().len() <= self.capacity()
        &&& distinct_keys(self.recency())
    }

    /// An empty store with room for `capacity` entries.
    pub fn new(capacity: usize) -> (cache: SolutionCache)
        requires
            0 < capacity <= CAPACITY_LIMIT,
        ensures
            cache.wf(),
            cache.capacity() == capacity,
            cache.recency() == Seq::<Entry>::empty(),
    {
        SolutionCache { store: lru_new(capacity) }
    }

    /// Forgets every entry.
    pub fn clear(&mut self)
        requires
            old(self).wf(),
        ensures
            final(self).wf(),
            final(self).capacity() == old(self).capacity(),
            final(self).recency() == Seq::<Entry>::empty(),
    {
        lru_clear(&mut self.store);
    }

    /// Gives the store room for `capacity` entries. Where it holds more, it
    /// forgets the least recently used ones.
    pub fn resize(&mut self, capacity: usize)
        requires
            old(self).wf(),
            0 < capacity,
        ensures
            final(self).wf(),
            final(self).capacity() == capacity,
            final(self).recency() == after_resize(old(self).recency(), capacity as nat),
            forall|j: int|
                0 <= j < final(self).recency().len() ==> old(self).recency().contains(
                    #[trigger] final(self).recency()[j],
                ),
    {
        let ghost before = self.recency();
        lru_resize(&mut self.store, capacity);
        proof {
            let after = self.recency();
            assert forall|j: int| 0 <= j < after.len() implies before.contains(
                #[trigger] after[j],
            ) by {
                assert(after[j] == before[j]);
            }
            assert forall|a: int, b: int| 0 <= a < b < after.len() implies (#[trigger] after[a]).0
                != (#[trigger] after[b]).0 by {
                assert(after[a] == before[a]);
                assert(after[b] == before[b]);
            }
        }
    }

    /// Looks `key` up. The answer is `Some` exactly when an entry is stored
    /// under `key`, and that entry becomes the most recently used one.
    pub fn get(&mut self, key: &(usize, Vec<usize>)) -> (found: Option<Option<usize>>)
        requires
            old(self).wf(),
        ensures
            final(self).wf(),
            final(self).capacity() == old(self).capacity(),
            final(self).recency() == after_get(old(self).recency(), key@),
            found is Some <==> has_key(old(self).recency(), key@),
            found matches Some(value) ==> old(self).recency()[key_index(
                old(self).recency(),
                key@,
            )] == (key@, value),
            forall|j: int|
                0 <= j < final(self).recency().len() ==> old(self).recency().contains(
                    #[trigger] final(self).recency()[j],
                ),
    {
        let ghost before = self.recency();
        let found = lru_get(&mut self.store, key);
        proof {
            if has_key(before, key@) {
                let i = key_index(before, key@);
                let after = self.recency();
                assert(after == seq![before[i]] + before.remove(i));
                assert forall|a: int, b: int| 0 <= a < b < after.len() implies (#[trigger] after[a]).0
                    != (#[trigger] after[b]).0 by {
                    let ia = if a == 0 { i } else if a - 1 < i { a - 1 } else { a };
                    let ib = if b - 1 < i { b - 1 } else { b };
                    assert(after[a] == before[ia]);
                    assert(after[b] == before[ib]);
                }
                assert forall|j: int| 0 <= j < after.len() implies before.contains(
                    #[trigger] after[j],
                ) by {
                    let ij = if j == 0 { i } else if j - 1 < i { j - 1 } else { j };
                    assert(after[j] == before[ij]);
                }
            }
        }
        found
    }

    /// Stores `value` under `key` and makes the entry the most recently used
    /// one. A full store first drops its least recently used entry, unless
    /// `key` was stored already.
    pub fn put(&mut self, key: (usize, Vec<usize>), value: Option<usize>)
        requires
            old(self).wf(),
        ensures
            final(self).wf(),
            final(self).capacity() == old(self).capacity(),
            final(self).recency() == after_put(
                old(self).recency(),
                old(self).capacity(),
                key@,
                value,
            ),
            final(self).recency().len() > 0,
            final(self).recency()[0] == (key@, value),
            forall|j: int|
                0 < j < final(self).recency().len() ==> old(self).recency().contains(
                    #[trigger] final(self).recency()[j],
                ),
    {
        let ghost before = self.recency();
        let ghost stored = key@;
        lru_put(&mut self.store, key, value);
        proof {
            let after = self.recency();
            if has_key(before, stored) {
                let i = key_index(before, stored);
                assert(after == seq![(stored, value)] + before.remove(i));
                assert forall|a: int, b: int| 0 <= a < b < after.len() implies (#[trigger] after[a]).0
                    != (#[trigger] after[b]).0 by {
                    let ia = if a == 0 { i } else if a - 1 < i { a - 1 } else { a };
                    let ib = if b - 1 < i { b - 1 } else { b };
                    assert(after[a].0 == before[ia].0);
                    assert(after[b] == before[ib]);
                }
                assert forall|j: int| 0 < j < after.len() implies before.contains(
                    #[trigger] after[j],
                ) by {
                    let ij = if j - 1 < i { j - 1 } else { j };
                    assert(after[j] == before[ij]);
                }
            } else if before.len() >= self.capacity() {
                assert(after == seq![(stored, value)] + before.drop_last());
                assert forall|a: int, b: int| 0 <= a < b < after.len() implies (#[trigger] after[a]).0
                    != (#[trigger] after[b]).0 by {
                    assert(after[b] == before[b - 1]);
                    if a > 0 {
                        assert(after[a] == before[a - 1]);
                    }
                }
                assert forall|j: int| 0 < j < after.len() implies before.contains(
                    #[trigger] after[j],
                ) by {
                    assert(after[j] == before[j - 1]);
                }
            } else {
                assert(after == seq![(stored, value)] + before);
                assert forall|a: int, b: int| 0 <= a < b < after.len() implies (#[trigger] after[a]).0
                    != (#[trigger] after[b]).0 by {
                    assert(after[b] == before[b - 1]);
                    if a > 0 {
                        assert(after[a] == before[a - 1]);
                    }
                }
                assert forall|j: int| 0 < j < after.len() implies before.contains(
                    #[trigger] after[j],
                ) by {
                    assert(after[j] == before[j - 1]);
                }
            }
        }
    }
}

} // verus!
