//! A lock-striped, open-addressing hash table with tombstone deletion.
//!
//! Collisions are resolved by a linear probe over successive slots, wrapping
//! modulo the table length.  A removed entry leaves a `Tombstone` rather
//! than an `Empty` slot so that probe sequences for other keys stay valid;
//! a probe may therefore stop early only at an `Empty` slot, which proves
//! absence.  Two embedded approximate counters track insert and delete
//! activity since the last resize, and drive a two-tier resize heuristic.
//!
//! Keys are `u64` and the slot a key probes from is its value modulo the
//! table length: a fixed, deterministic hash, which is what the probe
//! invariants are stated over.  Concurrent callers serialize through
//! `&mut self`, mirroring the per-slot locking discipline of a striped
//! table: every operation touches one slot at a time.

use crate::counter::{
    counter_limit, counter_total, counter_wf, lemma_sum64_bound, Counter, CounterView,
    MAX_THREADS, PADDING_BYTES, PadBytes,
};
use crate::sync_map::SyncMap;
use vstd::prelude::*;

verus! {

/// Growth multiplier applied to a requested capacity.
pub const LENGTH_MULTIPLIER: usize = 4;

/// The floor on a table's slot count.
pub const MIN_SIZE: usize = 8;

/// Probe lengths beyond this trigger the expensive resize confirmation; it
/// bounds "normal" scans for heuristic purposes only, never correctness.
pub const PROBE_LIMIT: usize = 100;

/// One slot of the table.
#[derive(Clone, Copy, Debug)]
pub enum Bucket<K, V> {
    Empty,
    Occupied { key: K, value: V },
    Tombstone,
}

impl<K, V> Bucket<K, V> {
    /// Whether the slot has never held an entry since the last rebuild.
    pub fn is_empty(&self) -> (r: bool)
        ensures
            r == (self is Empty),
    {
        match self {
            Bucket::Empty => true,
            _ => false,
        }
    }

    /// Whether the slot currently holds an entry.
    pub fn has_value(&self) -> (r: bool)
        ensures
            r == (self is Occupied),
    {
        match self {
            Bucket::Occupied { .. } => true,
            _ => false,
        }
    }

    /// Whether the slot held an entry that was removed.
    pub fn is_tombstone(&self) -> (r: bool)
        ensures
            r == (self is Tombstone),
    {
        match self {
            Bucket::Tombstone => true,
            _ => false,
        }
    }

    /// The held value, consuming the bucket.
    pub fn value(self) -> (r: Option<V>)
        ensures
            self is Occupied ==> r == Some(self->value),
            !(self is Occupied) ==> r is None,
    {
        match self {
            Bucket::Occupied { key: _, value } => Some(value),
            _ => None,
        }
    }

    /// A reference to the held value, or `Err` on a slot with none.
    pub fn value_ref(&self) -> (r: Result<&V, ()>)
        ensures
            (r is Ok) == (self is Occupied),
            self is Occupied ==> (r matches Ok(v) && *v == self->value),
    {
        match self {
            Bucket::Occupied { key: _, ref value } => Ok(value),
            _ => Err(()),
        }
    }
}

impl<V> Bucket<u64, V> {
    /// Whether the slot holds an entry under exactly the key `k`.
    pub fn key_eq(&self, k: &u64) -> (r: bool)
        ensures
            r == (self is Occupied && self->key == *k),
    {
        match self {
            Bucket::Occupied { key, value: _ } => *key == *k,
            _ => false,
        }
    }
}

/// The slot a key starts probing from: the key modulo the table length.
pub open spec fn slot_start(k: u64, len: int) -> int {
    (k as int) % len
}

/// The slot reached after `d` probe steps from `start`, wrapping once
/// (valid whenever `start` and `d` are below `len`).
pub open spec fn wrap_index(start: int, d: int, len: int) -> int {
    if start + d < len {
        start + d
    } else {
        start + d - len
    }
}

/// How many probe steps from `start` reach slot `j`.
pub open spec fn probe_dist(start: int, j: int, len: int) -> int {
    if j >= start {
        j - start
    } else {
        j + len - start
    }
}

/// Slot `i` holds an entry under key `k`.
pub open spec fn occupied_with<V>(data: Seq<Bucket<u64, V>>, i: int, k: u64) -> bool {
    &&& 0 <= i < data.len()
    &&& data[i] is Occupied
    &&& data[i]->key == k
}

/// Some slot holds an entry under key `k`.
pub open spec fn spec_contains<V>(data: Seq<Bucket<u64, V>>, k: u64) -> bool {
    exists|i: int| occupied_with(data, i, k)
}

/// Some slot is `Empty`.
pub open spec fn has_empty<V>(data: Seq<Bucket<u64, V>>) -> bool {
    exists|i: int| 0 <= i < data.len() && (#[trigger] data[i]) is Empty
}

/// Some slot can receive an insert: `Empty` or `Tombstone`.
pub open spec fn has_free<V>(data: Seq<Bucket<u64, V>>) -> bool {
    exists|i: int| 0 <= i < data.len() && !((#[trigger] data[i]) is Occupied)
}

/// No slot is a `Tombstone` (true of a freshly rebuilt table).
pub open spec fn no_tombstones<V>(data: Seq<Bucket<u64, V>>) -> bool {
    forall|i: int| 0 <= i < data.len() ==> !((#[trigger] data[i]) is Tombstone)
}

/// At most one slot holds any given key.
pub open spec fn keys_unique<V>(data: Seq<Bucket<u64, V>>) -> bool {
    forall|i: int, j: int|
        0 <= i < data.len() && 0 <= j < data.len() && i != j && (#[trigger] data[i]) is Occupied
            && (#[trigger] data[j]) is Occupied ==> data[i]->key != data[j]->key
}

/// The first `upto` probe steps from `start` see no `Empty` slot.
pub open spec fn chain_clear<V>(data: Seq<Bucket<u64, V>>, start: int, upto: int) -> bool {
    forall|d: int|
        0 <= d < upto ==> !(data[#[trigger] wrap_index(start, d, data.len() as int)] is Empty)
}

/// Every entry is reachable from its key's starting slot without crossing
/// an `Empty` slot: the invariant that lets a probe stop at `Empty`.
pub open spec fn probe_inv<V>(data: Seq<Bucket<u64, V>>) -> bool {
    forall|j: int|
        0 <= j < data.len() && (#[trigger] data[j]) is Occupied ==> chain_clear(
            data,
            slot_start(data[j]->key, data.len() as int),
            probe_dist(slot_start(data[j]->key, data.len() as int), j, data.len() as int),
        )
}

/// The representation invariant of the slot array.
pub open spec fn slots_inv<V>(data: Seq<Bucket<u64, V>>) -> bool {
    &&& data.len() >= 1
    &&& keys_unique(data)
    &&& probe_inv(data)
}

/// The index of the (unique) slot holding key `k`.
pub open spec fn slot_index_of<V>(data: Seq<Bucket<u64, V>>, k: u64) -> int {
    choose|i: int| occupied_with(data, i, k)
}

/// The table's contents as a mathematical map.
pub open spec fn slots_map<V>(data: Seq<Bucket<u64, V>>) -> Map<u64, V> {
    Map::new(|k: u64| spec_contains(data, k), |k: u64| data[slot_index_of(data, k)]->value)
}

/// How many slots hold entries.
pub open spec fn num_occupied<V>(data: Seq<Bucket<u64, V>>) -> int
    decreases data.len(),
{
    if data.len() == 0 {
        0
    } else {
        num_occupied(data.drop_last()) + if data.last() is Occupied {
            1int
        } else {
            0int
        }
    }
}

/// How many slots are `Empty`.
pub open spec fn num_empty<V>(data: Seq<Bucket<u64, V>>) -> int
    decreases data.len(),
{
    if data.len() == 0 {
        0
    } else {
        num_empty(data.drop_last()) + if data.last() is Empty {
            1int
        } else {
            0int
        }
    }
}

/// Empty-slot counting: between zero and the table length.
pub proof fn lemma_num_empty_le_len<V>(data: Seq<Bucket<u64, V>>)
    ensures
        0 <= num_empty(data) <= data.len(),
    decreases data.len(),
{
    if data.len() > 0 {
        lemma_num_empty_le_len(data.drop_last());
    }
}

/// How overwriting one slot moves the `Empty` count.
pub proof fn lemma_num_empty_update<V>(data: Seq<Bucket<u64, V>>, idx: int, b2: Bucket<u64, V>)
    requires
        0 <= idx < data.len(),
    ensures
        num_empty(data.update(idx, b2)) == num_empty(data) - (if data[idx] is Empty {
            1int
        } else {
            0int
        }) + (if b2 is Empty {
            1int
        } else {
            0int
        }),
    decreases data.len(),
{
    let d2 = data.update(idx, b2);
    if idx == data.len() - 1 {
        assert(d2.drop_last() =~= data.drop_last());
    } else {
        assert(d2.drop_last() =~= data.drop_last().update(idx, b2));
        lemma_num_empty_update(data.drop_last(), idx, b2);
    }
}

/// How overwriting one slot moves the occupied count.
pub proof fn lemma_num_occ_update_general<V>(
    data: Seq<Bucket<u64, V>>,
    idx: int,
    b2: Bucket<u64, V>,
)
    requires
        0 <= idx < data.len(),
    ensures
        num_occupied(data.update(idx, b2)) == num_occupied(data) - (if data[idx] is Occupied {
            1int
        } else {
            0int
        }) + (if b2 is Occupied {
            1int
        } else {
            0int
        }),
    decreases data.len(),
{
    let d2 = data.update(idx, b2);
    if idx == data.len() - 1 {
        assert(d2.drop_last() =~= data.drop_last());
    } else {
        assert(d2.drop_last() =~= data.drop_last().update(idx, b2));
        lemma_num_occ_update_general(data.drop_last(), idx, b2);
    }
}

/// A positive `Empty` count names an `Empty` slot: how a caller turns the
/// `empty_slots` budget the operation contracts maintain into the
/// `has_empty` fact that a lookup or removal asks for.
pub proof fn lemma_has_empty_from_count<V>(data: Seq<Bucket<u64, V>>)
    requires
        num_empty(data) >= 1,
    ensures
        has_empty(data),
    decreases data.len(),
{
    if data.last() is Empty {
        assert(data[data.len() - 1] is Empty);
    } else {
        lemma_has_empty_from_count(data.drop_last());
        let i = choose|i: int|
            0 <= i < data.drop_last().len() && (#[trigger] data.drop_last()[i]) is Empty;
        assert(data[i] is Empty);
    }
}

/// Spare room names a reusable slot: how a caller turns the `free_slots`
/// budget the operation contracts maintain into the `has_free` fact that an
/// insert asks for.
pub proof fn lemma_has_free_from_count<V>(data: Seq<Bucket<u64, V>>)
    requires
        num_occupied(data) < data.len(),
    ensures
        has_free(data),
    decreases data.len(),
{
    lemma_num_occ_le_len(data.drop_last());
    if !(data.last() is Occupied) {
        assert(!(data[data.len() - 1] is Occupied));
    } else {
        lemma_has_free_from_count(data.drop_last());
        let i = choose|i: int|
            0 <= i < data.drop_last().len() && !((#[trigger] data.drop_last()[i]) is Occupied);
        assert(!(data[i] is Occupied));
    }
}

/// Without tombstones, every slot is `Empty` or holds an entry.
pub proof fn lemma_no_tomb_counts<V>(data: Seq<Bucket<u64, V>>)
    requires
        no_tombstones(data),
    ensures
        num_empty(data) == data.len() - num_occupied(data),
    decreases data.len(),
{
    if data.len() > 0 {
        assert(!(data[data.len() - 1] is Tombstone));
        assert forall|i: int| 0 <= i < data.drop_last().len() implies !((#[trigger] data.drop_last(
        )[i]) is Tombstone) by {
            assert(!(data[i] is Tombstone));
        }
        lemma_no_tomb_counts(data.drop_last());
    }
}

/// An occupied slot determines its key's map entry.
pub proof fn lemma_slots_map_at<V>(data: Seq<Bucket<u64, V>>, i: int)
    requires
        keys_unique(data),
        0 <= i < data.len(),
        data[i] is Occupied,
    ensures
        spec_contains(data, data[i]->key),
        slot_index_of(data, data[i]->key) == i,
        slots_map(data).contains_key(data[i]->key),
        slots_map(data)[data[i]->key] == data[i]->value,
{
    let k = data[i]->key;
    assert(occupied_with(data, i, k));
    let j = slot_index_of(data, k);
    assert(occupied_with(data, j, k));
    assert(j == i);
}

/// The probe geometry: stepping `probe_dist(start, j)` slots from `start`
/// lands exactly on `j`, and every step count below `len` lands in range.
pub proof fn lemma_wrap_dist(start: int, j: int, len: int)
    requires
        0 <= start < len,
        0 <= j < len,
    ensures
        wrap_index(start, probe_dist(start, j, len), len) == j,
        0 <= probe_dist(start, j, len) < len,
{
}

/// The first probe step at or after step `d` whose slot is `Empty`, or the
/// table length when none is.
pub open spec fn first_empty_step<V>(data: Seq<Bucket<u64, V>>, start: int, d: int) -> int
    decreases data.len() - d,
{
    if d >= data.len() {
        data.len() as int
    } else if data[wrap_index(start, d, data.len() as int)] is Empty {
        d
    } else {
        first_empty_step(data, start, d + 1)
    }
}

/// The first probe step at or after step `d` whose slot is a `Tombstone`,
/// or the table length when none is.
pub open spec fn first_tomb_step<V>(data: Seq<Bucket<u64, V>>, start: int, d: int) -> int
    decreases data.len() - d,
{
    if d >= data.len() {
        data.len() as int
    } else if data[wrap_index(start, d, data.len() as int)] is Tombstone {
        d
    } else {
        first_tomb_step(data, start, d + 1)
    }
}

/// What the first-`Empty` step means: it lies between `d` and the length,
/// its slot (when in range) is `Empty`, and no earlier step's is.
pub proof fn lemma_first_empty_props<V>(data: Seq<Bucket<u64, V>>, start: int, d: int)
    requires
        0 <= start < data.len(),
        0 <= d <= data.len(),
    ensures
        d <= first_empty_step(data, start, d) <= data.len(),
        first_empty_step(data, start, d) < data.len() ==> data[wrap_index(
            start,
            first_empty_step(data, start, d),
            data.len() as int,
        )] is Empty,
        forall|dd: int|
            d <= dd < first_empty_step(data, start, d) ==> !(data[#[trigger] wrap_index(
                start,
                dd,
                data.len() as int,
            )] is Empty),
    decreases data.len() - d,
{
    if d < data.len() && !(data[wrap_index(start, d, data.len() as int)] is Empty) {
        lemma_first_empty_props(data, start, d + 1);
    }
}

/// What the first-`Tombstone` step means, in the same shape.
pub proof fn lemma_first_tomb_props<V>(data: Seq<Bucket<u64, V>>, start: int, d: int)
    requires
        0 <= start < data.len(),
        0 <= d <= data.len(),
    ensures
        d <= first_tomb_step(data, start, d) <= data.len(),
        first_tomb_step(data, start, d) < data.len() ==> data[wrap_index(
            start,
            first_tomb_step(data, start, d),
            data.len() as int,
        )] is Tombstone,
        forall|dd: int|
            d <= dd < first_tomb_step(data, start, d) ==> !(data[#[trigger] wrap_index(
                start,
                dd,
                data.len() as int,
            )] is Tombstone),
    decreases data.len() - d,
{
    if d < data.len() && !(data[wrap_index(start, d, data.len() as int)] is Tombstone) {
        lemma_first_tomb_props(data, start, d + 1);
    }
}

/// A scan that saw no `Empty` slot through step `d` has its first-`Empty`
/// step no earlier than `d`.
pub proof fn lemma_first_empty_from<V>(data: Seq<Bucket<u64, V>>, start: int, d: int)
    requires
        0 <= start < data.len(),
        0 <= d <= data.len(),
        forall|dd: int|
            0 <= dd < d ==> !(data[#[trigger] wrap_index(start, dd, data.len() as int)] is Empty),
    ensures
        first_empty_step(data, start, 0) == first_empty_step(data, start, d),
    decreases d,
{
    if d > 0 {
        assert(!(data[wrap_index(start, d - 1, data.len() as int)] is Empty));
        lemma_first_empty_from(data, start, d - 1);
    }
}

/// A scan that saw no `Tombstone` through step `d` has its
/// first-`Tombstone` step no earlier than `d`.
pub proof fn lemma_first_tomb_from<V>(data: Seq<Bucket<u64, V>>, start: int, d: int)
    requires
        0 <= start < data.len(),
        0 <= d <= data.len(),
        forall|dd: int|
            0 <= dd < d ==> !(data[#[trigger] wrap_index(start, dd, data.len() as int)]
                is Tombstone),
    ensures
        first_tomb_step(data, start, 0) == first_tomb_step(data, start, d),
    decreases d,
{
    if d > 0 {
        assert(!(data[wrap_index(start, d - 1, data.len() as int)] is Tombstone));
        lemma_first_tomb_from(data, start, d - 1);
    }
}

/// A scan that reached an `Empty` slot at probe step `e` without passing
/// the key proves the key absent: were it present at a farther step, its
/// probe chain would have to cover step `e` without an `Empty` slot.
pub proof fn lemma_scan_miss_absent<V>(data: Seq<Bucket<u64, V>>, k: u64, e: int)
    requires
        slots_inv(data),
        0 <= e < data.len(),
        data[wrap_index(slot_start(k, data.len() as int), e, data.len() as int)] is Empty,
        forall|d: int|
            0 <= d < e ==> !occupied_with(
                data,
                #[trigger] wrap_index(slot_start(k, data.len() as int), d, data.len() as int),
                k,
            ),
    ensures
        !spec_contains(data, k),
{
    let len = data.len() as int;
    let start = slot_start(k, len);
    if spec_contains(data, k) {
        let j = choose|i: int| occupied_with(data, i, k);
        let dj = probe_dist(start, j, len);
        lemma_wrap_dist(start, j, len);
        if dj < e {
            assert(!occupied_with(data, wrap_index(start, dj, len), k));
            assert(false);
        } else if dj == e {
            assert(false);
        } else {
            assert(chain_clear(data, start, dj));
            assert(!(data[wrap_index(start, e, len)] is Empty));
            assert(false);
        }
    }
}

/// Overwriting one slot with a non-`Empty` bucket preserves the slot
/// invariant, provided a new entry's probe chain is clear up to its slot
/// and its key sits nowhere else.
pub proof fn lemma_write_preserves<V>(data: Seq<Bucket<u64, V>>, idx: int, b2: Bucket<u64, V>)
    requires
        slots_inv(data),
        0 <= idx < data.len(),
        !(b2 is Empty),
        b2 is Occupied ==> chain_clear(
            data,
            slot_start(b2->key, data.len() as int),
            probe_dist(slot_start(b2->key, data.len() as int), idx, data.len() as int),
        ),
        b2 is Occupied ==> forall|j: int|
            0 <= j < data.len() && j != idx ==> !occupied_with(data, j, b2->key),
    ensures
        slots_inv(data.update(idx, b2)),
{
    let d2 = data.update(idx, b2);
    let len = data.len() as int;
    assert forall|i: int, j: int|
        0 <= i < len && 0 <= j < len && i != j && (#[trigger] d2[i]) is Occupied && (
        #[trigger] d2[j]) is Occupied implies d2[i]->key != d2[j]->key by {
        if i == idx {
            assert(!occupied_with(data, j, b2->key));
        } else if j == idx {
            assert(!occupied_with(data, i, b2->key));
        } else {
            assert(data[i] is Occupied && data[j] is Occupied);
        }
    }
    assert forall|j: int| 0 <= j < len && (#[trigger] d2[j]) is Occupied implies chain_clear(
        d2,
        slot_start(d2[j]->key, len),
        probe_dist(slot_start(d2[j]->key, len), j, len),
    ) by {
        let k = d2[j]->key;
        let st = slot_start(k, len);
        let dj = probe_dist(st, j, len);
        if j == idx {
            assert forall|d: int| 0 <= d < dj implies !(d2[#[trigger] wrap_index(st, d, len)]
                is Empty) by {
                let t = wrap_index(st, d, len);
                assert(!(data[t] is Empty));
            }
        } else {
            assert(data[j] is Occupied);
            assert(chain_clear(data, st, dj));
            assert forall|d: int| 0 <= d < dj implies !(d2[#[trigger] wrap_index(st, d, len)]
                is Empty) by {
                let t = wrap_index(st, d, len);
                assert(!(data[t] is Empty));
            }
        }
    }
}

/// Writing `Occupied { k, v }` into the right slot turns the table's map
/// into `insert(k, v)`: either the slot already held `k`, or the slot was
/// free and `k` sat nowhere.
pub proof fn lemma_map_write<V>(data: Seq<Bucket<u64, V>>, idx: int, k: u64, v: V)
    requires
        keys_unique(data),
        keys_unique(data.update(idx, Bucket::Occupied { key: k, value: v })),
        0 <= idx < data.len(),
        occupied_with(data, idx, k) || (!(data[idx] is Occupied) && !spec_contains(data, k)),
    ensures
        slots_map(data.update(idx, Bucket::Occupied { key: k, value: v })) == slots_map(
            data,
        ).insert(k, v),
{
    let d2 = data.update(idx, Bucket::Occupied { key: k, value: v });
    let m1 = slots_map(data).insert(k, v);
    let m2 = slots_map(d2);
    assert(occupied_with(d2, idx, k));
    lemma_slots_map_at(d2, idx);
    assert forall|k2: u64| #[trigger] m2.contains_key(k2) implies m1.contains_key(k2) && m2[k2]
        == m1[k2] by {
        if k2 == k {
        } else {
            let j = slot_index_of(d2, k2);
            assert(occupied_with(d2, j, k2));
            assert(j != idx);
            assert(occupied_with(data, j, k2));
            lemma_slots_map_at(data, j);
            lemma_slots_map_at(d2, j);
        }
    }
    assert forall|k2: u64| #[trigger] m1.contains_key(k2) implies m2.contains_key(k2) by {
        if k2 == k {
        } else {
            assert(slots_map(data).contains_key(k2));
            let j = slot_index_of(data, k2);
            assert(occupied_with(data, j, k2));
            assert(j != idx);
            assert(occupied_with(d2, j, k2));
        }
    }
    assert(m2 =~= m1);
}

/// Tombstoning an occupied slot turns the table's map into `remove(k)`.
pub proof fn lemma_map_remove<V>(data: Seq<Bucket<u64, V>>, idx: int)
    requires
        keys_unique(data),
        0 <= idx < data.len(),
        data[idx] is Occupied,
    ensures
        slots_map(data.update(idx, Bucket::Tombstone)) == slots_map(data).remove(
            data[idx]->key,
        ),
{
    let k = data[idx]->key;
    let d2 = data.update(idx, Bucket::Tombstone);
    let m1 = slots_map(data).remove(k);
    let m2 = slots_map(d2);
    lemma_slots_map_at(data, idx);
    assert forall|k2: u64| #[trigger] m2.contains_key(k2) implies m1.contains_key(k2) && m2[k2]
        == m1[k2] by {
        let j = slot_index_of(d2, k2);
        assert(occupied_with(d2, j, k2));
        assert(j != idx);
        assert(occupied_with(data, j, k2));
        assert(k2 != k);
        lemma_slots_map_at(data, j);
        lemma_slots_map_at(d2, j);
    }
    assert forall|k2: u64| #[trigger] m1.contains_key(k2) implies m2.contains_key(k2) by {
        let j = slot_index_of(data, k2);
        assert(occupied_with(data, j, k2));
        assert(j != idx);
        assert(occupied_with(d2, j, k2));
    }
    assert(m2 =~= m1);
}

/// Occupied-slot counting: between zero and the table length.
pub proof fn lemma_num_occ_le_len<V>(data: Seq<Bucket<u64, V>>)
    ensures
        0 <= num_occupied(data) <= data.len(),
    decreases data.len(),
{
    if data.len() > 0 {
        lemma_num_occ_le_len(data.drop_last());
    }
}

/// Writing an entry into a non-occupied slot raises the occupied count by
/// exactly one.
pub proof fn lemma_num_occ_update<V>(data: Seq<Bucket<u64, V>>, idx: int, b2: Bucket<u64, V>)
    requires
        0 <= idx < data.len(),
        !(data[idx] is Occupied),
        b2 is Occupied,
    ensures
        num_occupied(data.update(idx, b2)) == num_occupied(data) + 1,
    decreases data.len(),
{
    let d2 = data.update(idx, b2);
    if idx == data.len() - 1 {
        assert(d2.drop_last() =~= data.drop_last());
    } else {
        assert(d2.drop_last() =~= data.drop_last().update(idx, b2));
        lemma_num_occ_update(data.drop_last(), idx, b2);
    }
}

/// A tombstone-free table with spare room has an `Empty` slot.
pub proof fn lemma_free_exists<V>(data: Seq<Bucket<u64, V>>)
    requires
        no_tombstones(data),
        num_occupied(data) < data.len(),
    ensures
        has_empty(data),
    decreases data.len(),
{
    lemma_num_occ_le_len(data.drop_last());
    if data.last() is Occupied {
        assert forall|i: int| 0 <= i < data.drop_last().len() implies !((#[trigger] data.drop_last(
        )[i]) is Tombstone) by {
            assert(!(data[i] is Tombstone));
        }
        lemma_free_exists(data.drop_last());
        let i = choose|i: int|
            0 <= i < data.drop_last().len() && (#[trigger] data.drop_last()[i]) is Empty;
        assert(data[i] is Empty);
    } else {
        assert(!(data[data.len() - 1] is Tombstone));
        assert(data[data.len() - 1] is Empty);
    }
}

/// A table with no occupied slot holds nothing.
pub proof fn lemma_num_occ_none<V>(data: Seq<Bucket<u64, V>>)
    requires
        forall|i: int| 0 <= i < data.len() ==> !((#[trigger] data[i]) is Occupied),
    ensures
        num_occupied(data) == 0,
    decreases data.len(),
{
    if data.len() > 0 {
        assert forall|i: int| 0 <= i < data.drop_last().len() implies !((#[trigger] data.drop_last(
        )[i]) is Occupied) by {
            assert(!(data[i] is Occupied));
        }
        lemma_num_occ_none(data.drop_last());
    }
}

/// The contents of an empty prefix.
pub proof fn lemma_prefix_map_base<V>(data: Seq<Bucket<u64, V>>)
    ensures
        slots_map(data.take(0)) == Map::<u64, V>::empty(),
{
    assert(slots_map(data.take(0)) =~= Map::<u64, V>::empty());
}

/// Extending a prefix by one slot extends its contents by that slot's
/// entry, if any.
pub proof fn lemma_prefix_map_step<V>(data: Seq<Bucket<u64, V>>, i: int)
    requires
        keys_unique(data),
        0 <= i < data.len(),
    ensures
        data[i] is Occupied ==> slots_map(data.take(i + 1)) == slots_map(data.take(i)).insert(
            data[i]->key,
            data[i]->value,
        ),
        !(data[i] is Occupied) ==> slots_map(data.take(i + 1)) == slots_map(data.take(i)),
    decreases 0int,
{
    let d1 = data.take(i);
    let d2 = data.take(i + 1);
    assert forall|x: int, y: int|
        0 <= x < d2.len() && 0 <= y < d2.len() && x != y && (#[trigger] d2[x]) is Occupied && (
        #[trigger] d2[y]) is Occupied implies d2[x]->key != d2[y]->key by {
        assert(data[x] is Occupied && data[y] is Occupied);
    }
    assert forall|x: int, y: int|
        0 <= x < d1.len() && 0 <= y < d1.len() && x != y && (#[trigger] d1[x]) is Occupied && (
        #[trigger] d1[y]) is Occupied implies d1[x]->key != d1[y]->key by {
        assert(data[x] is Occupied && data[y] is Occupied);
    }
    if data[i] is Occupied {
        let k = data[i]->key;
        let v = data[i]->value;
        let rhs = slots_map(d1).insert(k, v);
        assert(occupied_with(d2, i, k));
        lemma_slots_map_at(d2, i);
        assert forall|k2: u64| #[trigger] slots_map(d2).contains_key(k2) implies rhs.contains_key(
            k2,
        ) && slots_map(d2)[k2] == rhs[k2] by {
            let j = slot_index_of(d2, k2);
            assert(occupied_with(d2, j, k2));
            if j == i {
            } else {
                assert(data[j] is Occupied && data[i] is Occupied);
                assert(k2 != k);
                assert(occupied_with(d1, j, k2));
                lemma_slots_map_at(d1, j);
                lemma_slots_map_at(d2, j);
            }
        }
        assert forall|k2: u64| #[trigger] rhs.contains_key(k2) implies slots_map(
            d2,
        ).contains_key(k2) by {
            if k2 == k {
            } else {
                let j = slot_index_of(d1, k2);
                assert(occupied_with(d1, j, k2));
                assert(occupied_with(d2, j, k2));
            }
        }
        assert(slots_map(d2) =~= rhs);
    } else {
        assert forall|k2: u64| #[trigger] slots_map(d2).contains_key(k2) implies slots_map(
            d1,
        ).contains_key(k2) && slots_map(d2)[k2] == slots_map(d1)[k2] by {
            let j = slot_index_of(d2, k2);
            assert(occupied_with(d2, j, k2));
            assert(j != i);
            assert(occupied_with(d1, j, k2));
            lemma_slots_map_at(d1, j);
            lemma_slots_map_at(d2, j);
        }
        assert forall|k2: u64| #[trigger] slots_map(d1).contains_key(k2) implies slots_map(
            d2,
        ).contains_key(k2) by {
            let j = slot_index_of(d1, k2);
            assert(occupied_with(d1, j, k2));
            assert(occupied_with(d2, j, k2));
        }
        assert(slots_map(d2) =~= slots_map(d1));
    }
}

/// Rehashes one live entry into a fresh, tombstone-free slot array: the
/// reinsertion step of a resize.
fn place<V>(data: &mut Vec<Bucket<u64, V>>, key: u64, value: V)
    requires
        slots_inv(old(data)@),
        old(data)@.len() <= usize::MAX as int / 2,
        !spec_contains(old(data)@, key),
        no_tombstones(old(data)@),
        num_occupied(old(data)@) < old(data)@.len(),
    ensures
        final(data)@.len() == old(data)@.len(),
        slots_inv(final(data)@),
        no_tombstones(final(data)@),
        num_occupied(final(data)@) == num_occupied(old(data)@) + 1,
        slots_map(final(data)@) == slots_map(old(data)@).insert(key, value),
{
    proof {
        lemma_free_exists(old(data)@);
    }
    let ghost data0 = data@;
    let len = data.len();
    let start = (key % (len as u64)) as usize;
    let mut d: usize = 0;
    while d < len
        invariant
            data@ == data0,
            data0 == old(data)@,
            len == data0.len(),
            1 <= len <= usize::MAX / 2,
            has_empty(data0),
            slots_inv(data0),
            no_tombstones(data0),
            !spec_contains(data0, key),
            num_occupied(data0) < data0.len(),
            start < len,
            start as int == slot_start(key, len as int),
            d <= len,
            forall|dd: int|
                0 <= dd < d ==> !(data0[#[trigger] wrap_index(start as int, dd, len as int)]
                    is Empty),
        decreases len - d,
    {
        let mut idx = start + d;
        if idx >= len {
            idx = idx - len;
        }
        proof {
            assert(idx as int == wrap_index(start as int, d as int, len as int));
            assert(probe_dist(start as int, idx as int, len as int) == d as int);
        }
        let hit = {
            let b = &data[idx];
            b.is_empty()
        };
        if hit {
            let b2 = Bucket::Occupied { key, value };
            proof {
                assert forall|j: int| 0 <= j < data0.len() && j != idx implies !occupied_with(
                    data0,
                    j,
                    b2->key,
                ) by {}
                assert(chain_clear(data0, start as int, d as int));
                lemma_write_preserves(data0, idx as int, b2);
                lemma_map_write(data0, idx as int, key, value);
                lemma_num_occ_update(data0, idx as int, b2);
            }
            data[idx] = b2;
            proof {
                assert forall|i: int| 0 <= i < data@.len() implies !((#[trigger] data@[i])
                    is Tombstone) by {
                    if i != idx {
                        assert(!(data0[i] is Tombstone));
                    }
                }
            }
            return ;
        }
        d = d + 1;
    }
    proof {
        assert forall|i: int| 0 <= i < len implies !(data0[i] is Empty) by {
            lemma_wrap_dist(start as int, i, len as int);
            let dd = probe_dist(start as int, i, len as int);
            assert(!(data0[wrap_index(start as int, dd, len as int)] is Empty));
        }
        let i = choose|i: int| 0 <= i < data0.len() && (#[trigger] data0[i]) is Empty;
        assert(false);
    }
}

/// Which slots a scan mode stops at.
pub enum ScanPred {
    /// Stop at the key's own entry or at an `Empty` slot (a lookup).
    MatchOrEmpty,
    /// Stop only at an `Empty` slot (a free-slot search).
    EmptyOnly,
}

/// The scan predicate as a spec-level relation.
pub open spec fn scan_hit<V>(pred: ScanPred, k: u64, b: Bucket<u64, V>) -> bool {
    match pred {
        ScanPred::MatchOrEmpty => b is Empty || (b is Occupied && b->key == k),
        ScanPred::EmptyOnly => b is Empty,
    }
}

/// The striped open-addressing table, with its two embedded activity
/// counters.
#[derive(Clone, Debug)]
pub struct LockDenseTable<V> {
    _padding_begin: PadBytes<PADDING_BYTES>,
    num_threads: u32,
    data: Vec<Bucket<u64, V>>,
    approx_inserts: Counter,
    approx_deletes: Counter,
    _padding_end: PadBytes<PADDING_BYTES>,
}

impl<V> LockDenseTable<V> {
    /// The slot array, as the model the contracts are stated over.
    pub closed spec fn slots(&self) -> Seq<Bucket<u64, V>> {
        self.data@
    }

    /// The model of the approximate insert-activity counter.
    pub closed spec fn ins_view(&self) -> CounterView {
        self.approx_inserts@
    }

    /// The model of the approximate delete-activity counter.
    pub closed spec fn del_view(&self) -> CounterView {
        self.approx_deletes@
    }

    /// The table's contents as a map.
    pub open spec fn map_view(&self) -> Map<u64, V> {
        slots_map(self.slots())
    }

    /// Everything the representation guarantees except the insert-counter
    /// bound (which is momentarily broken right before a resize).
    pub open spec fn wf_core(&self) -> bool {
        &&& slots_inv(self.slots())
        &&& self.slots().len() <= usize::MAX as int / 2
        &&& counter_wf(self.ins_view())
        &&& self.ins_view().num_threads == MAX_THREADS as u64
        &&& counter_wf(self.del_view())
        &&& self.del_view().num_threads == MAX_THREADS as u64
    }

    /// The full invariant: after every operation the flushed insert count
    /// sits at or below a third of the capacity, because crossing that line
    /// triggers the rebuild that resets it.
    pub open spec fn wf(&self) -> bool {
        &&& self.wf_core()
        &&& self.ins_view().global as int <= self.slots().len() as int / 3
    }

    /// How many slots are `Empty`: what proves absence and lets probes
    /// terminate, and what callers budget before resizing proactively.
    pub open spec fn empty_slots(&self) -> int {
        num_empty(self.slots())
    }

    /// How many slots can still receive an insert: `Empty` or `Tombstone`.
    pub open spec fn free_slots(&self) -> int {
        self.slots().len() - num_occupied(self.slots())
    }

    /// Exact insert activity recorded since the last resize.
    pub open spec fn insert_activity(&self) -> int {
        counter_total(self.ins_view())
    }

    /// Exact delete activity recorded since the last resize.
    pub open spec fn delete_activity(&self) -> int {
        counter_total(self.del_view())
    }

    /// Allocates a table of exactly `size` empty slots.  The cap on `size`
    /// is a machine limit: probe arithmetic must not overflow `usize`.
    pub fn new(size: usize) -> (r: Self)
        requires
            1 <= size <= usize::MAX / 2,
        ensures
            r.wf(),
            r.slots().len() == size,
            forall|i: int| 0 <= i < size ==> (#[trigger] r.slots()[i]) is Empty,
            has_empty(r.slots()),
            r.empty_slots() == size,
            r.free_slots() == size,
            r.map_view() == Map::<u64, V>::empty(),
            r.insert_activity() == 0,
            r.delete_activity() == 0,
            no_tombstones(r.slots()),
    {
        let mut table: Vec<Bucket<u64, V>> = Vec::new();
        let mut i: usize = 0;
        while i < size
            invariant
                i <= size,
                table@.len() == i,
                forall|j: int| 0 <= j < i ==> (#[trigger] table@[j]) is Empty,
            decreases size - i,
        {
            table.push(Bucket::Empty);
            i = i + 1;
        }
        let r = LockDenseTable {
            _padding_begin: [false;PADDING_BYTES],
            num_threads: 32,
            data: table,
            approx_inserts: Counter::new(32),
            approx_deletes: Counter::new(32),
            _padding_end: [false;PADDING_BYTES],
        };
        proof {
            assert(r.map_view() =~= Map::<u64, V>::empty());
            assert(r.slots()[0] is Empty);
            lemma_num_occ_none(r.slots());
            lemma_no_tomb_counts(r.slots());
        }
        r
    }

    /// Allocates a table sized for `cap` expected entries: the growth
    /// multiplier over the request, floored at the minimum table size.
    pub fn with_capacity(cap: usize) -> (r: Self)
        requires
            cap <= usize::MAX / 8,
        ensures
            r.wf(),
            r.slots().len() == if cap * LENGTH_MULTIPLIER > MIN_SIZE {
                cap * LENGTH_MULTIPLIER
            } else {
                MIN_SIZE as int
            },
            has_empty(r.slots()),
            no_tombstones(r.slots()),
            r.empty_slots() == r.slots().len(),
            r.free_slots() == r.slots().len(),
            r.map_view() == Map::<u64, V>::empty(),
            r.insert_activity() == 0,
            r.delete_activity() == 0,
    {
        let scaled = cap * LENGTH_MULTIPLIER;
        let size = if scaled > MIN_SIZE {
            scaled
        } else {
            MIN_SIZE
        };
        Self::new(size)
    }

    /// How many slots the table currently has.
    pub fn capacity(&self) -> (r: usize)
        ensures
            r == self.slots().len(),
    {
        self.data.len()
    }

    /// Maps a key to its starting slot index.
    fn hash(&self, key: &u64) -> (r: usize)
        requires
            self.slots().len() >= 1,
        ensures
            r as int == slot_start(*key, self.slots().len() as int),
            r < self.slots().len(),
    {
        let len = self.data.len();
        let h = *key % (len as u64);
        h as usize
    }

    /// The linear probe: starting from the key's slot, read slots in probe
    /// order until one matches the scan predicate; the returned slot is the
    /// first hit, and no earlier slot on the probe path is one.
    fn scan(&self, key: &u64, pred: ScanPred) -> (r: usize)
        requires
            self.slots().len() >= 1,
            self.slots().len() <= usize::MAX as int / 2,
            exists|i: int|
                0 <= i < self.slots().len() && scan_hit(pred, *key, #[trigger] self.slots()[i]),
        ensures
            r < self.slots().len(),
            scan_hit(pred, *key, self.slots()[r as int]),
            forall|d: int|
                0 <= d < probe_dist(
                    slot_start(*key, self.slots().len() as int),
                    r as int,
                    self.slots().len() as int,
                ) ==> !scan_hit(
                    pred,
                    *key,
                    self.slots()[#[trigger] wrap_index(
                        slot_start(*key, self.slots().len() as int),
                        d,
                        self.slots().len() as int,
                    )],
                ),
    {
        let len = self.data.len();
        let start = self.hash(key);
        let mut d: usize = 0;
        while d < len
            invariant
                self.slots().len() == len,
                1 <= len <= usize::MAX / 2,
                start < len,
                start as int == slot_start(*key, len as int),
                d <= len,
                exists|i: int|
                    0 <= i < self.slots().len() && scan_hit(pred, *key, #[trigger] self.slots()[i]),
                forall|dd: int|
                    0 <= dd < d ==> !scan_hit(
                        pred,
                        *key,
                        self.slots()[#[trigger] wrap_index(start as int, dd, len as int)],
                    ),
            decreases len - d,
        {
            let mut idx = start + d;
            if idx >= len {
                idx = idx - len;
            }
            proof {
                assert(idx as int == wrap_index(start as int, d as int, len as int));
            }
            let b = &self.data[idx];
            let hit = match pred {
                ScanPred::MatchOrEmpty => b.key_eq(key) || b.is_empty(),
                ScanPred::EmptyOnly => b.is_empty(),
            };
            if hit {
                proof {
                    assert(probe_dist(start as int, idx as int, len as int) == d as int);
                }
                return idx;
            }
            d = d + 1;
        }
        proof {
            assert forall|i: int| 0 <= i < len implies !scan_hit(
                pred,
                *key,
                self.slots()[i],
            ) by {
                lemma_wrap_dist(start as int, i, len as int);
                let dd = probe_dist(start as int, i, len as int);
                assert(!scan_hit(pred, *key, self.slots()[wrap_index(start as int, dd, len as int)]));
            }
            assert(false);
        }
        0
    }

    /// The probe that settles a key: the slot holding its entry, or the
    /// `Empty` slot whose position proves the key absent.  `lookup` reads
    /// through it and `remove` writes through the slot it names.
    fn lookup_mut(&self, key: &u64) -> (r: usize)
        requires
            self.wf(),
            spec_contains(self.slots(), *key) || has_empty(self.slots()),
        ensures
            r < self.slots().len(),
            occupied_with(self.slots(), r as int, *key) || (self.slots()[r as int] is Empty
                && !spec_contains(self.slots(), *key)),
    {
        let ghost data = self.slots();
        let ghost len = data.len() as int;
        let ghost start = slot_start(*key, len);
        proof {
            if spec_contains(data, *key) {
                let i = choose|i: int| occupied_with(data, i, *key);
                assert(scan_hit(ScanPred::MatchOrEmpty, *key, data[i]));
            } else {
                let i = choose|i: int| 0 <= i < data.len() && (#[trigger] data[i]) is Empty;
                assert(scan_hit(ScanPred::MatchOrEmpty, *key, data[i]));
            }
        }
        let idx = self.scan(key, ScanPred::MatchOrEmpty);
        proof {
            if data[idx as int] is Empty {
                let e = probe_dist(start, idx as int, len);
                lemma_wrap_dist(start, idx as int, len);
                assert forall|d: int| 0 <= d < e implies !occupied_with(
                    data,
                    #[trigger] wrap_index(start, d, len),
                    *key,
                ) by {
                    assert(!scan_hit(ScanPred::MatchOrEmpty, *key, data[wrap_index(start, d, len)]));
                }
                lemma_scan_miss_absent(data, *key, e);
            }
        }
        idx
    }

    /// The same probe, mirrored for callers that go on to write the slot
    /// they found (in a striped deployment, the write-locking variant).
    fn scan_mut(&self, key: &u64, pred: ScanPred) -> (r: usize)
        requires
            self.slots().len() >= 1,
            self.slots().len() <= usize::MAX as int / 2,
            exists|i: int|
                0 <= i < self.slots().len() && scan_hit(pred, *key, #[trigger] self.slots()[i]),
        ensures
            r < self.slots().len(),
            scan_hit(pred, *key, self.slots()[r as int]),
            forall|d: int|
                0 <= d < probe_dist(
                    slot_start(*key, self.slots().len() as int),
                    r as int,
                    self.slots().len() as int,
                ) ==> !scan_hit(
                    pred,
                    *key,
                    self.slots()[#[trigger] wrap_index(
                        slot_start(*key, self.slots().len() as int),
                        d,
                        self.slots().len() as int,
                    )],
                ),
    {
        self.scan(key, pred)
    }

    /// The probe again, for an exclusively held table where slots can be
    /// read without locking at all.
    fn scan_mut_no_lock(&mut self, key: &u64, pred: ScanPred) -> (r: usize)
        requires
            old(self).slots().len() >= 1,
            old(self).slots().len() <= usize::MAX as int / 2,
            exists|i: int|
                0 <= i < old(self).slots().len() && scan_hit(
                    pred,
                    *key,
                    #[trigger] old(self).slots()[i],
                ),
        ensures
            *final(self) == *old(self),
            r < old(self).slots().len(),
            scan_hit(pred, *key, old(self).slots()[r as int]),
            forall|d: int|
                0 <= d < probe_dist(
                    slot_start(*key, old(self).slots().len() as int),
                    r as int,
                    old(self).slots().len() as int,
                ) ==> !scan_hit(
                    pred,
                    *key,
                    old(self).slots()[#[trigger] wrap_index(
                        slot_start(*key, old(self).slots().len() as int),
                        d,
                        old(self).slots().len() as int,
                    )],
                ),
    {
        self.scan(key, pred)
    }

    /// The first `Empty` slot on the key's probe path.
    fn find_free(&self, key: &u64) -> (r: usize)
        requires
            self.slots().len() >= 1,
            self.slots().len() <= usize::MAX as int / 2,
            has_empty(self.slots()),
        ensures
            r < self.slots().len(),
            self.slots()[r as int] is Empty,
            chain_clear(
                self.slots(),
                slot_start(*key, self.slots().len() as int),
                probe_dist(
                    slot_start(*key, self.slots().len() as int),
                    r as int,
                    self.slots().len() as int,
                ),
            ),
    {
        proof {
            let i = choose|i: int|
                0 <= i < self.slots().len() && (#[trigger] self.slots()[i]) is Empty;
            assert(scan_hit(ScanPred::EmptyOnly, *key, self.slots()[i]));
        }
        let idx = self.scan_mut(key, ScanPred::EmptyOnly);
        proof {
            let len = self.slots().len() as int;
            let start = slot_start(*key, len);
            assert forall|d: int|
                0 <= d < probe_dist(start, idx as int, len) implies !(self.slots()[
            #[trigger] wrap_index(start, d, len)] is Empty) by {
                assert(!scan_hit(
                    ScanPred::EmptyOnly,
                    *key,
                    self.slots()[wrap_index(start, d, len)],
                ));
            }
        }
        idx
    }

    /// `find_free` for an exclusively held table.
    fn find_free_no_lock(&mut self, key: &u64) -> (r: usize)
        requires
            old(self).slots().len() >= 1,
            old(self).slots().len() <= usize::MAX as int / 2,
            has_empty(old(self).slots()),
        ensures
            *final(self) == *old(self),
            r < old(self).slots().len(),
            old(self).slots()[r as int] is Empty,
            chain_clear(
                old(self).slots(),
                slot_start(*key, old(self).slots().len() as int),
                probe_dist(
                    slot_start(*key, old(self).slots().len() as int),
                    r as int,
                    old(self).slots().len() as int,
                ),
            ),
    {
        self.find_free(key)
    }

    /// The write-side probe behind `insert`: the slot holding the key if it
    /// is present, else a reusable slot — preferring the earliest
    /// `Tombstone` seen over the `Empty` slot that ended the scan, to keep
    /// tombstone density down.  The flag reports that the scan ran past the
    /// probe-limit heuristic, which makes `insert` consult the accurate
    /// insert count before resizing.
    fn lookup_or_free(&self, key: &u64) -> (r: (usize, bool))
        requires
            self.wf(),
            spec_contains(self.slots(), *key) || has_free(self.slots()),
        ensures
            r.0 < self.slots().len(),
            occupied_with(self.slots(), r.0 as int, *key) || (!(self.slots()[r.0 as int]
                is Occupied) && !spec_contains(self.slots(), *key) && chain_clear(
                self.slots(),
                slot_start(*key, self.slots().len() as int),
                probe_dist(
                    slot_start(*key, self.slots().len() as int),
                    r.0 as int,
                    self.slots().len() as int,
                ),
            ) && ({
                let len = self.slots().len() as int;
                let start = slot_start(*key, len);
                let e = first_empty_step(self.slots(), start, 0);
                let t = first_tomb_step(self.slots(), start, 0);
                r.0 as int == wrap_index(
                    start,
                    if t < e {
                        t
                    } else {
                        e
                    },
                    len,
                )
            })),
    {
        let ghost data = self.slots();
        let len = self.data.len();
        let start = self.hash(key);
        let mut free: Option<usize> = None;
        let mut d: usize = 0;
        while d < len
            invariant
                self.wf(),
                data == self.slots(),
                len == data.len(),
                1 <= len <= usize::MAX / 2,
                start < len,
                start as int == slot_start(*key, len as int),
                d <= len,
                forall|dd: int|
                    0 <= dd < d ==> !(data[#[trigger] wrap_index(start as int, dd, len as int)]
                        is Empty),
                forall|dd: int|
                    0 <= dd < d ==> !occupied_with(
                        data,
                        #[trigger] wrap_index(start as int, dd, len as int),
                        *key,
                    ),
                free matches Some(f) ==> f < len && data[f as int] is Tombstone && probe_dist(
                    start as int,
                    f as int,
                    len as int,
                ) < d && (forall|dd: int|
                    0 <= dd < probe_dist(start as int, f as int, len as int) ==> !(data[
                    #[trigger] wrap_index(start as int, dd, len as int)] is Tombstone)),
                free is None ==> forall|dd: int|
                    0 <= dd < d ==> !(data[#[trigger] wrap_index(start as int, dd, len as int)]
                        is Tombstone),
            decreases len - d,
        {
            let mut idx = start + d;
            if idx >= len {
                idx = idx - len;
            }
            proof {
                assert(idx as int == wrap_index(start as int, d as int, len as int));
                assert(probe_dist(start as int, idx as int, len as int) == d as int);
            }
            let b = &self.data[idx];
            if b.key_eq(key) {
                return (idx, d > PROBE_LIMIT);
            } else if b.is_empty() {
                proof {
                    lemma_scan_miss_absent(data, *key, d as int);
                    lemma_first_empty_from(data, start as int, d as int);
                    assert(first_empty_step(data, start as int, 0) == d as int);
                }
                match free {
                    Some(f) => {
                        proof {
                            let tf = probe_dist(start as int, f as int, len as int);
                            lemma_wrap_dist(start as int, f as int, len as int);
                            lemma_first_tomb_from(data, start as int, tf);
                            assert(first_tomb_step(data, start as int, 0) == tf);
                        }
                        return (f, d > PROBE_LIMIT);
                    },
                    None => {
                        proof {
                            lemma_first_tomb_from(data, start as int, d as int);
                            lemma_first_tomb_props(data, start as int, d as int);
                        }
                        return (idx, d > PROBE_LIMIT);
                    },
                }
            } else if b.is_tombstone() {
                if free.is_none() {
                    free = Some(idx);
                }
            }
            d = d + 1;
        }
        proof {
            assert forall|i: int| 0 <= i < len implies !(data[i] is Empty) && !occupied_with(
                data,
                i,
                *key,
            ) by {
                lemma_wrap_dist(start as int, i, len as int);
                let dd = probe_dist(start as int, i, len as int);
                assert(!(data[wrap_index(start as int, dd, len as int)] is Empty));
                assert(!occupied_with(data, wrap_index(start as int, dd, len as int), *key));
            }
            if spec_contains(data, *key) {
                let j = choose|i: int| occupied_with(data, i, *key);
                assert(false);
            }
        }
        match free {
            Some(f) => {
                proof {
                    lemma_first_empty_from(data, start as int, len as int);
                    lemma_first_empty_props(data, start as int, len as int);
                    let tf = probe_dist(start as int, f as int, len as int);
                    lemma_wrap_dist(start as int, f as int, len as int);
                    lemma_first_tomb_from(data, start as int, tf);
                    assert(first_tomb_step(data, start as int, 0) == tf);
                }
                (f, true)
            },
            None => {
                proof {
                    let i = choose|i: int|
                        0 <= i < data.len() && !((#[trigger] data[i]) is Occupied);
                    lemma_wrap_dist(start as int, i, len as int);
                    let dd = probe_dist(start as int, i, len as int);
                    assert(!(data[#[trigger] wrap_index(start as int, dd, len as int)]
                        is Tombstone));
                    assert(false);
                }
                (0, false)
            },
        }
    }
}

impl<V: Copy> LockDenseTable<V> {
    /// Finds the value stored under `key`: its entry's value, or `None`
    /// proved by the `Empty` slot that ended the probe.  A table with
    /// neither the key nor any `Empty` slot would scan forever fruitlessly,
    /// a caller-contract violation excluded here.
    pub fn lookup(&self, key: &u64) -> (r: Option<V>)
        requires
            self.wf(),
            spec_contains(self.slots(), *key) || has_empty(self.slots()),
        ensures
            r == if self.map_view().contains_key(*key) {
                Some(self.map_view()[*key])
            } else {
                None::<V>
            },
    {
        let idx = self.lookup_mut(key);
        let b = self.data[idx];
        match b {
            Bucket::Occupied { key: _, value } => {
                proof {
                    lemma_slots_map_at(self.slots(), idx as int);
                }
                Some(value)
            },
            _ => {
                proof {
                    assert(!self.map_view().contains_key(*key));
                }
                None
            },
        }
    }

    /// Rebuilds the table at four times its capacity: every live entry is
    /// rehashed into a fresh array of `Empty` slots, tombstones and empties
    /// are dropped, and both activity counters restart from zero.  A resize
    /// needs exclusive access to the whole table, which `&mut self` grants.
    fn resize(&mut self)
        requires
            old(self).wf_core(),
            old(self).slots().len() <= usize::MAX as int / 8,
        ensures
            final(self).wf(),
            final(self).map_view() == old(self).map_view(),
            final(self).slots().len() == 4 * old(self).slots().len(),
            no_tombstones(final(self).slots()),
            num_occupied(final(self).slots()) <= old(self).slots().len(),
            final(self).insert_activity() == 0,
            final(self).delete_activity() == 0,
    {
        let ghost odata = self.slots();
        let oldlen = self.data.len();
        let newlen = oldlen * 4;
        let mut newdata: Vec<Bucket<u64, V>> = Vec::new();
        let mut j: usize = 0;
        while j < newlen
            invariant
                j <= newlen,
                newdata@.len() == j,
                forall|t: int| 0 <= t < j ==> (#[trigger] newdata@[t]) is Empty,
            decreases newlen - j,
        {
            newdata.push(Bucket::Empty);
            j = j + 1;
        }
        proof {
            lemma_prefix_map_base(odata);
            lemma_num_occ_none(newdata@);
            assert(slots_map(newdata@) =~= Map::<u64, V>::empty());
        }
        let mut i: usize = 0;
        while i < oldlen
            invariant
                *self == *old(self),
                odata == old(self).slots(),
                oldlen == odata.len(),
                1 <= oldlen <= usize::MAX / 8,
                newlen == 4 * oldlen,
                slots_inv(odata),
                i <= oldlen,
                newdata@.len() == newlen,
                slots_inv(newdata@),
                no_tombstones(newdata@),
                num_occupied(newdata@) <= i,
                slots_map(newdata@) == slots_map(odata.take(i as int)),
                forall|t: int|
                    i <= t < odata.len() && (#[trigger] odata[t]) is Occupied ==> !slots_map(
                        newdata@,
                    ).contains_key(odata[t]->key),
            decreases oldlen - i,
        {
            let b = self.data[i];
            match b {
                Bucket::Occupied { key, value } => {
                    proof {
                        assert(odata[i as int] is Occupied);
                        assert(!slots_map(newdata@).contains_key(key));
                        assert(!spec_contains(newdata@, key));
                        lemma_num_occ_le_len(newdata@);
                        lemma_prefix_map_step(odata, i as int);
                    }
                    let ghost before = newdata@;
                    place(&mut newdata, key, value);
                    proof {
                        assert forall|t: int|
                            i + 1 <= t < odata.len() && (#[trigger] odata[t])
                                is Occupied implies !slots_map(newdata@).contains_key(
                            odata[t]->key,
                        ) by {
                            assert(odata[t]->key != key);
                            assert(!slots_map(before).contains_key(odata[t]->key));
                        }
                    }
                },
                _ => {
                    proof {
                        lemma_prefix_map_step(odata, i as int);
                    }
                },
            }
            i = i + 1;
        }
        proof {
            assert(odata.take(oldlen as int) =~= odata);
        }
        self.data = newdata;
        self.approx_inserts.set(0);
        self.approx_deletes.set(0);
    }
}

impl<V: Copy> SyncMap<u64, V> for LockDenseTable<V> {
    open spec fn sm_inv(&self) -> bool {
        self.wf()
    }

    open spec fn sm_map(&self) -> Map<u64, V> {
        self.map_view()
    }

    open spec fn sm_can_insert(&self, k: u64) -> bool {
        &&& spec_contains(self.slots(), k) || has_free(self.slots())
        &&& self.slots().len() <= usize::MAX as int / 8
    }

    open spec fn sm_can_lookup(&self, k: u64) -> bool {
        spec_contains(self.slots(), k) || has_empty(self.slots())
    }

    open spec fn sm_can_remove(&self, k: u64) -> bool {
        &&& spec_contains(self.slots(), k) || has_empty(self.slots())
        &&& counter_total(self.del_view()) + 1 <= u64::MAX
    }

    /// Writes the entry through the slot `lookup_or_free` chose, bumps the
    /// approximate insert count on the caller's shard, and applies the
    /// two-tier resize heuristic: resize outright once the flushed insert
    /// count passes a third of the capacity, and on an over-long probe only
    /// after the accurate count confirms it was load, not clustering.
    fn insert(&mut self, k: u64, v: V, tid: usize) -> (r: Option<V>)
        ensures
            final(self).empty_slots() >= old(self).empty_slots() - 1,
            final(self).free_slots() >= old(self).free_slots() - 1,
            old(self).sm_map().contains_key(k) ==> final(self).empty_slots() >= old(
                self,
            ).empty_slots() && final(self).free_slots() >= old(self).free_slots(),
            final(self).slots().len() == old(self).slots().len() || final(self).slots().len() == 4
                * old(self).slots().len(),
            final(self).delete_activity() <= old(self).delete_activity(),
            final(self).slots().len() == old(self).slots().len() ==> ({
                let data0 = old(self).slots();
                let start = slot_start(k, data0.len() as int);
                if old(self).sm_map().contains_key(k) {
                    final(self).empty_slots() == old(self).empty_slots()
                        && final(self).free_slots() == old(self).free_slots()
                } else {
                    final(self).free_slots() == old(self).free_slots() - 1
                        && final(self).empty_slots() == old(self).empty_slots() - (if first_tomb_step(
                        data0,
                        start,
                        0,
                    ) < first_empty_step(data0, start, 0) {
                        0int
                    } else {
                        1int
                    })
                }
            }),
    {
        let ghost data0 = self.slots();
        let (idx, exceeded) = self.lookup_or_free(&k);
        let b = self.data[idx];
        let ret: Option<V>;
        let b2 = Bucket::Occupied { key: k, value: v };
        match b {
            Bucket::Occupied { key: _, value: old_v } => {
                proof {
                    assert(occupied_with(data0, idx as int, k));
                    lemma_slots_map_at(data0, idx as int);
                    assert forall|j: int| 0 <= j < data0.len() && j != idx implies !occupied_with(
                        data0,
                        j,
                        k,
                    ) by {
                        if data0[j] is Occupied {
                            assert(data0[j]->key != data0[idx as int]->key);
                        }
                    }
                    lemma_write_preserves(data0, idx as int, b2);
                    lemma_map_write(data0, idx as int, k, v);
                    lemma_num_empty_update(data0, idx as int, b2);
                    lemma_num_occ_update_general(data0, idx as int, b2);
                }
                self.data[idx] = b2;
                ret = Some(old_v);
            },
            _ => {
                proof {
                    assert(!spec_contains(data0, k));
                    assert forall|j: int| 0 <= j < data0.len() && j != idx implies !occupied_with(
                        data0,
                        j,
                        k,
                    ) by {}
                    lemma_write_preserves(data0, idx as int, b2);
                    lemma_map_write(data0, idx as int, k, v);
                    assert(!slots_map(data0).contains_key(k));
                    lemma_num_empty_update(data0, idx as int, b2);
                    lemma_num_occ_update_general(data0, idx as int, b2);
                    let len0 = data0.len() as int;
                    let start = slot_start(k, len0);
                    let e = first_empty_step(data0, start, 0);
                    let t = first_tomb_step(data0, start, 0);
                    lemma_first_empty_props(data0, start, 0);
                    lemma_first_tomb_props(data0, start, 0);
                    lemma_wrap_dist(start, idx as int, len0);
                    let di = probe_dist(start, idx as int, len0);
                    if t < e {
                        assert(data0[idx as int] is Tombstone);
                    } else {
                        if e >= len0 {
                            assert(!(data0[wrap_index(start, di, len0)] is Empty));
                            assert(data0[idx as int] is Tombstone);
                            assert(di >= t);
                            assert(false);
                        }
                        assert(data0[idx as int] is Empty);
                    }
                }
                self.data[idx] = b2;
                ret = None;
            },
        }
        proof {
            assert(counter_limit(self.ins_view()) == 1000);
            lemma_sum64_bound(self.ins_view().shards, 1000);
        }
        self.approx_inserts.inc(tid);
        proof {
            lemma_num_empty_le_len(data0);
            lemma_num_occ_le_len(data0);
            crate::counter::lemma_sum64_nonneg(self.del_view().shards);
        }
        let cap3 = (self.data.len() / 3) as u64;
        if self.approx_inserts.get() > cap3 {
            self.resize();
            proof {
                lemma_no_tomb_counts(self.slots());
            }
        } else if exceeded {
            let acc = self.approx_inserts.get_accurate();
            if acc > cap3 {
                self.resize();
                proof {
                    lemma_no_tomb_counts(self.slots());
                }
            }
        }
        ret
    }

    /// Tombstones the key's slot if present — never emptying it, so that
    /// other keys' probe chains stay intact — and bumps the approximate
    /// delete count on the caller's shard.
    fn remove(&mut self, k: &u64, tid: usize) -> (r: Option<V>)
        ensures
            final(self).slots().len() == old(self).slots().len(),
            final(self).empty_slots() == old(self).empty_slots(),
            old(self).sm_map().contains_key(*k) ==> final(self).free_slots() == old(
                self,
            ).free_slots() + 1 && final(self).delete_activity() == old(self).delete_activity() + 1,
            !old(self).sm_map().contains_key(*k) ==> *final(self) == *old(self),
    {
        let ghost data0 = self.slots();
        let idx = self.lookup_mut(k);
        let b = self.data[idx];
        match b {
            Bucket::Occupied { key: _, value: old_v } => {
                proof {
                    assert(occupied_with(data0, idx as int, *k));
                    lemma_slots_map_at(data0, idx as int);
                    lemma_write_preserves(data0, idx as int, Bucket::Tombstone);
                    lemma_map_remove(data0, idx as int);
                    lemma_num_empty_update(data0, idx as int, Bucket::Tombstone);
                    lemma_num_occ_update_general(data0, idx as int, Bucket::Tombstone);
                }
                self.data[idx] = Bucket::Tombstone;
                self.approx_deletes.inc(tid);
                Some(old_v)
            },
            _ => {
                proof {
                    assert(!spec_contains(data0, *k));
                    assert(self.map_view().remove(*k) =~= self.map_view());
                }
                None
            },
        }
    }

    fn contains_key(&self, k: &u64) -> (r: bool) {
        let found = self.lookup(k);
        found.is_some()
    }
}

/// The largest slot index still holding an entry, or a negative value when
/// none does: the entry a draining iterator yields next.
pub open spec fn last_occupied<V>(s: Seq<Bucket<u64, V>>) -> int
    decreases s.len(),
{
    if s.len() == 0 {
        -1
    } else if s.last() is Occupied {
        s.len() - 1
    } else {
        last_occupied(s.drop_last())
    }
}

/// Drains an owned slot array from the back, yielding each held entry.
pub struct IntoIter<V> {
    items: Vec<Bucket<u64, V>>,
}

impl<V> IntoIter<V> {
    /// The slots not yet drained.
    pub closed spec fn items_view(&self) -> Seq<Bucket<u64, V>> {
        self.items@
    }

    /// Pops slots until one holds an entry and yields its pair, or empties
    /// the array and reports the end.
    pub fn next(&mut self) -> (r: Option<(u64, V)>)
        ensures
            last_occupied(old(self).items_view()) < 0 ==> r is None && final(self).items_view().len()
                == 0,
            last_occupied(old(self).items_view()) >= 0 ==> ({
                let j = last_occupied(old(self).items_view());
                &&& r == Some((old(self).items_view()[j]->key, old(self).items_view()[j]->value))
                &&& final(self).items_view() == old(self).items_view().take(j)
            }),
    {
        loop
            invariant
                self.items_view().len() <= old(self).items_view().len(),
                self.items_view() == old(self).items_view().take(self.items_view().len() as int),
                last_occupied(self.items_view()) == last_occupied(old(self).items_view()),
            decreases self.items_view().len(),
        {
            let ghost cur = self.items_view();
            match self.items.pop() {
                None => {
                    return None;
                },
                Some(b) => {
                    match b {
                        Bucket::Occupied { key, value } => {
                            proof {
                                assert(cur.last() is Occupied);
                                assert(last_occupied(cur) == cur.len() - 1);
                                assert(self.items_view() =~= old(self).items_view().take(
                                    cur.len() - 1,
                                ));
                            }
                            return Some((key, value));
                        },
                        _ => {
                            proof {
                                assert(!(cur.last() is Occupied));
                                assert(self.items_view() =~= cur.drop_last());
                                assert(self.items_view() =~= old(self).items_view().take(
                                    self.items_view().len() as int,
                                ));
                            }
                        },
                    }
                },
            }
        }
    }
}

impl<V> LockDenseTable<V> {
    /// Consumes the table into a draining iterator over its entries.
    pub fn into_iter(self) -> (r: IntoIter<V>)
        ensures
            r.items_view() == self.slots(),
    {
        IntoIter { items: self.data }
    }
}

/// Table round trip, at the level of the map the operation contracts are
/// stated over: inserting a key binds it to the value `lookup` then
/// returns; removing it leaves it unbound, every other binding untouched
/// (removal by tombstone never breaks another key's probe); and
/// re-inserting after a removal is indistinguishable from a fresh insert.
pub proof fn lemma_table_round_trip<V>(m: Map<u64, V>, k: u64, v: V)
    ensures
        m.insert(k, v).contains_key(k),
        m.insert(k, v)[k] == v,
        !m.remove(k).contains_key(k),
        forall|k2: u64|
            k2 != k && m.contains_key(k2) ==> #[trigger] m.remove(k).contains_key(k2) && m.remove(
                k,
            )[k2] == m[k2],
        m.remove(k).insert(k, v) == m.insert(k, v),
{
    assert(m.remove(k).insert(k, v) =~= m.insert(k, v));
}

/// Table update semantics: a second insert of the same key replaces the
/// first binding — `lookup` then sees the new value, and the second insert
/// hands back the first one (its result is the prior binding, by
/// `insert`'s contract).
pub proof fn lemma_table_update<V>(m: Map<u64, V>, k: u64, v1: V, v2: V)
    ensures
        m.insert(k, v1).contains_key(k),
        m.insert(k, v1)[k] == v1,
        m.insert(k, v1).insert(k, v2) == m.insert(k, v2),
        m.insert(k, v2)[k] == v2,
{
    assert(m.insert(k, v1).insert(k, v2) =~= m.insert(k, v2));
}

/// Table update semantics, run through the operations themselves: on any
/// well-formed table with room (or the key already bound), inserting `k`
/// twice in a row leaves it bound to the second value — the second insert
/// hands back the first value, a `lookup` then yields the second, and at
/// most one slot in the table holds the key.  The capacity bound is a
/// machine limit: it keeps the second insert admissible even when the
/// first triggered the fourfold resize.
pub fn update_semantics<V: Copy>(t: &mut LockDenseTable<V>, k: u64, v1: V, v2: V, tid: usize) -> (r:
    (Option<V>, Option<V>))
    requires
        old(t).wf(),
        tid < MAX_THREADS,
        old(t).free_slots() >= 1 || spec_contains(old(t).slots(), k),
        old(t).slots().len() <= usize::MAX as int / 32,
    ensures
        final(t).wf(),
        final(t).map_view() == old(t).map_view().insert(k, v2),
        final(t).map_view()[k] == v2,
        r.0 == Some(v1),
        r.1 == Some(v2),
        forall|i: int, j: int|
            i != j ==> !(occupied_with(final(t).slots(), i, k) && occupied_with(
                final(t).slots(),
                j,
                k,
            )),
{
    proof {
        if old(t).free_slots() >= 1 {
            lemma_has_free_from_count(t.slots());
        }
    }
    let _first = t.insert(k, v1, tid);
    proof {
        assert(t.map_view().contains_key(k));
        assert(spec_contains(t.slots(), k));
        assert(4 * (usize::MAX as int / 32) <= usize::MAX as int / 8);
    }
    let second = t.insert(k, v2, tid);
    proof {
        assert(t.map_view().contains_key(k));
        assert(spec_contains(t.slots(), k));
    }
    let got = t.lookup(&k);
    proof {
        assert forall|i: int, j: int| i != j implies !(occupied_with(t.slots(), i, k)
            && occupied_with(t.slots(), j, k)) by {
            if occupied_with(t.slots(), i, k) && occupied_with(t.slots(), j, k) {
                assert(t.slots()[i] is Occupied && t.slots()[j] is Occupied);
            }
        }
    }
    (second, got)
}

/// Tombstone probe correctness, run through the operations themselves: two
/// keys that collide into the same starting slot are inserted, the first
/// is removed — leaving its tombstone on the second key's probe path — and
/// the second is still found with its value: a probe never treats the
/// tombstone as proof of absence.  The capacity and counter bounds are
/// machine limits that keep every call admissible even across resizes.
pub fn tombstone_probe<V: Copy>(
    t: &mut LockDenseTable<V>,
    k1: u64,
    k2: u64,
    v1: V,
    v2: V,
    tid: usize,
) -> (r: (Option<V>, Option<V>))
    requires
        old(t).wf(),
        tid < MAX_THREADS,
        k1 != k2,
        slot_start(k1, old(t).slots().len() as int) == slot_start(k2, old(t).slots().len() as int),
        old(t).free_slots() >= 2,
        old(t).slots().len() <= usize::MAX as int / 32,
        old(t).delete_activity() < u64::MAX,
    ensures
        final(t).wf(),
        r.0 == Some(v1),
        r.1 == Some(v2),
        final(t).map_view() == old(t).map_view().insert(k1, v1).insert(k2, v2).remove(k1),
        !final(t).map_view().contains_key(k1),
        final(t).map_view().contains_key(k2),
        final(t).map_view()[k2] == v2,
{
    proof {
        lemma_has_free_from_count(t.slots());
    }
    let _first = t.insert(k1, v1, tid);
    proof {
        lemma_has_free_from_count(t.slots());
        assert(4 * (usize::MAX as int / 32) <= usize::MAX as int / 8);
    }
    let _second = t.insert(k2, v2, tid);
    proof {
        assert(t.map_view().contains_key(k1));
        assert(spec_contains(t.slots(), k1));
    }
    let removed = t.remove(&k1, tid);
    proof {
        assert(t.map_view().contains_key(k2));
        assert(spec_contains(t.slots(), k2));
    }
    let got = t.lookup(&k2);
    (removed, got)
}

} // verus!
