//! Reusable generation-checked lookup storage keyed by slot.
//!
//! Every key names a dense slot; an entry is live only while it carries the current epoch and
//! exactly the key that is looked up, so a stale generation never aliases a newer one and a
//! `clear` is a single epoch bump rather than a scan.
use vstd::prelude::*;

use crate::handles::{MixtureHandle, TurfHandle};

verus! {

/// A key that names a dense slot.
pub trait SlotKey: Copy + Sized {
    /// The slot this key occupies.
    spec fn slot_of(self) -> nat;

    /// Executable form of [`SlotKey::slot_of`].
    fn slot(self) -> (r: usize)
        ensures
            r as nat == self.slot_of(),
    ;

    /// Whether the two keys are the same key.
    fn key_eq(&self, other: &Self) -> (r: bool)
        ensures
            r == (*self == *other),
    ;
}

impl SlotKey for u32 {
    open spec fn slot_of(self) -> nat {
        self as nat
    }

    fn slot(self) -> (r: usize) {
        self as usize
    }

    fn key_eq(&self, other: &Self) -> (r: bool) {
        *self == *other
    }
}

impl SlotKey for TurfHandle {
    open spec fn slot_of(self) -> nat {
        self.slot as nat
    }

    fn slot(self) -> (r: usize) {
        self.slot as usize
    }

    fn key_eq(&self, other: &Self) -> (r: bool) {
        self.same(other)
    }
}

impl SlotKey for MixtureHandle {
    open spec fn slot_of(self) -> nat {
        self.slot as nat
    }

    fn slot(self) -> (r: usize) {
        self.slot as usize
    }

    fn key_eq(&self, other: &Self) -> (r: bool) {
        self.same(other)
    }
}

/// `m` without the keys that occupy slot `s`.
pub open spec fn without_slot<K: SlotKey, V>(m: Map<K, V>, s: nat) -> Map<K, V> {
    Map::new(|k: K| m.contains_key(k) && k.slot_of() != s, |k: K| m[k])
}

/// A read gives back the last write, and a write retires every other key of its slot: after
/// `key` is stored with `value`, `key` reads `value`, any other key in the same slot (an
/// older or newer generation) reads nothing, and keys of other slots read what they did.
pub proof fn lemma_read_after_write<K: SlotKey, V>(m: Map<K, V>, key: K, value: V, other: K)
    ensures
        without_slot(m, key.slot_of()).insert(key, value).contains_key(key),
        without_slot(m, key.slot_of()).insert(key, value)[key] == value,
        other != key && other.slot_of() == key.slot_of() ==> !without_slot(m, key.slot_of()).insert(
            key,
            value,
        ).contains_key(other),
        other.slot_of() != key.slot_of() ==> without_slot(m, key.slot_of()).insert(key, value).contains_key(
            other,
        ) == m.contains_key(other),
        other.slot_of() != key.slot_of() && m.contains_key(other) ==> without_slot(m, key.slot_of()).insert(
            key,
            value,
        )[other] == m[other],
{
}

/// A `u32` key occupies the slot it names.
pub proof fn lemma_u32_key_slot(key: u32)
    ensures
        key.slot_of() == key as nat,
{
}

/// A mixture handle occupies the slot its `slot` field names: storing one handle never
/// disturbs a live handle of another slot field, and retires every other handle with the
/// same slot field.
pub proof fn lemma_mixture_handles_by_slot<V>(m: Map<MixtureHandle, V>, key: MixtureHandle, value: V, other: MixtureHandle)
    ensures
        key.slot_of() == key.slot as nat,
        other.slot != key.slot && m.contains_key(other) ==> without_slot(m, key.slot_of()).insert(
            key,
            value,
        ).contains_key(other) && without_slot(m, key.slot_of()).insert(key, value)[other] == m[other],
        other.slot == key.slot && other != key ==> !without_slot(m, key.slot_of()).insert(key, value).contains_key(
            other,
        ),
{
}

/// A turf handle occupies the slot its `slot` field names: storing one handle never disturbs
/// a live handle of another slot field, and retires every other handle with the same slot
/// field.
pub proof fn lemma_turf_handles_by_slot<V>(m: Map<TurfHandle, V>, key: TurfHandle, value: V, other: TurfHandle)
    ensures
        key.slot_of() == key.slot as nat,
        other.slot != key.slot && m.contains_key(other) ==> without_slot(m, key.slot_of()).insert(
            key,
            value,
        ).contains_key(other) && without_slot(m, key.slot_of()).insert(key, value)[other] == m[other],
        other.slot == key.slot && other != key ==> !without_slot(m, key.slot_of()).insert(key, value).contains_key(
            other,
        ),
{
}

/// Reusable generation-checked lookup storage. An epoch change clears membership without
/// scanning slots.
pub struct SlotIndex<K, V> {
    entries: Vec<Option<(u64, K, V)>>,
    epoch: u64,
    touched: Vec<usize>,
}

impl<K: SlotKey, V> SlotIndex<K, V> {
    /// Whether `key` currently has a live entry.
    pub closed spec fn live(self, key: K) -> bool {
        let s = key.slot_of();
        &&& s < self.entries@.len()
        &&& self.entries@[s as int] is Some
        &&& self.entries@[s as int]->Some_0.0 == self.epoch
        &&& self.entries@[s as int]->Some_0.1 == key
    }

    /// The value stored for `key` (meaningful when `key` is live).
    pub closed spec fn stored(self, key: K) -> V {
        self.entries@[key.slot_of() as int]->Some_0.2
    }

    /// The live contents as a map from key to value.
    pub closed spec fn contents(self) -> Map<K, V> {
        Map::new(|k: K| self.live(k), |k: K| self.stored(k))
    }

    /// Internal consistency: the epoch is positive, no entry is newer than the epoch, and each
    /// entry sits in the slot its key names.
    pub closed spec fn wf(self) -> bool {
        &&& self.epoch >= 1
        &&& forall|i: int|
            0 <= i < self.entries@.len() && #[trigger] self.entries@[i] is Some ==> {
                &&& self.entries@[i]->Some_0.0 <= self.epoch
                &&& self.entries@[i]->Some_0.1.slot_of() == i
            }
    }

    /// An empty index.
    pub fn new() -> (r: Self)
        ensures
            r.wf(),
            r.contents() == Map::<K, V>::empty(),
    {
        let r = SlotIndex { entries: Vec::new(), touched: Vec::new(), epoch: 1 };
        assert(r.contents() =~= Map::<K, V>::empty());
        r
    }

    /// Forgets every entry. The code frees no storage (only on epoch exhaustion are the slots
    /// dropped), but the contract speaks of contents alone: reserved capacity has no model here.
    pub fn clear(&mut self)
        requires
            old(self).wf(),
        ensures
            final(self).wf(),
            final(self).contents() == Map::<K, V>::empty(),
    {
        self.touched.clear();
        if let Some(epoch) = self.epoch.checked_add(1) {
            self.epoch = epoch;
        } else {
            self.entries.clear();
            self.epoch = 1;
        }
        assert(self.contents() =~= Map::<K, V>::empty());
    }

    /// Stores `value` under `key`, returning the value it replaces when `key` itself was live.
    /// An entry for a different key in the same slot is overwritten and not returned.
    pub fn insert(&mut self, key: K, value: V) -> (r: Option<V>)
        requires
            old(self).wf(),
        ensures
            final(self).wf(),
            final(self).contents() == without_slot(old(self).contents(), key.slot_of()).insert(
                key,
                value,
            ),
            r == (if old(self).contents().contains_key(key) {
                Some(old(self).contents()[key])
            } else {
                None
            }),
    {
        let slot = key.slot();
        while self.entries.len() <= slot
            invariant
                self.wf(),
                self.epoch == old(self).epoch,
                self.entries@.len() >= old(self).entries@.len(),
                self.entries@.subrange(0, old(self).entries@.len() as int)
                    == old(self).entries@,
                forall|i: int|
                    old(self).entries@.len() <= i < self.entries@.len() ==> #[trigger] self.entries@[i]
                        is None,
                self.entries@.len() <= slot + 1 || self.entries@.len() == old(self).entries@.len(),
                slot == key.slot_of(),
            decreases slot + 1 - self.entries@.len(),
        {
            self.entries.push(None);
        }
        let ghost grown = self.entries@;
        assert forall|k: K| #[trigger] old(self).live(k) == self.live(k) by {
            if k.slot_of() < old(self).entries@.len() {
                assert(grown[k.slot_of() as int] == old(self).entries@[k.slot_of() as int]);
            }
        }
        let previous = self.entries[slot].take();
        let epoch = self.epoch;
        self.entries.set(slot, Some((epoch, key, value)));
        let mut fresh = true;
        match &previous {
            Some(p) => {
                if p.0 == epoch {
                    fresh = false;
                }
            },
            None => {},
        }
        if fresh {
            self.touched.push(slot);
        }
        let ghost new_entries = self.entries@;
        assert(self.contents() =~= without_slot(old(self).contents(), key.slot_of()).insert(key, value)) by {
            assert forall|k: K| #[trigger] self.live(k) == (k == key || (old(self).live(k) && k.slot_of() != key.slot_of())) by {
                if k.slot_of() != key.slot_of() && k.slot_of() < grown.len() {
                    assert(new_entries[k.slot_of() as int] == grown[k.slot_of() as int]);
                }
            }
            assert forall|k: K| k != key && #[trigger] self.live(k) implies self.stored(k)
                == old(self).stored(k) by {
                if k.slot_of() == key.slot_of() {
                    assert(new_entries[k.slot_of() as int]->Some_0.1 == key);
                } else {
                    assert(new_entries[k.slot_of() as int] == grown[k.slot_of() as int]);
                }
            }
        }
        match previous {
            Some(p) => {
                if p.0 == epoch && p.1.key_eq(&key) {
                    Some(p.2)
                } else {
                    None
                }
            },
            None => None,
        }
    }

    /// The value stored for `key`, if `key` is live.
    pub fn get(&self, key: &K) -> (r: Option<&V>)
        requires
            self.wf(),
        ensures
            match r {
                Some(v) => self.contents().contains_key(*key) && *v == self.contents()[*key],
                None => !self.contents().contains_key(*key),
            },
    {
        let slot = key.slot();
        if slot >= self.entries.len() {
            return None;
        }
        match &self.entries[slot] {
            Some(entry) => {
                if entry.0 == self.epoch && entry.1.key_eq(key) {
                    Some(&entry.2)
                } else {
                    None
                }
            },
            None => None,
        }
    }

    /// Whether `key` is live.
    pub fn contains_key(&self, key: &K) -> (r: bool)
        requires
            self.wf(),
        ensures
            r == self.contents().contains_key(*key),
    {
        self.get(key).is_some()
    }

    /// Number of slots with storage.
    pub closed spec fn slot_len(self) -> nat {
        self.entries@.len()
    }

    /// Number of slots recorded as touched.
    pub closed spec fn touched_len(self) -> nat {
        self.touched@.len()
    }

    /// Bytes taken by `slots` slot entries and `touched` touched-slot records.
    pub open spec fn storage_bytes(slots: int, touched: int) -> int {
        crate::alloc_stats::bytes_for::<Option<(u64, K, V)>>(slots) + crate::alloc_stats::bytes_for::<usize>(touched)
    }

    /// Bytes reserved by the slot and touched-slot storage: reserved counts, each at least the
    /// stored one, times their sizes.
    ///
    /// How much the allocator reserved beyond the stored counts is not stated, so neither is
    /// that clearing keeps this number.
    pub fn capacity_bytes(&self) -> (r: usize)
        ensures
            exists|slots: int, touched: int|
                slots >= self.slot_len() && touched >= self.touched_len() && r == Self::storage_bytes(slots, touched),
            r >= Self::storage_bytes(self.slot_len() as int, self.touched_len() as int),
    {
        let a = crate::alloc_stats::reserved_bytes(&self.entries);
        let b = crate::alloc_stats::reserved_bytes(&self.touched);
        proof {
            let slots = choose|c: int|
                c >= self.entries@.len() && a == crate::alloc_stats::bytes_for::<Option<(u64, K, V)>>(c);
            let touched = choose|c: int| c >= self.touched@.len() && b == crate::alloc_stats::bytes_for::<usize>(c);
            assert(a + b == Self::storage_bytes(slots, touched));
        }
        a + b
    }
}

/// Reusable membership storage retaining the full generation of each key.
pub struct SlotSet<K>(SlotIndex<K, ()>);

impl<K: SlotKey> SlotSet<K> {
    /// The keys currently in the set.
    pub closed spec fn members(self) -> Set<K> {
        self.0.contents().dom()
    }

    /// Internal consistency of the underlying index.
    pub closed spec fn wf(self) -> bool {
        self.0.wf()
    }

    /// An empty set.
    pub fn new() -> (r: Self)
        ensures
            r.wf(),
            r.members() == Set::<K>::empty(),
    {
        let r = SlotSet(SlotIndex::new());
        assert(r.members() =~= Set::<K>::empty());
        r
    }

    /// Removes every member, freeing no storage; as for [`SlotIndex::clear`], the contract
    /// speaks of membership alone.
    pub fn clear(&mut self)
        requires
            old(self).wf(),
        ensures
            final(self).wf(),
            final(self).members() == Set::<K>::empty(),
    {
        self.0.clear();
        assert(self.members() =~= Set::<K>::empty());
    }

    /// Adds `key`; true when it was not already a member.
    pub fn insert(&mut self, key: K) -> (r: bool)
        requires
            old(self).wf(),
        ensures
            final(self).wf(),
            final(self).members() == old(self).members().filter(|k: K| k.slot_of() != key.slot_of()).insert(key),
            r == !old(self).members().contains(key),
    {
        let r = self.0.insert(key, ()).is_none();
        assert(self.members() =~= old(self).members().filter(|k: K| k.slot_of() != key.slot_of()).insert(key));
        r
    }

    /// Whether `key` is a member.
    pub fn contains(&self, key: &K) -> (r: bool)
        requires
            self.wf(),
        ensures
            r == self.members().contains(*key),
    {
        self.0.contains_key(key)
    }

    /// Number of slots with storage.
    pub closed spec fn slot_len(self) -> nat {
        self.0.slot_len()
    }

    /// Number of slots recorded as touched.
    pub closed spec fn touched_len(self) -> nat {
        self.0.touched_len()
    }

    /// Bytes reserved by the underlying index, as [`SlotIndex::capacity_bytes`] describes.
    pub fn capacity_bytes(&self) -> (r: usize)
        ensures
            exists|slots: int, touched: int|
                slots >= self.slot_len() && touched >= self.touched_len() && r
                    == SlotIndex::<K, ()>::storage_bytes(slots, touched),
            r >= SlotIndex::<K, ()>::storage_bytes(self.slot_len() as int, self.touched_len() as int),
    {
        self.0.capacity_bytes()
    }
}

} // verus!
