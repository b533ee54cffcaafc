//! A dense, slot-indexed set of tentative mixture candidates.
//!
//! Each touched mixture slot maps to one dense entry holding the candidate value and the
//! revision it was read at. A bit per slot records which slots are currently touched, so a
//! lookup costs a word test and one indexed read.
use vstd::prelude::*;

use crate::alloc_stats::{bytes_for, reserved_bytes, try_reserve_exact};
use crate::bitset::{lemma_clear_bit, lemma_set_bit, lemma_zero_word, marked_in};
use crate::handles::MixtureHandle;
use vstd::multiset::Multiset;

verus! {

/// `n`, or `usize::MAX` when `n` does not fit in a `usize`.
pub open spec fn clamp_usize(n: int) -> int {
    if n > usize::MAX {
        usize::MAX as int
    } else {
        n
    }
}

/// Marks a slot that maps to no entry.
pub const UNUSED_INDEX: u32 = 0xffff_ffff;

/// Bits held by one word of the touched map.
pub const BITS_PER_WORD: usize = 64;

/// Why a transaction operation was refused.
#[derive(Clone, Copy, Debug, PartialEq, Eq)]
pub enum TransactionError {
    AllocationFailed,
    CapacityExceeded,
    HandleConflict { requested: MixtureHandle, current: MixtureHandle },
    UnknownHandle(MixtureHandle),
    SameHandle(MixtureHandle),
}

/// One touched mixture: its handle, the revision it was read at and its candidate value.
#[derive(Clone, Debug, PartialEq)]
pub struct TransactionEntry<T> {
    pub handle: MixtureHandle,
    pub expected_revision: u32,
    pub candidate: T,
}

/// Whether the entries are ordered by handle.
pub open spec fn sorted_by_handle<T>(entries: Seq<TransactionEntry<T>>) -> bool {
    forall|i: int, j: int|
        0 <= i < j < entries.len() ==> !(#[trigger] entries[j].handle).precedes(#[trigger] entries[i].handle)
}

/// Inserting one element adds it to the multiset of a sequence.
pub(crate) proof fn lemma_insert_multiset<A>(s: Seq<A>, pos: int, a: A)
    requires
        0 <= pos <= s.len(),
    ensures
        s.insert(pos, a).to_multiset() == s.to_multiset().insert(a),
{
    broadcast use vstd::seq_lib::group_to_multiset_ensures;
    broadcast use vstd::multiset::group_multiset_axioms;

    let t = s.insert(pos, a);
    s.insert_ensures(pos, a);
    assert(t.remove(pos) =~= s);
    assert(t.contains(a)) by {
        assert(t[pos] == a);
    }
    assert(t.to_multiset() =~= s.to_multiset().insert(a));
}

/// Sorts entries by handle with an insertion sort; entries with equal handles may come out in
/// any order.
fn sort_entries<T>(entries: Vec<TransactionEntry<T>>) -> (r: Vec<TransactionEntry<T>>)
    ensures
        r@.to_multiset() == entries@.to_multiset(),
        sorted_by_handle(r@),
{
    broadcast use vstd::seq_lib::group_to_multiset_ensures;
    broadcast use vstd::multiset::group_multiset_axioms;

    let mut source = entries;
    let mut sorted: Vec<TransactionEntry<T>> = Vec::new();
    proof {
        assert(sorted@.to_multiset() =~= Multiset::<TransactionEntry<T>>::empty());
    }
    while source.len() > 0
        invariant
            sorted_by_handle(sorted@),
            sorted@.to_multiset().add(source@.to_multiset()) == entries@.to_multiset(),
        decreases source@.len(),
    {
        let ghost before_source = source@;
        let entry = source.pop().unwrap();
        proof {
            assert(before_source =~= source@.push(entry));
            vstd::seq_lib::to_multiset_build(source@, entry);
            assert(before_source.to_multiset() =~= source@.to_multiset().insert(entry));
        }
        let mut pos: usize = 0;
        while pos < sorted.len() && !entry.handle.before(&sorted[pos].handle)
            invariant
                pos <= sorted@.len(),
                forall|k: int| 0 <= k < pos ==> !entry.handle.precedes(#[trigger] sorted@[k].handle),
            decreases sorted@.len() - pos,
        {
            pos += 1;
        }
        let ghost before_sorted = sorted@;
        sorted.insert(pos, entry);
        proof {
            lemma_insert_multiset(before_sorted, pos as int, entry);
            before_sorted.insert_ensures(pos as int, entry);
            assert forall|i: int, j: int| 0 <= i < j < sorted@.len() implies !(#[trigger] sorted@[j].handle).precedes(#[trigger] sorted@[i].handle) by {
                if i < pos && j == pos {
                } else if i < pos && j > pos {
                    assert(sorted@[j] == before_sorted[j - 1]);
                } else if i == pos && j > pos {
                    assert(sorted@[j] == before_sorted[j - 1]);
                    assert(before_sorted[pos as int] == sorted@[pos + 1]);
                    assert(!before_sorted[j - 1].handle.precedes(before_sorted[pos as int].handle) || j - 1 == pos);
                } else if i > pos {
                    assert(sorted@[j] == before_sorted[j - 1]);
                    assert(sorted@[i] == before_sorted[i - 1]);
                }
            }
            assert(sorted@.to_multiset().add(source@.to_multiset()) =~= entries@.to_multiset());
        }
    }
    proof {
        assert(source@.to_multiset() =~= Multiset::<TransactionEntry<T>>::empty());
        assert(sorted@.to_multiset() =~= entries@.to_multiset());
    }
    sorted
}

/// Dense candidate storage indexed by mixture slot.
#[derive(Clone, Debug, PartialEq)]
pub struct IndexedTransaction<T> {
    slot_to_index: Vec<u32>,
    touched_bits: Vec<u64>,
    entries: Vec<TransactionEntry<T>>,
    max_entries: usize,
}

/// Number of 64-bit words that cover `slots` bits.
pub open spec fn words_for(slots: nat) -> nat {
    ((slots + 63) / 64) as nat
}

/// Whether slot `s` of `map` names an entry.
pub open spec fn mapped_in(map: Seq<u32>, s: nat) -> bool {
    s < map.len() && map[s as int] != UNUSED_INDEX
}

/// `e` with its candidate replaced by `c`.
pub open spec fn with_candidate<T>(e: TransactionEntry<T>, c: T) -> TransactionEntry<T> {
    TransactionEntry { candidate: c, ..e }
}

impl<T> IndexedTransaction<T> {
    /// Dense entry index of each slot (`UNUSED_INDEX` when none).
    pub closed spec fn slot_map(self) -> Seq<u32> {
        self.slot_to_index@
    }

    /// The touched-slot bit words.
    pub closed spec fn words(self) -> Seq<u64> {
        self.touched_bits@
    }

    /// The dense entries, in the order they were touched.
    pub closed spec fn entry_seq(self) -> Seq<TransactionEntry<T>> {
        self.entries@
    }

    /// Most entries the transaction accepts.
    pub closed spec fn limit(self) -> nat {
        self.max_entries as nat
    }

    /// Whether the touched bit of slot `s` is set.
    pub open spec fn marked(self, s: nat) -> bool {
        marked_in(self.words(), s)
    }

    /// Whether slot `s` maps to an entry.
    pub open spec fn mapped(self, s: nat) -> bool {
        mapped_in(self.slot_map(), s)
    }

    /// The entry index a lookup of `h` finds, if any.
    pub open spec fn lookup(self, h: MixtureHandle) -> Option<nat> {
        let s = h.slot as nat;
        if self.marked(s) && self.mapped(s) && (self.slot_map()[s as int] as nat)
            < self.entry_seq().len() && self.entry_seq()[self.slot_map()[s as int] as int].handle
            == h {
            Some(self.slot_map()[s as int] as nat)
        } else {
            None
        }
    }

    /// Whether a lookup of `h` finds an entry.
    pub open spec fn holds(self, h: MixtureHandle) -> bool {
        self.lookup(h) is Some
    }

    /// The candidate a lookup of `h` finds.
    pub open spec fn candidate_of(self, h: MixtureHandle) -> T {
        self.entry_seq()[self.lookup(h)->Some_0 as int].candidate
    }

    /// Internal consistency: the bit words cover every slot, each mapped slot names an entry
    /// of that slot, each set bit belongs to a mapped slot, every entry's slot is in range and
    /// the entry count stays within the limit, which stays below `UNUSED_INDEX`.
    pub closed spec fn wf(self) -> bool {
        &&& self.slot_to_index@.len() <= self.touched_bits@.len() * 64
        &&& forall|s: int|
            0 <= s < self.slot_to_index@.len() && #[trigger] self.slot_to_index@[s]
                != UNUSED_INDEX ==> {
                &&& (self.slot_to_index@[s] as int) < self.entries@.len()
                &&& self.entries@[self.slot_to_index@[s] as int].handle.slot == s
            }
        &&& forall|s: nat| #[trigger] marked_in(self.touched_bits@, s) ==> mapped_in(self.slot_to_index@, s)
        &&& forall|i: int|
            0 <= i < self.entries@.len() ==> (#[trigger] self.entries@[i].handle.slot as int)
                < self.slot_to_index@.len()
        &&& self.entries@.len() <= self.max_entries
        &&& self.max_entries < UNUSED_INDEX
    }

    /// Index of the entry holding `handle`, if it is touched.
    pub fn entry_index(&self, handle: MixtureHandle) -> (r: Option<usize>)
        requires
            self.wf(),
        ensures
            r matches Some(i) ==> self.lookup(handle) == Some(i as nat),
            r is None ==> self.lookup(handle) is None,
    {
        let slot = handle.slot as usize;
        let word_index = slot / BITS_PER_WORD;
        if word_index >= self.touched_bits.len() {
            return None;
        }
        let word = self.touched_bits[word_index];
        let bit = (slot % BITS_PER_WORD) as u64;
        if word & (1u64 << bit) == 0 {
            return None;
        }
        if slot >= self.slot_to_index.len() {
            return None;
        }
        let index = self.slot_to_index[slot];
        if index == UNUSED_INDEX {
            return None;
        }
        if !self.entries[index as usize].handle.same(&handle) {
            return None;
        }
        Some(index as usize)
    }

    /// Whether `handle` is touched.
    pub fn contains(&self, handle: MixtureHandle) -> (r: bool)
        requires
            self.wf(),
        ensures
            r == self.holds(handle),
    {
        self.entry_index(handle).is_some()
    }

    /// The candidate held for `handle`, if it is touched.
    pub fn candidate(&self, handle: MixtureHandle) -> (r: Option<&T>)
        requires
            self.wf(),
        ensures
            r is Some == self.holds(handle),
            r matches Some(c) ==> *c == self.candidate_of(handle),
    {
        match self.entry_index(handle) {
            Some(index) => Some(&self.entries[index].candidate),
            None => None,
        }
    }

    /// Number of entries.
    pub fn len(&self) -> (r: usize)
        ensures
            r == self.entry_seq().len(),
    {
        self.entries.len()
    }

    /// A position that [`IndexedTransaction::rollback_to`] can return to.
    pub fn checkpoint(&self) -> (r: usize)
        ensures
            r == self.entry_seq().len(),
    {
        self.entries.len()
    }

    /// Proves that a slot below the mapped length has its bit word in range.
    proof fn lemma_word_in_range(self, s: nat)
        requires
            self.wf(),
            s < self.slot_map().len(),
        ensures
            s / 64 < self.words().len(),
    {
    }

    /// Whether no slot is mapped and no bit is set, so the transaction holds nothing live.
    pub open spec fn quiescent(self) -> bool {
        &&& self.entry_seq().len() == 0
        &&& forall|s: nat| !#[trigger] mapped_in(self.slot_map(), s)
        &&& forall|s: nat| !#[trigger] marked_in(self.words(), s)
    }

    /// Whether some entry at or after `from` occupies slot `s`.
    pub open spec fn occupied_from(self, from: int, s: nat) -> bool {
        exists|i: int| from <= i < self.entry_seq().len() && #[trigger] self.entry_seq()[i].handle.slot == s
    }

    /// Unmaps slot `slot` and clears its touched bit.
    fn release_slot(&mut self, slot: usize)
        requires
            old(self).wf(),
            slot < old(self).slot_map().len(),
        ensures
            final(self).wf(),
            final(self).entry_seq() == old(self).entry_seq(),
            final(self).limit() == old(self).limit(),
            final(self).slot_map() == old(self).slot_map().update(slot as int, UNUSED_INDEX),
            final(self).words().len() == old(self).words().len(),
            forall|t: nat| #[trigger] marked_in(final(self).words(), t) == (t != slot && marked_in(old(self).words(), t)),
    {
        proof {
            self.lemma_word_in_range(slot as nat);
        }
        self.slot_to_index.set(slot, UNUSED_INDEX);
        let word_index = slot / BITS_PER_WORD;
        let bit = (slot % BITS_PER_WORD) as u64;
        let word = self.touched_bits[word_index];
        self.touched_bits.set(word_index, word & !(1u64 << bit));
        proof {
            assert forall|t: nat| #[trigger] marked_in(self.touched_bits@, t) == (t != slot && marked_in(old(self).touched_bits@, t)) by {
                if t / 64 == word_index as nat {
                    lemma_clear_bit(word, bit, (t % 64) as u64);
                }
            }
            assert forall|t: nat| #[trigger] marked_in(self.touched_bits@, t) implies mapped_in(self.slot_to_index@, t) by {
                assert(marked_in(old(self).touched_bits@, t));
            }
        }
    }

    /// Unmaps the slot of entry `index`; the entry itself stays until
    /// [`IndexedTransaction::clear_retired`].
    pub fn retire(&mut self, index: usize)
        requires
            old(self).wf(),
            index < old(self).entry_seq().len(),
        ensures
            final(self).wf(),
            final(self).entry_seq() == old(self).entry_seq(),
            final(self).limit() == old(self).limit(),
            final(self).slot_map() == old(self).slot_map().update(
                old(self).entry_seq()[index as int].handle.slot as int,
                UNUSED_INDEX,
            ),
            final(self).words().len() == old(self).words().len(),
            forall|t: nat| #[trigger] marked_in(final(self).words(), t) == (t != old(self).entry_seq()[index as int].handle.slot
                && marked_in(old(self).words(), t)),
    {
        let slot = self.entries[index].handle.slot as usize;
        self.release_slot(slot);
    }

    /// Drops the entries once every one of them has been retired.
    pub fn clear_retired(&mut self)
        requires
            old(self).wf(),
            forall|s: nat| !#[trigger] mapped_in(old(self).slot_map(), s),
        ensures
            final(self).wf(),
            final(self).quiescent(),
            final(self).limit() == old(self).limit(),
            final(self).slot_map() == old(self).slot_map(),
            final(self).words() == old(self).words(),
    {
        self.entries.clear();
        proof {
            assert(self.touched_bits@ == old(self).touched_bits@);
            assert(self.slot_to_index@ == old(self).slot_to_index@);
            assert(self.slot_map() == old(self).slot_map());
            assert(self.words() == old(self).words());
            assert forall|s: int| 0 <= s < self.slot_to_index@.len() implies #[trigger] self.slot_to_index@[s] == UNUSED_INDEX by {
                assert(!mapped_in(old(self).slot_map(), s as nat));
            }
            assert forall|s: nat| !#[trigger] marked_in(self.touched_bits@, s) by {
                if marked_in(old(self).touched_bits@, s) {
                    assert(mapped_in(old(self).slot_to_index@, s));
                    assert(!mapped_in(old(self).slot_map(), s));
                }
            }
        }
    }

    /// Unmaps every entry's slot and hands the entries back, in dense order.
    pub fn drain_entries(&mut self) -> (r: Vec<TransactionEntry<T>>)
        requires
            old(self).wf(),
        ensures
            r@ == old(self).entry_seq(),
            final(self).wf(),
            final(self).quiescent(),
            final(self).limit() == old(self).limit(),
            final(self).slot_map().len() == old(self).slot_map().len(),
            final(self).words().len() == old(self).words().len(),
    {
        let mut index: usize = 0;
        while index < self.entries.len()
            invariant
                self.wf(),
                self.entry_seq() == old(self).entry_seq(),
                self.limit() == old(self).limit(),
                self.slot_map().len() == old(self).slot_map().len(),
                self.words().len() == old(self).words().len(),
                index <= self.entry_seq().len(),
                forall|j: int| 0 <= j < index ==> !#[trigger] mapped_in(self.slot_map(), self.entry_seq()[j].handle.slot as nat),
            decreases self.entry_seq().len() - index,
        {
            let slot = self.entries[index].handle.slot as usize;
            let ghost before = self.slot_map();
            self.release_slot(slot);
            proof {
                assert forall|j: int| 0 <= j <= index implies !#[trigger] mapped_in(self.slot_map(), self.entry_seq()[j].handle.slot as nat) by {
                    if j < index {
                        assert(!mapped_in(before, self.entry_seq()[j].handle.slot as nat));
                    }
                }
            }
            index += 1;
        }
        let mut drained = Vec::new();
        std::mem::swap(&mut drained, &mut self.entries);
        proof {
            assert forall|s: nat| !#[trigger] mapped_in(self.slot_to_index@, s) by {
                if mapped_in(self.slot_to_index@, s) {
                    let v = self.slot_to_index@[s as int] as int;
                    assert(old(self).entries@[v].handle.slot == s);
                    assert(!mapped_in(self.slot_map(), old(self).entry_seq()[v].handle.slot as nat));
                }
            }
            assert forall|s: int| 0 <= s < self.slot_to_index@.len() implies #[trigger] self.slot_to_index@[s] == UNUSED_INDEX by {
                assert(!mapped_in(self.slot_to_index@, s as nat));
            }
            assert forall|s: nat| !#[trigger] marked_in(self.touched_bits@, s) by {
                if marked_in(self.touched_bits@, s) {
                    assert(mapped_in(self.slot_to_index@, s));
                }
            }
        }
        drained
    }

    /// Forgets every entry and unmaps its slot. The code frees no storage, but the contract
    /// speaks of contents alone: reserved capacity has no model here.
    pub fn clear(&mut self)
        requires
            old(self).wf(),
        ensures
            final(self).wf(),
            final(self).quiescent(),
            final(self).limit() == old(self).limit(),
            final(self).slot_map().len() == old(self).slot_map().len(),
            final(self).words().len() == old(self).words().len(),
    {
        let _ = self.drain_entries();
    }

    /// Drops the entries from `checkpoint` on and unmaps their slots.
    pub fn rollback_to(&mut self, checkpoint: usize)
        requires
            old(self).wf(),
            checkpoint <= old(self).entry_seq().len(),
        ensures
            final(self).wf(),
            final(self).entry_seq() == old(self).entry_seq().subrange(0, checkpoint as int),
            final(self).limit() == old(self).limit(),
            final(self).slot_map().len() == old(self).slot_map().len(),
            final(self).words().len() == old(self).words().len(),
            forall|s: int| 0 <= s < final(self).slot_map().len() ==> #[trigger] final(self).slot_map()[s] == if old(self).occupied_from(checkpoint as int, s as nat) {
                UNUSED_INDEX
            } else {
                old(self).slot_map()[s]
            },
            forall|t: nat| #[trigger] marked_in(final(self).words(), t) == (marked_in(old(self).words(), t) && !old(self).occupied_from(checkpoint as int, t)),
    {
        let mut index: usize = checkpoint;
        while index < self.entries.len()
            invariant
                self.wf(),
                self.entry_seq() == old(self).entry_seq(),
                self.limit() == old(self).limit(),
                self.slot_map().len() == old(self).slot_map().len(),
                self.words().len() == old(self).words().len(),
                checkpoint <= index <= self.entry_seq().len(),
                forall|s: int| 0 <= s < self.slot_map().len() ==> #[trigger] self.slot_map()[s] == if exists|i: int| checkpoint <= i < index && #[trigger] old(self).entry_seq()[i].handle.slot == s {
                    UNUSED_INDEX
                } else {
                    old(self).slot_map()[s]
                },
                forall|t: nat| #[trigger] marked_in(self.words(), t) == (marked_in(old(self).words(), t) && !exists|i: int| checkpoint <= i < index && #[trigger] old(self).entry_seq()[i].handle.slot == t),
            decreases self.entry_seq().len() - index,
        {
            let slot = self.entries[index].handle.slot as usize;
            self.release_slot(slot);
            proof {
                assert(old(self).entry_seq()[index as int].handle.slot == slot);
            }
            index += 1;
        }
        self.entries.truncate(checkpoint);
        proof {
            assert forall|s: int| 0 <= s < self.slot_to_index@.len() && self.slot_to_index@[s] != UNUSED_INDEX implies
                (self.slot_to_index@[s] as int) < self.entries@.len() by {
                let v = self.slot_to_index@[s] as int;
                if v >= checkpoint {
                    assert(old(self).entry_seq()[v].handle.slot == s);
                }
            }
        }
    }

    /// Mutable access to the candidate held for `handle`, if it is touched.
    pub fn candidate_mut(&mut self, handle: MixtureHandle) -> (r: Option<&mut T>)
        requires
            old(self).wf(),
        ensures
            final(self).wf(),
            final(self).limit() == old(self).limit(),
            final(self).slot_map() == old(self).slot_map(),
            final(self).words() == old(self).words(),
            match r {
                Some(c) => {
                    let i = old(self).lookup(handle)->Some_0 as int;
                    &&& old(self).holds(handle)
                    &&& *c == old(self).candidate_of(handle)
                    &&& final(self).entry_seq() == old(self).entry_seq().update(
                        i,
                        with_candidate(old(self).entry_seq()[i], *final(c)),
                    )
                },
                None => !old(self).holds(handle) && *final(self) == *old(self),
            },
    {
        match self.entry_index(handle) {
            Some(index) => {
                let entry = &mut self.entries[index];
                Some(&mut entry.candidate)
            },
            None => None,
        }
    }

    /// Mutable access to the candidates of two distinct touched handles at once.
    pub fn candidate_pair_mut(&mut self, first: MixtureHandle, second: MixtureHandle) -> (r: Result<
        (&mut T, &mut T),
        TransactionError,
    >)
        requires
            old(self).wf(),
        ensures
            final(self).wf(),
            final(self).limit() == old(self).limit(),
            final(self).slot_map() == old(self).slot_map(),
            final(self).words() == old(self).words(),
            match r {
                Ok(pair) => {
                    let i = old(self).lookup(first)->Some_0 as int;
                    let j = old(self).lookup(second)->Some_0 as int;
                    &&& first != second
                    &&& old(self).holds(first)
                    &&& old(self).holds(second)
                    &&& *pair.0 == old(self).candidate_of(first)
                    &&& *pair.1 == old(self).candidate_of(second)
                    &&& final(self).entry_seq() == old(self).entry_seq().update(
                        i,
                        with_candidate(old(self).entry_seq()[i], *final(pair.0)),
                    ).update(j, with_candidate(old(self).entry_seq()[j], *final(pair.1)))
                },
                Err(e) => {
                    &&& *final(self) == *old(self)
                    &&& if first == second {
                        e == TransactionError::SameHandle(first)
                    } else if !old(self).holds(first) {
                        e == TransactionError::UnknownHandle(first)
                    } else {
                        &&& !old(self).holds(second)
                        &&& e == TransactionError::UnknownHandle(second)
                    }
                },
            },
    {
        if first.same(&second) {
            return Err(TransactionError::SameHandle(first));
        }
        let first_index = match self.entry_index(first) {
            Some(index) => index,
            None => return Err(TransactionError::UnknownHandle(first)),
        };
        let second_index = match self.entry_index(second) {
            Some(index) => index,
            None => return Err(TransactionError::UnknownHandle(second)),
        };
        if first_index < second_index {
            let (lower, upper) = self.entries.as_mut_slice().split_at_mut(second_index);
            let (_, from_first) = lower.split_at_mut(first_index);
            let first_entry = from_first.first_mut().unwrap();
            let second_entry = upper.first_mut().unwrap();
            Ok((&mut first_entry.candidate, &mut second_entry.candidate))
        } else {
            let (lower, upper) = self.entries.as_mut_slice().split_at_mut(first_index);
            let (_, from_second) = lower.split_at_mut(second_index);
            let second_entry = from_second.first_mut().unwrap();
            let first_entry = upper.first_mut().unwrap();
            Ok((&mut first_entry.candidate, &mut second_entry.candidate))
        }
    }

    /// A transaction over `slot_count` slots accepting up to `max_entries` entries.
    pub fn try_new(slot_count: usize, max_entries: usize) -> (r: Result<Self, TransactionError>)
        ensures
            max_entries >= UNUSED_INDEX ==> r == Err::<Self, _>(TransactionError::CapacityExceeded),
            max_entries < UNUSED_INDEX && slot_count + 63 > usize::MAX ==> r == Err::<Self, _>(
                TransactionError::CapacityExceeded,
            ),
            max_entries < UNUSED_INDEX && slot_count + 63 <= usize::MAX ==> (r is Ok || r == Err::<
                Self,
                _,
            >(TransactionError::AllocationFailed)),
            r matches Ok(t) ==> {
                &&& t.wf()
                &&& t.quiescent()
                &&& t.slot_map().len() == slot_count
                &&& t.words().len() == words_for(slot_count as nat)
                &&& t.limit() == max_entries
            },
    {
        if max_entries >= UNUSED_INDEX as usize {
            return Err(TransactionError::CapacityExceeded);
        }
        let bit_words = match slot_count.checked_add(BITS_PER_WORD - 1) {
            Some(bits) => bits / BITS_PER_WORD,
            None => return Err(TransactionError::CapacityExceeded),
        };
        let mut slot_to_index: Vec<u32> = Vec::new();
        if !try_reserve_exact(&mut slot_to_index, slot_count) {
            return Err(TransactionError::AllocationFailed);
        }
        slot_to_index.resize(slot_count, UNUSED_INDEX);
        let mut touched_bits: Vec<u64> = Vec::new();
        if !try_reserve_exact(&mut touched_bits, bit_words) {
            return Err(TransactionError::AllocationFailed);
        }
        touched_bits.resize(bit_words, 0);
        let mut entries: Vec<TransactionEntry<T>> = Vec::new();
        if !try_reserve_exact(&mut entries, max_entries) {
            return Err(TransactionError::AllocationFailed);
        }
        let result = IndexedTransaction { slot_to_index, touched_bits, entries, max_entries };
        proof {
            assert forall|t: nat| !#[trigger] marked_in(result.touched_bits@, t) by {
                if t / 64 < result.touched_bits@.len() {
                    lemma_zero_word((t % 64) as u64);
                }
            }
            assert forall|t: nat| !#[trigger] mapped_in(result.slot_to_index@, t) by {
                if t < result.slot_to_index@.len() {
                    assert(result.slot_to_index@[t as int] == UNUSED_INDEX);
                }
            }
        }
        Ok(result)
    }

    /// Empties the transaction and resizes it for `slot_count` slots and up to `max_entries`
    /// entries, reusing the storage it already holds.
    pub fn prepare(&mut self, slot_count: usize, max_entries: usize) -> (r: Result<
        (),
        TransactionError,
    >)
        requires
            old(self).wf() || old(self).quiescent(),
        ensures
            final(self).quiescent(),
            max_entries >= UNUSED_INDEX ==> r == Err::<(), _>(TransactionError::CapacityExceeded),
            max_entries < UNUSED_INDEX && slot_count + 63 > usize::MAX ==> r == Err::<(), _>(
                TransactionError::CapacityExceeded,
            ),
            max_entries < UNUSED_INDEX && slot_count + 63 <= usize::MAX ==> (r is Ok || r == Err::<
                (),
                _,
            >(TransactionError::AllocationFailed)),
            old(self).wf() && r == Err::<(), _>(TransactionError::CapacityExceeded) ==> final(self).wf(),
            r is Ok ==> {
                &&& final(self).wf()
                &&& final(self).slot_map().len() == slot_count
                &&& final(self).words().len() == words_for(slot_count as nat)
                &&& final(self).limit() == max_entries
            },
    {
        if self.entries.len() > 0 {
            self.clear();
        }
        proof {
            assert forall|s: nat| !#[trigger] mapped_in(self.slot_to_index@, s) by {
                if old(self).wf() {
                    if mapped_in(self.slot_to_index@, s) {
                        assert((self.slot_to_index@[s as int] as int) < self.entries@.len());
                    }
                } else {
                    assert(!mapped_in(old(self).slot_map(), s));
                }
            }
            assert forall|s: nat| !#[trigger] marked_in(self.touched_bits@, s) by {
                if old(self).wf() {
                    if marked_in(self.touched_bits@, s) {
                        assert(mapped_in(self.slot_to_index@, s));
                    }
                } else {
                    assert(!marked_in(old(self).words(), s));
                }
            }
        }
        if max_entries >= UNUSED_INDEX as usize {
            return Err(TransactionError::CapacityExceeded);
        }
        let words = match slot_count.checked_add(BITS_PER_WORD - 1) {
            Some(bits) => bits / BITS_PER_WORD,
            None => return Err(TransactionError::CapacityExceeded),
        };
        if self.slot_to_index.try_reserve(slot_count.saturating_sub(self.slot_to_index.len())).is_err() {
            return Err(TransactionError::AllocationFailed);
        }
        let ghost map_before = self.slot_to_index@;
        self.slot_to_index.resize(slot_count, UNUSED_INDEX);
        proof {
            assert forall|s: nat| !#[trigger] mapped_in(self.slot_to_index@, s) by {
                if s < self.slot_to_index@.len() && s < map_before.len() {
                    assert(!mapped_in(map_before, s));
                }
            }
        }
        if self.touched_bits.try_reserve(words.saturating_sub(self.touched_bits.len())).is_err() {
            return Err(TransactionError::AllocationFailed);
        }
        let ghost words_before = self.touched_bits@;
        self.touched_bits.resize(words, 0);
        proof {
            assert forall|t: nat| !#[trigger] marked_in(self.touched_bits@, t) by {
                if t / 64 < self.touched_bits@.len() {
                    if t / 64 < words_before.len() {
                        assert(!marked_in(words_before, t));
                    } else {
                        lemma_zero_word((t % 64) as u64);
                    }
                }
            }
        }
        if self.entries.try_reserve(max_entries).is_err() {
            return Err(TransactionError::AllocationFailed);
        }
        self.max_entries = max_entries;
        proof {
            assert forall|s: int| 0 <= s < self.slot_to_index@.len() implies #[trigger] self.slot_to_index@[s] == UNUSED_INDEX by {
                assert(!mapped_in(self.slot_to_index@, s as nat));
            }
        }
        Ok(())
    }

    /// Reorders the entries by handle and points every slot at the last entry that occupies it.
    pub fn sort_by_handle(&mut self)
        requires
            old(self).wf(),
        ensures
            final(self).wf(),
            final(self).entry_seq().to_multiset() == old(self).entry_seq().to_multiset(),
            sorted_by_handle(final(self).entry_seq()),
            final(self).limit() == old(self).limit(),
            final(self).words() == old(self).words(),
            final(self).slot_map().len() == old(self).slot_map().len(),
            forall|s: int|
                0 <= s < final(self).slot_map().len() ==> if final(self).occupied_from(0, s as nat) {
                    let v = #[trigger] final(self).slot_map()[s] as int;
                    &&& v < final(self).entry_seq().len()
                    &&& final(self).entry_seq()[v].handle.slot == s
                    &&& !final(self).occupied_from(v + 1, s as nat)
                } else {
                    final(self).slot_map()[s] == old(self).slot_map()[s]
                },
    {
        broadcast use vstd::seq_lib::group_to_multiset_ensures;

        let mut taken: Vec<TransactionEntry<T>> = Vec::new();
        std::mem::swap(&mut taken, &mut self.entries);
        let sorted = sort_entries(taken);
        self.entries = sorted;
        let ghost old_map = old(self).slot_to_index@;
        proof {
            assert(self.entries@.len() == self.entries@.to_multiset().len());
            assert(old(self).entries@.len() == old(self).entries@.to_multiset().len());
            assert forall|i: int| 0 <= i < self.entries@.len() implies (#[trigger] self.entries@[i].handle.slot as int) < old_map.len() by {
                let e = self.entries@[i];
                assert(self.entries@.contains(e));
                assert(old(self).entries@.to_multiset().count(e) > 0);
                assert(old(self).entries@.contains(e));
            }
        }
        let mut index: usize = 0;
        while index < self.entries.len()
            invariant
                self.entries@.to_multiset() == old(self).entries@.to_multiset(),
                self.entries@.len() == old(self).entries@.len(),
                sorted_by_handle(self.entries@),
                self.touched_bits@ == old(self).touched_bits@,
                self.max_entries == old(self).max_entries,
                self.entries@.len() <= self.max_entries,
                self.max_entries < UNUSED_INDEX,
                self.slot_to_index@.len() == old_map.len(),
                index <= self.entries@.len(),
                forall|i: int| 0 <= i < self.entries@.len() ==> (#[trigger] self.entries@[i].handle.slot as int) < old_map.len(),
                forall|s: int|
                    0 <= s < self.slot_to_index@.len() ==> if exists|i: int| 0 <= i < index && #[trigger] self.entries@[i].handle.slot == s {
                        let v = #[trigger] self.slot_to_index@[s] as int;
                        &&& v < index
                        &&& self.entries@[v].handle.slot == s
                        &&& !exists|j: int| v < j < index && #[trigger] self.entries@[j].handle.slot == s
                    } else {
                        self.slot_to_index@[s] == old_map[s]
                    },
            decreases self.entries@.len() - index,
        {
            let slot = self.entries[index].handle.slot as usize;
            let ghost before_map = self.slot_to_index@;
            self.slot_to_index.set(slot, index as u32);
            proof {
                assert(self.entries@[index as int].handle.slot == slot);
                assert forall|s: int|
                    0 <= s < self.slot_to_index@.len() implies if exists|i: int| 0 <= i < index + 1 && #[trigger] self.entries@[i].handle.slot == s {
                        let v = #[trigger] self.slot_to_index@[s] as int;
                        &&& v < index + 1
                        &&& self.entries@[v].handle.slot == s
                        &&& !exists|j: int| v < j < index + 1 && #[trigger] self.entries@[j].handle.slot == s
                    } else {
                        self.slot_to_index@[s] == old_map[s]
                    } by {
                    if s == slot {
                        assert(self.entries@[index as int].handle.slot == s);
                    } else {
                        assert(self.slot_to_index@[s] == before_map[s]);
                        if exists|i: int| 0 <= i < index + 1 && #[trigger] self.entries@[i].handle.slot == s {
                            let i = choose|i: int| 0 <= i < index + 1 && #[trigger] self.entries@[i].handle.slot == s;
                            assert(i < index);
                        }
                    }
                }
            }
            index += 1;
        }
        proof {
            assert forall|i: int| 0 <= i < old(self).entries@.len() implies #[trigger] old(self).entries@[i].handle.slot < self.slot_to_index@.len() by {}
            assert forall|s: int| 0 <= s < self.slot_to_index@.len() && #[trigger] self.slot_to_index@[s] != UNUSED_INDEX implies {
                &&& (self.slot_to_index@[s] as int) < self.entries@.len()
                &&& self.entries@[self.slot_to_index@[s] as int].handle.slot == s
            } by {
                if !exists|i: int| 0 <= i < index && #[trigger] self.entries@[i].handle.slot == s {
                    let v = old_map[s] as int;
                    let e = old(self).entries@[v];
                    assert(old(self).entries@.contains(e));
                    assert(self.entries@.to_multiset().count(e) > 0);
                    assert(self.entries@.contains(e));
                    let k = choose|k: int| 0 <= k < self.entries@.len() && self.entries@[k] == e;
                    assert(self.entries@[k].handle.slot == s);
                }
            }
            assert forall|s: nat| #[trigger] marked_in(self.touched_bits@, s) implies mapped_in(self.slot_to_index@, s) by {
                assert(mapped_in(old_map, s));
                if !exists|i: int| 0 <= i < index && #[trigger] self.entries@[i].handle.slot == s {
                } else {
                    assert(self.slot_to_index@[s as int] < UNUSED_INDEX);
                }
            }
            assert forall|s: int|
                0 <= s < self.slot_to_index@.len() implies if self.occupied_from(0, s as nat) {
                    let v = #[trigger] self.slot_map()[s] as int;
                    &&& v < self.entry_seq().len()
                    &&& self.entry_seq()[v].handle.slot == s
                    &&& !self.occupied_from(v + 1, s as nat)
                } else {
                    self.slot_map()[s] == old(self).slot_map()[s]
                } by {
                if self.occupied_from(0, s as nat) {
                    let i = choose|i: int| 0 <= i < self.entry_seq().len() && #[trigger] self.entry_seq()[i].handle.slot == s;
                    assert(self.entries@[i].handle.slot == s);
                }
            }
        }
    }

    /// Bytes reserved by the slot map, the bit words and the entries: reserved counts, each
    /// at least the stored one, times their sizes, summed; a sum past `usize::MAX` is reported
    /// as `usize::MAX`.
    ///
    /// How much the allocator reserved beyond the stored counts is not stated, so neither is
    /// that clearing keeps this number.
    pub fn capacity_bytes_lower_bound(&self) -> (r: usize)
        ensures
            exists|slots: int, words: int, entries: int|
                slots >= self.slot_map().len() && words >= self.words().len() && entries >= self.entry_seq().len()
                    && r == clamp_usize(
                    bytes_for::<u32>(slots) + bytes_for::<u64>(words) + bytes_for::<TransactionEntry<T>>(entries),
                ),
            r >= clamp_usize(
                bytes_for::<u32>(self.slot_map().len() as int) + bytes_for::<u64>(self.words().len() as int)
                    + bytes_for::<TransactionEntry<T>>(self.entry_seq().len() as int),
            ),
    {
        let a = reserved_bytes(&self.slot_to_index);
        let b = reserved_bytes(&self.touched_bits);
        let c = reserved_bytes(&self.entries);
        proof {
            let slots = choose|k: int| k >= self.slot_to_index@.len() && a == bytes_for::<u32>(k);
            let words = choose|k: int| k >= self.touched_bits@.len() && b == bytes_for::<u64>(k);
            let entries = choose|k: int| k >= self.entries@.len() && c == bytes_for::<TransactionEntry<T>>(k);
            assert(a + b + c == bytes_for::<u32>(slots) + bytes_for::<u64>(words) + bytes_for::<TransactionEntry<T>>(entries));
        }
        (a + b).saturating_add(c)
    }

    /// The entries, in dense order.
    pub fn entries(&self) -> (r: &[TransactionEntry<T>])
        ensures
            r@ == self.entry_seq(),
    {
        self.entries.as_slice()
    }
}

impl<T: Clone> IndexedTransaction<T> {
    /// Returns the candidate for `handle`, creating it from a clone of `initial` (read at
    /// `expected_revision`) when the slot is untouched. A touched slot that holds another
    /// generation is a conflict.
    pub fn touch(&mut self, handle: MixtureHandle, expected_revision: u32, initial: &T) -> (r:
        Result<&mut T, TransactionError>)
        requires
            old(self).wf(),
        ensures
            final(self).wf(),
            final(self).limit() == old(self).limit(),
            final(self).slot_map().len() == old(self).slot_map().len(),
            final(self).words().len() == old(self).words().len(),
            match r {
                Ok(c) => {
                    let s = handle.slot as nat;
                    &&& s < old(self).slot_map().len()
                    &&& if old(self).mapped(s) {
                        let i = old(self).slot_map()[s as int] as int;
                        &&& old(self).entry_seq()[i].handle == handle
                        &&& *c == old(self).entry_seq()[i].candidate
                        &&& final(self).entry_seq() == old(self).entry_seq().update(
                            i,
                            with_candidate(old(self).entry_seq()[i], *final(c)),
                        )
                        &&& final(self).slot_map() == old(self).slot_map()
                        &&& final(self).words() == old(self).words()
                    } else {
                        &&& old(self).entry_seq().len() < old(self).limit()
                        &&& cloned::<T>(*initial, *c)
                        &&& final(self).entry_seq() == old(self).entry_seq().push(
                            TransactionEntry {
                                handle,
                                expected_revision,
                                candidate: *final(c),
                            },
                        )
                        &&& final(self).slot_map() == old(self).slot_map().update(
                            s as int,
                            old(self).entry_seq().len() as u32,
                        )
                        &&& forall|t: nat| #[trigger] marked_in(final(self).words(), t) == (t == s || marked_in(old(self).words(), t))
                    }
                },
                Err(e) => {
                    let s = handle.slot as nat;
                    &&& *final(self) == *old(self)
                    &&& if s >= old(self).slot_map().len() {
                        e == TransactionError::CapacityExceeded
                    } else if old(self).mapped(s) {
                        let cur = old(self).entry_seq()[old(self).slot_map()[s as int] as int].handle;
                        &&& cur != handle
                        &&& e == TransactionError::HandleConflict { requested: handle, current: cur }
                    } else {
                        &&& old(self).entry_seq().len() >= old(self).limit()
                        &&& e == TransactionError::CapacityExceeded
                    }
                },
            },
    {
        let slot = handle.slot as usize;
        if slot >= self.slot_to_index.len() {
            return Err(TransactionError::CapacityExceeded);
        }
        let dense_index = self.slot_to_index[slot];
        if dense_index != UNUSED_INDEX {
            let current = self.entries[dense_index as usize].handle;
            if !current.same(&handle) {
                return Err(TransactionError::HandleConflict { requested: handle, current });
            }
            let entry = &mut self.entries[dense_index as usize];
            return Ok(&mut entry.candidate);
        }
        if self.entries.len() >= self.max_entries {
            return Err(TransactionError::CapacityExceeded);
        }
        proof {
            self.lemma_word_in_range(slot as nat);
        }
        let dense = self.entries.len() as u32;
        let candidate = initial.clone();
        self.entries.push(TransactionEntry { handle, expected_revision, candidate });
        self.slot_to_index.set(slot, dense);
        let word_index = slot / BITS_PER_WORD;
        let bit = (slot % BITS_PER_WORD) as u64;
        let word = self.touched_bits[word_index];
        self.touched_bits.set(word_index, word | (1u64 << bit));
        proof {
            assert forall|t: nat| #[trigger] marked_in(self.touched_bits@, t) == (t == slot || marked_in(old(self).touched_bits@, t)) by {
                if t / 64 == word_index as nat {
                    lemma_set_bit(word, bit, (t % 64) as u64);
                }
            }
            assert forall|t: nat| #[trigger] marked_in(self.touched_bits@, t) implies mapped_in(self.slot_to_index@, t) by {
                if t != slot {
                    assert(marked_in(old(self).touched_bits@, t));
                }
            }
        }
        let entry = &mut self.entries[dense as usize];
        Ok(&mut entry.candidate)
    }
}

} // verus!
