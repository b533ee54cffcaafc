//! The committed set of active turfs and the two ways to change it: a staged upload
//! (begin, append ranges, commit) for full synchronisation, and direct additions and removals
//! for incremental updates. Every change names an epoch that must exceed the committed one.
use vstd::prelude::*;

use crate::alloc_stats::{bytes_for, reserved_bytes, vec_capacity};
use crate::bitset::{lemma_zero_word, mark_bit, marked_in};
use crate::handles::TurfHandle;
use std::collections::HashSet;
use vstd::set_lib::{lemma_int_range, lemma_len_subset, lemma_set_disjoint_lens, lemma_subset_equality, set_int_range};

verus! {

/// Why a frontier operation was refused.
#[derive(Clone, Debug, PartialEq, Eq)]
pub enum FrontierError {
    InvalidEpoch(u64),
    EpochConflict { committed: Option<u64>, uploading: Option<u64>, requested: u64 },
    CountExceeded { actual: u32, maximum: u32 },
    RangeOutOfBounds { offset: u32, count: u32, expected: u32 },
    RangeAlreadyReceived { offset: u32, count: u32 },
    Incomplete { epoch: u64, expected: u32, received: u32 },
    DuplicateHandle(TurfHandle),
    AllocationFailed,
}

/// A unique 64-bit key for a turf handle.
pub open spec fn key_of(h: TurfHandle) -> u64 {
    (h.slot as u64 * 0x1_0000_0000 + h.generation as u64) as u64
}

/// Executable form of [`key_of`].
pub fn handle_key(h: TurfHandle) -> (r: u64)
    ensures
        r == key_of(h),
{
    h.slot as u64 * 0x1_0000_0000 + h.generation as u64
}

/// Distinct handles have distinct keys.
pub proof fn lemma_key_injective(a: TurfHandle, b: TurfHandle)
    ensures
        key_of(a) == key_of(b) <==> a == b,
{
}

/// Whether `epoch` does not exceed the optional bound `bound`.
pub open spec fn not_after(bound: Option<u64>, epoch: u64) -> bool {
    bound matches Some(b) && epoch <= b
}

/// The conflict error reported for `requested`.
pub open spec fn conflict(committed: Option<u64>, uploading: Option<u64>, requested: u64) -> FrontierError {
    FrontierError::EpochConflict { committed, uploading, requested }
}

/// Whether `i` is the first position of `handles` that is already committed or repeats an
/// earlier position.
pub open spec fn first_clash(handles: Seq<TurfHandle>, committed: Seq<TurfHandle>, i: int) -> bool {
    &&& 0 <= i < handles.len()
    &&& (committed.contains(handles[i]) || handles.take(i).contains(handles[i]))
    &&& forall|j: int| 0 <= j < i ==> !committed.contains(#[trigger] handles[j])
    &&& handles.take(i).no_duplicates()
}

/// Whether `i` is the first position of `s` that repeats an earlier position.
pub open spec fn first_repeat(s: Seq<TurfHandle>, i: int) -> bool {
    &&& 0 <= i < s.len()
    &&& s.take(i).contains(s[i])
    &&& s.take(i).no_duplicates()
}

/// `s` with the positions from `offset` on overwritten by `h`.
pub open spec fn splice(s: Seq<TurfHandle>, offset: int, h: Seq<TurfHandle>) -> Seq<TurfHandle> {
    s.take(offset) + h + s.skip(offset + h.len())
}

/// Whether `handles` repeats no handle and holds none of `committed`.
pub open spec fn clash_free(handles: Seq<TurfHandle>, committed: Seq<TurfHandle>) -> bool {
    &&& handles.no_duplicates()
    &&& forall|j: int| 0 <= j < handles.len() ==> !committed.contains(#[trigger] handles[j])
}

/// The count reported when `actual` exceeds a 32-bit limit: `actual`, saturated at `u32::MAX`.
pub open spec fn saturated_count(actual: int) -> u32 {
    if actual > u32::MAX {
        u32::MAX
    } else {
        actual as u32
    }
}

/// Whether a handle survives a removal of `gone`.
pub open spec fn kept_by(gone: Seq<TurfHandle>) -> spec_fn(TurfHandle) -> bool {
    |h: TurfHandle| !gone.contains(h)
}

/// A handle survives filtering exactly when it was there and the filter keeps it.
pub proof fn lemma_filter_membership(s: Seq<TurfHandle>, keep: spec_fn(TurfHandle) -> bool, h: TurfHandle)
    ensures
        s.filter(keep).contains(h) == (s.contains(h) && keep(h)),
{
    broadcast use vstd::seq_lib::group_filter_ensures;

    if s.filter(keep).contains(h) {
        s.lemma_filter_contains_rev(keep, h);
        let j = choose|j: int| 0 <= j < s.filter(keep).len() && #[trigger] s.filter(keep)[j] == h;
        assert(keep(s.filter(keep)[j]));
    }
    if s.contains(h) && keep(h) {
        let j = choose|j: int| 0 <= j < s.len() && #[trigger] s[j] == h;
        assert(s.filter(keep).contains(s[j]));
    }
}

/// The committed frontier and the upload in progress.
pub struct FrontierState {
    committed_epoch: Option<u64>,
    committed: Vec<TurfHandle>,
    committed_set: HashSet<u64>,
    upload_epoch: Option<u64>,
    upload_expected: u32,
    upload_received: u32,
    staging: Vec<TurfHandle>,
    received_bits: Vec<u64>,
}

impl FrontierState {
    /// Epoch of the committed frontier, if any.
    pub closed spec fn committed_epoch_value(self) -> Option<u64> {
        self.committed_epoch
    }

    /// The committed handles, in commit order.
    pub closed spec fn committed_seq(self) -> Seq<TurfHandle> {
        self.committed@
    }

    /// Epoch of the upload in progress, if any.
    pub closed spec fn upload_epoch_value(self) -> Option<u64> {
        self.upload_epoch
    }

    /// Number of handles the upload in progress expects.
    pub closed spec fn expected(self) -> nat {
        self.upload_expected as nat
    }

    /// Number of handles the upload in progress has received.
    pub closed spec fn received_count(self) -> nat {
        self.upload_received as nat
    }

    /// The staged handles of the upload in progress.
    pub closed spec fn staged(self) -> Seq<TurfHandle> {
        self.staging@
    }

    /// Upload positions already received.
    pub closed spec fn received(self) -> Set<int> {
        Set::new(|i: int| 0 <= i < self.upload_expected && marked_in(self.received_bits@, i as nat))
    }

    /// Internal consistency: the key set mirrors the committed handles, the counts fit in
    /// 32 bits, staging and bit storage cover the expected handles, and the received count
    /// is the number of received positions.
    pub closed spec fn wf(self) -> bool {
        &&& forall|h: TurfHandle| #[trigger] self.committed_set@.contains(key_of(h)) == self.committed@.contains(h)
        &&& self.committed@.len() <= u32::MAX
        &&& self.staging@.len() == self.upload_expected
        &&& self.upload_expected <= self.received_bits@.len() * 64
        &&& self.upload_epoch is None ==> self.upload_expected == 0 && self.upload_received == 0
        &&& self.upload_received == self.received().len()
        &&& self.received().finite()
    }

    /// The staged handles cover exactly the expected positions, the received count never
    /// exceeds the expected count, and without an upload nothing is expected.
    pub proof fn lemma_upload_shape(self)
        requires
            self.wf(),
        ensures
            self.staged().len() == self.expected(),
            self.received_count() <= self.expected(),
            self.upload_epoch_value() is None ==> self.expected() == 0 && self.received_count() == 0,
            self.committed_seq().len() <= u32::MAX,
    {
        lemma_int_range(0, self.expected() as int);
        lemma_len_subset(self.received(), set_int_range(0, self.expected() as int));
    }

    /// An upload is complete exactly when every expected position has been received: the
    /// received count reaches the expected count only when the received positions are all of
    /// `0..expected`.
    pub proof fn lemma_complete_upload(self)
        requires
            self.wf(),
        ensures
            (self.received_count() == self.expected()) == (self.received() == set_int_range(
                0,
                self.expected() as int,
            )),
    {
        let all = set_int_range(0, self.expected() as int);
        lemma_int_range(0, self.expected() as int);
        assert(self.received().subset_of(all));
        if self.received_count() == self.expected() {
            lemma_subset_equality(self.received(), all);
        }
    }

    /// An empty frontier with nothing committed and no upload.
    pub fn new() -> (r: Self)
        ensures
            r.wf(),
            r.committed_epoch_value() is None,
            r.committed_seq().len() == 0,
            r.upload_epoch_value() is None,
    {
        broadcast use vstd::std_specs::hash::group_hash_axioms;

        let r = FrontierState {
            committed_epoch: None,
            committed: Vec::new(),
            committed_set: HashSet::new(),
            upload_epoch: None,
            upload_expected: 0,
            upload_received: 0,
            staging: Vec::new(),
            received_bits: Vec::new(),
        };
        assert(r.received() =~= Set::<int>::empty());
        r
    }

    /// Epoch of the committed frontier.
    pub fn committed_epoch(&self) -> (r: Option<u64>)
        ensures
            r == self.committed_epoch_value(),
    {
        self.committed_epoch
    }

    /// The committed handles.
    pub fn committed(&self) -> (r: &[TurfHandle])
        ensures
            r@ == self.committed_seq(),
    {
        self.committed.as_slice()
    }

    /// Number of 64-bit words of received-position storage.
    pub closed spec fn word_len(self) -> nat {
        self.received_bits@.len()
    }

    /// Bytes reserved by the upload staging storage: the reserved handle and word counts, each
    /// at least the stored one, times their sizes.
    pub fn upload_bytes(&self) -> (r: u64)
        ensures
            exists|handles: int, words: int|
                handles >= self.staged().len() && words >= self.word_len() && r == bytes_for::<TurfHandle>(handles)
                    + bytes_for::<u64>(words),
            r >= bytes_for::<TurfHandle>(self.staged().len() as int) + bytes_for::<u64>(self.word_len() as int),
    {
        let a = reserved_bytes(&self.staging);
        let b = reserved_bytes(&self.received_bits);
        proof {
            let handles = choose|c: int| c >= self.staging@.len() && a == bytes_for::<TurfHandle>(c);
            let words = choose|c: int| c >= self.received_bits@.len() && b == bytes_for::<u64>(c);
            assert(a + b == bytes_for::<TurfHandle>(handles) + bytes_for::<u64>(words));
        }
        (a + b) as u64
    }

    /// Whether upload position `index` has been received.
    fn is_received(&self, index: u32) -> (r: bool)
        requires
            self.wf(),
            index < self.expected(),
        ensures
            r == self.received().contains(index as int),
    {
        let index = index as usize;
        let word = self.received_bits[index / 64];
        word & (1u64 << ((index % 64) as u64)) != 0
    }
}

/// Sets every word of `words` to zero.
fn clear_words(words: &mut Vec<u64>)
    ensures
        final(words)@.len() == old(words)@.len(),
        forall|w: int| 0 <= w < final(words)@.len() ==> final(words)@[w] == 0,
{
    let mut index: usize = 0;
    while index < words.len()
        invariant
            index <= words@.len(),
            words@.len() == old(words)@.len(),
            forall|w: int| 0 <= w < index ==> words@[w] == 0,
        decreases words@.len() - index,
    {
        words.set(index, 0);
        index += 1;
    }
}

impl FrontierState {
    /// The upload bookkeeping is identical in `a` and `b`.
    pub open spec fn same_upload(a: Self, b: Self) -> bool {
        &&& a.upload_epoch_value() == b.upload_epoch_value()
        &&& a.expected() == b.expected()
        &&& a.received_count() == b.received_count()
        &&& a.staged() == b.staged()
        &&& a.received() == b.received()
    }

    /// Starts an upload of `expected` handles (at most `maximum`) for `epoch`, which must be
    /// positive and newer than both the committed epoch and any upload in progress.
    pub fn begin(&mut self, epoch: u64, expected: u32, maximum: u32) -> (r: Result<(), FrontierError>)
        requires
            old(self).wf(),
        ensures
            final(self).wf(),
            final(self).committed_epoch_value() == old(self).committed_epoch_value(),
            final(self).committed_seq() == old(self).committed_seq(),
            epoch == 0 ==> r == Err::<(), FrontierError>(FrontierError::InvalidEpoch(epoch)),
            epoch != 0 && expected > maximum ==> r == Err::<(), FrontierError>(
                FrontierError::CountExceeded { actual: expected, maximum },
            ),
            epoch != 0 && expected <= maximum && (not_after(old(self).committed_epoch_value(), epoch)
                || not_after(old(self).upload_epoch_value(), epoch)) ==> r == Err::<(), FrontierError>(
                conflict(old(self).committed_epoch_value(), old(self).upload_epoch_value(), epoch),
            ),
            epoch != 0 && expected <= maximum && !not_after(old(self).committed_epoch_value(), epoch)
                && !not_after(old(self).upload_epoch_value(), epoch) ==> (r is Ok || r
                == Err::<(), FrontierError>(FrontierError::AllocationFailed)),
            r is Err ==> Self::same_upload(*old(self), *final(self)),
            r is Ok ==> {
                &&& final(self).upload_epoch_value() == Some(epoch)
                &&& final(self).expected() == expected
                &&& final(self).received_count() == 0
                &&& final(self).received() == Set::<int>::empty()
                &&& final(self).staged().len() == expected
            },
    {
        if epoch == 0 {
            return Err(FrontierError::InvalidEpoch(epoch));
        }
        if expected > maximum {
            return Err(FrontierError::CountExceeded { actual: expected, maximum });
        }
        let committed_conflict = match self.committed_epoch {
            Some(committed) => epoch <= committed,
            None => false,
        };
        let upload_conflict = match self.upload_epoch {
            Some(uploading) => epoch <= uploading,
            None => false,
        };
        if committed_conflict || upload_conflict {
            return Err(FrontierError::EpochConflict {
                committed: self.committed_epoch,
                uploading: self.upload_epoch,
                requested: epoch,
            });
        }
        let expected_count = expected as usize;
        let word_count = expected_count / 64 + if expected_count % 64 == 0 { 0 } else { 1 };
        let staging_room = expected_count.saturating_sub(vec_capacity(&self.staging));
        if self.staging.try_reserve(staging_room).is_err() {
            return Err(FrontierError::AllocationFailed);
        }
        let bits_room = word_count.saturating_sub(vec_capacity(&self.received_bits));
        if self.received_bits.try_reserve(bits_room).is_err() {
            return Err(FrontierError::AllocationFailed);
        }
        self.staging.resize(expected_count, TurfHandle { slot: 0, generation: 0 });
        self.received_bits.resize(word_count, 0);
        clear_words(&mut self.received_bits);
        self.upload_epoch = Some(epoch);
        self.upload_expected = expected;
        self.upload_received = 0;
        proof {
            assert forall|i: int| !self.received().contains(i) by {
                if 0 <= i < self.upload_expected {
                    lemma_zero_word((i % 64) as u64);
                    assert(self.received_bits@[i / 64] == 0);
                }
            }
            assert(self.received() =~= Set::<int>::empty());
        }
        Ok(())
    }
}

impl FrontierState {
    /// Whether some position in `[offset, end)` has already been received.
    pub open spec fn any_received(self, offset: int, end: int) -> bool {
        exists|i: int| offset <= i < end && #[trigger] self.received().contains(i)
    }

    /// Stores `handles` at positions `offset..` of the upload for `epoch`. Positions must lie
    /// within the expected count and must not have been received before.
    pub fn append(&mut self, epoch: u64, offset: u32, handles: &[TurfHandle]) -> (r: Result<u32, FrontierError>)
        requires
            old(self).wf(),
        ensures
            final(self).wf(),
            final(self).committed_epoch_value() == old(self).committed_epoch_value(),
            final(self).committed_seq() == old(self).committed_seq(),
            final(self).upload_epoch_value() == old(self).upload_epoch_value(),
            final(self).expected() == old(self).expected(),
            old(self).upload_epoch_value() != Some(epoch) ==> r == Err::<u32, FrontierError>(
                conflict(old(self).committed_epoch_value(), old(self).upload_epoch_value(), epoch),
            ),
            old(self).upload_epoch_value() == Some(epoch) && handles@.len() > u32::MAX ==> r
                == Err::<u32, FrontierError>(
                FrontierError::RangeOutOfBounds {
                    offset,
                    count: u32::MAX,
                    expected: old(self).expected() as u32,
                },
            ),
            old(self).upload_epoch_value() == Some(epoch) && handles@.len() <= u32::MAX && offset
                + handles@.len() > old(self).expected() ==> r == Err::<u32, FrontierError>(
                FrontierError::RangeOutOfBounds {
                    offset,
                    count: handles@.len() as u32,
                    expected: old(self).expected() as u32,
                },
            ),
            old(self).upload_epoch_value() == Some(epoch) && offset + handles@.len() <= old(self).expected()
                && old(self).any_received(offset as int, offset + handles@.len()) ==> r == Err::<
                u32,
                FrontierError,
            >(FrontierError::RangeAlreadyReceived { offset, count: handles@.len() as u32 }),
            old(self).upload_epoch_value() == Some(epoch) && offset + handles@.len() <= old(self).expected()
                && !old(self).any_received(offset as int, offset + handles@.len()) ==> {
                &&& r == Ok::<u32, FrontierError>(handles@.len() as u32)
                &&& final(self).staged() == splice(old(self).staged(), offset as int, handles@)
                &&& final(self).staged().len() == old(self).expected()
                &&& forall|i: int| 0 <= i < handles@.len() ==> #[trigger] final(self).staged()[offset + i] == handles@[i]
                &&& final(self).received() == old(self).received().union(
                    set_int_range(offset as int, offset + handles@.len()),
                )
                &&& final(self).received_count() == old(self).received_count() + handles@.len()
            },
            r is Err ==> *final(self) == *old(self),
    {
        if self.upload_epoch != Some(epoch) {
            return Err(FrontierError::EpochConflict {
                committed: self.committed_epoch,
                uploading: self.upload_epoch,
                requested: epoch,
            });
        }
        if handles.len() > u32::MAX as usize {
            return Err(FrontierError::RangeOutOfBounds {
                offset,
                count: u32::MAX,
                expected: self.upload_expected,
            });
        }
        let count = handles.len() as u32;
        let end = match offset.checked_add(count) {
            Some(end) => end,
            None => {
                return Err(FrontierError::RangeOutOfBounds {
                    offset,
                    count,
                    expected: self.upload_expected,
                });
            },
        };
        if end > self.upload_expected {
            return Err(FrontierError::RangeOutOfBounds {
                offset,
                count,
                expected: self.upload_expected,
            });
        }
        let mut probe = offset;
        while probe < end
            invariant
                self.wf(),
                *self == *old(self),
                self.upload_epoch == Some(epoch),
                count == handles@.len(),
                end == offset + count,
                offset <= probe <= end,
                end <= self.upload_expected,
                forall|i: int| offset <= i < probe ==> !#[trigger] self.received().contains(i),
            decreases end - probe,
        {
            if self.is_received(probe) {
                return Err(FrontierError::RangeAlreadyReceived { offset, count });
            }
            probe += 1;
        }
        let ghost before = *self;
        let mut relative: usize = 0;
        while relative < handles.len()
            invariant
                before.wf(),
                end == offset + handles@.len(),
                end <= before.upload_expected,
                relative <= handles@.len(),
                self.staging@.len() == before.staging@.len(),
                self.received_bits@.len() == before.received_bits@.len(),
                forall|i: int| 0 <= i < self.staging@.len() ==> #[trigger] self.staging@[i] == if offset
                    <= i < offset + relative {
                    handles@[i - offset]
                } else {
                    before.staging@[i]
                },
                forall|t: nat| #[trigger] marked_in(self.received_bits@, t) == (marked_in(
                    before.received_bits@,
                    t,
                ) || (offset <= t < offset + relative)),
                self.committed_epoch == before.committed_epoch,
                self.committed == before.committed,
                self.committed_set == before.committed_set,
                self.upload_epoch == before.upload_epoch,
                self.upload_expected == before.upload_expected,
                self.upload_received == before.upload_received,
            decreases handles@.len() - relative,
        {
            let index = offset as usize + relative;
            self.staging.set(index, handles[relative]);
            mark_bit(&mut self.received_bits, index);
            relative += 1;
        }
        proof {
            let range = set_int_range(offset as int, end as int);
            lemma_int_range(offset as int, end as int);
            assert(self.staging@ =~= splice(before.staging@, offset as int, handles@));
            assert(self.received() =~= before.received().union(range));
            assert(before.received().disjoint(range));
            lemma_set_disjoint_lens(before.received(), range);
            lemma_int_range(0, self.upload_expected as int);
            lemma_len_subset(self.received(), set_int_range(0, self.upload_expected as int));
        }
        self.upload_received = self.upload_received + count;
        Ok(count)
    }
}

impl FrontierState {
    /// The complete staged upload for `epoch`: refused if another epoch is uploading, if some
    /// position is still missing, or if a handle occurs twice (the first repeat is named).
    pub fn pending(&self, epoch: u64) -> (r: Result<&[TurfHandle], FrontierError>)
        requires
            self.wf(),
        ensures
            self.upload_epoch_value() != Some(epoch) ==> r == Err::<&[TurfHandle], FrontierError>(
                conflict(self.committed_epoch_value(), self.upload_epoch_value(), epoch),
            ),
            self.upload_epoch_value() == Some(epoch) && self.received_count() != self.expected() ==> r
                == Err::<&[TurfHandle], FrontierError>(
                FrontierError::Incomplete {
                    epoch,
                    expected: self.expected() as u32,
                    received: self.received_count() as u32,
                },
            ),
            self.upload_epoch_value() == Some(epoch) && self.received_count() == self.expected() ==> {
                &&& (r is Ok <==> self.staged().no_duplicates())
                &&& r matches Ok(s) ==> s@ == self.staged() && s@.len() == self.expected()
                &&& r matches Err(e) ==> exists|i: int| #[trigger]
                    first_repeat(self.staged(), i) && e == FrontierError::DuplicateHandle(
                        self.staged()[i],
                    )
            },
    {
        broadcast use vstd::std_specs::hash::group_hash_axioms;

        if self.upload_epoch != Some(epoch) {
            return Err(FrontierError::EpochConflict {
                committed: self.committed_epoch,
                uploading: self.upload_epoch,
                requested: epoch,
            });
        }
        if self.upload_received != self.upload_expected {
            return Err(FrontierError::Incomplete {
                epoch,
                expected: self.upload_expected,
                received: self.upload_received,
            });
        }
        let mut seen: HashSet<u64> = HashSet::new();
        let mut index: usize = 0;
        while index < self.staging.len()
            invariant
                self.upload_epoch == Some(epoch),
                self.upload_received == self.upload_expected,
                index <= self.staging@.len(),
                self.staging@.take(index as int).no_duplicates(),
                forall|h: TurfHandle| #[trigger] seen@.contains(key_of(h)) == self.staging@.take(
                    index as int,
                ).contains(h),
            decreases self.staging@.len() - index,
        {
            let handle = self.staging[index];
            proof {
                assert(self.staging@.take(index as int + 1) =~= self.staging@.take(index as int).push(
                    handle,
                ));
            }
            let ghost seen_before = seen@;
            if !seen.insert(handle_key(handle)) {
                proof {
                    assert(first_repeat(self.staging@, index as int));
                }
                return Err(FrontierError::DuplicateHandle(handle));
            }
            proof {
                assert forall|h: TurfHandle| #[trigger] seen@.contains(key_of(h)) == self.staging@.take(
                    index as int + 1,
                ).contains(h) by {
                    lemma_key_injective(h, handle);
                    assert(seen_before.contains(key_of(h)) == self.staging@.take(index as int).contains(h));
                    let grown = self.staging@.take(index as int + 1);
                    if grown.contains(h) && h != handle {
                        let j = choose|j: int| 0 <= j < grown.len() && #[trigger] grown[j] == h;
                        assert(self.staging@.take(index as int)[j] == h);
                    }
                    if self.staging@.take(index as int).contains(h) {
                        let j = choose|j: int| 0 <= j < index && #[trigger] self.staging@.take(index as int)[j] == h;
                        assert(grown[j] == h);
                    }
                    if h == handle {
                        assert(grown[index as int] == h);
                    }
                }
                let grown = self.staging@.take(index as int + 1);
                assert forall|a: int, b: int| 0 <= a < grown.len() && 0 <= b < grown.len() && a != b implies #[trigger] grown[a]
                    != #[trigger] grown[b] by {
                    if b == index {
                        assert(self.staging@.take(index as int)[a] == grown[a]);
                    } else if a == index {
                        assert(self.staging@.take(index as int)[b] == grown[b]);
                    }
                }
            }
            index += 1;
        }
        proof {
            assert(self.staging@.take(index as int) =~= self.staging@);
            assert forall|i: int| !first_repeat(self.staging@, i) by {
                if first_repeat(self.staging@, i) {
                    let j = choose|j: int| 0 <= j < i && #[trigger] self.staging@.take(i)[j] == self.staging@[i];
                    assert(self.staging@[j] == self.staging@[i]);
                }
            }
        }
        Ok(self.staging.as_slice())
    }
}

impl FrontierState {
    /// Makes the staged upload the committed frontier at `epoch` and ends the upload. The
    /// staged handles are not checked here: callers check them with [`Self::pending`] first.
    pub fn commit_validated(&mut self, epoch: u64) -> (r: Result<u32, FrontierError>)
        requires
            old(self).wf(),
        ensures
            final(self).wf(),
            r == Ok::<u32, FrontierError>(old(self).staged().len() as u32),
            final(self).committed_seq() == old(self).staged(),
            final(self).committed_epoch_value() == Some(epoch),
            final(self).upload_epoch_value() is None,
            final(self).expected() == 0,
            final(self).received_count() == 0,
            final(self).staged().len() == 0,
    {
        broadcast use vstd::std_specs::hash::group_hash_axioms;

        core::mem::swap(&mut self.committed, &mut self.staging);
        self.staging.clear();
        self.committed_epoch = Some(epoch);
        self.upload_epoch = None;
        self.upload_expected = 0;
        self.upload_received = 0;
        self.committed_set.clear();
        let mut index: usize = 0;
        while index < self.committed.len()
            invariant
                index <= self.committed@.len(),
                self.committed@ == old(self).staging@,
                self.committed@.len() <= u32::MAX,
                self.staging@.len() == 0,
                self.committed_epoch == Some(epoch),
                self.upload_epoch is None,
                self.upload_expected == 0,
                self.upload_received == 0,
                forall|h: TurfHandle| #[trigger] self.committed_set@.contains(key_of(h)) == self.committed@.take(
                    index as int,
                ).contains(h),
            decreases self.committed@.len() - index,
        {
            let handle = self.committed[index];
            let ghost before = self.committed_set@;
            self.committed_set.insert(handle_key(handle));
            proof {
                assert forall|h: TurfHandle| #[trigger] self.committed_set@.contains(key_of(h))
                    == self.committed@.take(index as int + 1).contains(h) by {
                    lemma_key_injective(h, handle);
                    lemma_take_push_contains(self.committed@, index as int, h);
                    assert(before.contains(key_of(h)) == self.committed@.take(index as int).contains(h));
                }
            }
            index += 1;
        }
        proof {
            assert(self.committed@.take(index as int) =~= self.committed@);
            assert(self.received() =~= Set::<int>::empty());
        }
        Ok(self.committed.len() as u32)
    }
}

/// The prefix of length `i + 1` holds what the prefix of length `i` holds, and `s[i]`.
pub proof fn lemma_take_push_contains(s: Seq<TurfHandle>, i: int, h: TurfHandle)
    requires
        0 <= i < s.len(),
    ensures
        s.take(i + 1).contains(h) == (s.take(i).contains(h) || h == s[i]),
{
    let longer = s.take(i + 1);
    let shorter = s.take(i);
    if longer.contains(h) {
        let j = choose|j: int| 0 <= j < longer.len() && #[trigger] longer[j] == h;
        if j < i {
            assert(shorter[j] == h);
        }
    }
    if shorter.contains(h) {
        let j = choose|j: int| 0 <= j < shorter.len() && #[trigger] shorter[j] == h;
        assert(longer[j] == h);
    }
    if h == s[i] {
        assert(longer[i] == h);
    }
}

impl FrontierState {
    /// Adds `handles` to the committed frontier at `epoch`, which must be newer than the
    /// committed epoch. The frontier may grow to at most `maximum` handles, and no handle may
    /// be committed already or occur twice in `handles` (the first such handle is named).
    pub fn add(&mut self, epoch: u64, handles: &[TurfHandle], maximum: u32) -> (r: Result<u32, FrontierError>)
        requires
            old(self).wf(),
        ensures
            final(self).wf(),
            Self::same_upload(*old(self), *final(self)),
            not_after(old(self).committed_epoch_value(), epoch) ==> r == Err::<u32, FrontierError>(
                conflict(old(self).committed_epoch_value(), old(self).upload_epoch_value(), epoch),
            ),
            !not_after(old(self).committed_epoch_value(), epoch) && old(self).committed_seq().len()
                + handles@.len() > maximum ==> r == Err::<u32, FrontierError>(
                FrontierError::CountExceeded {
                    actual: saturated_count((old(self).committed_seq().len() + handles@.len()) as int),
                    maximum,
                },
            ),
            !not_after(old(self).committed_epoch_value(), epoch) && old(self).committed_seq().len()
                + handles@.len() <= maximum && clash_free(handles@, old(self).committed_seq()) ==> {
                &&& r == Ok::<u32, FrontierError>(handles@.len() as u32)
                &&& final(self).committed_seq() == old(self).committed_seq() + handles@
                &&& final(self).committed_epoch_value() == Some(epoch)
            },
            !not_after(old(self).committed_epoch_value(), epoch) && old(self).committed_seq().len()
                + handles@.len() <= maximum && !clash_free(handles@, old(self).committed_seq()) ==> exists|
                i: int,
            | #[trigger] first_clash(handles@, old(self).committed_seq(), i) && r == Err::<
                u32,
                FrontierError,
            >(FrontierError::DuplicateHandle(handles@[i])),
            r is Err ==> *final(self) == *old(self),
    {
        broadcast use vstd::std_specs::hash::group_hash_axioms;

        let stale = match self.committed_epoch {
            Some(committed) => epoch <= committed,
            None => false,
        };
        if stale {
            return Err(FrontierError::EpochConflict {
                committed: self.committed_epoch,
                uploading: self.upload_epoch,
                requested: epoch,
            });
        }
        let projected = (self.committed.len() as u64).saturating_add(handles.len() as u64);
        if projected > maximum as u64 {
            let actual = if projected > u32::MAX as u64 {
                u32::MAX
            } else {
                projected as u32
            };
            return Err(FrontierError::CountExceeded { actual, maximum });
        }
        let mut incoming: HashSet<u64> = HashSet::new();
        let mut index: usize = 0;
        while index < handles.len()
            invariant
                *self == *old(self),
                self.wf(),
                !not_after(self.committed_epoch, epoch),
                self.committed@.len() + handles@.len() <= maximum,
                index <= handles@.len(),
                handles@.take(index as int).no_duplicates(),
                forall|j: int| 0 <= j < index ==> !self.committed@.contains(#[trigger] handles@[j]),
                forall|h: TurfHandle| #[trigger] incoming@.contains(key_of(h)) == handles@.take(
                    index as int,
                ).contains(h),
            decreases handles@.len() - index,
        {
            let handle = handles[index];
            let key = handle_key(handle);
            proof {
                lemma_take_push_contains(handles@, index as int, handle);
            }
            if self.committed_set.contains(&key) {
                proof {
                    assert(self.committed@.contains(handle));
                    assert(first_clash(handles@, self.committed@, index as int));
                }
                return Err(FrontierError::DuplicateHandle(handle));
            }
            let ghost incoming_before = incoming@;
            if !incoming.insert(key) {
                proof {
                    assert(first_clash(handles@, self.committed@, index as int));
                }
                return Err(FrontierError::DuplicateHandle(handle));
            }
            proof {
                assert forall|h: TurfHandle| #[trigger] incoming@.contains(key_of(h)) == handles@.take(
                    index as int + 1,
                ).contains(h) by {
                    lemma_key_injective(h, handle);
                    lemma_take_push_contains(handles@, index as int, h);
                    assert(incoming_before.contains(key_of(h)) == handles@.take(index as int).contains(h));
                }
                let grown = handles@.take(index as int + 1);
                assert forall|a: int, b: int| 0 <= a < grown.len() && 0 <= b < grown.len() && a != b implies #[trigger] grown[a]
                    != #[trigger] grown[b] by {
                    if b == index {
                        assert(handles@.take(index as int)[a] == grown[a]);
                    } else if a == index {
                        assert(handles@.take(index as int)[b] == grown[b]);
                    }
                }
            }
            index += 1;
        }
        proof {
            assert(handles@.take(index as int) =~= handles@);
        }
        let ghost before = *self;
        let mut added: usize = 0;
        while added < handles.len()
            invariant
                before.wf(),
                added <= handles@.len(),
                before.committed@.len() + handles@.len() <= maximum,
                clash_free(handles@, before.committed@),
                self.committed@ == before.committed@ + handles@.take(added as int),
                forall|h: TurfHandle| #[trigger] self.committed_set@.contains(key_of(h)) == self.committed@.contains(h),
                self.upload_epoch == before.upload_epoch,
                self.upload_expected == before.upload_expected,
                self.upload_received == before.upload_received,
                self.staging == before.staging,
                self.received_bits == before.received_bits,
                self.committed_epoch == before.committed_epoch,
            decreases handles@.len() - added,
        {
            let handle = handles[added];
            let ghost committed_before = self.committed@;
            let ghost set_before = self.committed_set@;
            self.committed.push(handle);
            self.committed_set.insert(handle_key(handle));
            proof {
                assert(handles@.take(added as int + 1) =~= handles@.take(added as int).push(handle));
                assert(self.committed@ =~= committed_before.push(handle));
                assert forall|h: TurfHandle| #[trigger] self.committed_set@.contains(key_of(h))
                    == self.committed@.contains(h) by {
                    lemma_key_injective(h, handle);
                    assert(set_before.contains(key_of(h)) == committed_before.contains(h));
                    if self.committed@.contains(h) && h != handle {
                        let j = choose|j: int| 0 <= j < self.committed@.len() && #[trigger] self.committed@[j] == h;
                        assert(committed_before[j] == h);
                    }
                    if committed_before.contains(h) {
                        let j = choose|j: int| 0 <= j < committed_before.len() && #[trigger] committed_before[j] == h;
                        assert(self.committed@[j] == h);
                    }
                    if h == handle {
                        assert(self.committed@[committed_before.len() as int] == h);
                    }
                }
            }
            added += 1;
        }
        proof {
            assert(handles@.take(added as int) =~= handles@);
        }
        self.committed_epoch = Some(epoch);
        Ok(handles.len() as u32)
    }
}

impl FrontierState {
    /// Removes every committed occurrence of each of `handles` at `epoch`, which must be newer
    /// than the committed epoch. Handles that are not committed are ignored. Returns the number
    /// of handles removed.
    pub fn remove(&mut self, epoch: u64, handles: &[TurfHandle]) -> (r: Result<u32, FrontierError>)
        requires
            old(self).wf(),
        ensures
            final(self).wf(),
            Self::same_upload(*old(self), *final(self)),
            not_after(old(self).committed_epoch_value(), epoch) ==> r == Err::<u32, FrontierError>(
                conflict(old(self).committed_epoch_value(), old(self).upload_epoch_value(), epoch),
            ) && *final(self) == *old(self),
            !not_after(old(self).committed_epoch_value(), epoch) ==> {
                &&& final(self).committed_seq() == old(self).committed_seq().filter(kept_by(handles@))
                &&& final(self).committed_epoch_value() == Some(epoch)
                &&& r == Ok::<u32, FrontierError>(
                    (old(self).committed_seq().len() - final(self).committed_seq().len()) as u32,
                )
            },
    {
        broadcast use vstd::std_specs::hash::group_hash_axioms;

        let stale = match self.committed_epoch {
            Some(committed) => epoch <= committed,
            None => false,
        };
        if stale {
            return Err(FrontierError::EpochConflict {
                committed: self.committed_epoch,
                uploading: self.upload_epoch,
                requested: epoch,
            });
        }
        let mut removing: HashSet<u64> = HashSet::new();
        let mut collected: usize = 0;
        while collected < handles.len()
            invariant
                collected <= handles@.len(),
                forall|h: TurfHandle| #[trigger] removing@.contains(key_of(h)) == handles@.take(
                    collected as int,
                ).contains(h),
            decreases handles@.len() - collected,
        {
            let handle = handles[collected];
            let ghost removing_before = removing@;
            removing.insert(handle_key(handle));
            proof {
                assert forall|h: TurfHandle| #[trigger] removing@.contains(key_of(h)) == handles@.take(
                    collected as int + 1,
                ).contains(h) by {
                    lemma_key_injective(h, handle);
                    lemma_take_push_contains(handles@, collected as int, h);
                    assert(removing_before.contains(key_of(h)) == handles@.take(collected as int).contains(h));
                }
            }
            collected += 1;
        }
        proof {
            assert(handles@.take(collected as int) =~= handles@);
        }
        let ghost keep = kept_by(handles@);
        let before = self.committed.len();
        let mut kept: Vec<TurfHandle> = Vec::new();
        let mut index: usize = 0;
        while index < self.committed.len()
            invariant
                old(self).wf(),
                self.committed == old(self).committed,
                self.staging == old(self).staging,
                self.received_bits == old(self).received_bits,
                self.upload_epoch == old(self).upload_epoch,
                self.upload_expected == old(self).upload_expected,
                self.upload_received == old(self).upload_received,
                self.committed_epoch == old(self).committed_epoch,
                keep == kept_by(handles@),
                index <= self.committed@.len(),
                forall|h: TurfHandle| #[trigger] removing@.contains(key_of(h)) == handles@.contains(h),
                kept@ == self.committed@.take(index as int).filter(keep),
                forall|h: TurfHandle| #[trigger] self.committed_set@.contains(key_of(h)) == (
                self.committed@.contains(h) && !(handles@.contains(h) && self.committed@.take(
                    index as int,
                ).contains(h))),
            decreases self.committed@.len() - index,
        {
            let handle = self.committed[index];
            let key = handle_key(handle);
            let ghost set_before = self.committed_set@;
            proof {
                let longer = self.committed@.take(index as int + 1);
                assert(longer =~= self.committed@.take(index as int).push(handle));
                self.committed@.take(index as int).lemma_filter_push(handle, keep);
                assert(keep(handle) == !handles@.contains(handle));
            }
            if removing.contains(&key) {
                self.committed_set.remove(&key);
            } else {
                kept.push(handle);
            }
            proof {
                assert forall|h: TurfHandle| #[trigger] self.committed_set@.contains(key_of(h)) == (
                self.committed@.contains(h) && !(handles@.contains(h) && self.committed@.take(
                    index as int + 1,
                ).contains(h))) by {
                    lemma_key_injective(h, handle);
                    lemma_take_push_contains(self.committed@, index as int, h);
                    assert(set_before.contains(key_of(h)) == (self.committed@.contains(h) && !(
                    handles@.contains(h) && self.committed@.take(index as int).contains(h))));
                    assert(removing@.contains(key_of(h)) == handles@.contains(h));
                    assert(self.committed@.contains(handle)) by {
                        assert(self.committed@[index as int] == handle);
                    }
                }
            }
            index += 1;
        }
        proof {
            assert(self.committed@.take(index as int) =~= self.committed@);
            self.committed@.lemma_filter_len(keep);
            assert forall|h: TurfHandle| #[trigger] self.committed_set@.contains(key_of(h)) == kept@.contains(h) by {
                lemma_filter_membership(self.committed@, keep, h);
            }
        }
        let remaining = kept.len();
        self.committed = kept;
        self.committed_epoch = Some(epoch);
        Ok((before - remaining) as u32)
    }
}

/// Removing handles that were just added gives back the frontier from before the addition:
/// when `add` accepts `handles` (none committed, none repeated), filtering them out of the
/// extended frontier yields the original committed sequence.
pub proof fn lemma_add_then_remove_restores(committed: Seq<TurfHandle>, handles: Seq<TurfHandle>)
    requires
        clash_free(handles, committed),
    ensures
        (committed + handles).filter(kept_by(handles)) == committed,
{
    lemma_filter_prefix_kept(committed, handles, handles);
}

/// Filtering out `handles` from `committed` followed by a prefix of `handles` leaves
/// `committed`.
proof fn lemma_filter_prefix_kept(committed: Seq<TurfHandle>, shorter: Seq<TurfHandle>, handles: Seq<TurfHandle>)
    requires
        clash_free(handles, committed),
        shorter.len() <= handles.len(),
        forall|j: int| 0 <= j < shorter.len() ==> #[trigger] shorter[j] == handles[j],
    ensures
        (committed + shorter).filter(kept_by(handles)) == committed,
    decreases shorter.len(),
{
    let keep = kept_by(handles);
    if shorter.len() == 0 {
        assert(committed + shorter =~= committed);
        lemma_filter_all_kept(committed, keep);
    } else {
        let rest = shorter.drop_last();
        let last = shorter.last();
        assert(committed + shorter =~= (committed + rest).push(last));
        (committed + rest).lemma_filter_push(last, keep);
        assert(handles[shorter.len() - 1] == last);
        assert(handles.contains(last));
        lemma_filter_prefix_kept(committed, rest, handles);
    }
}

/// A filter that keeps every element of `s` returns `s`.
proof fn lemma_filter_all_kept(s: Seq<TurfHandle>, keep: spec_fn(TurfHandle) -> bool)
    requires
        forall|i: int| 0 <= i < s.len() ==> keep(#[trigger] s[i]),
    ensures
        s.filter(keep) == s,
    decreases s.len(),
{
    if s.len() > 0 {
        let rest = s.drop_last();
        assert(s =~= rest.push(s.last()));
        rest.lemma_filter_push(s.last(), keep);
        assert(keep(s[s.len() - 1]));
        assert forall|i: int| 0 <= i < rest.len() implies keep(#[trigger] rest[i]) by {
            assert(rest[i] == s[i]);
        }
        lemma_filter_all_kept(rest, keep);
    } else {
        assert(s.filter(keep) =~= s) by {
            reveal(Seq::filter);
        }
    }
}

} // verus!
