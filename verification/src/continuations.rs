//! The table of reactions waiting for game code: generation-checked slots, reused through a
//! free list, each holding a pending continuation or nothing. A token names a slot and the
//! generation the continuation was stored under, so a token outlives neither its completion
//! nor the slot's reuse.
use vstd::prelude::*;

use crate::world::{ReactionContinuationToken, WorldError};

verus! {

/// A pending reaction: the mixture slot it works on, the turf slot it belongs to, if any, and
/// what the engine keeps for resuming it.
#[derive(Clone, Debug)]
pub struct Continuation<C> {
    pub mixture_slot: u32,
    pub turf_slot: Option<u32>,
    pub payload: C,
}

/// One slot of the table.
#[derive(Clone, Debug)]
pub struct ContinuationSlot<C> {
    pub generation: u32,
    pub continuation: Option<Continuation<C>>,
}

/// Pending continuations, with the slots free for reuse and the most that may be pending.
pub struct ContinuationTable<C> {
    slots: Vec<ContinuationSlot<C>>,
    free: Vec<u32>,
    max_continuations: u32,
}

/// Number of slots of `slots` that hold a continuation.
pub open spec fn pending_count<C>(slots: Seq<ContinuationSlot<C>>) -> nat
    decreases slots.len(),
{
    if slots.len() == 0 {
        0
    } else {
        pending_count(slots.drop_last()) + if slots.last().continuation is Some {
            1nat
        } else {
            0nat
        }
    }
}

/// Whether the continuation in `slot`, if any, is one that `owner` names: it works on mixture
/// slot `owner` when `mixture`, or belongs to turf slot `owner` otherwise.
pub open spec fn owned_by<C>(slot: ContinuationSlot<C>, owner: u32, mixture: bool) -> bool {
    match slot.continuation {
        Some(c) => if mixture {
            c.mixture_slot == owner
        } else {
            c.turf_slot == Some(owner)
        },
        None => false,
    }
}

/// The slots among the first `n` of `slots` whose continuation `owner` names, in slot order.
pub open spec fn owned_slots<C>(slots: Seq<ContinuationSlot<C>>, owner: u32, mixture: bool, n: int) -> Seq<u32>
    decreases n,
{
    if n <= 0 {
        Seq::empty()
    } else if owned_by(slots[n - 1], owner, mixture) {
        owned_slots(slots, owner, mixture, n - 1).push((n - 1) as u32)
    } else {
        owned_slots(slots, owner, mixture, n - 1)
    }
}

/// `slots` with every continuation that `owner` names dropped, generations kept.
pub open spec fn without_owned<C>(slots: Seq<ContinuationSlot<C>>, owner: u32, mixture: bool) -> Seq<ContinuationSlot<C>> {
    Seq::new(
        slots.len(),
        |i: int|
            if owned_by(slots[i], owner, mixture) {
                ContinuationSlot { generation: slots[i].generation, continuation: None }
            } else {
                slots[i]
            },
    )
}

/// Why `token` does not name a pending continuation of `slots`, if it does not.
pub open spec fn token_refusal<C>(slots: Seq<ContinuationSlot<C>>, token: ReactionContinuationToken) -> Option<
    WorldError,
> {
    if token.slot >= slots.len() {
        Some(WorldError::UnknownReactionContinuation(token))
    } else if slots[token.slot as int].generation != token.generation {
        Some(WorldError::StaleReactionContinuation { requested: token, current: slots[token.slot as int].generation })
    } else if slots[token.slot as int].continuation is None {
        Some(WorldError::UnknownReactionContinuation(token))
    } else {
        None
    }
}

impl<C> ContinuationTable<C> {
    /// The slots, in order.
    pub closed spec fn entries(self) -> Seq<ContinuationSlot<C>> {
        self.slots@
    }

    /// The free slots, in the order they are reused from the back.
    pub closed spec fn free_slots(self) -> Seq<u32> {
        self.free@
    }

    /// The most continuations that may be pending when a new slot is needed.
    pub closed spec fn limit(self) -> u32 {
        self.max_continuations
    }

    /// Every free slot exists, holds nothing, and is listed once; slot numbers fit a `u32`.
    pub closed spec fn wf(self) -> bool {
        &&& self.slots@.len() <= u32::MAX as nat + 1
        &&& forall|k: int|
            0 <= k < self.free@.len() ==> (#[trigger] self.free@[k] as int) < self.slots@.len()
                && self.slots@[self.free@[k] as int].continuation is None
        &&& self.free@.no_duplicates()
    }

    /// An empty table that allows at most `max_continuations` pending continuations when it
    /// has to grow.
    pub fn new(max_continuations: u32) -> (r: Self)
        ensures
            r.wf(),
            r.entries() == Seq::<ContinuationSlot<C>>::empty(),
            r.free_slots() == Seq::<u32>::empty(),
            r.limit() == max_continuations,
    {
        ContinuationTable { slots: Vec::new(), free: Vec::new(), max_continuations }
    }

    /// Number of pending continuations.
    pub fn pending_reaction_continuations(&self) -> (r: u32)
        ensures
            r == if pending_count(self.entries()) > u32::MAX {
                u32::MAX as nat
            } else {
                pending_count(self.entries())
            },
    {
        let mut count: u64 = 0;
        let mut i: usize = 0;
        while i < self.slots.len()
            invariant
                i <= self.slots@.len(),
                count == pending_count(self.slots@.take(i as int)),
                count <= i,
            decreases self.slots@.len() - i,
        {
            proof {
                assert(self.slots@.take(i + 1).drop_last() =~= self.slots@.take(i as int));
            }
            if self.slots[i].continuation.is_some() {
                count = count + 1;
            }
            i += 1;
        }
        proof {
            assert(self.slots@.take(i as int) =~= self.slots@);
        }
        if count > u32::MAX as u64 {
            u32::MAX
        } else {
            count as u32
        }
    }

    /// Checks that `token` names a pending continuation, as [`token_refusal`] describes, and
    /// returns it.
    pub fn require(&self, token: ReactionContinuationToken) -> (r: Result<&Continuation<C>, WorldError>)
        ensures
            match token_refusal(self.entries(), token) {
                Some(e) => r matches Err(x) && x == e,
                None => r matches Ok(c) && Some(*c) == self.entries()[token.slot as int].continuation,
            },
    {
        if token.slot as usize >= self.slots.len() {
            return Err(WorldError::UnknownReactionContinuation(token));
        }
        let slot = &self.slots[token.slot as usize];
        if slot.generation != token.generation {
            return Err(WorldError::StaleReactionContinuation { requested: token, current: slot.generation });
        }
        match &slot.continuation {
            Some(c) => Ok(c),
            None => Err(WorldError::UnknownReactionContinuation(token)),
        }
    }

    /// Stores a new pending continuation: in the most recently freed slot, under the next
    /// generation, or else in a new slot under generation 1 when fewer than the limit are
    /// pending. Taking a free slot whose generation cannot advance, or growing past the limit
    /// or the slot numbers, is refused; the free slot taken stays out of the free list.
    pub fn allocate(&mut self, continuation: Continuation<C>) -> (r: Result<ReactionContinuationToken, WorldError>)
        requires
            old(self).wf(),
        ensures
            final(self).wf(),
            final(self).limit() == old(self).limit(),
            old(self).free_slots().len() > 0 ==> {
                let s = old(self).free_slots().last();
                let g = old(self).entries()[s as int].generation;
                &&& final(self).free_slots() == old(self).free_slots().drop_last()
                &&& g == u32::MAX ==> r == Err::<ReactionContinuationToken, WorldError>(
                    WorldError::ReactionContinuationCapacityExceeded,
                ) && final(self).entries() == old(self).entries()
                &&& g < u32::MAX ==> r == Ok::<ReactionContinuationToken, WorldError>(
                    ReactionContinuationToken { slot: s, generation: (g + 1) as u32 },
                ) && final(self).entries() == old(self).entries().update(
                    s as int,
                    ContinuationSlot { generation: (g + 1) as u32, continuation: Some(continuation) },
                )
            },
            old(self).free_slots().len() == 0 ==> {
                &&& final(self).free_slots() == old(self).free_slots()
                &&& if pending_count(old(self).entries()) >= old(self).limit() || old(self).entries().len()
                    > u32::MAX {
                    r == Err::<ReactionContinuationToken, WorldError>(WorldError::ReactionContinuationCapacityExceeded)
                        && final(self).entries() == old(self).entries()
                } else {
                    r == Ok::<ReactionContinuationToken, WorldError>(
                        ReactionContinuationToken { slot: old(self).entries().len() as u32, generation: 1 },
                    ) && final(self).entries() == old(self).entries().push(
                        ContinuationSlot { generation: 1, continuation: Some(continuation) },
                    )
                }
            },
    {
        if let Some(slot) = self.free.pop() {
            proof {
                assert(old(self).free@.last() == slot);
                assert(old(self).free@[old(self).free@.len() - 1] == slot);
            }
            let generation = self.slots[slot as usize].generation;
            if generation == u32::MAX {
                proof {
                    assert forall|k: int| 0 <= k < self.free@.len() implies (#[trigger] self.free@[k] as int)
                        < self.slots@.len() && self.slots@[self.free@[k] as int].continuation is None by {
                        assert(self.free@[k] == old(self).free@[k]);
                    }
                }
                return Err(WorldError::ReactionContinuationCapacityExceeded);
            }
            let next = generation + 1;
            self.slots.set(slot as usize, ContinuationSlot { generation: next, continuation: Some(continuation) });
            proof {
                assert forall|k: int| 0 <= k < self.free@.len() implies (#[trigger] self.free@[k] as int)
                    < self.slots@.len() && self.slots@[self.free@[k] as int].continuation is None by {
                    assert(self.free@[k] == old(self).free@[k]);
                    assert(old(self).free@[k] != old(self).free@[old(self).free@.len() - 1]);
                }
            }
            return Ok(ReactionContinuationToken { slot, generation: next });
        }
        if self.pending_reaction_continuations() >= self.max_continuations {
            return Err(WorldError::ReactionContinuationCapacityExceeded);
        }
        if self.slots.len() > u32::MAX as usize {
            return Err(WorldError::ReactionContinuationCapacityExceeded);
        }
        let slot = self.slots.len() as u32;
        self.slots.push(ContinuationSlot { generation: 1, continuation: Some(continuation) });
        Ok(ReactionContinuationToken { slot, generation: 1 })
    }

    /// Replaces the continuation that `token` names with `continuation`, under the next
    /// generation of its slot, and returns the new token.
    pub fn rotate(&mut self, token: ReactionContinuationToken, continuation: Continuation<C>) -> (r: Result<
        ReactionContinuationToken,
        WorldError,
    >)
        requires
            old(self).wf(),
        ensures
            final(self).wf(),
            final(self).limit() == old(self).limit(),
            final(self).free_slots() == old(self).free_slots(),
            token_refusal(old(self).entries(), token) matches Some(e) ==> r == Err::<ReactionContinuationToken, WorldError>(
                e,
            ) && final(self).entries() == old(self).entries(),
            token_refusal(old(self).entries(), token) is None && token.generation == u32::MAX ==> r == Err::<
                ReactionContinuationToken,
                WorldError,
            >(WorldError::ReactionContinuationCapacityExceeded) && final(self).entries() == old(self).entries(),
            token_refusal(old(self).entries(), token) is None && token.generation < u32::MAX ==> r == Ok::<
                ReactionContinuationToken,
                WorldError,
            >(ReactionContinuationToken { slot: token.slot, generation: (token.generation + 1) as u32 })
                && final(self).entries() == old(self).entries().update(
                token.slot as int,
                ContinuationSlot { generation: (token.generation + 1) as u32, continuation: Some(continuation) },
            ),
    {
        if let Err(e) = self.require(token) {
            return Err(e);
        }
        if token.generation == u32::MAX {
            return Err(WorldError::ReactionContinuationCapacityExceeded);
        }
        let next = token.generation + 1;
        self.slots.set(token.slot as usize, ContinuationSlot { generation: next, continuation: Some(continuation) });
        Ok(ReactionContinuationToken { slot: token.slot, generation: next })
    }

    /// Ends the continuation that `token` names and frees its slot.
    pub fn complete(&mut self, token: ReactionContinuationToken) -> (r: Result<(), WorldError>)
        requires
            old(self).wf(),
        ensures
            final(self).wf(),
            final(self).limit() == old(self).limit(),
            token_refusal(old(self).entries(), token) matches Some(e) ==> r == Err::<(), WorldError>(e)
                && final(self).entries() == old(self).entries() && final(self).free_slots() == old(self).free_slots(),
            token_refusal(old(self).entries(), token) is None ==> r == Ok::<(), WorldError>(()) && final(self).entries() == old(self).entries().update(
                token.slot as int,
                ContinuationSlot { generation: token.generation, continuation: None },
            ) && final(self).free_slots() == old(self).free_slots().push(token.slot),
    {
        if let Err(e) = self.require(token) {
            return Err(e);
        }
        let ghost before = *self;
        self.slots.set(token.slot as usize, ContinuationSlot { generation: token.generation, continuation: None });
        self.free.push(token.slot);
        proof {
            assert forall|k: int| 0 <= k < self.free@.len() implies (#[trigger] self.free@[k] as int) < self.slots@.len()
                && self.slots@[self.free@[k] as int].continuation is None by {
                if k < before.free@.len() {
                    assert(self.free@[k] == before.free@[k]);
                }
            }
            assert forall|i: int, j: int|
                0 <= i < self.free@.len() && 0 <= j < self.free@.len() && i != j implies self.free@[i] != self.free@[j] by {
                if i < before.free@.len() && j < before.free@.len() {
                    assert(self.free@[i] == before.free@[i] && self.free@[j] == before.free@[j]);
                } else if i < before.free@.len() {
                    assert(self.free@[i] == before.free@[i]);
                    assert(before.slots@[before.free@[i] as int].continuation is None);
                } else {
                    assert(self.free@[j] == before.free@[j]);
                    assert(before.slots@[before.free@[j] as int].continuation is None);
                }
            }
        }
        Ok(())
    }

    /// Ends every continuation that `owner` names (working on mixture slot `owner` when
    /// `mixture`, belonging to turf slot `owner` otherwise) and frees their slots, in slot
    /// order.
    fn invalidate_owned(&mut self, owner: u32, mixture: bool)
        requires
            old(self).wf(),
        ensures
            final(self).wf(),
            final(self).limit() == old(self).limit(),
            final(self).entries() == without_owned(old(self).entries(), owner, mixture),
            final(self).free_slots() == old(self).free_slots() + owned_slots(
                old(self).entries(),
                owner,
                mixture,
                old(self).entries().len() as int,
            ),
    {
        let ghost before = *self;
        let mut i: usize = 0;
        while i < self.slots.len()
            invariant
                before.wf(),
                i <= self.slots@.len(),
                self.slots@.len() == before.slots@.len(),
                self.max_continuations == before.max_continuations,
                forall|k: int|
                    0 <= k < self.slots@.len() ==> #[trigger] self.slots@[k] == if k < i {
                        without_owned(before.slots@, owner, mixture)[k]
                    } else {
                        before.slots@[k]
                    },
                self.free@ == before.free@ + owned_slots(before.slots@, owner, mixture, i as int),
                forall|k: int|
                    0 <= k < owned_slots(before.slots@, owner, mixture, i as int).len() ==> (#[trigger] owned_slots(
                        before.slots@,
                        owner,
                        mixture,
                        i as int,
                    )[k] as int) < i && owned_by(before.slots@[owned_slots(before.slots@, owner, mixture, i as int)[k] as int], owner, mixture),
                owned_slots(before.slots@, owner, mixture, i as int).no_duplicates(),
            decreases self.slots@.len() - i,
        {
            let owned = match &self.slots[i].continuation {
                Some(c) => if mixture {
                    c.mixture_slot == owner
                } else {
                    match c.turf_slot {
                        Some(t) => t == owner,
                        None => false,
                    }
                },
                None => false,
            };
            let ghost prefix = owned_slots(before.slots@, owner, mixture, i as int);
            proof {
                assert(self.slots@[i as int] == before.slots@[i as int]);
                assert(owned == owned_by(before.slots@[i as int], owner, mixture));
            }
            if owned {
                let generation = self.slots[i].generation;
                self.slots.set(i, ContinuationSlot { generation, continuation: None });
                self.free.push(i as u32);
            }
            proof {
                let next = owned_slots(before.slots@, owner, mixture, i + 1);
                assert forall|k: int| 0 <= k < next.len() implies (#[trigger] next[k] as int) < i + 1 && owned_by(
                    before.slots@[next[k] as int],
                    owner,
                    mixture,
                ) by {
                    if k < prefix.len() {
                        assert(next[k] == prefix[k]);
                    }
                }
                assert forall|a: int, b: int| 0 <= a < next.len() && 0 <= b < next.len() && a != b implies next[a] != next[b] by {
                    if a < prefix.len() && b < prefix.len() {
                        assert(next[a] == prefix[a] && next[b] == prefix[b]);
                    } else if a < prefix.len() {
                        assert(next[a] == prefix[a]);
                    } else if b < prefix.len() {
                        assert(next[b] == prefix[b]);
                    }
                }
                assert(self.free@ =~= before.free@ + next);
            }
            i += 1;
        }
        proof {
            let added = owned_slots(before.slots@, owner, mixture, i as int);
            assert(self.slots@ =~= without_owned(before.slots@, owner, mixture));
            assert forall|k: int| 0 <= k < self.free@.len() implies (#[trigger] self.free@[k] as int) < self.slots@.len()
                && self.slots@[self.free@[k] as int].continuation is None by {
                if k < before.free@.len() {
                    assert(self.free@[k] == before.free@[k]);
                    let s = before.free@[k] as int;
                    assert(before.slots@[s].continuation is None);
                    assert(!owned_by(before.slots@[s], owner, mixture));
                } else {
                    assert(self.free@[k] == added[k - before.free@.len()]);
                }
            }
            assert forall|a: int, b: int| 0 <= a < self.free@.len() && 0 <= b < self.free@.len() && a != b implies self.free@[a]
                != self.free@[b] by {
                let n = before.free@.len();
                if a < n && b < n {
                    assert(self.free@[a] == before.free@[a] && self.free@[b] == before.free@[b]);
                } else if a >= n && b >= n {
                    assert(self.free@[a] == added[a - n] && self.free@[b] == added[b - n]);
                } else if a < n {
                    assert(self.free@[a] == before.free@[a] && self.free@[b] == added[b - n]);
                    assert(before.slots@[before.free@[a] as int].continuation is None);
                } else {
                    assert(self.free@[b] == before.free@[b] && self.free@[a] == added[a - n]);
                    assert(before.slots@[before.free@[b] as int].continuation is None);
                }
            }
        }
    }

    /// Ends every continuation working on mixture slot `mixture_slot` and frees their slots.
    pub fn invalidate_for_mixture_slot(&mut self, mixture_slot: u32)
        requires
            old(self).wf(),
        ensures
            final(self).wf(),
            final(self).limit() == old(self).limit(),
            final(self).entries() == without_owned(old(self).entries(), mixture_slot, true),
            final(self).entries().len() == old(self).entries().len(),
            forall|i: int|
                0 <= i < old(self).entries().len() ==> #[trigger] final(self).entries()[i] == match old(self).entries()[i].continuation {
                    Some(c) => if c.mixture_slot == mixture_slot {
                        ContinuationSlot { generation: old(self).entries()[i].generation, continuation: None }
                    } else {
                        old(self).entries()[i]
                    },
                    None => old(self).entries()[i],
                },
            final(self).free_slots() == old(self).free_slots() + owned_slots(
                old(self).entries(),
                mixture_slot,
                true,
                old(self).entries().len() as int,
            ),
    {
        self.invalidate_owned(mixture_slot, true);
        proof {
            lemma_invalidation_scope(old(self).entries(), mixture_slot, true);
        }
    }

    /// Ends every continuation belonging to turf slot `turf_slot` and frees their slots.
    pub fn invalidate_for_turf_slot(&mut self, turf_slot: u32)
        requires
            old(self).wf(),
        ensures
            final(self).wf(),
            final(self).limit() == old(self).limit(),
            final(self).entries() == without_owned(old(self).entries(), turf_slot, false),
            final(self).entries().len() == old(self).entries().len(),
            forall|i: int|
                0 <= i < old(self).entries().len() ==> #[trigger] final(self).entries()[i] == match old(self).entries()[i].continuation {
                    Some(c) => if c.turf_slot == Some(turf_slot) {
                        ContinuationSlot { generation: old(self).entries()[i].generation, continuation: None }
                    } else {
                        old(self).entries()[i]
                    },
                    None => old(self).entries()[i],
                },
            final(self).free_slots() == old(self).free_slots() + owned_slots(
                old(self).entries(),
                turf_slot,
                false,
                old(self).entries().len() as int,
            ),
    {
        self.invalidate_owned(turf_slot, false);
        proof {
            lemma_invalidation_scope(old(self).entries(), turf_slot, false);
        }
    }
}

/// Invalidation ends exactly the continuations its owner names and keeps every other slot:
/// for mixture slot `owner` (when `mixture`), those working on that mixture slot; for turf
/// slot `owner`, those belonging to that turf slot, so a continuation without a turf, or of
/// another turf, keeps its entry. Ended slots keep their generation.
pub proof fn lemma_invalidation_scope<C>(slots: Seq<ContinuationSlot<C>>, owner: u32, mixture: bool)
    ensures
        without_owned(slots, owner, mixture).len() == slots.len(),
        forall|i: int|
            0 <= i < slots.len() ==> #[trigger] without_owned(slots, owner, mixture)[i] == match slots[i].continuation {
                Some(c) => if (mixture && c.mixture_slot == owner) || (!mixture && c.turf_slot == Some(owner)) {
                    ContinuationSlot { generation: slots[i].generation, continuation: None }
                } else {
                    slots[i]
                },
                None => slots[i],
            },
{
}

/// A token names a pending continuation exactly when its slot exists, carries the token's
/// generation and holds a continuation; a slot of another generation is reported stale with
/// that generation, anything else unknown.
pub proof fn lemma_token_rules<C>(slots: Seq<ContinuationSlot<C>>, token: ReactionContinuationToken)
    ensures
        token_refusal(slots, token) is None <==> ((token.slot as int) < slots.len() && slots[token.slot as int].generation
            == token.generation && slots[token.slot as int].continuation is Some),
        (token.slot as int) < slots.len() && slots[token.slot as int].generation != token.generation ==> token_refusal(
            slots,
            token,
        ) == Some(
            WorldError::StaleReactionContinuation { requested: token, current: slots[token.slot as int].generation },
        ),
        !((token.slot as int) < slots.len() && slots[token.slot as int].generation != token.generation)
            && token_refusal(slots, token) is Some ==> token_refusal(slots, token) == Some(
            WorldError::UnknownReactionContinuation(token),
        ),
{
}

} // verus!
