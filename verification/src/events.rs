//! The queue of events waiting for game code: a stage adds its events only when the queue
//! then stays within its capacity, and game code reads, takes or discards them from the front.
use vstd::prelude::*;

use crate::world::WorldError;

verus! {

/// `n`, or `u32::MAX` when `n` does not fit in a `u32`.
pub open spec fn clamp_u32(n: int) -> u32 {
    if n > u32::MAX {
        u32::MAX
    } else {
        n as u32
    }
}

/// `n` as a `u32`, saturating at `u32::MAX`.
fn saturate_u32(n: usize) -> (r: u32)
    ensures
        r == clamp_u32(n as int),
{
    if n > u32::MAX as usize {
        u32::MAX
    } else {
        n as u32
    }
}

/// Events waiting for game code, oldest first.
pub struct EventQueue<T> {
    events: Vec<T>,
}

impl<T> EventQueue<T> {
    /// The waiting events, oldest first.
    pub closed spec fn pending(self) -> Seq<T> {
        self.events@
    }

    /// An empty queue.
    pub fn new() -> (r: Self)
        ensures
            r.pending() == Seq::<T>::empty(),
    {
        EventQueue { events: Vec::new() }
    }

    /// Number of waiting events.
    pub fn len(&self) -> (r: usize)
        ensures
            r == self.pending().len(),
    {
        self.events.len()
    }

    /// Adds the events of `staged` after the waiting ones, when the queue then holds at most
    /// `capacity` events; otherwise refuses, reporting both counts (each saturated to a
    /// `u32`, the requested count first saturated to a `usize`) and changing nothing.
    pub fn enqueue_staged(&mut self, staged: &mut Vec<T>, capacity: usize) -> (r: Result<(), WorldError>)
        ensures
            ({
                let requested = if old(self).pending().len() + old(staged)@.len() > usize::MAX {
                    usize::MAX as int
                } else {
                    (old(self).pending().len() + old(staged)@.len()) as int
                };
                &&& requested > capacity ==> r == Err::<(), WorldError>(
                    WorldError::EventCapacityExceeded {
                        requested: clamp_u32(requested),
                        capacity: clamp_u32(capacity as int),
                    },
                ) && final(self).pending() == old(self).pending() && final(staged)@ == old(staged)@
                &&& requested <= capacity ==> r == Ok::<(), WorldError>(()) && final(self).pending() == old(self).pending() + old(staged)@ && final(staged)@ == Seq::<T>::empty()
            }),
    {
        let requested = self.events.len().saturating_add(staged.len());
        if requested > capacity {
            return Err(
                WorldError::EventCapacityExceeded {
                    requested: saturate_u32(requested),
                    capacity: saturate_u32(capacity),
                },
            );
        }
        self.events.append(staged);
        Ok(())
    }

    /// The oldest `maximum` waiting events, or all of them when fewer wait.
    pub fn pending_events(&self, maximum: u32) -> (r: &[T])
        ensures
            r@ == self.pending().take(
                if self.pending().len() < maximum {
                    self.pending().len() as int
                } else {
                    maximum as int
                },
            ),
    {
        let count = if self.events.len() < maximum as usize {
            self.events.len()
        } else {
            maximum as usize
        };
        vstd::slice::slice_subrange(self.events.as_slice(), 0, count)
    }

    /// Moves the oldest `maximum` waiting events, or all of them when fewer wait, into
    /// `output`, replacing what it held, and returns how many moved.
    pub fn drain_events_into(&mut self, maximum: u32, output: &mut Vec<T>) -> (r: u32)
        ensures
            r == if old(self).pending().len() < maximum {
                old(self).pending().len()
            } else {
                maximum as nat
            },
            final(output)@ == old(self).pending().take(r as int),
            final(self).pending() == old(self).pending().skip(r as int),
    {
        let count = if self.events.len() < maximum as usize {
            self.events.len()
        } else {
            maximum as usize
        };
        let mut rest = self.events.split_off(count);
        std::mem::swap(&mut self.events, &mut rest);
        output.clear();
        output.append(&mut rest);
        proof {
            assert(output@ =~= old(self).events@.take(count as int));
            assert(self.events@ =~= old(self).events@.skip(count as int));
        }
        count as u32
    }

    /// Drops the oldest `count` waiting events; refused, changing nothing, when fewer wait.
    pub fn discard_pending_events(&mut self, count: u32) -> (r: Result<(), WorldError>)
        ensures
            count > old(self).pending().len() ==> r == Err::<(), WorldError>(
                WorldError::PendingEventCountExceeded {
                    requested: count,
                    available: clamp_u32(old(self).pending().len() as int),
                },
            ) && final(self).pending() == old(self).pending(),
            count <= old(self).pending().len() ==> r == Ok::<(), WorldError>(()) && final(self).pending() == old(self).pending().skip(count as int),
    {
        let available = self.events.len();
        if count as usize > available {
            return Err(WorldError::PendingEventCountExceeded { requested: count, available: saturate_u32(available) });
        }
        let rest = self.events.split_off(count as usize);
        self.events = rest;
        proof {
            assert(self.events@ =~= old(self).events@.skip(count as int));
        }
        Ok(())
    }
}

} // verus!
