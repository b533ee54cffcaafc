//! Tentative writes that become visible together. A [`Publication`] names a batch of staged
//! records; publishing it makes every record staged with it visible at once, and writing a
//! record directly while its batch is still pending conflicts the batch so that it can never
//! be published over the newer value.
//!
//! The publication states live in a [`PublicationLog`] that every record consults; a
//! `Publication` is a handle into that log.
use vstd::prelude::*;

verus! {

/// State of a publication that is neither published nor conflicted.
pub const PENDING: u8 = 0;

/// State of a publication whose staged records are visible.
pub const PUBLISHED: u8 = 1;

/// State of a publication that can no longer be published.
pub const CONFLICTED: u8 = 2;

/// The state of every publication issued so far, indexed by publication.
pub struct PublicationLog {
    states: Vec<u8>,
}

/// A handle naming one batch of staged records in a [`PublicationLog`].
#[derive(Clone, Copy, Debug, PartialEq, Eq)]
pub struct Publication {
    index: usize,
}

/// The log after settling a record that was staged as `staged`: a pending publication of
/// a record that is read or written directly becomes conflicted.
pub open spec fn settle<T>(states: Seq<u8>, staged: Option<(Publication, T)>) -> Seq<u8> {
    match staged {
        Some((p, _)) => if states[p.position()] == PENDING {
            states.update(p.position(), CONFLICTED)
        } else {
            states
        },
        None => states,
    }
}

impl Publication {
    /// Position of this publication in its log.
    pub closed spec fn position(self) -> int {
        self.index as int
    }

    /// Whether `self` and `other` name the same publication.
    pub fn same(&self, other: &Publication) -> (r: bool)
        ensures
            r == (*self == *other),
    {
        self.index == other.index
    }

    /// Issues a new pending publication in `log`.
    pub fn new(log: &mut PublicationLog) -> (r: Publication)
        ensures
            final(log).states() == old(log).states().push(PENDING),
            r.position() == old(log).states().len(),
    {
        let index = log.states.len();
        log.states.push(PENDING);
        Publication { index }
    }

    /// Publishes this batch if it is still pending; returns whether it was.
    pub fn publish(&self, log: &mut PublicationLog) -> (r: bool)
        requires
            old(log).issued(*self),
        ensures
            r == (old(log).states()[self.position()] == PENDING),
            final(log).states() == if r {
                old(log).states().update(self.position(), PUBLISHED)
            } else {
                old(log).states()
            },
    {
        if log.states[self.index] == PENDING {
            log.states.set(self.index, PUBLISHED);
            true
        } else {
            false
        }
    }

    /// Whether this batch has been published.
    pub fn visible(&self, log: &PublicationLog) -> (r: bool)
        requires
            log.issued(*self),
        ensures
            r == (log.states()[self.position()] == PUBLISHED),
    {
        log.states[self.index] == PUBLISHED
    }

    /// Marks this batch conflicted if it is still pending.
    pub fn invalidate(&self, log: &mut PublicationLog)
        requires
            old(log).issued(*self),
        ensures
            final(log).states() == if old(log).states()[self.position()] == PENDING {
                old(log).states().update(self.position(), CONFLICTED)
            } else {
                old(log).states()
            },
    {
        if log.states[self.index] == PENDING {
            log.states.set(self.index, CONFLICTED);
        }
    }
}

impl PublicationLog {
    /// The state of each issued publication.
    pub closed spec fn states(self) -> Seq<u8> {
        self.states@
    }

    /// Whether `p` was issued by this log.
    pub open spec fn issued(self, p: Publication) -> bool {
        0 <= p.position() < self.states().len()
    }

    /// A log with no publications.
    pub fn new() -> (r: Self)
        ensures
            r.states() == Seq::<u8>::empty(),
    {
        PublicationLog { states: Vec::new() }
    }
}

/// A record with a committed value and at most one staged candidate.
#[derive(Clone)]
pub struct Versioned<T> {
    current: Option<T>,
    pending: Option<(Publication, T)>,
}

impl<T> Versioned<T> {
    /// The committed value.
    pub closed spec fn current_value(self) -> Option<T> {
        self.current
    }

    /// The staged candidate and the publication it waits for.
    pub closed spec fn staged(self) -> Option<(Publication, T)> {
        self.pending
    }

    /// Whether the staged candidate, if any, waits for a publication issued by a log with
    /// the given states.
    pub open spec fn staged_in(self, states: Seq<u8>) -> bool {
        self.staged() matches Some((p, _)) ==> 0 <= p.position() < states.len()
    }

    /// The value a reader sees when the publications are in `states`: the staged candidate
    /// once its publication is published, the committed value otherwise.
    pub open spec fn read(self, states: Seq<u8>) -> Option<T> {
        match self.staged() {
            Some((p, candidate)) => if states[p.position()] == PUBLISHED {
                Some(candidate)
            } else {
                self.current_value()
            },
            None => self.current_value(),
        }
    }

    /// Whether the staged candidate already waits for `publication`.
    pub open spec fn staged_for(self, publication: Publication) -> bool {
        self.staged() matches Some((p, _)) && p == publication
    }

    /// A record holding `current` with nothing staged.
    pub fn new(current: Option<T>) -> (r: Self)
        ensures
            r.current_value() == current,
            r.staged() is None,
    {
        Versioned { current, pending: None }
    }

    /// The value a reader sees now.
    pub fn as_ref<'a>(&'a self, log: &PublicationLog) -> (r: Option<&'a T>)
        requires
            self.staged_in(log.states()),
        ensures
            match r {
                Some(value) => self.read(log.states()) == Some(*value),
                None => self.read(log.states()) is None,
            },
    {
        if let Some(entry) = &self.pending {
            if entry.0.visible(log) {
                return Some(&entry.1);
            }
        }
        self.current.as_ref()
    }

    /// Settles the staged candidate (a published candidate becomes the committed value, an
    /// unpublished one is dropped and its publication conflicted) and gives write access to
    /// the committed value.
    pub fn as_mut<'a>(&'a mut self, log: &mut PublicationLog) -> (r: Option<&'a mut T>)
        requires
            old(self).staged_in(old(log).states()),
        ensures
            final(self).staged() is None,
            final(log).states() == settle(old(log).states(), old(self).staged()),
            match r {
                Some(value) => {
                    &&& old(self).read(old(log).states()) == Some(*value)
                    &&& final(self).current_value() == Some(*final(value))
                },
                None => {
                    &&& old(self).read(old(log).states()) is None
                    &&& final(self).current_value() is None
                },
            },
    {
        if let Some(entry) = self.pending.take() {
            let (publication, candidate) = entry;
            if publication.visible(log) {
                self.current = Some(candidate);
            } else {
                publication.invalidate(log);
            }
        }
        self.current.as_mut()
    }

    /// Whether a reader sees a value.
    pub fn is_some(&self, log: &PublicationLog) -> (r: bool)
        requires
            self.staged_in(log.states()),
        ensures
            r == self.read(log.states()) is Some,
    {
        self.as_ref(log).is_some()
    }

    /// Whether a reader sees no value.
    pub fn is_none(&self, log: &PublicationLog) -> (r: bool)
        requires
            self.staged_in(log.states()),
        ensures
            r == self.read(log.states()) is None,
    {
        self.as_ref(log).is_none()
    }

    /// Stages `candidate` for `publication`. A candidate already staged for the same
    /// publication is replaced; one staged for another publication is settled first, as by
    /// [`Self::as_mut`].
    pub fn stage(&mut self, candidate: T, publication: &Publication, log: &mut PublicationLog)
        requires
            old(self).staged_in(old(log).states()),
            old(log).issued(*publication),
        ensures
            final(self).staged() == Some((*publication, candidate)),
            old(self).staged() matches Some((p, _)) && p == *publication ==> {
                &&& final(self).current_value() == old(self).current_value()
                &&& final(log).states() == old(log).states()
            },
            !(old(self).staged() matches Some((p, _)) && p == *publication) ==> {
                &&& final(self).current_value() == old(self).read(old(log).states())
                &&& final(log).states() == settle(old(log).states(), old(self).staged())
            },
    {
        let same = match &self.pending {
            Some(entry) => entry.0.same(publication),
            None => false,
        };
        if same {
            self.pending = Some((*publication, candidate));
            return;
        }
        self.as_mut(log);
        self.pending = Some((*publication, candidate));
    }
}

impl<T: Clone> Versioned<T> {
    /// Makes sure a candidate is staged for `publication`: unless one already is, a copy of
    /// the value a reader sees is staged (nothing happens when a reader sees no value).
    pub fn prepare(&mut self, publication: &Publication, log: &mut PublicationLog)
        requires
            old(self).staged_in(old(log).states()),
            old(log).issued(*publication),
        ensures
            final(self).staged_in(final(log).states()),
            final(log).states().len() == old(log).states().len(),
            old(self).staged_for(*publication) || old(self).read(old(log).states()) is None ==> {
                &&& *final(self) == *old(self)
                &&& final(log).states() == old(log).states()
            },
            !old(self).staged_for(*publication) && old(self).read(old(log).states()) is Some ==> {
                &&& final(self).staged() matches Some((p, candidate)) && p == *publication && cloned(
                    old(self).read(old(log).states())->0,
                    candidate,
                )
                &&& final(self).current_value() == old(self).read(old(log).states())
                &&& final(log).states() == settle(old(log).states(), old(self).staged())
            },
    {
        let same = match &self.pending {
            Some(entry) => entry.0.same(publication),
            None => false,
        };
        if same {
            return;
        }
        let copy = match self.as_ref(log) {
            Some(value) => Some(value.clone()),
            None => None,
        };
        if let Some(candidate) = copy {
            self.stage(candidate, publication, log);
        }
    }

    /// Write access to the candidate staged for `publication`, staging a copy of the value a
    /// reader sees first if none is staged for it yet.
    pub fn prepared_mut<'a>(&'a mut self, publication: &Publication, log: &mut PublicationLog) -> (r: &'a mut T)
        requires
            old(self).staged_in(old(log).states()),
            old(log).issued(*publication),
            old(self).staged_for(*publication) || old(self).read(old(log).states()) is Some,
        ensures
            final(self).staged() == Some((*publication, *final(r))),
            old(self).staged_for(*publication) ==> {
                &&& *r == (old(self).staged()->0).1
                &&& final(self).current_value() == old(self).current_value()
                &&& final(log).states() == old(log).states()
            },
            !old(self).staged_for(*publication) ==> {
                &&& cloned(old(self).read(old(log).states())->0, *r)
                &&& final(self).current_value() == old(self).read(old(log).states())
                &&& final(log).states() == settle(old(log).states(), old(self).staged())
            },
    {
        self.prepare(publication, log);
        let entry = self.pending.as_mut().unwrap();
        &mut entry.1
    }
}

/// Publishing is atomic: while a publication is pending every record staged for it reads its
/// committed value, and once it is published every such record reads its candidate.
pub proof fn lemma_publish_reveals_batch<T>(record: Versioned<T>, states: Seq<u8>, p: Publication)
    requires
        record.staged_for(p),
        0 <= p.position() < states.len(),
        states[p.position()] == PENDING,
    ensures
        record.read(states) == record.current_value(),
        record.read(states.update(p.position(), PUBLISHED)) == Some((record.staged()->0).1),
{
}

/// A direct write does not get hidden by a batch: settling a record staged for a pending
/// publication conflicts that publication, so it can no longer be published, and every other
/// record staged for it keeps reading its committed value.
pub proof fn lemma_write_conflicts_batch<T>(
    written: Versioned<T>,
    other: Versioned<T>,
    states: Seq<u8>,
    p: Publication,
)
    requires
        written.staged_for(p),
        other.staged_for(p),
        0 <= p.position() < states.len(),
        states[p.position()] == PENDING,
    ensures
        settle(states, written.staged())[p.position()] == CONFLICTED,
        other.read(settle(states, written.staged())) == other.current_value(),
{
}

} // verus!
