//! The choice of reclamation strategy, made once when a vector is built.
use vstd::prelude::*;
use crate::descriptor::{Descriptor, WriteDescriptor};
use crate::epoch::EpochGarbageCollectionStrategy;
use crate::refcounted::RefcountedDescriptorStrategy;
use crate::strategy::{DescriptionGuard, Strategy, StrategyState};

verus! {

/// One of the two reclamation strategies.
pub enum Backend {
    /// Reuse deferred by epochs.
    Epoch(EpochGarbageCollectionStrategy),
    /// Reuse governed by protection counts.
    Refcounted(RefcountedDescriptorStrategy),
}

impl Backend {
    /// The strategy counts protections.
    pub open spec fn counts_references(&self) -> bool {
        *self is Refcounted
    }

    /// `later` is `self` once a guard has begun under the identifier `id`:
    /// the strategy by epochs has noted the current epoch for it; the
    /// strategy that counts keeps its books.
    pub open spec fn pinned(&self, later: &Backend, id: usize) -> bool {
        match (*self, *later) {
            (Backend::Epoch(a), Backend::Epoch(b)) => a.pinned(&b, id),
            (Backend::Refcounted(a), Backend::Refcounted(b)) => b.same_books(&a),
            _ => false,
        }
    }

    /// `later` is `self` once the guard `id` has ended: the strategy by
    /// epochs has swept its limbo; the strategy that counts keeps its
    /// books.
    pub open spec fn unpinned(&self, later: &Backend, id: usize) -> bool {
        match (*self, *later) {
            (Backend::Epoch(a), Backend::Epoch(b)) => a.unpinned(&b, id),
            (Backend::Refcounted(a), Backend::Refcounted(b)) => b.same_books(&a),
            _ => false,
        }
    }

    /// `later` is `self` once the candidate `d` has been handed out.
    pub open spec fn took(&self, later: &Backend, d: usize) -> bool {
        match (*self, *later) {
            (Backend::Epoch(a), Backend::Epoch(b)) => a.took(&b),
            (Backend::Refcounted(a), Backend::Refcounted(b)) => a.took(&b, d),
            _ => false,
        }
    }

    /// `later` is `self` once `d` has been read as published and
    /// protected: the strategy by epochs keeps its books, for there the
    /// guard protects; the strategy that counts counts one more.
    pub open spec fn protected(&self, later: &Backend, d: usize) -> bool {
        match (*self, *later) {
            (Backend::Epoch(a), Backend::Epoch(b)) => b.same_books(&a),
            (Backend::Refcounted(a), Backend::Refcounted(b)) => a.protected(&b, d),
            _ => false,
        }
    }

    /// What giving up one protection of `desc` makes of the strategy: the
    /// strategy by epochs stays as it is, for there a protection lasts as
    /// long as its guard; the strategy that counts protections counts one
    /// less for `desc` and keeps its retired descriptors.
    pub open spec fn released(&self, later: &Backend, desc: usize) -> bool {
        match (*self, *later) {
            (Backend::Epoch(a), Backend::Epoch(b)) => b == a,
            (Backend::Refcounted(a), Backend::Refcounted(b)) => a.released(&b, desc),
            _ => false,
        }
    }

    /// `later` is `self` once `desc` has been retired.
    pub open spec fn retired_one(&self, later: &Backend, desc: usize) -> bool {
        match (*self, *later) {
            (Backend::Epoch(a), Backend::Epoch(b)) => a.retired_one(&b, desc),
            (Backend::Refcounted(a), Backend::Refcounted(b)) => a.retired_one(&b, desc),
            _ => false,
        }
    }

    /// `later` is the same strategy as `self`, with the same books: what a
    /// swap, the filling in of a candidate and the marking of a write leave
    /// behind.
    pub open spec fn same_books(&self, later: &Backend) -> bool {
        match (*self, *later) {
            (Backend::Epoch(a), Backend::Epoch(b)) => b.same_books(&a),
            (Backend::Refcounted(a), Backend::Refcounted(b)) => b.same_books(&a),
            _ => false,
        }
    }
}

impl Strategy for Backend {
    open spec fn state(&self) -> StrategyState {
        match self {
            Backend::Epoch(s) => s.state(),
            Backend::Refcounted(s) => s.state(),
        }
    }

    open spec fn wf(&self) -> bool {
        match self {
            Backend::Epoch(s) => s.wf(),
            Backend::Refcounted(s) => s.wf(),
        }
    }

    open spec fn reusable(&self) -> Option<usize> {
        match self {
            Backend::Epoch(s) => s.reusable(),
            Backend::Refcounted(s) => s.reusable(),
        }
    }

    proof fn lemma_wf(&self) {
        match self {
            Backend::Epoch(s) => s.lemma_wf(),
            Backend::Refcounted(s) => s.lemma_wf(),
        }
    }

    fn guard(&mut self) -> (g: DescriptionGuard)
        ensures
            old(self).pinned(final(self), g.id),
    {
        match self {
            Backend::Epoch(s) => s.guard(),
            Backend::Refcounted(s) => s.guard(),
        }
    }

    fn unpin(&mut self, guard: DescriptionGuard)
        ensures
            old(self).unpinned(final(self), guard.id),
    {
        match self {
            Backend::Epoch(s) => s.unpin(guard),
            Backend::Refcounted(s) => s.unpin(guard),
        }
    }

    fn allocate(&mut self, guard: &DescriptionGuard) -> (d: usize)
        ensures
            old(self).took(final(self), d),
    {
        match self {
            Backend::Epoch(s) => s.allocate(guard),
            Backend::Refcounted(s) => {
                proof {
                    s.lemma_books();
                }
                s.allocate(guard)
            },
        }
    }

    fn access(&mut self, guard: &DescriptionGuard) -> (d: usize)
        ensures
            old(self).protected(final(self), d),
    {
        match self {
            Backend::Epoch(s) => s.access(guard),
            Backend::Refcounted(s) => s.access(guard),
        }
    }

    fn release_access(&mut self, desc: usize, guard: &DescriptionGuard)
        ensures
            old(self).released(final(self), desc),
    {
        match self {
            Backend::Epoch(s) => s.release_access(desc, guard),
            Backend::Refcounted(s) => s.release_access(desc, guard),
        }
    }

    fn dealloc(&mut self, desc: usize, guard: &DescriptionGuard)
        ensures
            old(self).retired_one(final(self), desc),
    {
        match self {
            Backend::Epoch(s) => s.dealloc(desc, guard),
            Backend::Refcounted(s) => s.dealloc(desc, guard),
        }
    }

    fn swap(&mut self, prev: usize, new_desc: usize, guard: &DescriptionGuard) -> (won: bool)
        ensures
            old(self).same_books(final(self)),
    {
        match self {
            Backend::Epoch(s) => s.swap(prev, new_desc, guard),
            Backend::Refcounted(s) => s.swap(prev, new_desc, guard),
        }
    }

    fn descriptor(&self) -> (r: &Descriptor) {
        match self {
            Backend::Epoch(s) => s.descriptor(),
            Backend::Refcounted(s) => s.descriptor(),
        }
    }

    fn get(&self, desc: usize) -> (r: &Descriptor) {
        match self {
            Backend::Epoch(s) => s.get(desc),
            Backend::Refcounted(s) => s.get(desc),
        }
    }

    fn prepare(
        &mut self,
        desc: usize,
        size: usize,
        pending: Option<WriteDescriptor>,
        guard: &DescriptionGuard,
    )
        ensures
            old(self).same_books(final(self)),
    {
        match self {
            Backend::Epoch(s) => s.prepare(desc, size, pending, guard),
            Backend::Refcounted(s) => s.prepare(desc, size, pending, guard),
        }
    }

    fn mark_completed(&mut self, desc: usize)
        ensures
            old(self).same_books(final(self)),
    {
        match self {
            Backend::Epoch(s) => s.mark_completed(desc),
            Backend::Refcounted(s) => s.mark_completed(desc),
        }
    }
}

} // verus!
