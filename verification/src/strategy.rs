//! The reclamation strategy: the component that owns every descriptor,
//! publishes the current one, hands out protected access to it, and decides
//! when a retired descriptor may be handed out again.
use vstd::prelude::*;
use crate::descriptor::{Descriptor, DescriptorView, WriteDescriptor};

verus! {

/// Where a descriptor stands in its life.
pub enum Stage {
    /// Allocated to the guard `owner`, being filled in, not yet published.
    Candidate { owner: usize },
    /// The published descriptor.
    Current,
    /// Replaced by a successful swap of the guard `by`, not yet retired.
    Superseded { by: usize },
    /// Retired; allocatable again once nothing protects it.
    Retired,
}

/// What a strategy holds, as seen by its callers.
pub struct StrategyState {
    /// Every descriptor ever allocated, by its identifier.
    pub descs: Seq<DescriptorView>,
    /// The stage of each descriptor.
    pub stage: Seq<Stage>,
    /// Identifier of the published descriptor.
    pub current: usize,
    /// Identifiers of the guards that are in use.
    pub guards: Set<usize>,
    /// The pairs `(guard, descriptor)` such that the guard protects the
    /// descriptor from reuse.
    pub holds: Set<(usize, usize)>,
}

impl StrategyState {
    /// The state of a strategy that has just been made: one descriptor,
    /// published, which says that the vector is empty; no guard in use.
    pub open spec fn initial() -> StrategyState {
        StrategyState {
            descs: seq![DescriptorView { size: 0, pending: None }],
            stage: seq![Stage::Current],
            current: 0,
            guards: Set::empty(),
            holds: Set::empty(),
        }
    }

    /// Exactly one descriptor is published, and a protected descriptor that
    /// is still a candidate is protected by its owner only.
    pub open spec fn wf(self) -> bool {
        &&& self.stage.len() == self.descs.len()
        &&& self.current < self.descs.len()
        &&& forall|d: int|
            0 <= d < self.stage.len() ==> ((#[trigger] self.stage[d]) == Stage::Current <==> d
                == self.current)
        &&& forall|g: usize, d: usize| #[trigger]
            self.holds.contains((g, d)) ==> d < self.descs.len() && (self.stage[d as int] is Candidate
                ==> self.stage[d as int]->owner == g)
    }

    /// Descriptor `d` exists.
    pub open spec fn has(self, d: usize) -> bool {
        d < self.descs.len()
    }

    /// Descriptor `d` is a candidate of guard `g`.
    pub open spec fn candidate_of(self, d: usize, g: usize) -> bool {
        self.has(d) && self.stage[d as int] == (Stage::Candidate { owner: g })
    }

    /// Descriptor `d` is or has been published.
    pub open spec fn published(self, d: usize) -> bool {
        self.has(d) && !(self.stage[d as int] is Candidate)
    }

    /// Nothing protects descriptor `d`.
    pub open spec fn unprotected(self, d: usize) -> bool {
        forall|g: usize| !self.holds.contains((g, d))
    }

    /// The stages once guard `g` has published `new_desc` in place of `prev`.
    pub open spec fn stage_after_swap(self, prev: usize, new_desc: usize, g: usize) -> Seq<Stage> {
        self.stage.update(new_desc as int, Stage::Current).update(
            prev as int,
            Stage::Superseded { by: g },
        )
    }

    /// Every protection but that of `g` on `d` is still in `later`.
    pub open spec fn holds_kept_except(self, later: Self, g: usize, d: usize) -> bool {
        forall|h: usize, e: usize| #[trigger]
            self.holds.contains((h, e)) && !(h == g && e == d) ==> later.holds.contains((h, e))
    }

    /// Every protection of a guard other than `g` is still in `later`.
    pub open spec fn holds_of_others_kept(self, later: Self, g: usize) -> bool {
        forall|h: usize, e: usize| #[trigger]
            self.holds.contains((h, e)) && h != g ==> later.holds.contains((h, e))
    }
}

/// Token of one protected section.
#[derive(Debug)]
pub struct DescriptionGuard {
    /// Identifier under which the strategy knows this guard.
    pub id: usize,
}

/// The operations every reclamation strategy offers. Descriptors are named
/// by their identifier; each call is one indivisible step.
pub trait Strategy: Sized {
    /// The strategy's state as its callers see it.
    spec fn state(&self) -> StrategyState;

    /// The strategy's own invariant.
    spec fn wf(&self) -> bool;

    /// The invariant entails that of the caller-visible state.
    proof fn lemma_wf(&self)
        requires
            self.wf(),
        ensures
            self.state().wf(),
    ;

    /// The retired descriptor that the next allocation takes back into use,
    /// if there is one.
    spec fn reusable(&self) -> Option<usize>;

    /// Begins a protected section under the guard with the least identifier
    /// not in use.
    fn guard(&mut self) -> (g: DescriptionGuard)
        requires
            old(self).wf(),
        ensures
            final(self).wf(),
            !old(self).state().guards.contains(g.id),
            forall|h: usize| h < g.id ==> old(self).state().guards.contains(h),
            final(self).state().guards == old(self).state().guards.insert(g.id),
            final(self).state().descs == old(self).state().descs,
            final(self).state().stage == old(self).state().stage,
            final(self).state().current == old(self).state().current,
            old(self).state().holds.subset_of(final(self).state().holds),
    ;

    /// Ends the protected section of `guard`.
    fn unpin(&mut self, guard: DescriptionGuard)
        requires
            old(self).wf(),
            old(self).state().guards.contains(guard.id),
        ensures
            final(self).wf(),
            final(self).state().guards == old(self).state().guards.remove(guard.id),
            final(self).state().descs == old(self).state().descs,
            final(self).state().stage == old(self).state().stage,
            final(self).state().current == old(self).state().current,
            old(self).state().holds_of_others_kept(final(self).state(), guard.id),
    ;

    /// Hands out an unpublished descriptor for `guard` to fill in: the
    /// reusable one, which is retired and which nothing protects, as it
    /// stands; or, where there is none, a new one that says that the vector
    /// is empty.
    fn allocate(&mut self, guard: &DescriptionGuard) -> (d: usize)
        requires
            old(self).wf(),
            old(self).state().guards.contains(guard.id),
        ensures
            final(self).wf(),
            d == match old(self).reusable() {
                Some(r) => r,
                None => old(self).state().descs.len() as usize,
            },
            final(self).state().descs[d as int] == if old(self).state().has(d) {
                old(self).state().descs[d as int]
            } else {
                DescriptorView { size: 0, pending: None }
            },
            final(self).state().guards == old(self).state().guards,
            final(self).state().current == old(self).state().current,
            final(self).state().candidate_of(d, guard.id),
            final(self).state().holds.contains((guard.id, d)),
            old(self).state().holds.subset_of(final(self).state().holds),
            if old(self).state().has(d) {
                &&& old(self).state().stage[d as int] == Stage::Retired
                &&& old(self).state().unprotected(d)
                &&& final(self).state().descs.len() == old(self).state().descs.len()
            } else {
                &&& d == old(self).state().descs.len()
                &&& final(self).state().descs.len() == old(self).state().descs.len() + 1
            },
            forall|e: int|
                0 <= e < old(self).state().descs.len() && e != d ==> {
                    &&& #[trigger] final(self).state().descs[e] == old(self).state().descs[e]
                    &&& final(self).state().stage[e] == old(self).state().stage[e]
                },
    ;

    /// Returns the published descriptor and protects it under `guard`.
    fn access(&mut self, guard: &DescriptionGuard) -> (d: usize)
        requires
            old(self).wf(),
            old(self).state().guards.contains(guard.id),
        ensures
            final(self).wf(),
            d == old(self).state().current,
            final(self).state().guards == old(self).state().guards,
            final(self).state().descs == old(self).state().descs,
            final(self).state().stage == old(self).state().stage,
            final(self).state().current == old(self).state().current,
            final(self).state().holds.contains((guard.id, d)),
            old(self).state().holds.subset_of(final(self).state().holds),
    ;

    /// Gives up the protection that `guard` holds on `desc`.
    fn release_access(&mut self, desc: usize, guard: &DescriptionGuard)
        requires
            old(self).wf(),
            old(self).state().holds.contains((guard.id, desc)),
        ensures
            final(self).wf(),
            final(self).state().guards == old(self).state().guards,
            final(self).state().descs == old(self).state().descs,
            final(self).state().stage == old(self).state().stage,
            final(self).state().current == old(self).state().current,
            old(self).state().holds_kept_except(final(self).state(), guard.id, desc),
    ;

    /// Retires `desc`, which a swap of `guard` has replaced: it becomes
    /// allocatable again once nothing protects it.
    fn dealloc(&mut self, desc: usize, guard: &DescriptionGuard)
        requires
            old(self).wf(),
            old(self).state().guards.contains(guard.id),
            old(self).state().has(desc),
            old(self).state().stage[desc as int] == (Stage::Superseded { by: guard.id }),
            old(self).state().holds.contains((guard.id, desc)),
        ensures
            final(self).wf(),
            final(self).state().guards == old(self).state().guards,
            final(self).state().descs == old(self).state().descs,
            final(self).state().stage == old(self).state().stage.update(
                desc as int,
                Stage::Retired,
            ),
            final(self).state().current == old(self).state().current,
            old(self).state().holds_kept_except(final(self).state(), guard.id, desc),
    ;

    /// Publishes the candidate `new_desc` in place of `prev` if and only if
    /// `prev` is still the published descriptor; returns whether it did.
    fn swap(&mut self, prev: usize, new_desc: usize, guard: &DescriptionGuard) -> (won: bool)
        requires
            old(self).wf(),
            old(self).state().candidate_of(new_desc, guard.id),
        ensures
            final(self).wf(),
            won == (prev == old(self).state().current),
            final(self).state().guards == old(self).state().guards,
            final(self).state().descs == old(self).state().descs,
            old(self).state().holds.subset_of(final(self).state().holds),
            won ==> final(self).state().current == new_desc,
            won ==> final(self).state().stage == old(self).state().stage_after_swap(
                prev,
                new_desc,
                guard.id,
            ),
            !won ==> final(self).state().current == old(self).state().current,
            !won ==> final(self).state().stage == old(self).state().stage,
    ;

    /// The published descriptor.
    fn descriptor(&self) -> (r: &Descriptor)
        requires
            self.wf(),
        ensures
            r@ == self.state().descs[self.state().current as int],
    ;

    /// The descriptor named `desc`.
    fn get(&self, desc: usize) -> (r: &Descriptor)
        requires
            self.wf(),
            self.state().has(desc),
        ensures
            r@ == self.state().descs[desc as int],
    ;

    /// Fills in the candidate `desc` of `guard`.
    fn prepare(
        &mut self,
        desc: usize,
        size: usize,
        pending: Option<WriteDescriptor>,
        guard: &DescriptionGuard,
    )
        requires
            old(self).wf(),
            old(self).state().candidate_of(desc, guard.id),
        ensures
            final(self).wf(),
            final(self).state().guards == old(self).state().guards,
            final(self).state().descs == old(self).state().descs.update(
                desc as int,
                DescriptorView { size, pending },
            ),
            final(self).state().stage == old(self).state().stage,
            final(self).state().current == old(self).state().current,
            old(self).state().holds.subset_of(final(self).state().holds),
    ;

    /// Records that the pending write of the published or once published
    /// descriptor `desc` has been attempted.
    fn mark_completed(&mut self, desc: usize)
        requires
            old(self).wf(),
            old(self).state().published(desc),
        ensures
            final(self).wf(),
            final(self).state().guards == old(self).state().guards,
            final(self).state().descs == old(self).state().descs.update(
                desc as int,
                old(self).state().descs[desc as int].complete(),
            ),
            final(self).state().stage == old(self).state().stage,
            final(self).state().current == old(self).state().current,
            old(self).state().holds.subset_of(final(self).state().holds),
    ;
}

} // verus!
