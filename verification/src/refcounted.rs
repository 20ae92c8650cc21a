//! Reclamation by reference counting: every protection taken on a descriptor
//! is counted in the descriptor itself, and a retired descriptor is handed
//! out again only once its count is back at zero.
use vstd::prelude::*;
use vstd::multiset::Multiset;
use crate::descriptor::{Descriptor, DescriptorView, WriteDescriptor};
use crate::guards::{claim_slot, free_slot, live_slots};
use crate::strategy::{DescriptionGuard, Stage, Strategy, StrategyState};

verus! {

/// A strategy that counts the protections of each descriptor.
///
/// Protection is shared: any number of guards may protect one descriptor at
/// a time. A count that reaches `usize::MAX` stays there, so that its
/// descriptor is never reused.
pub struct RefcountedDescriptorStrategy {
    /// Every descriptor, by identifier.
    arena: Vec<Descriptor>,
    /// Identifier of the published descriptor.
    source: usize,
    /// Guards in use.
    guards: Vec<Option<u64>>,
    /// Retired descriptors waiting for reuse.
    cache: Vec<usize>,
    /// Stage of each descriptor.
    stage: Ghost<Seq<Stage>>,
    /// For each descriptor, the guards that protect it, with multiplicity.
    holders: Ghost<Seq<Multiset<usize>>>,
}

/// Removing one element from a sequence without duplicates by moving the
/// last element into its place leaves a sequence without duplicates whose
/// elements all come from the sequence it was.
proof fn lemma_swap_remove_distinct(s: Seq<usize>, i: int)
    requires
        0 <= i < s.len(),
        s.no_duplicates(),
    ensures
        s.update(i, s.last()).drop_last().no_duplicates(),
        forall|j: int|
            0 <= j < s.len() - 1 ==> #[trigger] s.update(i, s.last()).drop_last()[j] != s[i]
                && s.contains(s.update(i, s.last()).drop_last()[j]),
{
    let t = s.update(i, s.last()).drop_last();
    assert forall|j: int| 0 <= j < t.len() implies #[trigger] t[j] != s[i] && s.contains(t[j]) by {
        if j == i {
            assert(t[j] == s[s.len() - 1]);
        } else {
            assert(t[j] == s[j]);
        }
    }
    assert forall|j: int, k: int| 0 <= j < t.len() && 0 <= k < t.len() && j != k implies t[j]
        != t[k] by {
        let jj = if j == i { s.len() - 1 } else { j };
        let kk = if k == i { s.len() - 1 } else { k };
        assert(t[j] == s[jj] && t[k] == s[kk]);
    }
}

/// The first place from `from` on at which `retired` names a descriptor
/// whose count is zero; the length of `retired` if there is none.
pub open spec fn first_uncounted(retired: Seq<usize>, counts: Seq<usize>, from: int) -> int
    decreases retired.len() - from,
{
    if from < 0 || from >= retired.len() {
        retired.len() as int
    } else if counts[retired[from] as int] == 0 {
        from
    } else {
        first_uncounted(retired, counts, from + 1)
    }
}

/// The first place from `from` on with a count of zero lies between `from`
/// and the end, has a count of zero if it is not the end, and no place from
/// `from` up to it has.
pub proof fn lemma_first_uncounted(retired: Seq<usize>, counts: Seq<usize>, from: int)
    requires
        0 <= from <= retired.len(),
    ensures
        from <= first_uncounted(retired, counts, from) <= retired.len(),
        first_uncounted(retired, counts, from) < retired.len() ==> counts[retired[first_uncounted(
            retired,
            counts,
            from,
        )] as int] == 0,
        forall|i: int|
            from <= i < first_uncounted(retired, counts, from) ==> counts[(
            #[trigger] retired[i]) as int] != 0,
    decreases retired.len() - from,
{
    if from < retired.len() && counts[retired[from] as int] != 0 {
        lemma_first_uncounted(retired, counts, from + 1);
    }
}

/// A count after one more protection: counts stop at `usize::MAX`.
pub open spec fn counted_up(count: usize) -> usize {
    if count < usize::MAX {
        (count + 1) as usize
    } else {
        count
    }
}

/// A count after one protection less: a count of `usize::MAX` stays.
pub open spec fn counted_down(count: usize) -> usize {
    if count < usize::MAX {
        (count - 1) as usize
    } else {
        count
    }
}

impl RefcountedDescriptorStrategy {
    /// The descriptors as their callers see them.
    pub closed spec fn descs(&self) -> Seq<DescriptorView> {
        Seq::new(self.arena.len() as nat, |i: int| self.arena[i]@)
    }

    /// The retired descriptors that wait for reuse, in the order in which
    /// they are looked at.
    pub closed spec fn retired(&self) -> Seq<usize> {
        self.cache@
    }

    /// The count of each descriptor.
    pub closed spec fn counts(&self) -> Seq<usize> {
        Seq::new(self.arena.len() as nat, |i: int| self.arena[i].counter)
    }

    /// `self` has the retired descriptors and the counts of `earlier`.
    pub open spec fn same_books(&self, earlier: &Self) -> bool {
        &&& self.retired() == earlier.retired()
        &&& self.counts() == earlier.counts()
    }

    /// `later` is `self` once the candidate `d` has been handed out: the
    /// first retired descriptor whose count is zero has left the retired
    /// descriptors, the last of them taking its place, and has the count
    /// one; or, where there is none, a new descriptor has the count one.
    pub open spec fn took(&self, later: &Self, d: usize) -> bool {
        let at = first_uncounted(self.retired(), self.counts(), 0);
        if at < self.retired().len() {
            &&& d == self.retired()[at]
            &&& later.retired() == self.retired().update(at, self.retired().last()).drop_last()
            &&& later.counts() == self.counts().update(d as int, 1)
        } else {
            &&& d == self.counts().len()
            &&& later.retired() == self.retired()
            &&& later.counts() == self.counts().push(1)
        }
    }

    /// `later` is `self` with one more protection of `d` counted.
    pub open spec fn protected(&self, later: &Self, d: usize) -> bool {
        &&& later.retired() == self.retired()
        &&& later.counts() == self.counts().update(d as int, counted_up(self.counts()[d as int]))
    }

    /// `later` is `self` with one protection of `d` less counted.
    pub open spec fn released(&self, later: &Self, d: usize) -> bool {
        &&& later.retired() == self.retired()
        &&& later.counts() == self.counts().update(
            d as int,
            counted_down(self.counts()[d as int]),
        )
    }

    /// `later` is `self` once `d` has been retired: it is the last of the
    /// retired descriptors, and one protection of it less is counted.
    pub open spec fn retired_one(&self, later: &Self, d: usize) -> bool {
        &&& later.retired() == self.retired().push(d)
        &&& later.counts() == self.counts().update(
            d as int,
            counted_down(self.counts()[d as int]),
        )
    }

    /// The protections in force.
    pub closed spec fn holds(&self) -> Set<(usize, usize)> {
        Set::new(
            |p: (usize, usize)| p.1 < self.arena.len() && self.holders@[p.1 as int].count(p.0) > 0,
        )
    }

    /// What the invariant says of the books: every descriptor has a count,
    /// there are no more descriptors than a machine word counts, and the
    /// retired descriptors are all different, exist and are retired.
    pub proof fn lemma_books(&self)
        requires
            self.wf(),
        ensures
            self.counts().len() == self.state().descs.len(),
            self.state().descs.len() <= usize::MAX,
            self.retired().no_duplicates(),
            forall|i: int|
                0 <= i < self.retired().len() ==> self.state().has(#[trigger] self.retired()[i])
                    && self.state().stage[self.retired()[i] as int] == Stage::Retired,
    {
    }

    /// A strategy whose published descriptor says that the vector is empty.
    pub fn new() -> (s: Self)
        ensures
            s.wf(),
            s.state() == StrategyState::initial(),
            s.retired() == Seq::<usize>::empty(),
            s.counts() == seq![0usize],
    {
        let mut arena: Vec<Descriptor> = Vec::new();
        arena.push(Descriptor::new(0, None));
        let stage: Ghost<Seq<Stage>> = Ghost(Seq::empty().push(Stage::Current));
        let holders: Ghost<Seq<Multiset<usize>>> = Ghost(Seq::empty().push(Multiset::empty()));
        let s = RefcountedDescriptorStrategy {
            arena,
            source: 0,
            guards: Vec::new(),
            cache: Vec::with_capacity(8),
            stage,
            holders,
        };
        assert(s.state().descs =~= seq![DescriptorView { size: 0, pending: None }]);
        assert(s.state().stage =~= seq![Stage::Current]);
        assert(s.state().guards =~= Set::<usize>::empty());
        assert(s.state().holds =~= Set::<(usize, usize)>::empty());
        assert(s.counts() =~= seq![0usize]);
        s
    }

    /// Identifier of the published descriptor.
    pub fn as_ptr(&self) -> (d: usize)
        requires
            self.wf(),
        ensures
            d == self.state().current,
    {
        self.source
    }

    /// Counts one more protection of `desc`, unless the count is pinned at
    /// its maximum.
    fn count_up(&mut self, desc: usize, g: usize)
        requires
            old(self).wf(),
            desc < old(self).arena.len(),
            old(self).stage@[desc as int] is Candidate ==> old(self).stage@[desc as int]->owner == g,
        ensures
            final(self).wf(),
            final(self).arena.len() == old(self).arena.len(),
            final(self).descs() == old(self).descs(),
            final(self).stage == old(self).stage,
            final(self).source == old(self).source,
            final(self).guards == old(self).guards,
            final(self).cache == old(self).cache,
            final(self).holders@ == old(self).holders@.update(
                desc as int,
                old(self).holders@[desc as int].insert(g),
            ),
            final(self).counts() == old(self).counts().update(
                desc as int,
                counted_up(old(self).counts()[desc as int]),
            ),
    {
        let mut entry: Descriptor = self.arena[desc];
        if entry.counter < usize::MAX {
            entry.counter = entry.counter + 1;
        }
        self.arena[desc] = entry;
        self.holders = Ghost(self.holders@.update(desc as int, self.holders@[desc as int].insert(g)));
        assert(self.descs() =~= old(self).descs());
        assert(self.counts() =~= old(self).counts().update(
            desc as int,
            counted_up(old(self).counts()[desc as int]),
        ));
    }

    /// Counts one protection of `desc` less, unless the count is pinned at
    /// its maximum.
    fn count_down(&mut self, desc: usize, g: usize)
        requires
            old(self).wf(),
            desc < old(self).arena.len(),
            old(self).holders@[desc as int].count(g) > 0,
        ensures
            final(self).wf(),
            final(self).arena.len() == old(self).arena.len(),
            final(self).descs() == old(self).descs(),
            final(self).stage == old(self).stage,
            final(self).source == old(self).source,
            final(self).guards == old(self).guards,
            final(self).cache == old(self).cache,
            final(self).holders@ == old(self).holders@.update(
                desc as int,
                old(self).holders@[desc as int].remove(g),
            ),
            final(self).counts() == old(self).counts().update(
                desc as int,
                counted_down(old(self).counts()[desc as int]),
            ),
    {
        let mut entry: Descriptor = self.arena[desc];
        if entry.counter < usize::MAX {
            entry.counter = entry.counter - 1;
        }
        self.arena[desc] = entry;
        self.holders = Ghost(self.holders@.update(desc as int, self.holders@[desc as int].remove(g)));
        assert(self.descs() =~= old(self).descs());
        assert(self.counts() =~= old(self).counts().update(
            desc as int,
            counted_down(old(self).counts()[desc as int]),
        ));
    }
}

impl Strategy for RefcountedDescriptorStrategy {
    closed spec fn state(&self) -> StrategyState {
        StrategyState {
            descs: self.descs(),
            stage: self.stage@,
            current: self.source,
            guards: live_slots(self.guards@),
            holds: self.holds(),
        }
    }

    closed spec fn wf(&self) -> bool {
        &&& self.stage@.len() == self.arena.len()
        &&& self.holders@.len() == self.arena.len()
        &&& self.source < self.arena.len()
        &&& forall|d: int|
            0 <= d < self.stage@.len() ==> ((#[trigger] self.stage@[d]) == Stage::Current <==> d
                == self.source)
        &&& forall|d: int|
            0 <= d < self.arena.len() ==> (#[trigger] self.arena[d]).counter == usize::MAX
                || self.arena[d].counter == self.holders@[d].len()
        &&& forall|d: int, g: usize|
            0 <= d < self.arena.len() && #[trigger] self.holders@[d].count(g) > 0
                && self.stage@[d] is Candidate ==> self.stage@[d]->owner == g
        &&& forall|i: int|
            0 <= i < self.cache.len() ==> (#[trigger] self.cache[i]) < self.arena.len()
                && self.stage@[self.cache[i] as int] == Stage::Retired
        &&& self.cache@.no_duplicates()
    }

    open spec fn reusable(&self) -> Option<usize> {
        let at = first_uncounted(self.retired(), self.counts(), 0);
        if at < self.retired().len() {
            Some(self.retired()[at])
        } else {
            None
        }
    }

    proof fn lemma_wf(&self) {
    }

    fn guard(&mut self) -> (g: DescriptionGuard)
        ensures
            final(self).retired() == old(self).retired(),
            final(self).counts() == old(self).counts(),
    {
        let id = claim_slot(&mut self.guards, 0);
        DescriptionGuard { id }
    }

    fn unpin(&mut self, guard: DescriptionGuard)
        ensures
            final(self).retired() == old(self).retired(),
            final(self).counts() == old(self).counts(),
    {
        free_slot(&mut self.guards, guard.id);
    }

    #[verifier::rlimit(40)]
    fn allocate(&mut self, guard: &DescriptionGuard) -> (d: usize)
        ensures
            ({
                let at = first_uncounted(old(self).retired(), old(self).counts(), 0);
                if at < old(self).retired().len() {
                    &&& final(self).retired() == old(self).retired().update(
                        at,
                        old(self).retired().last(),
                    ).drop_last()
                    &&& final(self).counts() == old(self).counts().update(d as int, 1)
                } else {
                    &&& final(self).retired() == old(self).retired()
                    &&& final(self).counts() == old(self).counts().push(1)
                    &&& d == old(self).counts().len()
                }
            }),
            (d as int) < final(self).counts().len(),
            final(self).counts()[d as int] == 1,
            !final(self).retired().contains(d),
            forall|e: int|
                0 <= e < old(self).counts().len() && e != d ==> final(self).counts()[e] == old(self).counts()[e],
    {
        let mut idx: usize = 0;
        while idx < self.cache.len() && self.arena[self.cache[idx]].counter != 0
            invariant
                self.wf(),
                *self == *old(self),
                idx <= self.cache.len(),
                first_uncounted(self.retired(), self.counts(), 0) == first_uncounted(
                    self.retired(),
                    self.counts(),
                    idx as int,
                ),
            decreases self.cache.len() - idx,
        {
            idx = idx + 1;
        }
        if idx < self.cache.len() {
            proof {
                lemma_swap_remove_distinct(self.cache@, idx as int);
            }
            let d = self.cache.swap_remove(idx);
            let mut entry: Descriptor = self.arena[d];
            entry.counter = 1;
            self.arena[d] = entry;
            self.stage = Ghost(self.stage@.update(d as int, Stage::Candidate { owner: guard.id }));
            self.holders = Ghost(self.holders@.update(d as int, Multiset::singleton(guard.id)));
            proof {
                assert(old(self).holders@[d as int].len() == 0);
                assert(old(self).state().unprotected(d)) by {
                    assert forall|g: usize| !old(self).state().holds.contains((g, d)) by {
                        assert(old(self).holders@[d as int].count(g) <= old(self).holders@[d as int].len());
                    }
                }
                assert(self.state().holds.contains((guard.id, d)));
                assert(old(self).state().holds.subset_of(self.state().holds));
                assert(self.descs().len() == old(self).descs().len());
                assert(self.counts() =~= old(self).counts().update(d as int, 1));
                assert(!self.cache@.contains(d)) by {
                    if self.cache@.contains(d) {
                        let j = choose|j: int| 0 <= j < self.cache.len() && self.cache[j] == d;
                        if j == idx {
                            assert(self.cache[j] == old(self).cache[old(self).cache.len() - 1]);
                        } else {
                            assert(self.cache[j] == old(self).cache[j]);
                        }
                    }
                }
            }
            d
        } else {
            let mut fresh = Descriptor::new(0, None);
            fresh.counter = 1;
            self.arena.push(fresh);
            self.stage = Ghost(self.stage@.push(Stage::Candidate { owner: guard.id }));
            self.holders = Ghost(self.holders@.push(Multiset::singleton(guard.id)));
            proof {
                assert(self.state().holds.contains((guard.id, (self.arena.len() - 1) as usize)));
                assert(old(self).state().holds.subset_of(self.state().holds));
                assert(self.counts() =~= old(self).counts().push(1));
            }
            self.arena.len() - 1
        }
    }

    fn access(&mut self, guard: &DescriptionGuard) -> (d: usize)
        ensures
            (d as int) < old(self).counts().len(),
            final(self).retired() == old(self).retired(),
            final(self).counts() == old(self).counts().update(
                d as int,
                counted_up(old(self).counts()[d as int]),
            ),
    {
        loop
            invariant
                *self == *old(self),
                self.wf(),
                self.state().guards.contains(guard.id),
            decreases 0int,
        {
            let ptr = self.as_ptr();
            self.count_up(ptr, guard.id);
            // Protect, then look again: a descriptor that was replaced
            // between the first look and the count is let go, and the
            // access starts over. While this call has the strategy to
            // itself the second look finds what the first one found.
            if ptr != self.as_ptr() {
                self.count_down(ptr, guard.id);
                continue ;
            }
            proof {
                assert(self.state().holds.contains((guard.id, ptr)));
                assert(old(self).state().holds.subset_of(self.state().holds));
            }
            return ptr;
        }
    }

    fn release_access(&mut self, desc: usize, guard: &DescriptionGuard)
        ensures
            (desc as int) < old(self).counts().len(),
            final(self).retired() == old(self).retired(),
            final(self).counts() == old(self).counts().update(
                desc as int,
                counted_down(old(self).counts()[desc as int]),
            ),
    {
        self.count_down(desc, guard.id);
        proof {
            assert(old(self).state().holds_kept_except(self.state(), guard.id, desc));
        }
    }

    #[verifier::rlimit(40)]
    fn dealloc(&mut self, desc: usize, guard: &DescriptionGuard)
        ensures
            (desc as int) < old(self).counts().len(),
            final(self).retired() == old(self).retired().push(desc),
            final(self).counts() == old(self).counts().update(
                desc as int,
                counted_down(old(self).counts()[desc as int]),
            ),
    {
        self.cache.push(desc);
        self.stage = Ghost(self.stage@.update(desc as int, Stage::Retired));
        proof {
            assert(self.descs() =~= old(self).descs());
            assert(self.holds() =~= old(self).holds());
            assert(self.counts() =~= old(self).counts());
            assert(self.cache@.no_duplicates()) by {
                assert forall|i: int, j: int|
                    0 <= i < self.cache.len() && 0 <= j < self.cache.len() && i != j implies self.cache[i]
                    != self.cache[j] by {
                    if i < old(self).cache.len() && j < old(self).cache.len() {
                        assert(old(self).cache[i] != old(self).cache[j]);
                    }
                }
            }
            assert(self.wf());
        }
        self.count_down(desc, guard.id);
        proof {
            assert(old(self).state().holds_kept_except(self.state(), guard.id, desc));
        }
    }

    fn swap(&mut self, prev: usize, new_desc: usize, guard: &DescriptionGuard) -> (won: bool)
        ensures
            final(self).retired() == old(self).retired(),
            final(self).counts() == old(self).counts(),
    {
        if prev == self.source {
            self.source = new_desc;
            self.stage = Ghost(
                self.stage@.update(new_desc as int, Stage::Current).update(
                    prev as int,
                    Stage::Superseded { by: guard.id },
                ),
            );
            proof {
                assert(self.descs() =~= old(self).descs());
                assert(self.holds() =~= old(self).holds());
            }
            true
        } else {
            false
        }
    }

    fn descriptor(&self) -> (r: &Descriptor)
        ensures
            r.counter == self.counts()[self.state().current as int],
    {
        &self.arena[self.source]
    }

    fn get(&self, desc: usize) -> (r: &Descriptor)
        ensures
            r.counter == self.counts()[desc as int],
    {
        &self.arena[desc]
    }

    fn prepare(
        &mut self,
        desc: usize,
        size: usize,
        pending: Option<WriteDescriptor>,
        guard: &DescriptionGuard,
    )
        ensures
            final(self).retired() == old(self).retired(),
            final(self).counts() == old(self).counts(),
    {
        let counter = self.arena[desc].counter;
        self.arena[desc] = Descriptor { size, counter, pending };
        proof {
            assert(self.counts() =~= old(self).counts());
            assert(self.descs() =~= old(self).descs().update(
                desc as int,
                DescriptorView { size, pending },
            ));
            assert(self.holds() =~= old(self).holds());
        }
    }

    fn mark_completed(&mut self, desc: usize)
        ensures
            final(self).retired() == old(self).retired(),
            final(self).counts() == old(self).counts(),
    {
        let entry: Descriptor = self.arena[desc];
        if let Some(w) = entry.pending {
            let done = WriteDescriptor {
                old_value: w.old_value,
                new_value: w.new_value,
                pos: w.pos,
                completed: true,
            };
            self.arena[desc] = Descriptor {
                size: entry.size,
                counter: entry.counter,
                pending: Some(done),
            };
        }
        proof {
            assert(self.descs() =~= old(self).descs().update(
                desc as int,
                old(self).descs()[desc as int].complete(),
            ));
            assert(self.holds() =~= old(self).holds());
            assert(self.counts() =~= old(self).counts());
        }
    }
}

} // verus!
