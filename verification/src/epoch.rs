//! Reclamation by epochs: a guard records the epoch in which its protected
//! section began, a retired descriptor records the epoch in which it was
//! retired, and the descriptor becomes reusable once every guard in use
//! began after that epoch.
use vstd::prelude::*;
use crossbeam_queue::ArrayQueue;
use crate::descriptor::{Descriptor, DescriptorView, WriteDescriptor};
use crate::guards::{claim_slot, free_slot, live_slots};
use crate::pool::{pool_capacity, pool_contents, pool_new, pool_pop, pool_push};
use crate::strategy::{DescriptionGuard, Stage, Strategy, StrategyState};

verus! {

/// Number of reusable descriptors that the pool keeps; a descriptor that
/// becomes reusable while the pool is full is given up for good.
pub const POOL_CAPACITY: usize = 64;

/// A strategy that defers the reuse of a retired descriptor until no
/// protected section that could have seen it is still open.
pub struct EpochGarbageCollectionStrategy {
    /// Every descriptor, by identifier.
    arena: Vec<Descriptor>,
    /// Identifier of the published descriptor.
    source: usize,
    /// For each guard in use, the epoch in which it began.
    pins: Vec<Option<u64>>,
    /// The current epoch; it advances with every retirement.
    epoch: u64,
    /// Retired descriptors that a guard may still see, each with the epoch
    /// of its retirement.
    limbo: Vec<(usize, u64)>,
    /// Descriptors ready for reuse.
    pool: ArrayQueue<usize>,
    /// Stage of each descriptor.
    stage: Ghost<Seq<Stage>>,
    /// For each descriptor in limbo, the epoch of its retirement.
    stamp: Ghost<Seq<Option<u64>>>,
}

/// A descriptor retired in epoch `stamp` can be reused: every guard in use
/// began in a later epoch.
pub open spec fn reclaimable(stamp: u64, pins: Seq<Option<u64>>) -> bool {
    forall|g: int| 0 <= g < pins.len() && (#[trigger] pins[g]).is_some() ==> stamp < pins[g].unwrap()
}

/// What a sweep makes of the retired descriptors `limbo` and of the
/// reusable ones `pool` under the guards `pins`: going through `limbo` from
/// the front, every descriptor that can be reused leaves it, and joins
/// `pool` at the back if `pool` holds fewer than `POOL_CAPACITY`.
pub open spec fn swept(limbo: Seq<(usize, u64)>, pool: Seq<usize>, pins: Seq<Option<u64>>) -> (
    Seq<(usize, u64)>,
    Seq<usize>,
)
    decreases limbo.len(),
{
    if limbo.len() == 0 {
        (Seq::empty(), pool)
    } else {
        let before = swept(limbo.drop_last(), pool, pins);
        let entry = limbo.last();
        if reclaimable(entry.1, pins) {
            (
                before.0,
                if before.1.len() < POOL_CAPACITY {
                    before.1.push(entry.0)
                } else {
                    before.1
                },
            )
        } else {
            (before.0.push(entry), before.1)
        }
    }
}

impl EpochGarbageCollectionStrategy {
    /// For each guard in use, the epoch in which it began.
    pub closed spec fn pins(&self) -> Seq<Option<u64>> {
        self.pins@
    }

    /// The current epoch.
    pub closed spec fn epoch(&self) -> u64 {
        self.epoch
    }

    /// The retired descriptors that a guard may still see, each with the
    /// epoch of its retirement, oldest first.
    pub closed spec fn limbo(&self) -> Seq<(usize, u64)> {
        self.limbo@
    }

    /// The descriptors ready for reuse, the next one first.
    pub closed spec fn pool(&self) -> Seq<usize> {
        pool_contents(self.pool)
    }

    /// `self` has the guards, the epoch, the retired and the reusable
    /// descriptors of `earlier`.
    pub open spec fn same_books(&self, earlier: &Self) -> bool {
        &&& self.pins() == earlier.pins()
        &&& self.epoch() == earlier.epoch()
        &&& self.limbo() == earlier.limbo()
        &&& self.pool() == earlier.pool()
    }

    /// `later` is `self` once a guard has begun under the identifier `id`:
    /// the guard has noted the current epoch.
    pub open spec fn pinned(&self, later: &Self, id: usize) -> bool {
        &&& later.pins() == if id < self.pins().len() {
            self.pins().update(id as int, Some(self.epoch()))
        } else {
            self.pins().push(Some(self.epoch()))
        }
        &&& later.epoch() == self.epoch()
        &&& later.limbo() == self.limbo()
        &&& later.pool() == self.pool()
    }

    /// `later` is `self` once the guard `id` has ended: the descriptors in
    /// limbo that no guard left can see have gone to the pool, as far as
    /// the pool has room.
    pub open spec fn unpinned(&self, later: &Self, id: usize) -> bool {
        &&& later.pins() == self.pins().update(id as int, None)
        &&& later.epoch() == self.epoch()
        &&& (later.limbo(), later.pool()) == swept(self.limbo(), self.pool(), later.pins())
    }

    /// `later` is `self` once a candidate has been handed out: the first
    /// descriptor of the pool has left it, if there was one.
    pub open spec fn took(&self, later: &Self) -> bool {
        &&& later.pins() == self.pins()
        &&& later.epoch() == self.epoch()
        &&& later.limbo() == self.limbo()
        &&& later.pool() == if self.pool().len() > 0 {
            self.pool().drop_first()
        } else {
            self.pool()
        }
    }

    /// `later` is `self` once `desc` has been retired: it has gone to limbo
    /// with the current epoch for its stamp, the epoch has advanced unless
    /// it is the last there is, and the descriptors in limbo that no guard
    /// can see have gone to the pool, as far as the pool has room.
    pub open spec fn retired_one(&self, later: &Self, desc: usize) -> bool {
        &&& later.pins() == self.pins()
        &&& later.epoch() == if self.epoch() < u64::MAX {
            (self.epoch() + 1) as u64
        } else {
            self.epoch()
        }
        &&& (later.limbo(), later.pool()) == swept(
            self.limbo().push((desc, self.epoch())),
            self.pool(),
            self.pins(),
        )
    }

    /// The descriptors as their callers see them.
    pub closed spec fn descs(&self) -> Seq<DescriptorView> {
        Seq::new(self.arena.len() as nat, |i: int| self.arena[i]@)
    }

    /// Guard `g` protects descriptor `d`: the guard is in use, and the
    /// descriptor is its own candidate, or is published, or was published
    /// when the guard began or later.
    pub closed spec fn protects(&self, g: usize, d: usize) -> bool {
        &&& live_slots(self.pins@).contains(g)
        &&& d < self.arena.len()
        &&& match self.stage@[d as int] {
            Stage::Candidate { owner } => owner == g,
            Stage::Current => true,
            Stage::Superseded { .. } => true,
            Stage::Retired => self.stamp@[d as int].is_some() && self.stamp@[d as int].unwrap()
                >= self.pins[g as int].unwrap(),
        }
    }

    /// The protections in force.
    pub closed spec fn holds(&self) -> Set<(usize, usize)> {
        Set::new(|p: (usize, usize)| self.protects(p.0, p.1))
    }

    /// Everything in the invariant but what it says of the limbo list.
    spec fn wf_but_limbo(&self) -> bool {
        &&& self.stage@.len() == self.arena.len()
        &&& self.stamp@.len() == self.arena.len()
        &&& self.source < self.arena.len()
        &&& forall|d: int|
            0 <= d < self.stage@.len() ==> ((#[trigger] self.stage@[d]) == Stage::Current <==> d
                == self.source)
        &&& forall|g: int|
            0 <= g < self.pins.len() && (#[trigger] self.pins[g]).is_some() ==> self.pins[g].unwrap()
                <= self.epoch
        &&& forall|d: int|
            0 <= d < self.stamp@.len() && (#[trigger] self.stamp@[d]).is_some() ==> self.stage@[d]
                == Stage::Retired && self.stamp@[d].unwrap() <= self.epoch
        &&& pool_capacity(self.pool) == POOL_CAPACITY
        &&& pool_contents(self.pool).len() <= POOL_CAPACITY
        &&& forall|i: int|
            0 <= i < pool_contents(self.pool).len() ==> {
                &&& (#[trigger] pool_contents(self.pool)[i]) < self.arena.len()
                &&& self.stage@[pool_contents(self.pool)[i] as int] == Stage::Retired
                &&& self.stamp@[pool_contents(self.pool)[i] as int].is_none()
            }
        &&& pool_contents(self.pool).no_duplicates()
    }

    /// The entries of `limbo` from `from` on name different descriptors,
    /// each with the stamp that is recorded for it.
    spec fn limbo_ok(&self, limbo: Seq<(usize, u64)>, from: int) -> bool {
        &&& forall|i: int|
            from <= i < limbo.len() ==> (#[trigger] limbo[i]).0 < self.arena.len()
                && self.stamp@[limbo[i].0 as int] == Some(limbo[i].1)
        &&& forall|i: int, j: int|
            from <= i < limbo.len() && from <= j < limbo.len() && i != j ==> (#[trigger] limbo[i]).0
                != (#[trigger] limbo[j]).0
    }

    /// What the invariant says of the books: the pool holds no more than
    /// `POOL_CAPACITY` descriptors; the descriptors in the pool and those in
    /// limbo are all different, exist and are retired; no stamp and no
    /// guard's epoch is later than the current epoch; and there are no more
    /// descriptors than a machine word counts.
    pub proof fn lemma_books(&self)
        requires
            self.wf(),
        ensures
            self.pool().len() <= POOL_CAPACITY,
            self.pool().no_duplicates(),
            self.state().descs.len() <= usize::MAX,
            forall|i: int|
                0 <= i < self.pool().len() ==> self.state().has(#[trigger] self.pool()[i])
                    && self.state().stage[self.pool()[i] as int] == Stage::Retired,
            forall|i: int|
                0 <= i < self.limbo().len() ==> self.state().has((#[trigger] self.limbo()[i]).0)
                    && self.state().stage[self.limbo()[i].0 as int] == Stage::Retired
                    && self.limbo()[i].1 <= self.epoch(),
            forall|i: int, j: int|
                0 <= i < self.limbo().len() && 0 <= j < self.limbo().len() && i != j ==> (
                #[trigger] self.limbo()[i]).0 != (#[trigger] self.limbo()[j]).0,
            forall|i: int, j: int|
                0 <= i < self.limbo().len() && 0 <= j < self.pool().len() ==> (
                #[trigger] self.limbo()[i]).0 != #[trigger] self.pool()[j],
            forall|g: int|
                0 <= g < self.pins().len() && (#[trigger] self.pins()[g]).is_some()
                    ==> self.pins()[g].unwrap() <= self.epoch(),
            self.state().guards == crate::guards::live_slots(self.pins()),
    {
        assert forall|i: int| 0 <= i < self.limbo().len() implies self.state().has(
            (#[trigger] self.limbo()[i]).0,
        ) && self.state().stage[self.limbo()[i].0 as int] == Stage::Retired && self.limbo()[i].1
            <= self.epoch() by {
            assert(self.stamp@[self.limbo@[i].0 as int].is_some());
        }
        assert forall|i: int, j: int|
            0 <= i < self.limbo().len() && 0 <= j < self.pool().len() implies (
        #[trigger] self.limbo()[i]).0 != #[trigger] self.pool()[j] by {
            assert(self.stamp@[self.limbo@[i].0 as int].is_some());
            assert(self.stamp@[pool_contents(self.pool)[j] as int].is_none());
        }
    }

    /// A strategy whose published descriptor says that the vector is empty.
    pub fn new() -> (s: Self)
        ensures
            s.wf(),
            s.state() == StrategyState::initial(),
            s.pins() == Seq::<Option<u64>>::empty(),
            s.epoch() == 0,
            s.limbo() == Seq::<(usize, u64)>::empty(),
            s.pool() == Seq::<usize>::empty(),
    {
        let mut arena: Vec<Descriptor> = Vec::new();
        arena.push(Descriptor::new(0, None));
        let stage: Ghost<Seq<Stage>> = Ghost(Seq::empty().push(Stage::Current));
        let stamp: Ghost<Seq<Option<u64>>> = Ghost(Seq::empty().push(None));
        let s = EpochGarbageCollectionStrategy {
            arena,
            source: 0,
            pins: Vec::new(),
            epoch: 0,
            limbo: Vec::new(),
            pool: pool_new(POOL_CAPACITY),
            stage,
            stamp,
        };
        assert(s.state().descs =~= seq![DescriptorView { size: 0, pending: None }]);
        assert(s.state().stage =~= seq![Stage::Current]);
        assert(s.state().guards =~= Set::<usize>::empty());
        assert(s.state().holds =~= Set::<(usize, usize)>::empty());
        s
    }

    /// The earliest epoch in which a guard in use began, if any guard is in
    /// use.
    fn earliest_pin(&self) -> (r: Option<u64>)
        ensures
            r.is_none() ==> live_slots(self.pins@) == Set::<usize>::empty(),
            r.is_none() ==> forall|g: int| 0 <= g < self.pins.len() ==> (#[trigger] self.pins[g]).is_none(),
            r.is_some() ==> forall|g: int|
                0 <= g < self.pins.len() && (#[trigger] self.pins[g]).is_some() ==> r.unwrap()
                    <= self.pins[g].unwrap(),
            r.is_some() ==> exists|g: int| 0 <= g < self.pins.len() && #[trigger] self.pins[g] == r,
    {
        let mut best: Option<u64> = None;
        let mut i: usize = 0;
        while i < self.pins.len()
            invariant
                i <= self.pins.len(),
                best.is_none() ==> forall|g: int| 0 <= g < i ==> (#[trigger] self.pins[g]).is_none(),
                best.is_some() ==> forall|g: int|
                    0 <= g < i && (#[trigger] self.pins[g]).is_some() ==> best.unwrap()
                        <= self.pins[g].unwrap(),
                best.is_some() ==> exists|g: int| 0 <= g < i && #[trigger] self.pins[g] == best,
            decreases self.pins.len() - i,
        {
            let ghost witness = if best.is_some() {
                choose|g: int| 0 <= g < i && #[trigger] self.pins[g] == best
            } else {
                0
            };
            if let Some(e) = self.pins[i] {
                best =
                match best {
                    Some(b) => if e < b {
                        Some(e)
                    } else {
                        Some(b)
                    },
                    None => Some(e),
                };
            }
            proof {
                if best.is_some() {
                    if best == self.pins[i as int] {
                        assert(self.pins[i as int] == best);
                    } else {
                        assert(self.pins[witness] == best);
                    }
                }
            }
            i = i + 1;
        }
        assert(best.is_none() ==> live_slots(self.pins@) =~= Set::<usize>::empty());
        best
    }

    /// Moves every descriptor in limbo that no guard in use can still see to
    /// the pool of reusable descriptors, as far as the pool has room.
    #[verifier::rlimit(40)]
    fn collect(&mut self)
        requires
            old(self).wf(),
        ensures
            final(self).wf(),
            final(self).state() == old(self).state(),
            final(self).pins() == old(self).pins(),
            final(self).epoch() == old(self).epoch(),
            (final(self).limbo(), final(self).pool()) == swept(
                old(self).limbo(),
                old(self).pool(),
                old(self).pins(),
            ),
    {
        let earliest = self.earliest_pin();
        let mut kept: Vec<(usize, u64)> = Vec::new();
        let mut i: usize = 0;
        while i < self.limbo.len()
            invariant
                i <= self.limbo.len(),
                self.wf_but_limbo(),
                self.limbo_ok(self.limbo@, i as int),
                self.limbo_ok(kept@, 0),
                forall|a: int, b: int|
                    0 <= a < kept.len() && i <= b < self.limbo.len() ==> (#[trigger] kept[a]).0 != (
                    #[trigger] self.limbo[b]).0,
                self.limbo == old(self).limbo,
                self.pins == old(self).pins,
                self.arena == old(self).arena,
                self.source == old(self).source,
                self.stage == old(self).stage,
                self.stamp@.len() == old(self).stamp@.len(),
                self.holds() == old(self).holds(),
                self.epoch == old(self).epoch,
                (kept@, self.pool()) == swept(
                    self.limbo@.take(i as int),
                    old(self).pool(),
                    self.pins@,
                ),
                earliest.is_none() ==> live_slots(self.pins@) == Set::<usize>::empty(),
                earliest.is_none() ==> forall|g: int|
                    0 <= g < self.pins.len() ==> (#[trigger] self.pins[g]).is_none(),
                earliest.is_some() ==> forall|g: int|
                    0 <= g < self.pins.len() && (#[trigger] self.pins[g]).is_some()
                        ==> earliest.unwrap() <= self.pins[g].unwrap(),
                earliest.is_some() ==> exists|g: int|
                    0 <= g < self.pins.len() && #[trigger] self.pins[g] == earliest,
            decreases self.limbo.len() - i,
        {
            let (d, s) = self.limbo[i];
            let reusable = match earliest {
                Some(e) => s < e,
                None => true,
            };
            proof {
                assert(self.limbo@.take(i + 1).drop_last() =~= self.limbo@.take(i as int));
                assert(self.limbo@.take(i + 1).last() == (d, s));
                if earliest.is_some() {
                    let g = choose|g: int| 0 <= g < self.pins.len() && #[trigger] self.pins[g] == earliest;
                    assert(self.pins[g].is_some());
                }
                assert(reusable == reclaimable(s, self.pins@));
            }
            if reusable {
                let ghost before = *self;
                self.stamp = Ghost(self.stamp@.update(d as int, None));
                let _ = pool_push(&mut self.pool, d);
                proof {
                    assert(self.holds() =~= before.holds()) by {
                        assert forall|p: (usize, usize)| self.protects(p.0, p.1) == before.protects(
                            p.0,
                            p.1,
                        ) by {
                            if p.1 == d && live_slots(self.pins@).contains(p.0) {
                                assert(self.pins[p.0 as int].is_some());
                            }
                        }
                    }
                    assert(pool_contents(self.pool).no_duplicates()) by {
                        assert forall|a: int, b: int|
                            0 <= a < pool_contents(self.pool).len() && 0 <= b < pool_contents(
                                self.pool,
                            ).len() && a != b implies pool_contents(self.pool)[a] != pool_contents(
                            self.pool,
                        )[b] by {
                            let n = pool_contents(before.pool).len();
                            if a < n && b < n {
                                assert(pool_contents(before.pool)[a] != pool_contents(before.pool)[b]);
                            } else if a < n {
                                assert(before.stamp@[pool_contents(before.pool)[a] as int].is_none());
                            } else if b < n {
                                assert(before.stamp@[pool_contents(before.pool)[b] as int].is_none());
                            }
                        }
                    }
                }
            } else {
                kept.push((d, s));
            }
            i = i + 1;
        }
        proof {
            assert(self.limbo@.take(self.limbo.len() as int) =~= self.limbo@);
        }
        self.limbo = kept;
        proof {
            assert(self.descs() =~= old(self).descs());
            assert(self.state().holds == old(self).state().holds);
            assert(self.state().guards == old(self).state().guards);
            assert(self.state().stage == old(self).state().stage);
        }
    }

    /// Replaces the descriptor named `desc`, keeping its protection count.
    fn store(&mut self, desc: usize, size: usize, pending: Option<WriteDescriptor>)
        requires
            old(self).wf(),
            desc < old(self).arena.len(),
        ensures
            final(self).wf(),
            final(self).state().guards == old(self).state().guards,
            final(self).state().descs == old(self).state().descs.update(
                desc as int,
                DescriptorView { size, pending },
            ),
            final(self).state().stage == old(self).state().stage,
            final(self).state().current == old(self).state().current,
            final(self).state().holds == old(self).state().holds,
            final(self).same_books(old(self)),
    {
        let counter = self.arena[desc].counter;
        self.arena[desc] = Descriptor { size, counter, pending };
        proof {
            assert(self.descs() =~= old(self).descs().update(
                desc as int,
                DescriptorView { size, pending },
            ));
            assert(self.holds() =~= old(self).holds()) by {
                assert forall|p: (usize, usize)| self.protects(p.0, p.1) == old(self).protects(
                    p.0,
                    p.1,
                ) by {}
            }
        }
    }
}

impl Strategy for EpochGarbageCollectionStrategy {
    closed spec fn state(&self) -> StrategyState {
        StrategyState {
            descs: self.descs(),
            stage: self.stage@,
            current: self.source,
            guards: live_slots(self.pins@),
            holds: self.holds(),
        }
    }

    closed spec fn wf(&self) -> bool {
        &&& self.wf_but_limbo()
        &&& self.limbo_ok(self.limbo@, 0)
    }

    open spec fn reusable(&self) -> Option<usize> {
        if self.pool().len() > 0 {
            Some(self.pool()[0])
        } else {
            None
        }
    }

    proof fn lemma_wf(&self) {
    }

    fn guard(&mut self) -> (g: DescriptionGuard)
        ensures
            final(self).pins() == if g.id < old(self).pins().len() {
                old(self).pins().update(g.id as int, Some(old(self).epoch()))
            } else {
                old(self).pins().push(Some(old(self).epoch()))
            },
            final(self).epoch() == old(self).epoch(),
            final(self).limbo() == old(self).limbo(),
            final(self).pool() == old(self).pool(),
    {
        let id = claim_slot(&mut self.pins, self.epoch);
        proof {
            assert(self.descs() =~= old(self).descs());
            assert(old(self).state().holds.subset_of(self.state().holds)) by {
                assert forall|p: (usize, usize)| old(self).protects(p.0, p.1) implies self.protects(
                    p.0,
                    p.1,
                ) by {}
            }
        }
        DescriptionGuard { id }
    }

    fn unpin(&mut self, guard: DescriptionGuard)
        ensures
            final(self).pins() == old(self).pins().update(guard.id as int, None),
            final(self).epoch() == old(self).epoch(),
            (final(self).limbo(), final(self).pool()) == swept(
                old(self).limbo(),
                old(self).pool(),
                final(self).pins(),
            ),
    {
        free_slot(&mut self.pins, guard.id);
        proof {
            assert(self.descs() =~= old(self).descs());
            assert(self.wf());
            assert(old(self).state().holds_of_others_kept(self.state(), guard.id)) by {
                assert forall|h: usize, e: usize|
                    old(self).protects(h, e) && h != guard.id implies self.protects(h, e) by {}
            }
        }
        self.collect();
    }

    #[verifier::rlimit(40)]
    fn allocate(&mut self, guard: &DescriptionGuard) -> (d: usize)
        ensures
            final(self).pins() == old(self).pins(),
            final(self).epoch() == old(self).epoch(),
            final(self).limbo() == old(self).limbo(),
            final(self).pool() == if old(self).pool().len() > 0 {
                old(self).pool().drop_first()
            } else {
                old(self).pool()
            },
    {
        match pool_pop(&mut self.pool) {
            Some(d) => {
                self.stage = Ghost(self.stage@.update(d as int, Stage::Candidate { owner: guard.id }));
                proof {
                    let before = pool_contents(old(self).pool);
                    assert(before[0] == d);
                    assert forall|i: int| 0 <= i < pool_contents(self.pool).len() implies (
                    #[trigger] pool_contents(self.pool)[i]) != d by {
                        assert(pool_contents(self.pool)[i] == before[i + 1]);
                    }
                    assert(pool_contents(self.pool).no_duplicates()) by {
                        assert forall|a: int, b: int|
                            0 <= a < pool_contents(self.pool).len() && 0 <= b < pool_contents(
                                self.pool,
                            ).len() && a != b implies pool_contents(self.pool)[a] != pool_contents(
                            self.pool,
                        )[b] by {
                            assert(before[a + 1] != before[b + 1]);
                        }
                    }
                    assert forall|i: int| 0 <= i < pool_contents(self.pool).len() implies {
                        &&& (#[trigger] pool_contents(self.pool)[i]) < self.arena.len()
                        &&& self.stage@[pool_contents(self.pool)[i] as int] == Stage::Retired
                        &&& self.stamp@[pool_contents(self.pool)[i] as int].is_none()
                    } by {
                        assert(pool_contents(self.pool)[i] == before[i + 1]);
                    }
                    assert(self.descs() =~= old(self).descs());
                    assert(old(self).state().unprotected(d));
                    assert(self.protects(guard.id, d));
                    assert(old(self).state().holds.subset_of(self.state().holds)) by {
                        assert forall|p: (usize, usize)| old(self).protects(p.0, p.1) implies self.protects(
                            p.0,
                            p.1,
                        ) by {}
                    }
                }
                d
            },
            None => {
                self.arena.push(Descriptor::new(0, None));
                self.stage = Ghost(self.stage@.push(Stage::Candidate { owner: guard.id }));
                self.stamp = Ghost(self.stamp@.push(None));
                proof {
                    assert(self.protects(guard.id, (self.arena.len() - 1) as usize));
                    assert(old(self).state().holds.subset_of(self.state().holds)) by {
                        assert forall|p: (usize, usize)| old(self).protects(p.0, p.1) implies self.protects(
                            p.0,
                            p.1,
                        ) by {}
                    }
                }
                self.arena.len() - 1
            },
        }
    }

    fn access(&mut self, guard: &DescriptionGuard) -> (d: usize)
        ensures
            final(self).same_books(old(self)),
    {
        proof {
            assert(self.protects(guard.id, self.source));
        }
        self.source
    }

    fn release_access(&mut self, desc: usize, guard: &DescriptionGuard)
        ensures
            *final(self) == *old(self),
            final(self).same_books(old(self)),
    {
    }

    #[verifier::rlimit(40)]
    fn dealloc(&mut self, desc: usize, guard: &DescriptionGuard)
        ensures
            final(self).pins() == old(self).pins(),
            final(self).epoch() == if old(self).epoch() < u64::MAX {
                (old(self).epoch() + 1) as u64
            } else {
                old(self).epoch()
            },
            (final(self).limbo(), final(self).pool()) == swept(
                old(self).limbo().push((desc, old(self).epoch())),
                old(self).pool(),
                old(self).pins(),
            ),
    {
        self.limbo.push((desc, self.epoch));
        self.stamp = Ghost(self.stamp@.update(desc as int, Some(self.epoch)));
        self.stage = Ghost(self.stage@.update(desc as int, Stage::Retired));
        if self.epoch < u64::MAX {
            self.epoch = self.epoch + 1;
        }
        proof {
            assert(self.descs() =~= old(self).descs());
            assert(self.limbo_ok(self.limbo@, 0)) by {
                assert forall|i: int| 0 <= i < self.limbo.len() implies (#[trigger] self.limbo[i]).0
                    < self.arena.len() && self.stamp@[self.limbo[i].0 as int] == Some(
                    self.limbo[i].1,
                ) by {
                    if i < old(self).limbo.len() {
                        assert(self.limbo[i] == old(self).limbo[i]);
                    }
                }
                assert forall|i: int, j: int|
                    0 <= i < self.limbo.len() && 0 <= j < self.limbo.len() && i != j implies (
                #[trigger] self.limbo[i]).0 != (#[trigger] self.limbo[j]).0 by {
                    if i < old(self).limbo.len() {
                        assert(self.limbo[i] == old(self).limbo[i]);
                    }
                    if j < old(self).limbo.len() {
                        assert(self.limbo[j] == old(self).limbo[j]);
                    }
                }
            }
            assert(self.wf());
            assert(old(self).state().holds.subset_of(self.state().holds)) by {
                assert forall|p: (usize, usize)| old(self).protects(p.0, p.1) implies self.protects(
                    p.0,
                    p.1,
                ) by {
                    if live_slots(old(self).pins@).contains(p.0) {
                        assert(old(self).pins[p.0 as int].is_some());
                    }
                }
            }
        }
        self.collect();
    }

    fn swap(&mut self, prev: usize, new_desc: usize, guard: &DescriptionGuard) -> (won: bool)
        ensures
            final(self).same_books(old(self)),
    {
        if prev == self.source {
            self.source = new_desc;
            self.stage = Ghost(
                self.stage@.update(new_desc as int, Stage::Current).update(
                    prev as int,
                    Stage::Superseded { by: guard.id },
                ),
            );
            proof {
                assert(self.descs() =~= old(self).descs());
                assert(old(self).state().holds.subset_of(self.state().holds)) by {
                    assert forall|p: (usize, usize)| old(self).protects(p.0, p.1) implies self.protects(
                        p.0,
                        p.1,
                    ) by {}
                }
            }
            true
        } else {
            false
        }
    }

    fn descriptor(&self) -> (r: &Descriptor) {
        &self.arena[self.source]
    }

    fn get(&self, desc: usize) -> (r: &Descriptor) {
        &self.arena[desc]
    }

    fn prepare(
        &mut self,
        desc: usize,
        size: usize,
        pending: Option<WriteDescriptor>,
        guard: &DescriptionGuard,
    )
        ensures
            final(self).same_books(old(self)),
    {
        self.store(desc, size, pending);
    }

    fn mark_completed(&mut self, desc: usize)
        ensures
            final(self).same_books(old(self)),
    {
        let entry: Descriptor = self.arena[desc];
        if let Some(w) = entry.pending {
            self.store(desc, entry.size, Some(WriteDescriptor {
                old_value: w.old_value,
                new_value: w.new_value,
                pos: w.pos,
                completed: true,
            }));
        }
        proof {
            assert(self.state().descs =~= old(self).state().descs.update(
                desc as int,
                old(self).state().descs[desc as int].complete(),
            ));
        }
    }
}

} // verus!
