//! The vector engine: a growable array of `usize` whose every change of
//! size is the publication of a new descriptor, and whose element writes are
//! announced in the descriptor and carried out by whoever sees them first.
use vstd::prelude::*;
use crate::backend::Backend;
use crate::bucket::{
    bucket_index, bucket_of, bucket_offset, bucket_size, lemma_bucket_index_bounded,
    lemma_bucket_index_monotonic, lemma_bucket_index_successor, lemma_bucket_size_doubles, lemma_first_index, lemma_bucket_of_index, lemma_bucket_of_injective, max_bucket,
    spec_bucket_size, FIRST_BUCKET_SIZE, MAX_INDEX, NUM_BUCKETS,
};
use crate::descriptor::{Descriptor, DescriptorView, WriteDescriptor};
use crate::epoch::EpochGarbageCollectionStrategy;
use crate::refcounted::RefcountedDescriptorStrategy;
use crate::ops::{descriptor_step, step_of, PopOp, PopPhase, PushOp, PushPhase};
use crate::strategy::{DescriptionGuard, Stage, Strategy, StrategyState};

verus! {

/// A growable array of `usize`.
///
/// Every method is one indivisible step or a sequence of such steps. The
/// sequences `push_back` and `pop_back` run to their end without
/// interruption; `PushOp` and `PopOp` run the same sequences one step at a
/// time, so that several of them can be interleaved on one vector.
pub struct LockfreeVec {
    /// The bucket store: an empty bucket stands for one not yet allocated.
    memory: Vec<Vec<usize>>,
    /// Owner of the descriptors.
    strategy: Backend,
}

impl View for LockfreeVec {
    type V = Seq<usize>;

    /// The contents as of the published descriptor: its pending write counts
    /// as carried out.
    open spec fn view(&self) -> Seq<usize> {
        Seq::new(self.current().size as nat, |i: int| self.committed(i as nat))
    }
}

impl LockfreeVec {
    /// The state of the reclamation strategy.
    pub closed spec fn state(&self) -> StrategyState {
        self.strategy.state()
    }

    /// The contents of the bucket store.
    pub closed spec fn buckets(&self) -> Seq<Seq<usize>> {
        Seq::new(self.memory.len() as nat, |b: int| self.memory[b]@)
    }

    /// The invariant of the reclamation strategy.
    pub closed spec fn inv(&self) -> bool {
        self.strategy.wf()
    }

    /// The reclamation strategy that the vector was built with.
    pub closed spec fn backend(&self) -> Backend {
        self.strategy
    }

    /// Bucket `b` has storage.
    pub open spec fn bucket_allocated(&self, b: nat) -> bool {
        b < NUM_BUCKETS && self.buckets()[b as int].len() > 0
    }

    /// The slot of logical index `i` has storage.
    pub open spec fn allocated(&self, i: nat) -> bool {
        self.bucket_allocated(bucket_index(i))
    }

    /// The value stored in the slot of logical index `i`.
    pub open spec fn slot(&self, i: nat) -> usize {
        self.buckets()[bucket_index(i) as int][bucket_offset(i) as int]
    }

    /// The published descriptor.
    pub open spec fn current(&self) -> DescriptorView {
        self.state().descs[self.state().current as int]
    }

    /// The value that slot `i` holds once the pending write of descriptor
    /// `v` has been attempted.
    pub open spec fn landed(&self, v: DescriptorView, i: nat) -> usize {
        match v.pending {
            Some(w) => if !w.completed && w.pos == i && self.slot(i) == w.old_value {
                w.new_value
            } else {
                self.slot(i)
            },
            None => self.slot(i),
        }
    }

    /// The value at index `i` as of the published descriptor.
    pub open spec fn committed(&self, i: nat) -> usize {
        self.landed(self.current(), i)
    }

    /// The number of elements that a reader may count on: the size of the
    /// published descriptor, less the element whose write has not landed.
    pub open spec fn spec_size(&self) -> nat {
        if self.current().settled() {
            self.current().size as nat
        } else {
            (self.current().size - 1) as nat
        }
    }

    /// What holds of a descriptor that is or has been published: its size is
    /// addressable, its last element has storage, its pending write is that
    /// of its last element, and unless it is the published one its write
    /// has been attempted.
    pub open spec fn descriptor_ok(&self, d: usize) -> bool {
        let v = self.state().descs[d as int];
        &&& v.size <= MAX_INDEX
        &&& (v.size > 0 ==> self.allocated((v.size - 1) as nat))
        &&& (v.pending matches Some(w) ==> w.pos + 1 == v.size)
        &&& (d != self.state().current ==> v.settled())
    }

    /// The vector's invariant.
    pub open spec fn wf(&self) -> bool {
        &&& self.inv()
        &&& self.state().wf()
        &&& self.buckets().len() == NUM_BUCKETS
        &&& forall|b: int|
            0 <= b < NUM_BUCKETS ==> (#[trigger] self.buckets()[b]).len() == 0 || (b
                <= max_bucket() && self.buckets()[b].len() == spec_bucket_size(b as nat))
        &&& forall|b: int|
            0 < b < NUM_BUCKETS && (#[trigger] self.buckets()[b]).len() > 0 ==> self.buckets()[b
                - 1].len() > 0
        &&& forall|d: usize| #[trigger] self.state().published(d) ==> self.descriptor_ok(d)
    }

    /// `later` has storage wherever `self` has, with the same values.
    pub open spec fn storage_kept(&self, later: &LockfreeVec) -> bool {
        forall|i: nat| #[trigger]
            self.allocated(i) ==> later.allocated(i) && later.slot(i) == self.slot(i)
    }

    /// Where `later` has storage and `self` has none, `later` holds zero.
    pub open spec fn fresh_storage_zeroed(&self, later: &LockfreeVec) -> bool {
        forall|i: nat| #[trigger] later.allocated(i) && !self.allocated(i) ==> later.slot(i) == 0
    }

    /// `later` has storage for the buckets for which `self` has it, and for
    /// the bucket `added` at most besides.
    #[verifier::opaque]
    pub open spec fn same_buckets_but(&self, later: &LockfreeVec, added: Option<nat>) -> bool {
        forall|b: nat|
            Some(b) != added ==> later.bucket_allocated(b) == self.bucket_allocated(b)
    }

    /// From the bucket `from` on, `later` has storage for the buckets for
    /// which `self` has it and for no others.
    #[verifier::opaque]
    pub open spec fn same_buckets_from(&self, later: &LockfreeVec, from: nat) -> bool {
        forall|b: nat| b >= from ==> later.bucket_allocated(b) == self.bucket_allocated(b)
    }

    /// Storage added to one bucket leaves the buckets after it as they
    /// were.
    proof fn lemma_same_buckets_after(
        &self,
        middle: &LockfreeVec,
        later: &LockfreeVec,
        added: nat,
        from: nat,
    )
        requires
            self.same_buckets_from(middle, from),
            middle.same_buckets_but(later, Some(added)),
            added < from,
        ensures
            self.same_buckets_from(later, from),
    {
        reveal(LockfreeVec::same_buckets_but);
        reveal(LockfreeVec::same_buckets_from);
    }

    /// A vector has the storage it has.
    proof fn lemma_same_buckets_from_itself(&self, from: nat)
        ensures
            self.same_buckets_from(self, from),
    {
        reveal(LockfreeVec::same_buckets_from);
    }

    /// Past the contents of `self`, `later` has storage wherever `self` has,
    /// with the same values, and holds zero where it has storage and `self`
    /// has none.
    #[verifier::opaque]
    pub open spec fn tail_as_read(&self, later: &LockfreeVec) -> bool {
        forall|i: nat|
            i >= self@.len() ==> (self.allocated(i) ==> later.allocated(i)) && (later.allocated(
                i,
            ) ==> later.slot(i) == if self.allocated(i) {
                self.slot(i)
            } else {
                0
            })
    }

    /// Vectors with the same store agree past their contents.
    proof fn lemma_tail_same(&self, later: &LockfreeVec)
        requires
            later.buckets() == self.buckets(),
        ensures
            self.tail_as_read(later),
    {
        reveal(LockfreeVec::tail_as_read);
    }

    /// What holds past the contents carries over from step to step while
    /// the contents do not grow.
    pub proof fn lemma_tail_on(&self, middle: &LockfreeVec, later: &LockfreeVec)
        requires
            self.tail_as_read(middle),
            middle.tail_as_read(later),
            middle@.len() <= self@.len(),
        ensures
            self.tail_as_read(later),
    {
        reveal(LockfreeVec::tail_as_read);
    }

    /// What holds past the contents of the slot right after them.
    pub proof fn lemma_tail_slot(&self, later: &LockfreeVec, i: nat)
        requires
            self.tail_as_read(later),
            i >= self@.len(),
            later.allocated(i),
        ensures
            later.slot(i) == if self.allocated(i) {
                self.slot(i)
            } else {
                0
            },
    {
        reveal(LockfreeVec::tail_as_read);
    }

    /// Vectors with the same store have storage for the same buckets.
    proof fn lemma_same_buckets(&self, later: &LockfreeVec, added: Option<nat>)
        requires
            later.buckets() == self.buckets(),
        ensures
            self.same_buckets_but(later, added),
    {
        reveal(LockfreeVec::same_buckets_but);
    }

    /// Having storage for the same buckets carries over from step to step.
    pub proof fn lemma_same_buckets_on(
        &self,
        middle: &LockfreeVec,
        later: &LockfreeVec,
        added: Option<nat>,
    )
        requires
            self.same_buckets_but(middle, added),
            middle.same_buckets_but(later, added) || middle.same_buckets_but(later, None),
        ensures
            self.same_buckets_but(later, added),
    {
        reveal(LockfreeVec::same_buckets_but);
    }

    /// Buckets are allocated in order: storage for a bucket implies storage
    /// for every bucket before it.
    pub proof fn lemma_bucket_prefix(&self, a: nat, b: nat)
        requires
            self.wf(),
            a <= b,
            self.bucket_allocated(b),
        ensures
            self.bucket_allocated(a),
        decreases b - a,
    {
        if a < b {
            assert(self.buckets()[b as int].len() > 0);
            assert(self.buckets()[b as int - 1].len() > 0);
            self.lemma_bucket_prefix(a, (b - 1) as nat);
        }
    }

    /// Storage for an index implies storage for every smaller index.
    pub proof fn lemma_allocated_below(&self, i: nat, j: nat)
        requires
            self.wf(),
            i <= j,
            self.allocated(j),
        ensures
            self.allocated(i),
    {
        lemma_bucket_index_monotonic(i, j);
        self.lemma_bucket_prefix(bucket_index(i), bucket_index(j));
    }

    /// The slot of an index with storage lies inside its bucket.
    pub proof fn lemma_slot_in_bucket(&self, i: nat)
        requires
            self.wf(),
            self.allocated(i),
        ensures
            bucket_index(i) < NUM_BUCKETS,
            bucket_offset(i) < self.buckets()[bucket_index(i) as int].len(),
    {
        lemma_bucket_of_index(i);
        assert(self.buckets()[bucket_index(i) as int].len() > 0);
    }

    /// Sixty-four buckets without storage.
    fn empty_store() -> (memory: Vec<Vec<usize>>)
        ensures
            memory.len() == NUM_BUCKETS,
            forall|b: int| 0 <= b < NUM_BUCKETS ==> (#[trigger] memory[b]).len() == 0,
    {
        let mut memory: Vec<Vec<usize>> = Vec::new();
        let mut b: usize = 0;
        while b < NUM_BUCKETS
            invariant
                b <= NUM_BUCKETS,
                memory.len() == b,
                forall|c: int| 0 <= c < b ==> (#[trigger] memory[c]).len() == 0,
            decreases NUM_BUCKETS - b,
        {
            memory.push(Vec::new());
            b = b + 1;
        }
        memory
    }

    /// An empty vector without storage, whose descriptors are reclaimed by
    /// epochs: its strategy is the one by epochs, in its first epoch, with
    /// no guard in use and nothing retired or ready for reuse.
    pub fn new() -> (v: LockfreeVec)
        ensures
            v.wf(),
            v@ == Seq::<usize>::empty(),
            v.spec_size() == 0,
            v.state() == StrategyState::initial(),
            forall|b: nat| !v.bucket_allocated(b),
            v.backend() matches Backend::Epoch(s) && s.pins() == Seq::<Option<u64>>::empty()
                && s.epoch() == 0 && s.limbo() == Seq::<(usize, u64)>::empty() && s.pool()
                == Seq::<usize>::empty(),
    {
        assert(FIRST_BUCKET_SIZE % 2 == 0);
        let strategy = Backend::Epoch(EpochGarbageCollectionStrategy::new());
        let v = LockfreeVec { memory: Self::empty_store(), strategy };
        proof {
            v.strategy.lemma_wf();
            assert(v@ =~= Seq::<usize>::empty());
        }
        v
    }

    /// An empty vector without storage, whose descriptors are reclaimed by
    /// counting their protections: its strategy is the one that counts,
    /// with nothing retired and no protection counted.
    pub fn with_reference_counting() -> (v: LockfreeVec)
        ensures
            v.wf(),
            v@ == Seq::<usize>::empty(),
            v.spec_size() == 0,
            v.state() == StrategyState::initial(),
            forall|b: nat| !v.bucket_allocated(b),
            v.backend() matches Backend::Refcounted(s) && s.retired() == Seq::<usize>::empty()
                && s.counts() == seq![0usize],
    {
        let strategy = Backend::Refcounted(RefcountedDescriptorStrategy::new());
        let v = LockfreeVec { memory: Self::empty_store(), strategy };
        proof {
            v.strategy.lemma_wf();
            assert(v@ =~= Seq::<usize>::empty());
        }
        v
    }

    /// Bucket and offset of logical index `i`.
    pub fn get_bucket_and_pos_at(i: usize) -> (r: (usize, usize))
        requires
            i <= MAX_INDEX,
        ensures
            r.0 == bucket_index(i as nat),
            r.1 == bucket_offset(i as nat),
    {
        bucket_of(i)
    }

    /// The storage of bucket `bucket`; empty while the bucket has none.
    pub fn get_bucket(&self, bucket: usize) -> (r: &Vec<usize>)
        requires
            self.wf(),
            bucket < NUM_BUCKETS,
        ensures
            r@ == self.buckets()[bucket as int],
    {
        &self.memory[bucket]
    }

    /// The slot of logical index `i`.
    pub fn at(&self, i: usize) -> (r: &usize)
        requires
            self.wf(),
            i <= MAX_INDEX,
            self.allocated(i as nat),
        ensures
            *r == self.slot(i as nat),
    {
        let (bucket, idx) = Self::get_bucket_and_pos_at(i);
        proof {
            self.lemma_slot_in_bucket(i as nat);
        }
        &self.memory[bucket][idx]
    }

    /// Loads the value stored at index `i`. Below the observable size this
    /// is the element at `i`.
    pub fn read(&self, i: usize) -> (r: usize)
        requires
            self.wf(),
            i <= MAX_INDEX,
            self.allocated(i as nat),
        ensures
            r == self.slot(i as nat),
            i < self.spec_size() ==> r == self@[i as int],
    {
        proof {
            assert(self.state().published(self.state().current));
            assert(self.descriptor_ok(self.state().current));
        }
        *self.at(i)
    }

    /// Stores `elem` in the slot of index `i`.
    #[verifier::rlimit(40)]
    fn store(&mut self, i: usize, elem: usize)
        requires
            old(self).wf(),
            i <= MAX_INDEX,
            old(self).allocated(i as nat),
        ensures
            final(self).wf(),
            final(self).state() == old(self).state(),
            final(self).slot(i as nat) == elem,
            forall|j: nat|
                j != i && old(self).allocated(j) ==> final(self).slot(j) == old(self).slot(j),
            forall|j: nat| final(self).allocated(j) == old(self).allocated(j),
            forall|b: nat| final(self).bucket_allocated(b) == old(self).bucket_allocated(b),
            final(self).backend() == old(self).backend(),
    {
        let (bucket, idx) = Self::get_bucket_and_pos_at(i);
        proof {
            self.lemma_slot_in_bucket(i as nat);
        }
        self.memory[bucket][idx] = elem;
        proof {
            assert(self.buckets() =~= old(self).buckets().update(
                bucket as int,
                old(self).buckets()[bucket as int].update(idx as int, elem),
            ));
            assert forall|b: nat| self.bucket_allocated(b) == old(self).bucket_allocated(b) by {}
            assert forall|j: nat| j != i && old(self).allocated(j) implies self.slot(j) == old(self).slot(j) by {
                old(self).lemma_slot_in_bucket(j);
                if bucket_index(j) == bucket_index(i as nat) && bucket_offset(j) == bucket_offset(
                    i as nat,
                ) {
                    lemma_bucket_of_injective(i as nat, j);
                }
            }
            assert forall|d: usize| #[trigger] self.state().published(d) implies self.descriptor_ok(
                d,
            ) by {
                assert(old(self).descriptor_ok(d));
            }
        }
    }

    /// Stores `elem` at index `i`, which may be any index up to and
    /// including the observable size whose slot has storage. Below the
    /// observable size this replaces the element at `i`.
    #[verifier::rlimit(40)]
    pub fn write(&mut self, i: usize, elem: usize)
        requires
            old(self).wf(),
            i <= old(self).spec_size(),
            old(self).allocated(i as nat),
        ensures
            final(self).wf(),
            final(self).state() == old(self).state(),
            final(self).slot(i as nat) == elem,
            forall|j: nat|
                j != i && old(self).allocated(j) ==> final(self).slot(j) == old(self).slot(j),
            forall|j: nat| final(self).allocated(j) == old(self).allocated(j),
            forall|b: nat| final(self).bucket_allocated(b) == old(self).bucket_allocated(b),
            final(self).spec_size() == old(self).spec_size(),
            i < old(self).spec_size() ==> final(self)@ == old(self)@.update(i as int, elem),
            i >= old(self)@.len() ==> final(self)@ == old(self)@,
            final(self).backend() == old(self).backend(),
    {
        proof {
            assert(self.state().published(self.state().current));
            assert(self.descriptor_ok(self.state().current));
        }
        self.store(i, elem);
        proof {
            old(self).lemma_size_masks_pending();
            if i < old(self).spec_size() {
                assert forall|j: nat| j < old(self)@.len() && j != i implies #[trigger] self.committed(
                    j,
                ) == old(self).committed(j) by {}
                assert(self@ =~= old(self)@.update(i as int, elem));
            }
            if i >= old(self)@.len() {
                assert forall|j: nat| j < old(self)@.len() implies #[trigger] self.committed(j)
                    == old(self).committed(j) by {}
                assert(self@ =~= old(self)@);
            }
        }
    }

    /// The observable size never counts an element whose write has not
    /// landed: it is the length of the contents or one less, every element
    /// has storage, and below the observable size every slot holds its
    /// element.
    pub proof fn lemma_size_masks_pending(&self)
        requires
            self.wf(),
        ensures
            self.spec_size() <= self@.len() <= self.spec_size() + 1,
            self.current().settled() ==> self.spec_size() == self@.len(),
            forall|i: nat| i < self@.len() ==> self.allocated(i),
            forall|i: nat| i < self.spec_size() ==> self.slot(i) == #[trigger] self@[i as int],
    {
        assert(self.state().published(self.state().current));
        assert(self.descriptor_ok(self.state().current));
        assert forall|i: nat| i < self@.len() implies self.allocated(i) by {
            self.lemma_allocated_below(i, (self@.len() - 1) as nat);
        }
    }

    /// Keeping storage carries over from step to step.
    pub proof fn lemma_storage_kept_on(&self, middle: &LockfreeVec, later: &LockfreeVec)
        requires
            self.storage_kept(middle),
            middle.storage_kept(later),
        ensures
            self.storage_kept(later),
    {
        assert forall|i: nat| #[trigger] self.allocated(i) implies later.allocated(i)
            && later.slot(i) == self.slot(i) by {
            assert(middle.allocated(i));
        }
    }

    /// Storage that was made sure of stays: where the first `n` indices had
    /// storage in `self` and `later` has kept the storage of `self`, they
    /// have storage in `later`.
    pub proof fn lemma_reserved_stays(&self, later: &LockfreeVec, n: nat)
        requires
            forall|i: nat| i < n ==> self.allocated(i),
            self.storage_kept(later),
        ensures
            forall|i: nat| i < n ==> later.allocated(i),
    {
        assert forall|i: nat| i < n implies later.allocated(i) by {
            assert(self.allocated(i));
        }
    }

    /// The observable size: the size of the published descriptor, less one
    /// while the write of its last element has not landed.
    pub fn size(&self) -> (r: usize)
        requires
            self.wf(),
        ensures
            r == self.spec_size(),
    {
        let desc = self.strategy.descriptor();
        assert(self.state().published(self.state().current));
        match desc.pending {
            Some(writeop) => if writeop.completed {
                desc.size
            } else {
                desc.size - 1
            },
            None => desc.size,
        }
    }

    /// Gives bucket `bucket` its storage unless it has it already. Buckets
    /// get their storage in order.
    #[verifier::rlimit(40)]
    pub fn alloc_bucket(&mut self, bucket: usize)
        requires
            old(self).wf(),
            bucket <= max_bucket(),
            bucket == 0 || old(self).bucket_allocated((bucket - 1) as nat),
        ensures
            final(self).wf(),
            final(self).state() == old(self).state(),
            final(self).bucket_allocated(bucket as nat),
            forall|b: nat|
                b != bucket ==> final(self).bucket_allocated(b) == old(self).bucket_allocated(b),
            old(self).storage_kept(final(self)),
            old(self).fresh_storage_zeroed(final(self)),
            old(self).same_buckets_but(final(self), Some(bucket as nat)),
            old(self).tail_as_read(final(self)),
            final(self).backend() == old(self).backend(),
            final(self)@ == old(self)@,
    {
        proof {
            reveal(LockfreeVec::same_buckets_but);
            reveal(LockfreeVec::tail_as_read);
        }
        if self.memory[bucket].len() != 0 {
            assert(self@ =~= old(self)@);
            return ;
        }
        proof {
            lemma_bucket_size_doubles(bucket as nat);
        }
        let size = bucket_size(bucket);
        self.memory[bucket] = vec![0usize; size];
        proof {
            assert(self.buckets() =~= old(self).buckets().update(
                bucket as int,
                self.memory[bucket as int]@,
            ));
            assert(old(self).buckets()[bucket as int].len() == 0);
            assert forall|b: nat| b != bucket implies self.bucket_allocated(b) == old(self).bucket_allocated(b) by {}
            assert forall|i: nat| #[trigger] old(self).allocated(i) implies self.allocated(i)
                && self.slot(i) == old(self).slot(i) by {
                assert(bucket_index(i) != bucket);
            }
            assert forall|i: nat| #[trigger] self.allocated(i) && !old(self).allocated(
                i,
            ) implies self.slot(i) == 0 by {
                assert(bucket_index(i) == bucket);
                lemma_bucket_of_index(i);
            }
            assert forall|b: int| 0 < b < NUM_BUCKETS && (#[trigger] self.buckets()[b]).len()
                > 0 implies self.buckets()[b - 1].len() > 0 by {
                if b != bucket {
                    assert(old(self).buckets()[b].len() > 0);
                    assert(old(self).buckets()[b - 1].len() > 0);
                }
            }
            assert forall|d: usize| #[trigger] self.state().published(d) implies self.descriptor_ok(
                d,
            ) by {
                assert(old(self).descriptor_ok(d));
            }
            self.lemma_view_kept(old(self));
        }
    }

    /// A vector that keeps the descriptors and the stored values of
    /// `earlier` has its contents.
    pub proof fn lemma_view_kept(&self, earlier: &LockfreeVec)
        requires
            earlier.wf(),
            self.wf(),
            self.state().descs == earlier.state().descs,
            self.state().current == earlier.state().current,
            earlier.storage_kept(self),
        ensures
            self@ == earlier@,
            self.spec_size() == earlier.spec_size(),
    {
        assert(earlier.state().published(earlier.state().current));
        assert(earlier.descriptor_ok(earlier.state().current));
        assert forall|i: nat| i < earlier.current().size implies #[trigger] self.committed(i)
            == earlier.committed(i) by {
            earlier.lemma_allocated_below(i, (earlier.current().size - 1) as nat);
        }
        assert(self@ =~= earlier@);
    }

    /// Gives the buckets from `from` to `to`, both included, their storage.
    #[verifier::rlimit(40)]
    fn alloc_buckets(&mut self, from: usize, to: usize)
        requires
            old(self).wf(),
            to <= max_bucket(),
            from == 0 || old(self).bucket_allocated((from - 1) as nat),
        ensures
            final(self).wf(),
            final(self).state() == old(self).state(),
            final(self)@ == old(self)@,
            old(self).storage_kept(final(self)),
            old(self).fresh_storage_zeroed(final(self)),
            old(self).same_buckets_from(final(self), (to + 1) as nat),
            final(self).backend() == old(self).backend(),
            from <= to ==> final(self).bucket_allocated(to as nat),
    {
        let mut i: usize = from;
        proof {
            self.lemma_same_buckets_from_itself((to + 1) as nat);
        }
        while i <= to
            invariant
                self.wf(),
                self.state() == old(self).state(),
                self@ == old(self)@,
                old(self).storage_kept(self),
                old(self).fresh_storage_zeroed(self),
                old(self).same_buckets_from(self, (to + 1) as nat),
                self.backend() == old(self).backend(),
                to <= max_bucket(),
                from <= i,
                i <= to + 1 || from > to,
                i == 0 || self.bucket_allocated((i - 1) as nat),
            decreases max_bucket() + 1 - i,
        {
            let ghost before = *self;
            self.alloc_bucket(i);
            proof {
                old(self).lemma_storage_kept_on(&before, self);
                old(self).lemma_same_buckets_after(&before, self, i as nat, (to + 1) as nat);
                assert forall|j: nat| #[trigger] self.allocated(j) && !old(self).allocated(
                    j,
                ) implies self.slot(j) == 0 by {
                    if before.allocated(j) {
                        assert(before.slot(j) == 0);
                    }
                }
            }
            i = i + 1;
        }
    }

    /// Makes sure that the first `size` indices have storage. The logical
    /// size does not change, and storage is never taken away.
    pub fn reserve(&mut self, size: usize)
        requires
            old(self).wf(),
            size <= MAX_INDEX,
        ensures
            final(self).wf(),
            final(self).state() == old(self).state(),
            final(self)@ == old(self)@,
            old(self).storage_kept(final(self)),
            old(self).fresh_storage_zeroed(final(self)),
            forall|i: nat| i < size ==> final(self).allocated(i),
            final(self).backend() == old(self).backend(),
            old(self).same_buckets_from(
                final(self),
                if size == 0 {
                    0
                } else {
                    bucket_index((size - 1) as nat) + 1
                },
            ),
    {
        if size == 0 {
            proof {
                self.lemma_same_buckets_from_itself(0);
            }
            return ;
        }
        let first = self.first_bucket_to_reserve();
        let (bucket, _) = Self::get_bucket_and_pos_at(size - 1);
        proof {
            lemma_bucket_index_bounded((size - 1) as nat);
        }
        self.alloc_buckets(first, bucket);
        proof {
            if first > bucket {
                old(self).lemma_bucket_prefix(bucket as nat, (first - 1) as nat);
                assert(old(self).allocated((size - 1) as nat));
            }
            self.lemma_reserved(size as nat);
        }
    }

    /// The bucket after the one that holds the last element, or the first
    /// bucket when there is no element: the buckets before it have storage.
    fn first_bucket_to_reserve(&self) -> (first: usize)
        requires
            self.wf(),
        ensures
            first <= max_bucket() + 1,
            first == 0 || self.bucket_allocated((first - 1) as nat),
            first == if self.current().size > 0 {
                bucket_index((self.current().size - 1) as nat) + 1
            } else {
                0
            },
    {
        let cur_size = self.strategy.descriptor().size;
        proof {
            assert(self.state().published(self.state().current));
            assert(self.descriptor_ok(self.state().current));
        }
        if cur_size > 0 {
            let (b, _) = Self::get_bucket_and_pos_at(cur_size - 1);
            proof {
                lemma_bucket_index_bounded((cur_size - 1) as nat);
            }
            b + 1
        } else {
            0
        }
    }

    /// Storage for index `size - 1` is storage for the first `size`
    /// indices.
    proof fn lemma_reserved(&self, size: nat)
        requires
            self.wf(),
            size > 0,
            self.allocated((size - 1) as nat),
        ensures
            forall|i: nat| i < size ==> self.allocated(i),
    {
        assert forall|i: nat| i < size implies self.allocated(i) by {
            self.lemma_allocated_below(i, (size - 1) as nat);
        }
    }

    /// Carries out the pending write of the published or once published
    /// descriptor `desc` unless it has been attempted before: the slot gets
    /// the new value if it still holds the old one, and the write is marked
    /// as attempted either way.
    #[verifier::rlimit(40)]
    pub fn complete_write(&mut self, desc: usize)
        requires
            old(self).wf(),
            old(self).state().published(desc),
        ensures
            final(self).wf(),
            final(self).state().descs == old(self).state().descs.update(
                desc as int,
                old(self).state().descs[desc as int].complete(),
            ),
            final(self).state().stage == old(self).state().stage,
            final(self).state().current == old(self).state().current,
            final(self).state().guards == old(self).state().guards,
            old(self).state().holds.subset_of(final(self).state().holds),
            forall|i: nat| final(self).allocated(i) == old(self).allocated(i),
            forall|b: nat| final(self).bucket_allocated(b) == old(self).bucket_allocated(b),
            forall|i: nat| #[trigger]
                old(self).allocated(i) ==> final(self).slot(i) == old(self).landed(
                    old(self).state().descs[desc as int],
                    i,
                ),
            old(self).same_buckets_but(final(self), None),
            old(self).tail_as_read(final(self)),
            old(self).backend().same_books(&final(self).backend()),
            final(self)@ == old(self)@,
    {
        proof {
            assert(self.descriptor_ok(desc));
            reveal(LockfreeVec::same_buckets_but);
        }
        let entry: Descriptor = *self.strategy.get(desc);
        if let Some(writeop) = entry.pending {
            if !writeop.completed {
                if self.read(writeop.pos) == writeop.old_value {
                    self.store(writeop.pos, writeop.new_value);
                }
                self.strategy.mark_completed(desc);
            }
        }
        proof {
            self.strategy.lemma_wf();
            let v = old(self).state().descs[desc as int];
            assert(self.state().descs =~= old(self).state().descs.update(desc as int, v.complete()));
            assert forall|b: nat| self.bucket_allocated(b) == old(self).bucket_allocated(b) by {}
            assert forall|i: nat| #[trigger] old(self).allocated(i) implies self.slot(i) == old(self).landed(v, i) by {}
            assert forall|d: usize| #[trigger] self.state().published(d) implies self.descriptor_ok(
                d,
            ) by {
                assert(old(self).state().published(d));
                assert(old(self).descriptor_ok(d));
            }
            assert(old(self).state().published(old(self).state().current));
            assert(old(self).descriptor_ok(old(self).state().current));
            assert forall|i: nat| i < old(self).current().size implies #[trigger] self.committed(i)
                == old(self).committed(i) by {
                old(self).lemma_allocated_below(i, (old(self).current().size - 1) as nat);
                if desc != old(self).state().current {
                    assert(old(self).descriptor_ok(desc));
                    assert(v.settled());
                }
            }
            assert(self@ =~= old(self)@);
            old(self).lemma_tail_after_write(self, desc);
        }
    }

    /// Carrying out a pending write leaves the slots past the contents as
    /// they are.
    proof fn lemma_tail_after_write(&self, later: &LockfreeVec, desc: usize)
        requires
            self.wf(),
            self.state().published(desc),
            forall|i: nat| later.allocated(i) == self.allocated(i),
            forall|i: nat| #[trigger]
                self.allocated(i) ==> later.slot(i) == self.landed(
                    self.state().descs[desc as int],
                    i,
                ),
        ensures
            self.tail_as_read(later),
    {
        reveal(LockfreeVec::tail_as_read);
        assert(self.descriptor_ok(desc));
        assert(self.state().published(self.state().current));
        assert(self.descriptor_ok(self.state().current));
        assert forall|i: nat| i >= self@.len() && later.allocated(i) implies later.slot(i)
            == self.slot(i) by {
            assert(self.allocated(i));
        }
    }
}


impl LockfreeVec {
    /// A vector that differs from `earlier` in its strategy only, and there
    /// in nothing that a published descriptor says, is well formed and has
    /// the contents of `earlier`.
    proof fn lemma_strategy_step(&self, earlier: &LockfreeVec)
        requires
            earlier.wf(),
            self.inv(),
            self.buckets() == earlier.buckets(),
            self.state().current == earlier.state().current,
            forall|d: usize| #[trigger]
                self.state().published(d) ==> earlier.state().published(d)
                    && self.state().descs[d as int] == earlier.state().descs[d as int],
        ensures
            self.wf(),
            self@ == earlier@,
            earlier.storage_kept(self),
            forall|i: nat| self.allocated(i) == earlier.allocated(i),
            earlier.same_buckets_but(self, None),
            earlier.tail_as_read(self),
    {
        earlier.lemma_same_buckets(self, None);
        earlier.lemma_tail_same(self);
        self.strategy.lemma_wf();
        assert forall|d: usize| #[trigger] self.state().published(d) implies self.descriptor_ok(
            d,
        ) by {
            assert(earlier.descriptor_ok(d));
        }
        assert(self.state().published(self.state().current));
        assert(self@ =~= earlier@);
    }

    /// Begins the protected section of `op`.
    fn push_begin(&mut self, op: &mut PushOp)
        requires
            old(self).wf(),
            old(op).inv(old(self)),
            old(op).phase is Start,
        ensures
            old(op).stepped(old(self), final(op), final(self)),
            old(op).traced(old(self), final(op), final(self)),
    {
        let fresh = self.strategy.guard();
        op.guard = fresh.id;
        op.phase = PushPhase::Guarded;
        proof {
            old(self).strategy.lemma_wf();
            self.lemma_strategy_step(old(self));
        }
    }

    /// Obtains the candidate descriptor of `op`.
    fn push_allocate(&mut self, op: &mut PushOp)
        requires
            old(self).wf(),
            old(op).inv(old(self)),
            old(op).phase is Guarded,
        ensures
            old(op).stepped(old(self), final(op), final(self)),
            old(op).traced(old(self), final(op), final(self)),
    {
        let guard = DescriptionGuard { id: op.guard };
        op.new_desc = self.strategy.allocate(&guard);
        op.phase = PushPhase::Allocated;
        proof {
            self.lemma_allocation_step(old(self), op.new_desc, op.guard);
        }
    }

    /// Reads the published descriptor for `op` and protects it.
    fn push_access(&mut self, op: &mut PushOp)
        requires
            old(self).wf(),
            old(op).inv(old(self)),
            old(op).phase is Allocated,
        ensures
            old(op).stepped(old(self), final(op), final(self)),
            old(op).traced(old(self), final(op), final(self)),
    {
        let guard = DescriptionGuard { id: op.guard };
        op.desc = self.strategy.access(&guard);
        op.phase = PushPhase::Accessed;
        proof {
            old(self).strategy.lemma_wf();
            self.lemma_strategy_step(old(self));
        }
    }

    /// Carries out, for `op`, the pending write of a descriptor that `op`
    /// protects: the one it read, or the one it has published.
    fn push_help(&mut self, op: &mut PushOp)
        requires
            old(self).wf(),
            old(op).inv(old(self)),
            old(op).phase is Accessed || old(op).phase is Published,
        ensures
            old(op).stepped(old(self), final(op), final(self)),
            old(op).traced(old(self), final(op), final(self)),
    {
        match op.phase {
            PushPhase::Accessed => {
                self.complete_write(op.desc);
                op.phase = PushPhase::Helped;
                proof {
                    self.lemma_completion_step(old(self), op.desc, op.guard);
                }
            },
            _ => {
                self.complete_write(op.new_desc);
                op.phase = PushPhase::Landed;
                proof {
                    self.lemma_completion_step(old(self), op.new_desc, op.guard);
                }
            },
        }
    }

    /// Makes sure that the slot after the last element has storage, unless
    /// the vector is as long as it can get.
    fn push_back_storage(&mut self, op: &mut PushOp)
        requires
            old(self).wf(),
            old(op).inv(old(self)),
            old(op).phase is Helped,
        ensures
            old(op).stepped(old(self), final(op), final(self)),
            old(op).traced(old(self), final(op), final(self)),
    {
        let size = self.strategy.get(op.desc).size;
        op.size = size;
        if size < MAX_INDEX {
            let (bucket, _) = Self::get_bucket_and_pos_at(size);
            proof {
                assert(self.descriptor_ok(op.desc));
                self.lemma_next_bucket(size as nat);
                lemma_bucket_index_bounded(size as nat);
            }
            self.alloc_bucket(bucket);
            op.phase = PushPhase::Backed;
        } else {
            op.phase = PushPhase::Overfull;
            proof {
                old(self).lemma_same_buckets(self, Some(bucket_index(size as nat)));
                old(self).lemma_tail_same(self);
            }
        }
        proof {
            let a = old(self).state();
            assert forall|d: usize| #[trigger] a.has(d) implies descriptor_step(a, a, d, op.guard) by {}
        }
    }

    /// Reads the slot that the element goes to and fills in the candidate.
    #[verifier::rlimit(40)]
    fn push_prepare(&mut self, op: &mut PushOp)
        requires
            old(self).wf(),
            old(op).inv(old(self)),
            old(op).phase is Backed,
        ensures
            old(op).stepped(old(self), final(op), final(self)),
            old(op).traced(old(self), final(op), final(self)),
    {
        let guard = DescriptionGuard { id: op.guard };
        op.old_value = self.read(op.size);
        self.strategy.prepare(
            op.new_desc,
            op.size + 1,
            Some(WriteDescriptor::new(op.old_value, op.elem, op.size)),
            &guard,
        );
        op.phase = PushPhase::Prepared;
        proof {
            old(self).strategy.lemma_wf();
            self.lemma_strategy_step(old(self));
            let a = old(self).state();
            let b = self.state();
            assert forall|d: usize| #[trigger] a.has(d) implies descriptor_step(a, b, d, op.guard) by {}
        }
    }

    /// Tries to publish the candidate of `op` in place of the descriptor it
    /// read.
    #[verifier::rlimit(80)]
    fn push_publish(&mut self, op: &mut PushOp)
        requires
            old(self).wf(),
            old(op).inv(old(self)),
            old(op).phase is Prepared,
        ensures
            old(op).stepped(old(self), final(op), final(self)),
            old(op).traced(old(self), final(op), final(self)),
    {
        let guard = DescriptionGuard { id: op.guard };
        proof {
            old(self).strategy.lemma_wf();
        }
        if self.strategy.swap(op.desc, op.new_desc, &guard) {
            op.pushed = true;
            op.phase = PushPhase::Published;
            proof {
                self.lemma_publication(old(self), op.desc, op.new_desc, op.guard);
                assert(old(self).descriptor_ok(op.desc));
                assert forall|i: nat| i < op.size implies #[trigger] self.committed(i) == old(
                    self,
                ).committed(i) by {
                    old(self).lemma_allocated_below(i, (op.size - 1) as nat);
                }
                assert(self@ =~= old(self)@.push(op.elem));
            }
        } else {
            op.phase = PushPhase::Lost;
            proof {
                self.lemma_strategy_step(old(self));
                let a = old(self).state();
                assert forall|d: usize| #[trigger] a.has(d) implies descriptor_step(
                    a,
                    a,
                    d,
                    op.guard,
                ) by {}
            }
        }
    }

    /// Gives up, for `op`, the protection of a descriptor: the one it read,
    /// after a failed swap or on a vector that is full, or the one it has
    /// published.
    fn push_release(&mut self, op: &mut PushOp)
        requires
            old(self).wf(),
            old(op).inv(old(self)),
            old(op).phase is Lost || old(op).phase is Overfull || old(op).phase is Retired,
        ensures
            old(op).stepped(old(self), final(op), final(self)),
            old(op).traced(old(self), final(op), final(self)),
    {
        let guard = DescriptionGuard { id: op.guard };
        proof {
            old(self).strategy.lemma_wf();
        }
        match op.phase {
            PushPhase::Lost => {
                self.strategy.release_access(op.desc, &guard);
                op.phase = PushPhase::Allocated;
            },
            PushPhase::Overfull => {
                self.strategy.release_access(op.desc, &guard);
                op.phase = PushPhase::Released;
            },
            _ => {
                self.strategy.release_access(op.new_desc, &guard);
                op.phase = PushPhase::Released;
            },
        }
        proof {
            self.lemma_strategy_step(old(self));
            let a = old(self).state();
            let b = self.state();
            assert forall|d: usize| #[trigger] a.has(d) implies descriptor_step(a, b, d, op.guard) by {}
        }
    }

    /// Retires the descriptor that `op` has replaced.
    fn push_retire(&mut self, op: &mut PushOp)
        requires
            old(self).wf(),
            old(op).inv(old(self)),
            old(op).phase is Landed,
        ensures
            old(op).stepped(old(self), final(op), final(self)),
            old(op).traced(old(self), final(op), final(self)),
    {
        let guard = DescriptionGuard { id: op.guard };
        proof {
            old(self).strategy.lemma_wf();
        }
        self.strategy.dealloc(op.desc, &guard);
        op.phase = PushPhase::Retired;
        proof {
            self.lemma_retirement_step(old(self), op.desc, op.guard);
        }
    }

    /// Ends the protected section of `op`.
    fn push_end(&mut self, op: &mut PushOp)
        requires
            old(self).wf(),
            old(op).inv(old(self)),
            old(op).phase is Released,
        ensures
            old(op).stepped(old(self), final(op), final(self)),
            old(op).traced(old(self), final(op), final(self)),
    {
        proof {
            old(self).strategy.lemma_wf();
        }
        self.strategy.unpin(DescriptionGuard { id: op.guard });
        op.phase = PushPhase::Done;
        proof {
            self.lemma_strategy_step(old(self));
            let a = old(self).state();
            let b = self.state();
            assert forall|d: usize| #[trigger] a.has(d) implies descriptor_step(a, b, d, op.guard) by {}
        }
    }

    /// Carries the `push_back` in flight `op` one step further and returns
    /// whether it has ended. What the step brings about is `stepped`.
    pub fn push_step(&mut self, op: &mut PushOp) -> (done: bool)
        requires
            old(self).wf(),
            old(op).inv(old(self)),
        ensures
            old(op).stepped(old(self), final(op), final(self)),
            old(op).traced(old(self), final(op), final(self)),
            done == (final(op).phase is Done),
    {
        match op.phase {
            PushPhase::Start => self.push_begin(op),
            PushPhase::Guarded => self.push_allocate(op),
            PushPhase::Allocated => self.push_access(op),
            PushPhase::Accessed => self.push_help(op),
            PushPhase::Helped => self.push_back_storage(op),
            PushPhase::Backed => self.push_prepare(op),
            PushPhase::Prepared => self.push_publish(op),
            PushPhase::Lost => self.push_release(op),
            PushPhase::Overfull => self.push_release(op),
            PushPhase::Published => self.push_help(op),
            PushPhase::Landed => self.push_retire(op),
            PushPhase::Retired => self.push_release(op),
            PushPhase::Released => self.push_end(op),
            PushPhase::Done => {
                proof {
                    old(self).lemma_same_buckets(self, None);
                    old(self).lemma_tail_same(self);
                    let a = self.state();
                    assert forall|d: usize| #[trigger] a.has(d) implies descriptor_step(
                        a,
                        a,
                        d,
                        op.guard,
                    ) by {}
                    assert(self@ =~= old(self)@);
                }
            },
        }
        op.is_done()
    }

    /// Handing out a candidate is a step of the guard that gets it.
    #[verifier::rlimit(40)]
    proof fn lemma_allocation_step(&self, earlier: &LockfreeVec, d: usize, g: usize)
        requires
            earlier.wf(),
            self.inv(),
            self.buckets() == earlier.buckets(),
            self.state().guards == earlier.state().guards,
            self.state().current == earlier.state().current,
            self.state().candidate_of(d, g),
            earlier.state().holds.subset_of(self.state().holds),
            if earlier.state().has(d) {
                &&& earlier.state().stage[d as int] == Stage::Retired
                &&& earlier.state().unprotected(d)
                &&& self.state().descs.len() == earlier.state().descs.len()
            } else {
                &&& d == earlier.state().descs.len()
                &&& self.state().descs.len() == earlier.state().descs.len() + 1
            },
            forall|e: int|
                0 <= e < earlier.state().descs.len() && e != d ==> {
                    &&& #[trigger] self.state().descs[e] == earlier.state().descs[e]
                    &&& self.state().stage[e] == earlier.state().stage[e]
                },
        ensures
            self.wf(),
            self@ == earlier@,
            step_of(earlier, self, g),
            earlier.same_buckets_but(self, None),
            earlier.tail_as_read(self),
    {
        let a = earlier.state();
        let b = self.state();
        self.strategy.lemma_wf();
        assert forall|e: usize| #[trigger] b.published(e) implies a.published(e) && b.descs[e as int]
            == a.descs[e as int] by {
            assert(b.descs[e as int] == a.descs[e as int]);
        }
        self.lemma_strategy_step(earlier);
        assert forall|e: usize| #[trigger] a.has(e) implies descriptor_step(a, b, e, g) by {
            if e != d {
                assert(b.descs[e as int] == a.descs[e as int]);
            }
        }
    }

    /// Retiring a superseded descriptor is a step of the guard that
    /// superseded it.
    proof fn lemma_retirement_step(&self, earlier: &LockfreeVec, desc: usize, g: usize)
        requires
            earlier.wf(),
            self.inv(),
            self.buckets() == earlier.buckets(),
            earlier.state().has(desc),
            earlier.state().stage[desc as int] == (Stage::Superseded { by: g }),
            self.state().guards == earlier.state().guards,
            self.state().descs == earlier.state().descs,
            self.state().stage == earlier.state().stage.update(desc as int, Stage::Retired),
            self.state().current == earlier.state().current,
            earlier.state().holds_kept_except(self.state(), g, desc),
        ensures
            self.wf(),
            self@ == earlier@,
            step_of(earlier, self, g),
            self.current() == earlier.current(),
            earlier.same_buckets_but(self, None),
            earlier.tail_as_read(self),
    {
        let a = earlier.state();
        let b = self.state();
        self.lemma_strategy_step(earlier);
        assert forall|e: usize| #[trigger] a.has(e) implies descriptor_step(a, b, e, g) by {}
    }

    /// The bucket of index `size` is the first one, or the one of index
    /// `size - 1`, or the one after it.
    proof fn lemma_next_bucket(&self, size: nat)
        requires
            self.wf(),
            size <= MAX_INDEX,
            size > 0 ==> self.allocated((size - 1) as nat),
        ensures
            bucket_index(size) == 0 || self.bucket_allocated((bucket_index(size) - 1) as nat),
    {
        if size > 0 {
            lemma_bucket_index_successor((size - 1) as nat);
            lemma_bucket_index_monotonic((size - 1) as nat, size);
            if bucket_index(size) > 0 {
                self.lemma_bucket_prefix(
                    (bucket_index(size) - 1) as nat,
                    bucket_index((size - 1) as nat),
                );
            }
        } else {
            lemma_first_index();
        }
    }

    /// Carrying out the pending write of a published descriptor is a step
    /// of any guard.
    #[verifier::rlimit(40)]
    proof fn lemma_completion_step(&self, earlier: &LockfreeVec, desc: usize, g: usize)
        requires
            earlier.wf(),
            self.wf(),
            earlier.state().published(desc),
            self.state().descs == earlier.state().descs.update(
                desc as int,
                earlier.state().descs[desc as int].complete(),
            ),
            self.state().stage == earlier.state().stage,
            self.state().current == earlier.state().current,
            self.state().guards == earlier.state().guards,
            earlier.state().holds.subset_of(self.state().holds),
            forall|i: nat| self.allocated(i) == earlier.allocated(i),
            forall|i: nat| #[trigger]
                earlier.allocated(i) ==> self.slot(i) == earlier.landed(
                    earlier.state().descs[desc as int],
                    i,
                ),
        ensures
            step_of(earlier, self, g),
            self.current() == earlier.current() || self.current() == earlier.current().complete(),
            self.state().descs[desc as int].settled(),
    {
        let a = earlier.state();
        let b = self.state();
        assert forall|d: usize| #[trigger] a.has(d) implies descriptor_step(a, b, d, g) by {}
        if earlier.current().settled() {
            assert(earlier.descriptor_ok(desc));
            assert forall|i: nat| #[trigger] earlier.allocated(i) implies self.allocated(i)
                && self.slot(i) == earlier.slot(i) by {}
        }
    }

    /// What a successful swap leaves behind.
    #[verifier::rlimit(40)]
    proof fn lemma_publication(
        &self,
        earlier: &LockfreeVec,
        desc: usize,
        new_desc: usize,
        g: usize,
    )
        requires
            earlier.wf(),
            self.inv(),
            self.buckets() == earlier.buckets(),
            desc == earlier.state().current,
            earlier.state().candidate_of(new_desc, g),
            earlier.current().settled(),
            self.state().current == new_desc,
            self.state().descs == earlier.state().descs,
            self.state().guards == earlier.state().guards,
            self.state().stage == earlier.state().stage_after_swap(desc, new_desc, g),
            earlier.state().holds.subset_of(self.state().holds),
            ({
                let v = earlier.state().descs[new_desc as int];
                &&& v.size <= MAX_INDEX
                &&& (v.size > 0 ==> earlier.allocated((v.size - 1) as nat))
                &&& (v.pending matches Some(w) ==> w.pos + 1 == v.size)
            }),
        ensures
            self.wf(),
            step_of(earlier, self, g),
            forall|i: nat| self.allocated(i) == earlier.allocated(i),
            forall|i: nat| self.slot(i) == earlier.slot(i),
            earlier.same_buckets_but(self, None),
            earlier.tail_as_read(self),
    {
        earlier.lemma_same_buckets(self, None);
        earlier.lemma_tail_same(self);
        self.strategy.lemma_wf();
        let a = earlier.state();
        let b = self.state();
        assert forall|d: usize| #[trigger] b.published(d) implies self.descriptor_ok(d) by {
            if d != new_desc {
                assert(a.published(d));
                assert(earlier.descriptor_ok(d));
            }
        }
        assert forall|d: usize| #[trigger] a.has(d) implies descriptor_step(a, b, d, g) by {}
    }

    /// The value that a `push_back` finds in the slot that its element goes
    /// to: what the slot held, or zero where it had no storage.
    pub open spec fn value_past_end(&self) -> usize {
        if self.allocated(self@.len()) {
            self.slot(self@.len())
        } else {
            0
        }
    }

    /// How far an uninterrupted `push_back` that began on `first` has come
    /// on `self`.
    spec fn push_trace(&self, first: &LockfreeVec, op: &PushOp) -> bool {
        let len = first@.len();
        let replaced = first.state().current;
        let early = op.phase is Start || op.phase is Guarded || op.phase is Allocated;
        let reading = op.phase is Accessed || op.phase is Helped || op.phase is Backed;
        let late = op.phase is Retired || op.phase is Released || op.phase is Done;
        &&& if op.phase is Start || op.phase is Done {
            self.state().guards == first.state().guards
        } else {
            !first.state().guards.contains(op.guard) && self.state().guards
                == first.state().guards.insert(op.guard)
        }
        &&& !op.pushed ==> self.state().current == replaced
        &&& !early ==> op.desc == replaced
        &&& early || reading ==> first.tail_as_read(self)
        &&& !early && !(op.phase is Accessed) && !(op.phase is Helped) ==> op.size == len
        &&& !early && !reading ==> op.old_value == first.value_past_end()
        &&& op.phase is Published ==> self.state().current == op.new_desc && self.current()
            == op.payload()
        &&& op.phase is Landed || late ==> self.current() == op.payload().complete()
        &&& late ==> self.state().has(replaced) && self.state().stage[replaced as int]
            == Stage::Retired
        &&& self.backend().counts_references() == first.backend().counts_references()
    }

    /// One step of an uninterrupted `push_back` carries its trace on.
    proof fn lemma_push_trace(
        &self,
        first: &LockfreeVec,
        before: &LockfreeVec,
        was: &PushOp,
        op: &PushOp,
    )
        requires
            first.wf(),
            before.wf(),
            was.inv(before),
            before.push_trace(first, was),
            was.stepped(before, op, self),
            was.traced(before, op, self),
            !(was.phase is Lost) && !(was.phase is Overfull),
            !(op.phase is Lost) && !(op.phase is Overfull),
            was.pushed ==> before@ == first@.push(was.elem),
            !was.pushed ==> before@ == first@,
            was.phase is Accessed || was.phase is Helped || was.phase is Backed
                || was.phase is Prepared ==> was.desc == before.state().current,
        ensures
            self.push_trace(first, op),
    {
        let len = first@.len();
        assert(before.state().published(before.state().current));
        assert(before.descriptor_ok(before.state().current));
        if was.phase is Start || was.phase is Guarded || was.phase is Allocated
            || was.phase is Accessed || was.phase is Helped {
            first.lemma_tail_on(before, self);
        }
        if was.phase is Backed {
            first.lemma_tail_slot(before, len);
        }
        if was.phase is Start {
            assert(self.state().guards =~= first.state().guards.insert(op.guard));
        }
        if was.phase is Released {
            assert(self.state().guards =~= first.state().guards);
        }
        if was.phase is Published {
            assert(self.current() == before.current().complete());
        }
    }

    /// Appends `elem`: a descriptor one larger than the published one, which
    /// announces the write of `elem` over what the slot past the end held, is
    /// published in its place; the write is carried out, the replaced
    /// descriptor is retired, and the guard of the operation is given back.
    #[verifier::rlimit(40)]
    pub fn push_back(&mut self, elem: usize)
        requires
            old(self).wf(),
            old(self)@.len() < MAX_INDEX,
        ensures
            final(self).wf(),
            final(self)@ == old(self)@.push(elem),
            final(self).current().settled(),
            final(self).spec_size() == old(self)@.len() + 1,
            forall|i: nat| #[trigger] old(self).allocated(i) ==> final(self).allocated(i),
            old(self).same_buckets_but(final(self), Some(bucket_index(old(self)@.len()))),
            final(self).state().guards == old(self).state().guards,
            final(self).state().has(old(self).state().current),
            final(self).state().stage[old(self).state().current as int] == Stage::Retired,
            final(self).current() == (DescriptorView {
                size: (old(self)@.len() + 1) as usize,
                pending: Some(
                    WriteDescriptor {
                        old_value: old(self).value_past_end(),
                        new_value: elem,
                        pos: old(self)@.len() as usize,
                        completed: true,
                    },
                ),
            }),
            final(self).backend().counts_references() == old(self).backend().counts_references(),
    {
        let mut op = PushOp::new(elem);
        proof {
            self.lemma_same_buckets(self, Some(bucket_index(self@.len())));
            self.lemma_tail_same(self);
        }
        loop
            invariant
                old(self).wf(),
                self.wf(),
                op.inv(self),
                op.elem == elem,
                old(self)@.len() < MAX_INDEX,
                op.pushed ==> self@ == old(self)@.push(elem),
                !op.pushed ==> self@ == old(self)@,
                !(op.phase is Lost) && !(op.phase is Overfull),
                op.phase is Accessed || op.phase is Helped || op.phase is Backed
                    || op.phase is Prepared ==> op.desc == self.state().current,
                op.phase is Published ==> op.new_desc == self.state().current,
                op.phase is Landed || op.phase is Retired || op.phase is Released
                    || op.phase is Done ==> self.current().settled() && op.pushed,
                forall|i: nat| #[trigger] old(self).allocated(i) ==> self.allocated(i),
                old(self).same_buckets_but(self, Some(bucket_index(old(self)@.len()))),
                self.push_trace(old(self), &op),
            ensures
                op.phase is Done,
                op.elem == elem,
                old(self).same_buckets_but(self, Some(bucket_index(old(self)@.len()))),
                self.push_trace(old(self), &op),
            decreases op.rank(),
        {
            let ghost before = *self;
            let ghost was = op;
            let done = self.push_step(&mut op);
            proof {
                old(self).lemma_same_buckets_on(
                    &before,
                    self,
                    Some(bucket_index(old(self)@.len())),
                );
                if was.phase is Published {
                    assert(self.current() == before.current().complete());
                }
                self.lemma_push_trace(old(self), &before, &was, &op);
            }
            if done {
                break ;
            }
        }
    }

    /// Begins the protected section of `op`.
    fn pop_begin(&mut self, op: &mut PopOp)
        requires
            old(self).wf(),
            old(op).inv(old(self)),
            old(op).phase is Start,
        ensures
            old(op).stepped(old(self), final(op), final(self)),
            old(op).traced(old(self), final(op), final(self)),
    {
        let fresh = self.strategy.guard();
        op.guard = fresh.id;
        op.phase = PopPhase::Guarded;
        proof {
            old(self).strategy.lemma_wf();
            self.lemma_strategy_step(old(self));
        }
    }

    /// Reads the published descriptor for `op`, protects it and notes its
    /// size.
    fn pop_access(&mut self, op: &mut PopOp)
        requires
            old(self).wf(),
            old(op).inv(old(self)),
            old(op).phase is Guarded,
        ensures
            old(op).stepped(old(self), final(op), final(self)),
            old(op).traced(old(self), final(op), final(self)),
    {
        let guard = DescriptionGuard { id: op.guard };
        proof {
            old(self).strategy.lemma_wf();
        }
        op.desc = self.strategy.access(&guard);
        op.size = self.strategy.get(op.desc).size;
        op.phase = PopPhase::Accessed;
        proof {
            self.lemma_strategy_step(old(self));
        }
    }

    /// Decides what `op` does with the descriptor it read: nothing when the
    /// vector was empty, else it obtains a candidate if it has none, else it
    /// carries out the pending write of the descriptor.
    #[verifier::rlimit(40)]
    fn pop_decide(&mut self, op: &mut PopOp)
        requires
            old(self).wf(),
            old(op).inv(old(self)),
            old(op).phase is Accessed,
        ensures
            old(op).stepped(old(self), final(op), final(self)),
            old(op).traced(old(self), final(op), final(self)),
    {
        let guard = DescriptionGuard { id: op.guard };
        proof {
            old(self).strategy.lemma_wf();
        }
        if op.size == 0 {
            self.strategy.release_access(op.desc, &guard);
            op.phase = PopPhase::Released;
            proof {
                self.lemma_strategy_step(old(self));
                let a = old(self).state();
                let b = self.state();
                assert forall|d: usize| #[trigger] a.has(d) implies descriptor_step(
                    a,
                    b,
                    d,
                    op.guard,
                ) by {}
            }
        } else if !op.has_new {
            op.new_desc = self.strategy.allocate(&guard);
            op.has_new = true;
            proof {
                self.lemma_allocation_step(old(self), op.new_desc, op.guard);
                assert(self.state().descs[op.desc as int] == old(self).state().descs[op.desc as int]);
            }
        } else {
            self.complete_write(op.desc);
            op.phase = PopPhase::Helped;
            proof {
                self.lemma_completion_step(old(self), op.desc, op.guard);
            }
        }
    }

    /// Reads the last element and fills in the candidate.
    fn pop_prepare(&mut self, op: &mut PopOp)
        requires
            old(self).wf(),
            old(op).inv(old(self)),
            old(op).phase is Helped,
        ensures
            old(op).stepped(old(self), final(op), final(self)),
            old(op).traced(old(self), final(op), final(self)),
    {
        let guard = DescriptionGuard { id: op.guard };
        proof {
            old(self).strategy.lemma_wf();
            assert(self.descriptor_ok(op.desc));
        }
        op.elem = self.read(op.size - 1);
        self.strategy.prepare(op.new_desc, op.size - 1, None, &guard);
        op.phase = PopPhase::Prepared;
        proof {
            self.lemma_strategy_step(old(self));
            let a = old(self).state();
            let b = self.state();
            assert forall|d: usize| #[trigger] a.has(d) implies descriptor_step(a, b, d, op.guard) by {}
        }
    }

    /// Tries to publish the candidate of `op` in place of the descriptor it
    /// read.
    #[verifier::rlimit(80)]
    fn pop_publish(&mut self, op: &mut PopOp)
        requires
            old(self).wf(),
            old(op).inv(old(self)),
            old(op).phase is Prepared,
        ensures
            old(op).stepped(old(self), final(op), final(self)),
            old(op).traced(old(self), final(op), final(self)),
    {
        let guard = DescriptionGuard { id: op.guard };
        proof {
            old(self).strategy.lemma_wf();
        }
        if self.strategy.swap(op.desc, op.new_desc, &guard) {
            op.result = Some(op.elem);
            op.phase = PopPhase::Published;
            proof {
                assert(old(self).descriptor_ok(op.desc));
                if op.size > 1 {
                    old(self).lemma_allocated_below((op.size - 2) as nat, (op.size - 1) as nat);
                }
                self.lemma_publication(old(self), op.desc, op.new_desc, op.guard);
                assert forall|i: nat| i < op.size - 1 implies #[trigger] self.committed(i) == old(
                    self,
                ).committed(i) by {
                    old(self).lemma_allocated_below(i, (op.size - 1) as nat);
                }
                assert(self@ =~= old(self)@.drop_last());
            }
        } else {
            op.phase = PopPhase::Lost;
            proof {
                self.lemma_strategy_step(old(self));
                let a = old(self).state();
                assert forall|d: usize| #[trigger] a.has(d) implies descriptor_step(
                    a,
                    a,
                    d,
                    op.guard,
                ) by {}
            }
        }
    }

    /// Gives up, for `op`, the protection of a descriptor: the one it read,
    /// after a failed swap, or the one it has published.
    fn pop_release(&mut self, op: &mut PopOp)
        requires
            old(self).wf(),
            old(op).inv(old(self)),
            old(op).phase is Lost || old(op).phase is Landed,
        ensures
            old(op).stepped(old(self), final(op), final(self)),
            old(op).traced(old(self), final(op), final(self)),
    {
        let guard = DescriptionGuard { id: op.guard };
        proof {
            old(self).strategy.lemma_wf();
        }
        match op.phase {
            PopPhase::Lost => {
                self.strategy.release_access(op.desc, &guard);
                op.phase = PopPhase::Guarded;
            },
            _ => {
                self.strategy.release_access(op.new_desc, &guard);
                op.phase = PopPhase::Unheld;
            },
        }
        proof {
            self.lemma_strategy_step(old(self));
            let a = old(self).state();
            let b = self.state();
            assert forall|d: usize| #[trigger] a.has(d) implies descriptor_step(a, b, d, op.guard) by {}
        }
    }

    /// Carries out the pending write of the descriptor that `op` has
    /// published; a `pop_back` announces none.
    fn pop_land(&mut self, op: &mut PopOp)
        requires
            old(self).wf(),
            old(op).inv(old(self)),
            old(op).phase is Published,
        ensures
            old(op).stepped(old(self), final(op), final(self)),
            old(op).traced(old(self), final(op), final(self)),
    {
        self.complete_write(op.new_desc);
        op.phase = PopPhase::Landed;
        proof {
            self.lemma_completion_step(old(self), op.new_desc, op.guard);
        }
    }

    /// Retires the descriptor that `op` has replaced.
    fn pop_retire(&mut self, op: &mut PopOp)
        requires
            old(self).wf(),
            old(op).inv(old(self)),
            old(op).phase is Unheld,
        ensures
            old(op).stepped(old(self), final(op), final(self)),
            old(op).traced(old(self), final(op), final(self)),
    {
        let guard = DescriptionGuard { id: op.guard };
        proof {
            old(self).strategy.lemma_wf();
        }
        self.strategy.dealloc(op.desc, &guard);
        op.phase = PopPhase::Released;
        proof {
            self.lemma_retirement_step(old(self), op.desc, op.guard);
        }
    }

    /// Ends the protected section of `op`.
    fn pop_end(&mut self, op: &mut PopOp)
        requires
            old(self).wf(),
            old(op).inv(old(self)),
            old(op).phase is Released,
        ensures
            old(op).stepped(old(self), final(op), final(self)),
            old(op).traced(old(self), final(op), final(self)),
    {
        proof {
            old(self).strategy.lemma_wf();
        }
        self.strategy.unpin(DescriptionGuard { id: op.guard });
        op.phase = PopPhase::Done;
        proof {
            self.lemma_strategy_step(old(self));
            let a = old(self).state();
            let b = self.state();
            assert forall|d: usize| #[trigger] a.has(d) implies descriptor_step(a, b, d, op.guard) by {}
        }
    }

    /// Carries the `pop_back` in flight `op` one step further and returns
    /// whether it has ended. What the step brings about is `stepped`.
    pub fn pop_step(&mut self, op: &mut PopOp) -> (done: bool)
        requires
            old(self).wf(),
            old(op).inv(old(self)),
        ensures
            old(op).stepped(old(self), final(op), final(self)),
            old(op).traced(old(self), final(op), final(self)),
            done == (final(op).phase is Done),
    {
        match op.phase {
            PopPhase::Start => self.pop_begin(op),
            PopPhase::Guarded => self.pop_access(op),
            PopPhase::Accessed => self.pop_decide(op),
            PopPhase::Helped => self.pop_prepare(op),
            PopPhase::Prepared => self.pop_publish(op),
            PopPhase::Lost => self.pop_release(op),
            PopPhase::Published => self.pop_land(op),
            PopPhase::Landed => self.pop_release(op),
            PopPhase::Unheld => self.pop_retire(op),
            PopPhase::Released => self.pop_end(op),
            PopPhase::Done => {
                proof {
                    old(self).lemma_same_buckets(self, None);
                    old(self).lemma_tail_same(self);
                    let a = self.state();
                    assert forall|d: usize| #[trigger] a.has(d) implies descriptor_step(
                        a,
                        a,
                        d,
                        op.guard,
                    ) by {}
                    assert(self@ =~= old(self)@);
                }
            },
        }
        op.is_done()
    }

    /// How far an uninterrupted `pop_back` that began on `first` has come
    /// on `self`.
    spec fn pop_trace(&self, first: &LockfreeVec, op: &PopOp) -> bool {
        let replaced = first.state().current;
        let swapped = op.phase is Published || op.phase is Landed || op.phase is Unheld;
        let late = op.phase is Released || op.phase is Done;
        &&& if op.phase is Start || op.phase is Done {
            self.state().guards == first.state().guards
        } else {
            !first.state().guards.contains(op.guard) && self.state().guards
                == first.state().guards.insert(op.guard)
        }
        &&& op.result.is_none() ==> self.state().current == replaced && (self.current()
            == first.current() || self.current() == first.current().complete())
        &&& !(op.phase is Start) && !(op.phase is Guarded) ==> op.desc == replaced
        &&& swapped || (late && op.result.is_some()) ==> self.current() == op.payload()
            && op.size == first@.len()
        &&& late && op.result.is_some() ==> self.state().has(replaced)
            && self.state().stage[replaced as int] == Stage::Retired
        &&& self.backend().counts_references() == first.backend().counts_references()
    }

    /// One step of an uninterrupted `pop_back` carries its trace on.
    proof fn lemma_pop_trace(
        &self,
        first: &LockfreeVec,
        before: &LockfreeVec,
        was: &PopOp,
        op: &PopOp,
    )
        requires
            first.wf(),
            before.wf(),
            was.inv(before),
            before.pop_trace(first, was),
            was.stepped(before, op, self),
            was.traced(before, op, self),
            !(was.phase is Lost),
            !(op.phase is Lost),
            was.phase is Accessed || was.phase is Helped || was.phase is Prepared ==> was.desc
                == before.state().current && was.size == first@.len(),
            was.phase is Accessed || was.phase is Helped || was.phase is Prepared
                || was.phase is Start || was.phase is Guarded ==> was.result.is_none(),
            was.phase is Published || was.phase is Landed || was.phase is Unheld
                ==> was.result.is_some(),
        ensures
            self.pop_trace(first, op),
    {
        assert(before.state().published(before.state().current));
        assert(before.descriptor_ok(before.state().current));
        if was.phase is Start {
            assert(self.state().guards =~= first.state().guards.insert(op.guard));
        }
        if was.phase is Released {
            assert(self.state().guards =~= first.state().guards);
        }
    }

    /// Removes the last element and returns it, or returns nothing when the
    /// vector is empty. Where it removes one, a descriptor one smaller than
    /// the published one, which announces no write, is published in its
    /// place and the replaced descriptor is retired; where it removes none,
    /// the published descriptor stays, its write carried out. Either way
    /// the guard of the operation is given back.
    #[verifier::rlimit(40)]
    pub fn pop_back(&mut self) -> (r: Option<usize>)
        requires
            old(self).wf(),
        ensures
            final(self).wf(),
            old(self)@.len() == 0 ==> r.is_none() && final(self)@ == old(self)@,
            old(self)@.len() > 0 ==> r == Some(old(self)@.last()) && final(self)@ == old(self)@.drop_last(),
            final(self).current().settled(),
            final(self).spec_size() == final(self)@.len(),
            forall|i: nat| #[trigger] old(self).allocated(i) ==> final(self).allocated(i),
            old(self).same_buckets_but(final(self), None),
            final(self).state().guards == old(self).state().guards,
            old(self)@.len() > 0 ==> final(self).state().has(old(self).state().current)
                && final(self).state().stage[old(self).state().current as int] == Stage::Retired
                && final(self).current() == (DescriptorView {
                size: (old(self)@.len() - 1) as usize,
                pending: None,
            }),
            old(self)@.len() == 0 ==> final(self).state().current == old(self).state().current
                && final(self).current() == old(self).current(),
            final(self).backend().counts_references() == old(self).backend().counts_references(),
    {
        let mut op = PopOp::new();
        proof {
            self.lemma_same_buckets(self, None);
            assert(self.state().published(self.state().current));
            assert(self.descriptor_ok(self.state().current));
        }
        loop
            invariant
                old(self).wf(),
                self.wf(),
                op.inv(self),
                !(op.phase is Lost),
                op.result.is_none() ==> self@ == old(self)@,
                op.result.is_some() ==> old(self)@.len() > 0 && op.result == Some(
                    old(self)@.last(),
                ) && self@ == old(self)@.drop_last(),
                op.phase is Accessed || op.phase is Helped || op.phase is Prepared ==> op.desc
                    == self.state().current && op.size == old(self)@.len(),
                op.phase is Accessed || op.phase is Helped || op.phase is Prepared
                    || op.phase is Start || op.phase is Guarded ==> op.result.is_none(),
                op.phase is Published || op.phase is Landed || op.phase is Unheld
                    ==> op.result.is_some(),
                op.phase is Released || op.phase is Done ==> (op.result.is_none() ==> old(self)@.len() == 0),
                op.phase is Published || op.phase is Landed || op.phase is Unheld
                    || op.phase is Released || op.phase is Done ==> self.current().settled(),
                forall|i: nat| #[trigger] old(self).allocated(i) ==> self.allocated(i),
                old(self).same_buckets_but(self, None),
                self.pop_trace(old(self), &op),
            ensures
                op.phase is Done,
                old(self).same_buckets_but(self, None),
                self.pop_trace(old(self), &op),
                op.result.is_none() ==> old(self)@.len() == 0,
            decreases op.rank(),
        {
            proof {
                if op.phase is Accessed && op.size == 0 {
                    assert(self.state().published(self.state().current));
                    assert(self.descriptor_ok(self.state().current));
                }
            }
            let ghost before = *self;
            let ghost was = op;
            let done = self.pop_step(&mut op);
            proof {
                old(self).lemma_same_buckets_on(&before, self, None);
                self.lemma_pop_trace(old(self), &before, &was, &op);
            }
            if done {
                break ;
            }
        }
        proof {
            assert(old(self).state().published(old(self).state().current));
            assert(old(self).descriptor_ok(old(self).state().current));
        }
        op.result
    }
}

} // verus!
