//! Operations in flight. A `PushOp` or a `PopOp` records how far one
//! `push_back` or `pop_back` has come; each call of `push_step` or
//! `pop_step` carries it one indivisible step further. Stepping several
//! operations in any order on one vector is how concurrency looks here.
use vstd::prelude::*;
use crate::backend::Backend;
use crate::bucket::{bucket_index, MAX_INDEX};
use crate::descriptor::{DescriptorView, WriteDescriptor};
use crate::lockfree_vec::LockfreeVec;
use crate::strategy::{Stage, StrategyState};

verus! {

/// What one step of the guard `g` may have done to descriptor `d` between
/// the states `a` and `b`: it leaves alone the candidates and the
/// superseded descriptors of other guards, changes a published descriptor
/// by recording its write as attempted at most, and takes a descriptor back
/// into use only when nothing protects it.
pub open spec fn descriptor_step(a: StrategyState, b: StrategyState, d: usize, g: usize) -> bool {
    let i = d as int;
    &&& a.stage[i] is Candidate && a.stage[i]->owner != g ==> b.stage[i] == a.stage[i]
        && b.descs[i] == a.descs[i]
    &&& a.stage[i] is Superseded && a.stage[i]->by != g ==> b.stage[i] == a.stage[i]
    &&& a.published(d) && b.published(d) ==> b.descs[i] == a.descs[i] || b.descs[i]
        == a.descs[i].complete()
    &&& a.published(d) && !b.published(d) ==> a.unprotected(d)
}

/// What one step of the guard `g` may have done between the vectors `pre`
/// and `post`.
pub open spec fn step_of(pre: &LockfreeVec, post: &LockfreeVec, g: usize) -> bool {
    let a = pre.state();
    let b = post.state();
    &&& b.descs.len() >= a.descs.len()
    &&& forall|h: usize| #[trigger] a.guards.contains(h) && h != g ==> b.guards.contains(h)
    &&& a.holds_of_others_kept(b, g)
    &&& forall|d: usize| #[trigger] a.has(d) ==> descriptor_step(a, b, d, g)
    &&& b.current != a.current ==> a.candidate_of(b.current, g)
    &&& forall|i: nat| #[trigger] pre.allocated(i) ==> post.allocated(i)
    &&& pre.current().settled() ==> pre.storage_kept(post)
}

/// A change of the store that keeps every stored value, and of nothing
/// else, is a step of any guard: making sure of storage disturbs no
/// operation in flight.
pub proof fn lemma_storage_step(pre: &LockfreeVec, post: &LockfreeVec, g: usize)
    requires
        pre.wf(),
        post.state() == pre.state(),
        pre.storage_kept(post),
    ensures
        step_of(pre, post, g),
{
    let a = pre.state();
    assert forall|d: usize| #[trigger] a.has(d) implies descriptor_step(a, a, d, g) by {}
}

/// How far a `push_back` has come.
#[derive(Clone, Copy, Debug, PartialEq, Eq)]
pub enum PushPhase {
    /// Nothing done yet.
    Start,
    /// Protected section begun.
    Guarded,
    /// Candidate descriptor obtained.
    Allocated,
    /// Published descriptor read and protected.
    Accessed,
    /// Pending write of the descriptor read carried out.
    Helped,
    /// Storage for the new element made sure of.
    Backed,
    /// Candidate filled in.
    Prepared,
    /// The swap failed: another operation published first.
    Lost,
    /// The vector cannot hold another element.
    Overfull,
    /// The swap succeeded: the element belongs to the vector.
    Published,
    /// Own pending write carried out.
    Landed,
    /// Replaced descriptor retired.
    Retired,
    /// Protections given up.
    Released,
    /// Protected section ended.
    Done,
}

/// One `push_back` in flight.
#[derive(Clone, Copy, Debug)]
pub struct PushOp {
    /// How far the operation has come.
    pub phase: PushPhase,
    /// The value to append.
    pub elem: usize,
    /// Guard of the operation's protected section.
    pub guard: usize,
    /// The operation's candidate descriptor.
    pub new_desc: usize,
    /// The descriptor read as published.
    pub desc: usize,
    /// The size that `desc` records.
    pub size: usize,
    /// The value found in the slot that the element goes to.
    pub old_value: usize,
    /// Whether the element has been appended.
    pub pushed: bool,
}

impl PushOp {
    /// A `push_back` of `elem` that has not begun.
    pub fn new(elem: usize) -> (op: PushOp)
        ensures
            op.phase is Start,
            op.elem == elem,
            !op.pushed,
    {
        PushOp {
            phase: PushPhase::Start,
            elem,
            guard: 0,
            new_desc: 0,
            desc: 0,
            size: 0,
            old_value: 0,
            pushed: false,
        }
    }

    /// The operation has ended.
    pub fn is_done(&self) -> (r: bool)
        ensures
            r == (self.phase is Done),
    {
        match self.phase {
            PushPhase::Done => true,
            _ => false,
        }
    }

    /// The operation's guard is in use.
    pub open spec fn live(&self, s: StrategyState) -> bool {
        s.guards.contains(self.guard)
    }

    /// The operation owns and protects its candidate.
    pub open spec fn has_candidate(&self, s: StrategyState) -> bool {
        s.candidate_of(self.new_desc, self.guard) && s.holds.contains((self.guard, self.new_desc))
    }

    /// The operation protects the descriptor it read.
    pub open spec fn holds_read(&self, s: StrategyState) -> bool {
        s.published(self.desc) && s.holds.contains((self.guard, self.desc))
    }

    /// The descriptor read has no write left to land.
    pub open spec fn read_settled(&self, s: StrategyState) -> bool {
        s.descs[self.desc as int].settled()
    }

    /// The operation knows the size and has storage for the new element.
    pub open spec fn backed(&self, vec: &LockfreeVec) -> bool {
        &&& self.size == vec.state().descs[self.desc as int].size
        &&& self.size < MAX_INDEX
        &&& vec.allocated(self.size as nat)
    }

    /// What the operation's candidate says once it is filled in.
    pub open spec fn payload(&self) -> DescriptorView {
        DescriptorView {
            size: (self.size + 1) as usize,
            pending: Some(
                WriteDescriptor {
                    old_value: self.old_value,
                    new_value: self.elem,
                    pos: self.size,
                    completed: false,
                },
            ),
        }
    }

    /// The operation has replaced the descriptor it read and protects both.
    pub open spec fn has_replaced(&self, s: StrategyState) -> bool {
        &&& s.published(self.new_desc)
        &&& s.holds.contains((self.guard, self.new_desc))
        &&& self.new_desc != self.desc
        &&& s.has(self.desc)
        &&& s.stage[self.desc as int] == (Stage::Superseded { by: self.guard })
        &&& s.holds.contains((self.guard, self.desc))
    }

    /// The operation has appended its element, or it found the vector as
    /// long as a vector can get.
    pub open spec fn ended_well(&self) -> bool {
        self.pushed || self.size >= MAX_INDEX
    }

    /// What the operation may rely on at its phase.
    pub open spec fn inv(&self, vec: &LockfreeVec) -> bool {
        let s = vec.state();
        match self.phase {
            PushPhase::Start => !self.pushed,
            PushPhase::Guarded => self.live(s) && !self.pushed,
            PushPhase::Allocated => self.live(s) && self.has_candidate(s) && !self.pushed,
            PushPhase::Accessed => self.live(s) && self.has_candidate(s) && self.holds_read(s)
                && !self.pushed,
            PushPhase::Helped => self.live(s) && self.has_candidate(s) && self.holds_read(s)
                && self.read_settled(s) && !self.pushed,
            PushPhase::Backed => self.live(s) && self.has_candidate(s) && self.holds_read(s)
                && self.read_settled(s) && self.backed(vec) && !self.pushed,
            PushPhase::Prepared => {
                &&& self.live(s) && self.has_candidate(s) && self.holds_read(s)
                &&& self.read_settled(s) && self.backed(vec) && !self.pushed
                &&& s.descs[self.new_desc as int] == self.payload()
                &&& s.current == self.desc ==> vec.slot(self.size as nat) == self.old_value
            },
            PushPhase::Lost => self.live(s) && self.has_candidate(s) && self.holds_read(s)
                && !self.pushed,
            PushPhase::Overfull => self.live(s) && self.holds_read(s) && !self.pushed
                && self.size >= MAX_INDEX,
            PushPhase::Published => self.live(s) && self.has_replaced(s) && self.pushed,
            PushPhase::Landed => self.live(s) && self.has_replaced(s) && self.pushed,
            PushPhase::Retired => self.live(s) && s.holds.contains((self.guard, self.new_desc))
                && self.pushed,
            PushPhase::Released => self.live(s) && self.ended_well(),
            PushPhase::Done => self.ended_well(),
        }
    }

    /// The next step publishes the element.
    pub open spec fn publishes(&self, vec: &LockfreeVec) -> bool {
        self.phase is Prepared && self.desc == vec.state().current
    }

    /// The phase after the next step.
    pub open spec fn next_phase(&self, vec: &LockfreeVec) -> PushPhase {
        match self.phase {
            PushPhase::Start => PushPhase::Guarded,
            PushPhase::Guarded => PushPhase::Allocated,
            PushPhase::Allocated => PushPhase::Accessed,
            PushPhase::Accessed => PushPhase::Helped,
            PushPhase::Helped => if vec.state().descs[self.desc as int].size < MAX_INDEX {
                PushPhase::Backed
            } else {
                PushPhase::Overfull
            },
            PushPhase::Backed => PushPhase::Prepared,
            PushPhase::Prepared => if self.desc == vec.state().current {
                PushPhase::Published
            } else {
                PushPhase::Lost
            },
            PushPhase::Lost => PushPhase::Allocated,
            PushPhase::Overfull => PushPhase::Released,
            PushPhase::Published => PushPhase::Landed,
            PushPhase::Landed => PushPhase::Retired,
            PushPhase::Retired => PushPhase::Released,
            PushPhase::Released => PushPhase::Done,
            PushPhase::Done => PushPhase::Done,
        }
    }

    /// What one step brings about, from the operation `self` on the vector
    /// `pre` to the operation `after` on the vector `post`.
    ///
    /// The contents of the vector change in the publishing step only, and
    /// there by the appending of the operation's element. Storage is added
    /// in one step only, and there to the bucket of the slot that the
    /// element goes to. Every step is a step of the operation's guard in
    /// the sense of `step_of`.
    pub open spec fn stepped(&self, pre: &LockfreeVec, after: &PushOp, post: &LockfreeVec) -> bool {
        &&& post.wf()
        &&& after.inv(post)
        &&& after.elem == self.elem
        &&& after.phase == self.next_phase(pre)
        &&& step_of(pre, post, after.guard)
        &&& self.phase is Start ==> !pre.state().guards.contains(after.guard)
        &&& !(self.phase is Start) ==> after.guard == self.guard
        &&& !(self.phase is Guarded) ==> after.new_desc == self.new_desc
        &&& !(self.phase is Allocated) ==> after.desc == self.desc
        &&& self.phase is Allocated ==> after.desc == pre.state().current
        &&& after.pushed == (self.pushed || self.publishes(pre))
        &&& self.publishes(pre) ==> post@ == pre@.push(self.elem) && post.state().current
            == self.new_desc
        &&& !self.publishes(pre) ==> post@ == pre@ && post.state().current == pre.state().current
            && (post.current() == pre.current() || post.current() == pre.current().complete())
        &&& self.phase is Published ==> post.state().descs[self.new_desc as int].settled()
        &&& pre.same_buckets_but(
            post,
            if self.phase is Helped {
                Some(bucket_index(pre.state().descs[self.desc as int].size as nat))
            } else {
                None
            },
        )
    }

    /// What one step makes of the books of the reclamation strategy.
    pub open spec fn books_step(&self, pre: &Backend, after: &PushOp, post: &Backend) -> bool {
        match self.phase {
            PushPhase::Start => pre.pinned(post, after.guard),
            PushPhase::Guarded => pre.took(post, after.new_desc),
            PushPhase::Allocated => pre.protected(post, after.desc),
            PushPhase::Lost => pre.released(post, self.desc),
            PushPhase::Overfull => pre.released(post, self.desc),
            PushPhase::Landed => pre.retired_one(post, self.desc),
            PushPhase::Retired => pre.released(post, self.new_desc),
            PushPhase::Released => pre.unpinned(post, self.guard),
            _ => pre.same_books(post),
        }
    }

    /// What one step brings about beside what `stepped` says: which guards
    /// are in use, how the stages of the descriptors change, what the
    /// operation notes, what becomes of the books of the strategy, and that
    /// the slots past the contents stay as they are, new ones being zero.
    pub open spec fn traced(&self, pre: &LockfreeVec, after: &PushOp, post: &LockfreeVec) -> bool {
        &&& post.state().guards == if self.phase is Start {
            pre.state().guards.insert(after.guard)
        } else if self.phase is Released {
            pre.state().guards.remove(self.guard)
        } else {
            pre.state().guards
        }
        &&& self.publishes(pre) ==> post.state().stage == pre.state().stage_after_swap(
            self.desc,
            self.new_desc,
            self.guard,
        ) && post.state().descs == pre.state().descs
        &&& self.phase is Landed ==> post.state().stage == pre.state().stage.update(
            self.desc as int,
            Stage::Retired,
        )
        &&& !(self.phase is Guarded) && !(self.phase is Landed) && !self.publishes(pre)
            ==> post.state().stage == pre.state().stage
        &&& after.old_value == if self.phase is Backed {
            pre.slot(self.size as nat)
        } else {
            self.old_value
        }
        &&& after.size == if self.phase is Helped {
            pre.state().descs[self.desc as int].size
        } else {
            self.size
        }
        &&& self.books_step(&pre.backend(), after, &post.backend())
        &&& pre.tail_as_read(post)
    }

    /// Steps left when nothing interferes.
    pub open spec fn rank(&self) -> nat {
        match self.phase {
            PushPhase::Start => 13,
            PushPhase::Guarded => 12,
            PushPhase::Lost => 12,
            PushPhase::Allocated => 11,
            PushPhase::Accessed => 10,
            PushPhase::Helped => 9,
            PushPhase::Backed => 8,
            PushPhase::Prepared => 7,
            PushPhase::Published => 5,
            PushPhase::Landed => 4,
            PushPhase::Retired => 3,
            PushPhase::Overfull => 2,
            PushPhase::Released => 1,
            PushPhase::Done => 0,
        }
    }

    /// A store to a slot other than the one that the operation has read
    /// leaves what the operation relies on in place. A store to that very
    /// slot, between the operation's reading it and its swap, does not: the
    /// element would give way to the value stored.
    pub proof fn lemma_unaffected_by_write(&self, pre: &LockfreeVec, post: &LockfreeVec, i: nat)
        requires
            pre.wf(),
            post.wf(),
            post.state() == pre.state(),
            forall|j: nat| post.allocated(j) == pre.allocated(j),
            forall|j: nat| j != i && pre.allocated(j) ==> post.slot(j) == pre.slot(j),
            self.inv(pre),
            !(self.phase is Prepared) || self.size != i,
        ensures
            self.inv(post),
    {
        if self.phase is Backed || self.phase is Prepared {
            assert(pre.allocated(self.size as nat));
        }
    }

    /// A step of another guard leaves what this operation relies on in
    /// place.
    pub proof fn lemma_undisturbed(&self, pre: &LockfreeVec, post: &LockfreeVec, g: usize)
        requires
            pre.wf(),
            post.wf(),
            step_of(pre, post, g),
            self.inv(pre),
            self.guard != g || self.phase is Start || self.phase is Done,
        ensures
            self.inv(post),
    {
        let a = pre.state();
        let b = post.state();
        if !(self.phase is Start) && !(self.phase is Done) {
            assert(a.guards.contains(self.guard));
            if a.holds.contains((self.guard, self.new_desc)) {
                assert(b.holds.contains((self.guard, self.new_desc)));
                assert(a.has(self.new_desc));
                assert(descriptor_step(a, b, self.new_desc, g));
            }
            if a.holds.contains((self.guard, self.desc)) {
                assert(b.holds.contains((self.guard, self.desc)));
                assert(a.has(self.desc));
                assert(descriptor_step(a, b, self.desc, g));
                assert(!a.unprotected(self.desc));
            }
            if self.phase is Prepared && b.current == self.desc {
                assert(a.current == self.desc);
                assert(pre.allocated(self.size as nat));
            }
            if self.phase is Backed || self.phase is Prepared {
                assert(pre.allocated(self.size as nat));
            }
            if self.phase is Published || self.phase is Landed {
                assert(!a.unprotected(self.new_desc));
            }
        }
    }
}

/// How far a `pop_back` has come.
#[derive(Clone, Copy, Debug, PartialEq, Eq)]
pub enum PopPhase {
    /// Nothing done yet.
    Start,
    /// Protected section begun.
    Guarded,
    /// Published descriptor read and protected.
    Accessed,
    /// Pending write of the descriptor read carried out.
    Helped,
    /// Last element read and candidate filled in.
    Prepared,
    /// The swap failed: another operation published first.
    Lost,
    /// The swap succeeded: the element has left the vector.
    Published,
    /// Own pending write, of which there is none, carried out.
    Landed,
    /// Protection of the new descriptor given up.
    Unheld,
    /// Replaced descriptor retired, or nothing found to pop.
    Released,
    /// Protected section ended.
    Done,
}

/// One `pop_back` in flight.
#[derive(Clone, Copy, Debug)]
pub struct PopOp {
    /// How far the operation has come.
    pub phase: PopPhase,
    /// Guard of the operation's protected section.
    pub guard: usize,
    /// The operation's candidate descriptor, once it has one.
    pub new_desc: usize,
    /// Whether the operation has a candidate.
    pub has_new: bool,
    /// The descriptor read as published.
    pub desc: usize,
    /// The size that `desc` records.
    pub size: usize,
    /// The value read from the last slot.
    pub elem: usize,
    /// The element popped, once the operation has popped one.
    pub result: Option<usize>,
}

impl PopOp {
    /// A `pop_back` that has not begun: it has no result and no candidate,
    /// and what it will note as it goes is zero.
    pub fn new() -> (op: PopOp)
        ensures
            op == (PopOp {
                phase: PopPhase::Start,
                guard: 0,
                new_desc: 0,
                has_new: false,
                desc: 0,
                size: 0,
                elem: 0,
                result: None,
            }),
    {
        PopOp {
            phase: PopPhase::Start,
            guard: 0,
            new_desc: 0,
            has_new: false,
            desc: 0,
            size: 0,
            elem: 0,
            result: None,
        }
    }

    /// The operation has ended.
    pub fn is_done(&self) -> (r: bool)
        ensures
            r == (self.phase is Done),
    {
        match self.phase {
            PopPhase::Done => true,
            _ => false,
        }
    }

    /// The operation's guard is in use.
    pub open spec fn live(&self, s: StrategyState) -> bool {
        s.guards.contains(self.guard)
    }

    /// The operation owns and protects its candidate.
    pub open spec fn has_candidate(&self, s: StrategyState) -> bool {
        s.candidate_of(self.new_desc, self.guard) && s.holds.contains((self.guard, self.new_desc))
    }

    /// The operation protects the descriptor it read and knows its size.
    pub open spec fn holds_read(&self, s: StrategyState) -> bool {
        &&& s.published(self.desc)
        &&& s.holds.contains((self.guard, self.desc))
        &&& self.size == s.descs[self.desc as int].size
    }

    /// What the operation's candidate says once it is filled in.
    pub open spec fn payload(&self) -> DescriptorView {
        DescriptorView { size: (self.size - 1) as usize, pending: None }
    }

    /// The operation has replaced the descriptor it read.
    pub open spec fn has_replaced(&self, s: StrategyState) -> bool {
        &&& s.has(self.desc)
        &&& self.new_desc != self.desc
        &&& s.stage[self.desc as int] == (Stage::Superseded { by: self.guard })
        &&& s.holds.contains((self.guard, self.desc))
    }

    /// What the operation may rely on at its phase.
    pub open spec fn inv(&self, vec: &LockfreeVec) -> bool {
        let s = vec.state();
        match self.phase {
            PopPhase::Start => self.result.is_none() && !self.has_new,
            PopPhase::Guarded => self.live(s) && (self.has_new ==> self.has_candidate(s))
                && self.result.is_none(),
            PopPhase::Accessed => self.live(s) && (self.has_new ==> self.has_candidate(s))
                && self.holds_read(s) && self.result.is_none(),
            PopPhase::Helped => {
                &&& self.live(s) && self.has_new && self.has_candidate(s) && self.holds_read(s)
                &&& s.descs[self.desc as int].settled() && self.size > 0 && self.result.is_none()
            },
            PopPhase::Prepared => {
                &&& self.live(s) && self.has_new && self.has_candidate(s) && self.holds_read(s)
                &&& s.descs[self.desc as int].settled() && self.size > 0 && self.result.is_none()
                &&& s.descs[self.new_desc as int] == self.payload()
                &&& s.current == self.desc ==> vec.slot((self.size - 1) as nat) == self.elem
            },
            PopPhase::Lost => self.live(s) && self.has_new && self.has_candidate(s)
                && self.holds_read(s) && self.result.is_none(),
            PopPhase::Published => {
                &&& self.live(s) && self.has_replaced(s) && s.published(self.new_desc)
                &&& s.holds.contains((self.guard, self.new_desc))
            },
            PopPhase::Landed => {
                &&& self.live(s) && self.has_replaced(s) && s.published(self.new_desc)
                &&& s.holds.contains((self.guard, self.new_desc))
            },
            PopPhase::Unheld => self.live(s) && self.has_replaced(s),
            PopPhase::Released => self.live(s),
            PopPhase::Done => true,
        }
    }

    /// The next step takes the last element out of the vector.
    pub open spec fn publishes(&self, vec: &LockfreeVec) -> bool {
        self.phase is Prepared && self.desc == vec.state().current
    }

    /// The phase after the next step.
    pub open spec fn next_phase(&self, vec: &LockfreeVec) -> PopPhase {
        match self.phase {
            PopPhase::Start => PopPhase::Guarded,
            PopPhase::Guarded => PopPhase::Accessed,
            PopPhase::Accessed => if self.size == 0 {
                PopPhase::Released
            } else if !self.has_new {
                PopPhase::Accessed
            } else {
                PopPhase::Helped
            },
            PopPhase::Helped => PopPhase::Prepared,
            PopPhase::Prepared => if self.desc == vec.state().current {
                PopPhase::Published
            } else {
                PopPhase::Lost
            },
            PopPhase::Lost => PopPhase::Guarded,
            PopPhase::Published => PopPhase::Landed,
            PopPhase::Landed => PopPhase::Unheld,
            PopPhase::Unheld => PopPhase::Released,
            PopPhase::Released => PopPhase::Done,
            PopPhase::Done => PopPhase::Done,
        }
    }

    /// What one step brings about, from the operation `self` on the vector
    /// `pre` to the operation `after` on the vector `post`.
    ///
    /// The contents of the vector change in the publishing step only, and
    /// there by the loss of the last element, which becomes the operation's
    /// result. The size that the operation goes by is the length that the
    /// vector had in the step that read the published descriptor. Every
    /// step is a step of the operation's guard in the sense of `step_of`.
    pub open spec fn stepped(&self, pre: &LockfreeVec, after: &PopOp, post: &LockfreeVec) -> bool {
        &&& post.wf()
        &&& after.inv(post)
        &&& after.phase == self.next_phase(pre)
        &&& step_of(pre, post, after.guard)
        &&& self.phase is Start ==> !pre.state().guards.contains(after.guard)
        &&& !(self.phase is Start) ==> after.guard == self.guard
        &&& !(self.phase is Guarded) ==> after.desc == self.desc && after.size == self.size
        &&& self.phase is Guarded ==> after.desc == pre.state().current && after.size
            == pre@.len()
        &&& after.has_new == (self.has_new || (self.phase is Accessed && self.size > 0))
        &&& self.publishes(pre) ==> pre@.len() > 0 && post@ == pre@.drop_last() && after.result
            == Some(pre@.last()) && post.current().settled()
        &&& !self.publishes(pre) ==> post@ == pre@ && after.result == self.result
            && post.state().current == pre.state().current && (post.current() == pre.current()
            || post.current() == pre.current().complete())
        &&& pre.same_buckets_but(post, None)
    }

    /// What one step makes of the books of the reclamation strategy.
    pub open spec fn books_step(&self, pre: &Backend, after: &PopOp, post: &Backend) -> bool {
        match self.phase {
            PopPhase::Start => pre.pinned(post, after.guard),
            PopPhase::Guarded => pre.protected(post, after.desc),
            PopPhase::Accessed => if self.size == 0 {
                pre.released(post, self.desc)
            } else if !self.has_new {
                pre.took(post, after.new_desc)
            } else {
                pre.same_books(post)
            },
            PopPhase::Lost => pre.released(post, self.desc),
            PopPhase::Landed => pre.released(post, self.new_desc),
            PopPhase::Unheld => pre.retired_one(post, self.desc),
            PopPhase::Released => pre.unpinned(post, self.guard),
            _ => pre.same_books(post),
        }
    }

    /// What one step brings about beside what `stepped` says: which guards
    /// are in use, how the stages of the descriptors change, what the
    /// operation notes, what becomes of the books of the strategy, and that
    /// the slots past the contents stay as they are.
    pub open spec fn traced(&self, pre: &LockfreeVec, after: &PopOp, post: &LockfreeVec) -> bool {
        &&& post.state().guards == if self.phase is Start {
            pre.state().guards.insert(after.guard)
        } else if self.phase is Released {
            pre.state().guards.remove(self.guard)
        } else {
            pre.state().guards
        }
        &&& self.publishes(pre) ==> post.state().stage == pre.state().stage_after_swap(
            self.desc,
            self.new_desc,
            self.guard,
        ) && post.state().descs == pre.state().descs
        &&& self.phase is Unheld ==> post.state().stage == pre.state().stage.update(
            self.desc as int,
            Stage::Retired,
        )
        &&& !(self.phase is Accessed) && !(self.phase is Unheld) && !self.publishes(pre)
            ==> post.state().stage == pre.state().stage
        &&& after.elem == if self.phase is Helped {
            pre.slot((self.size - 1) as nat)
        } else {
            self.elem
        }
        &&& !(self.phase is Accessed) ==> after.new_desc == self.new_desc
        &&& self.books_step(&pre.backend(), after, &post.backend())
        &&& pre.tail_as_read(post)
    }

    /// Steps left when nothing interferes.
    pub open spec fn rank(&self) -> nat {
        match self.phase {
            PopPhase::Start => 12,
            PopPhase::Lost => 12,
            PopPhase::Guarded => 11,
            PopPhase::Accessed => if self.has_new {
                9
            } else {
                10
            },
            PopPhase::Helped => 8,
            PopPhase::Prepared => 7,
            PopPhase::Published => 5,
            PopPhase::Landed => 4,
            PopPhase::Unheld => 3,
            PopPhase::Released => 1,
            PopPhase::Done => 0,
        }
    }

    /// A store to a slot other than the one that the operation has read
    /// leaves what the operation relies on in place.
    pub proof fn lemma_unaffected_by_write(&self, pre: &LockfreeVec, post: &LockfreeVec, i: nat)
        requires
            pre.wf(),
            post.wf(),
            post.state() == pre.state(),
            forall|j: nat| post.allocated(j) == pre.allocated(j),
            forall|j: nat| j != i && pre.allocated(j) ==> post.slot(j) == pre.slot(j),
            self.inv(pre),
            !(self.phase is Prepared) || self.size != i + 1,
        ensures
            self.inv(post),
    {
        if self.phase is Prepared {
            assert(pre.state().published(self.desc));
            assert(pre.descriptor_ok(self.desc));
            assert(pre.allocated((self.size - 1) as nat));
        }
    }

    /// A step of another guard leaves what this operation relies on in
    /// place.
    pub proof fn lemma_undisturbed(&self, pre: &LockfreeVec, post: &LockfreeVec, g: usize)
        requires
            pre.wf(),
            post.wf(),
            step_of(pre, post, g),
            self.inv(pre),
            self.guard != g || self.phase is Start || self.phase is Done,
        ensures
            self.inv(post),
    {
        let a = pre.state();
        let b = post.state();
        if !(self.phase is Start) && !(self.phase is Done) {
            assert(a.guards.contains(self.guard));
            if a.holds.contains((self.guard, self.new_desc)) {
                assert(b.holds.contains((self.guard, self.new_desc)));
                assert(a.has(self.new_desc));
                assert(descriptor_step(a, b, self.new_desc, g));
                assert(!a.unprotected(self.new_desc));
            }
            if a.holds.contains((self.guard, self.desc)) {
                assert(b.holds.contains((self.guard, self.desc)));
                assert(a.has(self.desc));
                assert(descriptor_step(a, b, self.desc, g));
                assert(!a.unprotected(self.desc));
            }
            if self.phase is Prepared && b.current == self.desc {
                assert(a.current == self.desc);
                assert(pre.state().published(self.desc));
                assert(pre.descriptor_ok(self.desc));
                assert(pre.allocated((self.size - 1) as nat));
            }
        }
    }
}

} // verus!
