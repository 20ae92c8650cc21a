//! Interleavings: what holds of a vector on which any number of
//! `push_back` and `pop_back` operations advance step by step, in any order.
use vstd::prelude::*;
use vstd::multiset::Multiset;
use vstd::seq_lib::to_multiset_build;
use crate::lockfree_vec::LockfreeVec;
use crate::ops::{lemma_storage_step, PopOp, PushOp};

verus! {

/// An operation in flight.
pub enum Op {
    Push(PushOp),
    Pop(PopOp),
}

impl Op {
    /// What the operation may rely on at its phase.
    pub open spec fn inv(&self, vec: &LockfreeVec) -> bool {
        match self {
            Op::Push(p) => p.inv(vec),
            Op::Pop(p) => p.inv(vec),
        }
    }

    /// The operation's guard.
    pub open spec fn guard(&self) -> usize {
        match self {
            Op::Push(p) => p.guard,
            Op::Pop(p) => p.guard,
        }
    }

    /// The operation has not begun.
    pub open spec fn fresh(&self) -> bool {
        match self {
            Op::Push(p) => p.phase is Start,
            Op::Pop(p) => p.phase is Start,
        }
    }

    /// The operation has ended.
    pub open spec fn ended(&self) -> bool {
        match self {
            Op::Push(p) => p.phase is Done,
            Op::Pop(p) => p.phase is Done,
        }
    }

    /// One step leads from `self` on `pre` to `after` on `post`.
    pub open spec fn stepped(&self, pre: &LockfreeVec, after: &Op, post: &LockfreeVec) -> bool {
        match (self, after) {
            (Op::Push(p), Op::Push(q)) => p.stepped(pre, q, post),
            (Op::Pop(p), Op::Pop(q)) => p.stepped(pre, q, post),
            _ => false,
        }
    }

    /// The element that the operation has appended, if it has.
    pub open spec fn appended(&self) -> Multiset<usize> {
        match self {
            Op::Push(p) => if p.pushed {
                Multiset::singleton(p.elem)
            } else {
                Multiset::empty()
            },
            Op::Pop(_) => Multiset::empty(),
        }
    }

    /// The element that the operation has removed, if it has.
    pub open spec fn removed(&self) -> Multiset<usize> {
        match self {
            Op::Push(_) => Multiset::empty(),
            Op::Pop(p) => match p.result {
                Some(x) => Multiset::singleton(x),
                None => Multiset::empty(),
            },
        }
    }
}

/// The elements that the operations `ops` have appended.
pub open spec fn all_appended(ops: Seq<Op>) -> Multiset<usize>
    decreases ops.len(),
{
    if ops.len() == 0 {
        Multiset::empty()
    } else {
        all_appended(ops.drop_last()).add(ops.last().appended())
    }
}

/// The elements that the operations `ops` are to append.
pub open spec fn all_offered(ops: Seq<Op>) -> Multiset<usize>
    decreases ops.len(),
{
    if ops.len() == 0 {
        Multiset::empty()
    } else {
        all_offered(ops.drop_last()).add(
            match ops.last() {
                Op::Push(p) => Multiset::singleton(p.elem),
                Op::Pop(_) => Multiset::empty(),
            },
        )
    }
}

/// The elements that the operations `ops` have removed.
pub open spec fn all_removed(ops: Seq<Op>) -> Multiset<usize>
    decreases ops.len(),
{
    if ops.len() == 0 {
        Multiset::empty()
    } else {
        all_removed(ops.drop_last()).add(ops.last().removed())
    }
}

/// A vector and the operations in flight on it, at one moment.
pub struct Moment {
    pub vec: LockfreeVec,
    pub ops: Seq<Op>,
}

/// From `a` to `b`, operation `k`, which has not ended, takes one step and
/// the other operations stay as they are.
pub open spec fn follows(a: Moment, b: Moment, k: int) -> bool {
    &&& 0 <= k < a.ops.len()
    &&& b.ops.len() == a.ops.len()
    &&& !a.ops[k].ended()
    &&& a.ops[k].stepped(&a.vec, &b.ops[k], &b.vec)
    &&& forall|j: int| 0 <= j < a.ops.len() && j != k ==> b.ops[j] == a.ops[j]
}

/// From `a` to `b` the store gains storage, as by a call of `reserve`, and
/// nothing else changes.
pub open spec fn grows(a: Moment, b: Moment) -> bool {
    &&& b.ops == a.ops
    &&& b.vec.wf()
    &&& b.vec.state() == a.vec.state()
    &&& a.vec.storage_kept(&b.vec)
}

/// Moment `t + 1` of `trace` follows from moment `t` by a step of some
/// operation, or by a gain of storage.
pub open spec fn moves(trace: Seq<Moment>, t: int) -> bool {
    grows(trace[t], trace[t + 1]) || exists|k: int| #[trigger] follows(trace[t], trace[t + 1], k)
}

/// Every moment of `trace` but the first comes from the one before it by
/// a step of some operation or by a gain of storage.
pub open spec fn is_run(trace: Seq<Moment>) -> bool {
    forall|t: int| 0 <= t < trace.len() - 1 ==> #[trigger] moves(trace, t)
}

/// No operation of `m` has begun, and the vector is well formed.
pub open spec fn is_start(m: Moment) -> bool {
    &&& m.vec.wf()
    &&& forall|j: int| 0 <= j < m.ops.len() ==> (#[trigger] m.ops[j]).fresh() && m.ops[j].inv(&m.vec)
}

/// What holds at every moment of a run that began at `first`.
pub open spec fn consistent(first: Moment, m: Moment) -> bool {
    &&& m.vec.wf()
    &&& m.ops.len() == first.ops.len()
    &&& forall|j: int| 0 <= j < m.ops.len() ==> (#[trigger] m.ops[j]).inv(&m.vec)
    &&& forall|i: int, j: int|
        0 <= i < m.ops.len() && 0 <= j < m.ops.len() && i != j && !(#[trigger] m.ops[i]).fresh()
            && !m.ops[i].ended() && !(#[trigger] m.ops[j]).fresh() && !m.ops[j].ended()
            ==> m.ops[i].guard() != m.ops[j].guard()
    &&& m.vec@.to_multiset().add(all_removed(m.ops)) == first.vec@.to_multiset().add(
        all_appended(m.ops),
    )
}

/// Operations that have not begun have appended and removed nothing.
proof fn lemma_nothing_yet(ops: Seq<Op>)
    requires
        forall|j: int| 0 <= j < ops.len() ==> (#[trigger] ops[j]).fresh() && ops[j].appended()
            == Multiset::<usize>::empty() && ops[j].removed() == Multiset::<usize>::empty(),
    ensures
        all_appended(ops) == Multiset::<usize>::empty(),
        all_removed(ops) == Multiset::<usize>::empty(),
    decreases ops.len(),
{
    if ops.len() > 0 {
        lemma_nothing_yet(ops.drop_last());
        assert(ops.last() == ops[ops.len() - 1]);
        assert(all_appended(ops) =~= Multiset::<usize>::empty());
        assert(all_removed(ops) =~= Multiset::<usize>::empty());
    }
}

/// Replacing operation `k` replaces its share of what was appended and of
/// what was removed.
proof fn lemma_replace(ops: Seq<Op>, k: int, o: Op)
    requires
        0 <= k < ops.len(),
    ensures
        all_appended(ops.update(k, o)).add(ops[k].appended()) == all_appended(ops).add(
            o.appended(),
        ),
        all_removed(ops.update(k, o)).add(ops[k].removed()) == all_removed(ops).add(o.removed()),
    decreases ops.len(),
{
    let next = ops.update(k, o);
    let front = ops.drop_last();
    assert(all_appended(ops) == all_appended(front).add(ops.last().appended()));
    assert(all_removed(ops) == all_removed(front).add(ops.last().removed()));
    assert(all_appended(next) == all_appended(next.drop_last()).add(next.last().appended()));
    assert(all_removed(next) == all_removed(next.drop_last()).add(next.last().removed()));
    if k == ops.len() - 1 {
        assert(next.drop_last() =~= front);
        assert(next.last() == o);
        assert(ops.last() == ops[k]);
        assert(all_appended(next).add(ops[k].appended()) =~= all_appended(ops).add(o.appended()));
        assert(all_removed(next).add(ops[k].removed()) =~= all_removed(ops).add(o.removed()));
    } else {
        lemma_replace(front, k, o);
        assert(next.drop_last() =~= front.update(k, o));
        assert(next.last() == ops.last());
        assert(front[k] == ops[k]);
        assert(all_appended(next).add(ops[k].appended()) =~= all_appended(front.update(k, o)).add(
            front[k].appended(),
        ).add(ops.last().appended()));
        assert(all_removed(next).add(ops[k].removed()) =~= all_removed(front.update(k, o)).add(
            front[k].removed(),
        ).add(ops.last().removed()));
        assert(all_appended(next).add(ops[k].appended()) =~= all_appended(ops).add(o.appended()));
        assert(all_removed(next).add(ops[k].removed()) =~= all_removed(ops).add(o.removed()));
    }
}

/// The first moment of a run is consistent with itself.
proof fn lemma_start_consistent(m: Moment)
    requires
        is_start(m),
    ensures
        consistent(m, m),
{
    assert forall|j: int| 0 <= j < m.ops.len() implies (#[trigger] m.ops[j]).fresh()
        && m.ops[j].appended() == Multiset::<usize>::empty() && m.ops[j].removed()
        == Multiset::<usize>::empty() by {
        assert(m.ops[j].inv(&m.vec));
    }
    lemma_nothing_yet(m.ops);
}

/// One step keeps a moment consistent.
#[verifier::rlimit(40)]
proof fn lemma_step_consistent(first: Moment, a: Moment, b: Moment, k: int)
    requires
        consistent(first, a),
        follows(a, b, k),
    ensures
        consistent(first, b),
{
    let g = b.ops[k].guard();
    assert(a.ops[k].inv(&a.vec));
    assert forall|j: int| 0 <= j < b.ops.len() implies (#[trigger] b.ops[j]).inv(&b.vec) by {
        if j != k {
            assert(b.ops[j] == a.ops[j]);
            assert(a.ops[j].inv(&a.vec));
            match a.ops[j] {
                Op::Push(p) => {
                    if !a.ops[j].fresh() && !a.ops[j].ended() {
                        assert(a.vec.state().guards.contains(p.guard));
                        assert(p.guard != g);
                    }
                    match (a.ops[k], b.ops[k]) {
                        (Op::Push(x), Op::Push(y)) => p.lemma_undisturbed(&a.vec, &b.vec, g),
                        (Op::Pop(x), Op::Pop(y)) => p.lemma_undisturbed(&a.vec, &b.vec, g),
                        _ => {},
                    }
                },
                Op::Pop(p) => {
                    if !a.ops[j].fresh() && !a.ops[j].ended() {
                        assert(a.vec.state().guards.contains(p.guard));
                        assert(p.guard != g);
                    }
                    match (a.ops[k], b.ops[k]) {
                        (Op::Push(x), Op::Push(y)) => p.lemma_undisturbed(&a.vec, &b.vec, g),
                        (Op::Pop(x), Op::Pop(y)) => p.lemma_undisturbed(&a.vec, &b.vec, g),
                        _ => {},
                    }
                },
            }
        }
    }
    assert forall|i: int, j: int|
        0 <= i < b.ops.len() && 0 <= j < b.ops.len() && i != j && !(#[trigger] b.ops[i]).fresh()
            && !b.ops[i].ended() && !(#[trigger] b.ops[j]).fresh()
            && !b.ops[j].ended() implies b.ops[i].guard() != b.ops[j].guard() by {
        if i != k && j != k {
            assert(b.ops[i] == a.ops[i] && b.ops[j] == a.ops[j]);
        } else {
            let other = if i == k { j } else { i };
            assert(b.ops[other] == a.ops[other]);
            assert(a.ops[other].inv(&a.vec));
            assert(a.vec.state().guards.contains(a.ops[other].guard()));
        }
    }
    assert(b.ops =~= a.ops.update(k, b.ops[k]));
    lemma_replace(a.ops, k, b.ops[k]);
    let va = a.vec@.to_multiset();
    let vb = b.vec@.to_multiset();
    let f = first.vec@.to_multiset();
    match (a.ops[k], b.ops[k]) {
        (Op::Push(x), Op::Push(y)) => {
            assert(b.ops[k].removed() == a.ops[k].removed());
            if x.publishes(&a.vec) {
                to_multiset_build(a.vec@, x.elem);
                assert(a.ops[k].appended() =~= Multiset::<usize>::empty());
                assert(b.ops[k].appended() =~= Multiset::singleton(x.elem));
            } else {
                assert(b.ops[k].appended() == a.ops[k].appended());
            }
        },
        (Op::Pop(x), Op::Pop(y)) => {
            assert(b.ops[k].appended() == a.ops[k].appended());
            if x.publishes(&a.vec) {
                assert(a.vec@ =~= b.vec@.push(a.vec@.last()));
                to_multiset_build(b.vec@, a.vec@.last());
                assert(a.ops[k].removed() =~= Multiset::<usize>::empty());
                assert(b.ops[k].removed() =~= Multiset::singleton(a.vec@.last()));
            } else {
                assert(b.ops[k].removed() == a.ops[k].removed());
            }
        },
        _ => {},
    }
    assert forall|x: usize|
        vb.count(x) + all_removed(b.ops).count(x) == f.count(x) + all_appended(b.ops).count(
            x,
        ) by {
        assert(va.add(all_removed(a.ops)).count(x) == f.add(all_appended(a.ops)).count(x));
        assert(all_appended(b.ops).add(a.ops[k].appended()).count(x) == all_appended(a.ops).add(
            b.ops[k].appended(),
        ).count(x));
        assert(all_removed(b.ops).add(a.ops[k].removed()).count(x) == all_removed(a.ops).add(
            b.ops[k].removed(),
        ).count(x));
        assert(va.insert(x).count(x) == va.count(x) + 1);
        assert(vb.insert(x).count(x) == vb.count(x) + 1);
    }
    assert(vb.add(all_removed(b.ops)) =~= f.add(all_appended(b.ops)));
}

/// A gain of storage keeps a moment consistent.
proof fn lemma_growth_consistent(first: Moment, a: Moment, b: Moment)
    requires
        consistent(first, a),
        grows(a, b),
    ensures
        consistent(first, b),
{
    b.vec.lemma_view_kept(&a.vec);
    assert forall|j: int| 0 <= j < b.ops.len() implies (#[trigger] b.ops[j]).inv(&b.vec) by {
        assert(a.ops[j].inv(&a.vec));
        let g: usize = if a.ops[j].guard() == 0 { 1 } else { 0 };
        lemma_storage_step(&a.vec, &b.vec, g);
        match a.ops[j] {
            Op::Push(p) => p.lemma_undisturbed(&a.vec, &b.vec, g),
            Op::Pop(p) => p.lemma_undisturbed(&a.vec, &b.vec, g),
        }
    }
}

/// Whatever the order in which the operations take their steps, the vector
/// stays well formed, every operation can take its next step, and nothing
/// is lost or made up: the contents together with what was removed are the
/// first contents together with what was appended, each value as often as
/// it was appended.
pub proof fn lemma_run_conserves(trace: Seq<Moment>)
    requires
        trace.len() > 0,
        is_start(trace[0]),
        is_run(trace),
    ensures
        consistent(trace[0], trace.last()),
    decreases trace.len(),
{
    if trace.len() == 1 {
        lemma_start_consistent(trace[0]);
    } else {
        let shorter = trace.drop_last();
        assert forall|t: int| 0 <= t < shorter.len() - 1 implies #[trigger] moves(shorter, t) by {
            assert(shorter[t] == trace[t]);
            assert(shorter[t + 1] == trace[t + 1]);
            assert(moves(trace, t));
            if !grows(trace[t], trace[t + 1]) {
                let k = choose|k: int| #[trigger] follows(trace[t], trace[t + 1], k);
                assert(follows(shorter[t], shorter[t + 1], k));
            }
        }
        lemma_run_conserves(shorter);
        let t = trace.len() - 2;
        assert(shorter.last() == trace[t]);
        assert(moves(trace, t));
        if grows(trace[t], trace[t + 1]) {
            lemma_growth_consistent(trace[0], trace[t], trace[t + 1]);
        } else {
            let k = choose|k: int| #[trigger] follows(trace[t], trace[t + 1], k);
            lemma_step_consistent(trace[0], trace[t], trace[t + 1], k);
        }
    }
}

/// The write that the published descriptor announces has landed, or the
/// operation that published the descriptor is about to carry it out.
pub open spec fn write_in_hand(m: Moment) -> bool {
    m.vec.current().settled() || exists|j: int|
        0 <= j < m.ops.len() && lands_current(#[trigger] m.ops[j], &m.vec)
}

/// The operation has published the descriptor that is still the published
/// one, and has not yet carried out the write that it announced.
pub open spec fn lands_current(op: Op, vec: &LockfreeVec) -> bool {
    op matches Op::Push(p) && p.phase is Published && p.new_desc == vec.state().current
}

/// One step keeps the announced write in hand.
proof fn lemma_step_in_hand(a: Moment, b: Moment)
    requires
        a.vec.wf(),
        write_in_hand(a),
        grows(a, b) || exists|k: int| #[trigger] follows(a, b, k),
    ensures
        write_in_hand(b),
{
    if grows(a, b) {
        if !a.vec.current().settled() {
            let j = choose|j: int| 0 <= j < a.ops.len() && lands_current(#[trigger] a.ops[j], &a.vec);
            assert(lands_current(b.ops[j], &b.vec));
        }
    } else {
        let k = choose|k: int| #[trigger] follows(a, b, k);
        match (a.ops[k], b.ops[k]) {
            (Op::Push(x), Op::Push(y)) => {
                if x.publishes(&a.vec) {
                    assert(lands_current(b.ops[k], &b.vec));
                } else if !a.vec.current().settled() {
                    let j = choose|j: int|
                        0 <= j < a.ops.len() && lands_current(#[trigger] a.ops[j], &a.vec);
                    if j != k {
                        assert(b.ops[j] == a.ops[j]);
                        assert(lands_current(b.ops[j], &b.vec));
                    }
                }
            },
            (Op::Pop(x), Op::Pop(y)) => {
                if !x.publishes(&a.vec) && !a.vec.current().settled() {
                    let j = choose|j: int|
                        0 <= j < a.ops.len() && lands_current(#[trigger] a.ops[j], &a.vec);
                    assert(j != k);
                    assert(b.ops[j] == a.ops[j]);
                    assert(lands_current(b.ops[j], &b.vec));
                }
            },
            _ => {},
        }
    }
}

/// In a run that began with no write outstanding, the write that the
/// published descriptor announces has landed or is in the hands of the
/// operation that published it.
pub proof fn lemma_run_in_hand(trace: Seq<Moment>)
    requires
        trace.len() > 0,
        is_start(trace[0]),
        is_run(trace),
        trace[0].vec.current().settled(),
    ensures
        write_in_hand(trace.last()),
    decreases trace.len(),
{
    if trace.len() > 1 {
        let shorter = trace.drop_last();
        assert forall|t: int| 0 <= t < shorter.len() - 1 implies #[trigger] moves(shorter, t) by {
            assert(shorter[t] == trace[t]);
            assert(shorter[t + 1] == trace[t + 1]);
            assert(moves(trace, t));
            if !grows(trace[t], trace[t + 1]) {
                let k = choose|k: int| #[trigger] follows(trace[t], trace[t + 1], k);
                assert(follows(shorter[t], shorter[t + 1], k));
            }
        }
        lemma_run_in_hand(shorter);
        lemma_run_conserves(shorter);
        let t = trace.len() - 2;
        assert(shorter.last() == trace[t]);
        assert(moves(trace, t));
        lemma_step_in_hand(trace[t], trace[t + 1]);
    }
}

/// Once every operation of a run that began with no write outstanding has
/// ended, no write is outstanding: the observable size is the number of
/// elements, and every slot below it holds its element.
pub proof fn lemma_run_settles(trace: Seq<Moment>)
    requires
        trace.len() > 0,
        is_start(trace[0]),
        is_run(trace),
        trace[0].vec.current().settled(),
        forall|j: int| 0 <= j < trace.last().ops.len() ==> (#[trigger] trace.last().ops[j]).ended(),
    ensures
        trace.last().vec.current().settled(),
        trace.last().vec.spec_size() == trace.last().vec@.len(),
        forall|i: nat|
            i < trace.last().vec@.len() ==> trace.last().vec.slot(i)
                == #[trigger] trace.last().vec@[i as int],
{
    lemma_run_in_hand(trace);
    lemma_run_conserves(trace);
    let m = trace.last();
    if !m.vec.current().settled() {
        let j = choose|j: int| 0 <= j < m.ops.len() && lands_current(#[trigger] m.ops[j], &m.vec);
        assert(m.ops[j].ended());
    }
    m.vec.lemma_size_masks_pending();
}

/// Operations that have each appended their element have appended what
/// was offered.
proof fn lemma_all_appended(ops: Seq<Op>)
    requires
        forall|j: int| 0 <= j < ops.len() ==> ((#[trigger] ops[j]) matches Op::Push(p) ==> p.pushed),
    ensures
        all_appended(ops) == all_offered(ops),
    decreases ops.len(),
{
    if ops.len() > 0 {
        assert(ops.last() == ops[ops.len() - 1]);
        assert forall|j: int| 0 <= j < ops.drop_last().len() implies ((
        #[trigger] ops.drop_last()[j]) matches Op::Push(p) ==> p.pushed) by {
            assert(ops.drop_last()[j] == ops[j]);
        }
        lemma_all_appended(ops.drop_last());
    }
}

/// When every `push_back` of a run has ended, and none of them found the
/// vector as long as a vector can get, the contents together with what was
/// removed are the first contents together with every element offered:
/// nothing is lost, nothing is there twice.
pub proof fn lemma_run_keeps_every_push(trace: Seq<Moment>)
    requires
        trace.len() > 0,
        is_start(trace[0]),
        is_run(trace),
        forall|j: int|
            0 <= j < trace.last().ops.len() ==> ((#[trigger] trace.last().ops[j]) matches Op::Push(
                p,
            ) ==> p.phase is Done && p.size < crate::bucket::MAX_INDEX),
    ensures
        trace.last().vec@.to_multiset().add(all_removed(trace.last().ops))
            == trace[0].vec@.to_multiset().add(all_offered(trace.last().ops)),
{
    lemma_run_conserves(trace);
    let m = trace.last();
    assert forall|j: int| 0 <= j < m.ops.len() implies ((#[trigger] m.ops[j]) matches Op::Push(p)
        ==> p.pushed) by {
        assert(m.ops[j].inv(&m.vec));
    }
    lemma_all_appended(m.ops);
}

/// When a run that began on an empty vector has removed as many elements
/// as it has appended, the vector is empty again and the elements removed
/// are the elements appended.
pub proof fn lemma_run_drains(trace: Seq<Moment>)
    requires
        trace.len() > 0,
        is_start(trace[0]),
        is_run(trace),
        trace[0].vec@.len() == 0,
        all_removed(trace.last().ops).len() == all_appended(trace.last().ops).len(),
    ensures
        trace.last().vec@.len() == 0,
        trace.last().vec.spec_size() == 0,
        all_removed(trace.last().ops) == all_appended(trace.last().ops),
{
    lemma_run_conserves(trace);
    let m = trace.last();
    let v = m.vec@.to_multiset();
    let f = trace[0].vec@.to_multiset();
    trace[0].vec@.to_multiset_ensures();
    m.vec@.to_multiset_ensures();
    assert(f.len() == 0);
    assert(v.add(all_removed(m.ops)).len() == v.len() + all_removed(m.ops).len());
    assert(f.add(all_appended(m.ops)).len() == f.len() + all_appended(m.ops).len());
    assert(v.len() == 0);
    assert forall|x: usize| all_removed(m.ops).count(x) == all_appended(m.ops).count(x) by {
        assert(v.add(all_removed(m.ops)).count(x) == f.add(all_appended(m.ops)).count(x));
        assert(v.count(x) <= v.len());
        assert(f.count(x) <= f.len());
    }
    assert(all_removed(m.ops) =~= all_appended(m.ops));
    assert(m.vec.state().published(m.vec.state().current));
    assert(m.vec.descriptor_ok(m.vec.state().current));
}

/// The descriptor that the operation has read as published and means to
/// replace, while it is between its read and its swap.
pub open spec fn reads(op: Op) -> Option<usize> {
    match op {
        Op::Push(p) => if p.phase is Accessed || p.phase is Helped || p.phase is Backed
            || p.phase is Prepared {
            Some(p.desc)
        } else {
            None
        },
        Op::Pop(p) => if p.phase is Accessed || p.phase is Helped || p.phase is Prepared {
            Some(p.desc)
        } else {
            None
        },
    }
}

/// At the moment `at` of `trace`, operation `k` had read the descriptor
/// `d`, which was the published one, and at the next moment another
/// descriptor was published.
pub open spec fn overtaken_at(trace: Seq<Moment>, k: int, d: usize, at: int) -> bool {
    &&& 0 <= at < trace.len() - 1
    &&& 0 <= k < trace[at].ops.len()
    &&& reads(trace[at].ops[k]) == Some(d)
    &&& trace[at].vec.state().current == d
    &&& trace[at + 1].vec.state().current != d
}

/// Before the moment `t` of `trace`, operation `k` was overtaken: after it
/// had read the descriptor `d`, another operation published.
pub open spec fn overtaken(trace: Seq<Moment>, k: int, d: usize, t: int) -> bool {
    exists|at: int| at < t && #[trigger] overtaken_at(trace, k, d, at)
}

/// The descriptor that an operation means to replace is the published
/// one, unless another operation has published since the operation read
/// it.
pub proof fn lemma_read_or_overtaken(trace: Seq<Moment>, k: int, t: int)
    requires
        trace.len() > 0,
        is_start(trace[0]),
        is_run(trace),
        0 <= t < trace.len(),
        0 <= k < trace[t].ops.len(),
        reads(trace[t].ops[k]).is_some(),
    ensures
        trace[t].vec.state().current == reads(trace[t].ops[k]).unwrap() || overtaken(
            trace,
            k,
            reads(trace[t].ops[k]).unwrap(),
            t,
        ),
    decreases t,
{
    let d = reads(trace[t].ops[k]).unwrap();
    if t == 0 {
        assert(trace[0].ops[k].fresh());
    } else {
        let a = trace[t - 1];
        let b = trace[t];
        assert(moves(trace, t - 1));
        let carried = if grows(a, b) {
            true
        } else {
            let j = choose|j: int| #[trigger] follows(a, b, j);
            if j != k {
                assert(b.ops[k] == a.ops[k]);
                true
            } else {
                match (a.ops[k], b.ops[k]) {
                    (Op::Push(x), Op::Push(y)) => !(x.phase is Allocated),
                    (Op::Pop(x), Op::Pop(y)) => !(x.phase is Guarded),
                    _ => true,
                }
            }
        };
        if carried {
            // The operation had read `d` a moment ago.
            assert(reads(a.ops[k]) == Some(d));
            assert(a.ops.len() == b.ops.len());
            lemma_read_or_overtaken(trace, k, t - 1);
            if a.vec.state().current == d {
                if b.vec.state().current != d {
                    assert(overtaken_at(trace, k, d, t - 1));
                }
            } else {
                let at = choose|at: int| at < t - 1 && #[trigger] overtaken_at(trace, k, d, at);
                assert(overtaken_at(trace, k, d, at));
            }
        }
    }
}

/// A swap fails only when another has succeeded: an operation whose next
/// step is a swap that fails was overtaken after it had read the
/// descriptor that it means to replace.
pub proof fn lemma_lost_swap_means_progress(trace: Seq<Moment>, k: int, t: int)
    requires
        trace.len() > 0,
        is_start(trace[0]),
        is_run(trace),
        0 <= t < trace.len(),
        0 <= k < trace[t].ops.len(),
        match trace[t].ops[k] {
            Op::Push(p) => p.phase is Prepared && !p.publishes(&trace[t].vec),
            Op::Pop(p) => p.phase is Prepared && !p.publishes(&trace[t].vec),
        },
    ensures
        overtaken(trace, k, reads(trace[t].ops[k]).unwrap(), t),
{
    lemma_read_or_overtaken(trace, k, t);
}

} // verus!
