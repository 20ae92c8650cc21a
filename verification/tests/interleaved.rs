use lockfree_vector::lockfree_vec::LockfreeVec;
use lockfree_vector::ops::{PopOp, PopPhase, PushOp, PushPhase};

fn run_push(vec: &mut LockfreeVec, op: &mut PushOp) {
    while !vec.push_step(op) {}
}

#[test]
fn size_hides_an_element_whose_write_has_not_landed() {
    let mut vec = LockfreeVec::new();
    vec.push_back(10);
    let mut op = PushOp::new(20);
    while op.phase != PushPhase::Published {
        assert_eq!(vec.size(), 1);
        vec.push_step(&mut op);
    }
    // The new descriptor is published, the write of the element is not.
    assert!(op.pushed);
    assert_eq!(vec.size(), 1);
    assert_eq!(vec.read(0), 10);
    vec.push_step(&mut op);
    assert_eq!(op.phase, PushPhase::Landed);
    assert_eq!(vec.size(), 2);
    assert_eq!(vec.read(1), 20);
    run_push(&mut vec, &mut op);
    assert_eq!(vec.size(), 2);
}

#[test]
fn another_operation_lands_a_pending_write() {
    let mut vec = LockfreeVec::new();
    let mut first = PushOp::new(7);
    while first.phase != PushPhase::Published {
        vec.push_step(&mut first);
    }
    assert_eq!(vec.size(), 0);
    // A second operation reads the descriptor and helps.
    let mut second = PushOp::new(8);
    while second.phase != PushPhase::Helped {
        vec.push_step(&mut second);
    }
    assert_eq!(vec.size(), 1);
    assert_eq!(vec.read(0), 7);
    // The first operation's own attempt changes nothing.
    vec.push_step(&mut first);
    assert_eq!(vec.read(0), 7);
    run_push(&mut vec, &mut second);
    run_push(&mut vec, &mut first);
    assert_eq!(vec.size(), 2);
    assert_eq!(vec.read(0), 7);
    assert_eq!(vec.read(1), 8);
}

#[test]
fn two_operations_help_the_same_write() {
    let mut vec = LockfreeVec::new();
    let mut first = PushOp::new(5);
    while first.phase != PushPhase::Published {
        vec.push_step(&mut first);
    }
    let mut a = PopOp::new();
    let mut b = PopOp::new();
    // Both read the descriptor with the pending write, then each gets its
    // candidate, then both help.
    while a.phase != PopPhase::Accessed || !a.has_new {
        vec.pop_step(&mut a);
    }
    while b.phase != PopPhase::Accessed || !b.has_new {
        vec.pop_step(&mut b);
    }
    vec.pop_step(&mut a);
    vec.pop_step(&mut b);
    assert_eq!(a.phase, PopPhase::Helped);
    assert_eq!(b.phase, PopPhase::Helped);
    assert_eq!(vec.read(0), 5);
    assert_eq!(vec.size(), 1);
    while !vec.pop_step(&mut a) {}
    while !vec.pop_step(&mut b) {}
    while !vec.push_step(&mut first) {}
    assert_eq!(a.result, Some(5));
    assert_eq!(b.result, None);
    assert_eq!(vec.size(), 0);
}

#[test]
fn losing_a_swap_retries() {
    let mut vec = LockfreeVec::new();
    let mut a = PushOp::new(1);
    let mut b = PushOp::new(2);
    while a.phase != PushPhase::Prepared {
        vec.push_step(&mut a);
    }
    while b.phase != PushPhase::Prepared {
        vec.push_step(&mut b);
    }
    vec.push_step(&mut b);
    assert_eq!(b.phase, PushPhase::Published);
    vec.push_step(&mut a);
    assert_eq!(a.phase, PushPhase::Lost);
    assert!(!a.pushed);
    run_push(&mut vec, &mut a);
    run_push(&mut vec, &mut b);
    assert!(a.pushed);
    assert_eq!(vec.size(), 2);
    assert_eq!(vec.read(0), 2);
    assert_eq!(vec.read(1), 1);
}

#[test]
fn pop_on_empty_ends_without_result() {
    let mut vec = LockfreeVec::new();
    let mut op = PopOp::new();
    let mut steps = 0;
    while !vec.pop_step(&mut op) {
        steps += 1;
    }
    assert_eq!(op.result, None);
    assert_eq!(steps, 3);
    assert_eq!(op.phase, PopPhase::Done);
    assert!(vec.pop_step(&mut op));
}

#[test]
fn uninterrupted_push_takes_eleven_steps() {
    let mut vec = LockfreeVec::new();
    let mut op = PushOp::new(3);
    let mut steps = 1;
    while !vec.push_step(&mut op) {
        steps += 1;
    }
    assert_eq!(steps, 11);
    assert!(op.is_done());
    assert_eq!(vec.size(), 1);
}

struct Lcg(u64);

impl Lcg {
    fn next(&mut self, bound: usize) -> usize {
        self.0 = self.0.wrapping_mul(6364136223846793005).wrapping_add(1442695040888963407);
        ((self.0 >> 33) as usize) % bound
    }
}

fn three_pushers_one_popper(mut vec: LockfreeVec, per_pusher: usize, seed: u64) {
    let mut order = Lcg(seed);
    let mut pushers: Vec<PushOp> = (0..3).map(|_| PushOp::new(0)).collect();
    let mut next_value: Vec<usize> = vec![1, 1, 1];
    let mut popper = PopOp::new();
    let mut collected: Vec<usize> = Vec::new();
    let total = 3 * per_pusher;
    while collected.len() < total {
        let who = order.next(4);
        if who < 3 {
            if next_value[who] > per_pusher {
                continue;
            }
            if vec.push_step(&mut pushers[who]) {
                assert!(pushers[who].pushed);
                next_value[who] += 1;
                pushers[who] = PushOp::new(next_value[who] - 1);
            }
        } else if vec.pop_step(&mut popper) {
            if let Some(value) = popper.result {
                collected.push(value);
            }
            popper = PopOp::new();
        }
    }
    collected.sort();
    let mut expected: Vec<usize> = Vec::new();
    for _ in 0..3 {
        expected.extend(0..per_pusher);
    }
    expected.sort();
    assert_eq!(collected, expected);
    assert_eq!(vec.size(), 0);
}

#[test]
fn interleaved_push_and_pop_conserve_values() {
    three_pushers_one_popper(LockfreeVec::new(), 20000, 1);
}

#[test]
fn interleaved_push_and_pop_conserve_values_with_reference_counting() {
    three_pushers_one_popper(LockfreeVec::with_reference_counting(), 20000, 2);
}

#[test]
fn interleaved_pushes_keep_every_value() {
    let mut vec = LockfreeVec::new();
    let mut order = Lcg(99);
    let iterations = 20000;
    let mut ops: Vec<PushOp> = (0..3).map(|_| PushOp::new(0)).collect();
    let mut sent: Vec<usize> = vec![0, 0, 0];
    let mut remaining = 3;
    while remaining > 0 {
        let who = order.next(3);
        if sent[who] == iterations {
            continue;
        }
        if vec.push_step(&mut ops[who]) {
            sent[who] += 1;
            if sent[who] == iterations {
                remaining -= 1;
            } else {
                ops[who] = PushOp::new(sent[who]);
            }
        }
    }
    assert_eq!(vec.size(), iterations * 3);
    let mut seen: Vec<usize> = (0..iterations * 3).map(|i| vec.read(i)).collect();
    seen.sort();
    for i in 0..iterations {
        assert_eq!(seen[3 * i], i);
        assert_eq!(seen[3 * i + 1], i);
        assert_eq!(seen[3 * i + 2], i);
    }
}
