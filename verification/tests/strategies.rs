use lockfree_vector::descriptor::{Descriptor, WriteDescriptor};
use lockfree_vector::epoch::{EpochGarbageCollectionStrategy, POOL_CAPACITY};
use lockfree_vector::refcounted::RefcountedDescriptorStrategy;
use lockfree_vector::strategy::Strategy;

#[test]
fn write_descriptor_starts_unattempted() {
    let w = WriteDescriptor::new(1, 2, 3);
    assert_eq!(w.old_value, 1);
    assert_eq!(w.new_value, 2);
    assert_eq!(w.pos, 3);
    assert!(!w.completed);
}

#[test]
fn descriptor_starts_unprotected() {
    let d = Descriptor::new(4, Some(WriteDescriptor::new(0, 9, 3)));
    assert_eq!(d.size, 4);
    assert_eq!(d.counter, 0);
    assert_eq!(d.pending, Some(WriteDescriptor::new(0, 9, 3)));
    assert_eq!(Descriptor::new(0, None).pending, None);
}

#[test]
fn swap_wins_only_against_the_published_descriptor() {
    let mut s = EpochGarbageCollectionStrategy::new();
    let g = s.guard();
    let current = s.access(&g);
    assert_eq!(current, 0);
    let a = s.allocate(&g);
    let b = s.allocate(&g);
    assert_eq!((a, b), (1, 2));
    s.prepare(a, 1, Some(WriteDescriptor::new(0, 5, 0)), &g);
    s.prepare(b, 1, Some(WriteDescriptor::new(0, 6, 0)), &g);
    assert!(s.swap(current, a, &g));
    assert!(!s.swap(current, b, &g));
    assert_eq!(s.access(&g), a);
    assert_eq!(s.descriptor().size, 1);
    assert_eq!(s.descriptor().pending, Some(WriteDescriptor::new(0, 5, 0)));
    s.mark_completed(a);
    assert_eq!(s.get(a).pending.unwrap().completed, true);
    assert_eq!(s.get(b).pending.unwrap().completed, false);
}

#[test]
fn epoch_strategy_reuses_a_retired_descriptor_once_no_guard_can_see_it() {
    let mut s = EpochGarbageCollectionStrategy::new();
    let g = s.guard();
    let watcher = s.guard();
    let old = s.access(&g);
    let new = s.allocate(&g);
    s.prepare(new, 0, None, &g);
    assert!(s.swap(old, new, &g));
    s.dealloc(old, &g);
    // The watcher began before the retirement: nothing is reused yet.
    let fresh = s.allocate(&g);
    assert_eq!(fresh, 2);
    s.unpin(g);
    let h = s.guard();
    assert_eq!(s.allocate(&h), 3);
    s.unpin(watcher);
    // Every guard in use began after the retirement.
    assert_eq!(s.allocate(&h), old);
    assert_eq!(s.allocate(&h), 4);
}

#[test]
fn epoch_strategy_reuses_in_order_of_retirement() {
    let mut s = EpochGarbageCollectionStrategy::new();
    let mut retired = Vec::new();
    for _ in 0..5 {
        let g = s.guard();
        let old = s.access(&g);
        let new = s.allocate(&g);
        s.prepare(new, 0, None, &g);
        assert!(s.swap(old, new, &g));
        s.release_access(new, &g);
        s.dealloc(old, &g);
        s.unpin(g);
        retired.push(old);
        // Each round retires one descriptor and takes the oldest reusable
        // one, if any, as its candidate.
    }
    assert_eq!(retired, vec![0, 1, 0, 1, 0]);
}

#[test]
fn epoch_pool_keeps_at_most_its_capacity() {
    let mut s = EpochGarbageCollectionStrategy::new();
    let watcher = s.guard();
    let g = s.guard();
    let rounds = POOL_CAPACITY + 10;
    for _ in 0..rounds {
        let old = s.access(&g);
        let new = s.allocate(&g);
        s.prepare(new, 0, None, &g);
        assert!(s.swap(old, new, &g));
        s.dealloc(old, &g);
    }
    // Nothing was reusable so far: every round took a new descriptor.
    assert_eq!(s.access(&g), rounds);
    s.unpin(watcher);
    s.unpin(g);
    let h = s.guard();
    for expected in 0..POOL_CAPACITY {
        assert_eq!(s.allocate(&h), expected);
    }
    // The descriptors that found the pool full are gone for good.
    assert_eq!(s.allocate(&h), rounds + 1);
}

#[test]
fn refcounted_strategy_counts_protections() {
    let mut s = RefcountedDescriptorStrategy::new();
    assert_eq!(s.as_ptr(), 0);
    let g = s.guard();
    let h = s.guard();
    assert_ne!(g.id, h.id);
    let d = s.access(&g);
    assert_eq!(s.get(d).counter, 1);
    let e = s.access(&h);
    assert_eq!(d, e);
    assert_eq!(s.get(d).counter, 2);
    s.release_access(d, &h);
    assert_eq!(s.get(d).counter, 1);
    let new = s.allocate(&g);
    assert_eq!(s.get(new).counter, 1);
    s.prepare(new, 3, None, &g);
    assert_eq!(s.get(new).counter, 1);
    assert!(s.swap(d, new, &g));
    assert_eq!(s.as_ptr(), new);
    s.dealloc(d, &g);
    assert_eq!(s.get(d).counter, 0);
    s.release_access(new, &g);
    assert_eq!(s.get(new).counter, 0);
    assert_eq!(s.descriptor().size, 3);
}

#[test]
fn refcounted_strategy_reuses_only_unprotected_descriptors() {
    let mut s = RefcountedDescriptorStrategy::new();
    let g = s.guard();
    let h = s.guard();
    let old = s.access(&g);
    let seen = s.access(&h);
    assert_eq!(old, seen);
    let new = s.allocate(&g);
    s.prepare(new, 1, None, &g);
    assert!(s.swap(old, new, &g));
    s.dealloc(old, &g);
    // `h` still protects the retired descriptor.
    assert_eq!(s.get(old).counter, 1);
    assert_eq!(s.allocate(&g), 2);
    s.release_access(old, &h);
    assert_eq!(s.allocate(&g), old);
    assert_eq!(s.get(old).counter, 1);
}

#[test]
fn guards_are_told_apart_and_their_slots_reused() {
    let mut s = EpochGarbageCollectionStrategy::new();
    let a = s.guard();
    let b = s.guard();
    let c = s.guard();
    assert_eq!((a.id, b.id, c.id), (0, 1, 2));
    s.unpin(b);
    let d = s.guard();
    assert_eq!(d.id, 1);
    let e = s.guard();
    assert_eq!(e.id, 3);
}
