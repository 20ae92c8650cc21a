use lockfree_vector::seqlock::SeqLock;

#[test]
fn new_lock_is_readable() {
    let lock = SeqLock::new([1u64, 2, 3]);
    assert_eq!(lock.iteration, 0);
    let reader = lock.get_reader();
    assert_eq!(reader.read(), [1, 2, 3]);
    let mut copy = [0u64; 3];
    reader.read_into(&mut copy);
    assert_eq!(copy, [1, 2, 3]);
}

#[test]
fn write_stores_the_value_and_ends_the_write() {
    let mut lock = SeqLock::new(5u32);
    lock.get_writer().write(6);
    assert_eq!(lock.iteration, 2);
    assert_eq!(lock.get_reader().read(), 6);
    lock.get_writer().write(7);
    assert_eq!(lock.iteration, 4);
    assert_eq!(lock.get_reader().read(), 7);
}

#[test]
fn write_with_applies_the_closure() {
    let mut lock = SeqLock::new([0u64; 8]);
    for round in 0..100u64 {
        lock.get_writer().write_with(|mut data: [u64; 8]| {
            for (i, e) in data.iter_mut().enumerate() {
                *e = round + i as u64;
            }
            data
        });
        let value = lock.get_reader().read();
        for i in 1..8 {
            assert_eq!(value[i - 1] + 1, value[i]);
        }
        assert_eq!(value[0], round);
    }
    assert_eq!(lock.iteration, 200);
}

#[test]
fn no_read_succeeds_while_a_write_is_under_way() {
    let mut lock = SeqLock::new(1u8);
    let writer = lock.get_writer();
    assert_eq!(writer.lock.iteration, 1);
    let mut seen = Some(9u8);
    {
        let reader = writer.lock.get_reader();
        reader.try_read_into(&mut seen);
    }
    assert_eq!(seen, None);
    writer.write(2);
    let mut seen = None;
    lock.get_reader().try_read_into(&mut seen);
    assert_eq!(seen, Some(2));
}

#[test]
fn counter_wraps_and_keeps_its_parity() {
    let mut lock = SeqLock::new(0i32);
    lock.iteration = usize::MAX - 1;
    let writer = lock.get_writer();
    assert_eq!(writer.lock.iteration, usize::MAX);
    writer.write(4);
    assert_eq!(lock.iteration, 0);
    assert_eq!(lock.get_reader().read(), 4);
}

#[test]
fn finish_ends_the_write_and_keeps_the_value() {
    let mut lock = SeqLock::new(3u16);
    lock.get_writer().finish();
    assert_eq!(lock.iteration, 2);
    assert_eq!(lock.get_reader().read(), 3);
}
