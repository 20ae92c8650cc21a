use lockfree_vector::bucket::{bucket_size, highest_bit_index, FIRST_BUCKET_SIZE};
use lockfree_vector::lockfree_vec::LockfreeVec;

#[test]
fn test_indexing() {
    assert_eq!(
        (0, FIRST_BUCKET_SIZE - 1),
        LockfreeVec::get_bucket_and_pos_at(FIRST_BUCKET_SIZE - 1)
    );
    assert_eq!((0, 0), LockfreeVec::get_bucket_and_pos_at(0));
    assert_eq!((0, 1), LockfreeVec::get_bucket_and_pos_at(1));
    assert_eq!((0, 2), LockfreeVec::get_bucket_and_pos_at(2));
    assert_eq!((0, 3), LockfreeVec::get_bucket_and_pos_at(3));
    assert_eq!((0, 7), LockfreeVec::get_bucket_and_pos_at(7));
    assert_eq!(
        (1, 0),
        LockfreeVec::get_bucket_and_pos_at(FIRST_BUCKET_SIZE)
    );
    assert_eq!(
        (1, FIRST_BUCKET_SIZE),
        LockfreeVec::get_bucket_and_pos_at(FIRST_BUCKET_SIZE * 2)
    );
    assert_eq!(
        (2, 0),
        LockfreeVec::get_bucket_and_pos_at(FIRST_BUCKET_SIZE * 3)
    );
}

#[test]
fn test_highest_bit_index() {
    assert_eq!(0, highest_bit_index(0b1));
    assert_eq!(1, highest_bit_index(0b11));
    assert_eq!(2, highest_bit_index(0b111));
    assert_eq!(2, highest_bit_index(0b101));
    assert_eq!(2, highest_bit_index(0b100));
    assert_eq!(7, highest_bit_index(0b10000001));
}

#[test]
fn test_bucket_size() {
    assert_eq!(bucket_size(0), FIRST_BUCKET_SIZE);
    assert_eq!(bucket_size(1), FIRST_BUCKET_SIZE * 2);
    assert_eq!(bucket_size(2), FIRST_BUCKET_SIZE * 4);
}

#[test]
fn test_push_back() {
    let mut vec = LockfreeVec::new();
    for i in 0..512 {
        vec.push_back(i);
        assert_eq!(vec.read(i), i);
    }
}

#[test]
fn test_pop_back() {
    let mut vec = LockfreeVec::new();
    let iterations = 20000;
    for i in 0..iterations {
        vec.push_back(i);
    }
    for i in iterations..0 {
        let item = vec.pop_back();
        assert_eq!(i, item.unwrap());
    }
}

#[test]
fn test_size() {
    let mut vec = LockfreeVec::new();
    assert_eq!(vec.size(), 0);
    vec.push_back(1);
    assert_eq!(vec.size(), 1);
    vec.push_back(2);
    assert_eq!(vec.size(), 2);
}

#[test]
fn test_read() {
    let mut vec = LockfreeVec::new();
    let iterations = 512;
    for i in 0..iterations {
        vec.push_back(i);
    }
    for i in 0..iterations {
        assert_eq!(vec.read(i), i);
    }
}

#[test]
fn test_write() {
    let mut vec = LockfreeVec::new();
    let iterations = 512;
    for _ in 0..iterations {
        vec.push_back(0);
    }
    for i in 0..iterations {
        vec.write(i, i);
    }
    for i in 0..iterations {
        assert_eq!(vec.read(i), i);
    }
}

fn check_bucket(vec: &mut LockfreeVec, new_size: usize) {
    vec.reserve(new_size);
    let (bucket, _) = LockfreeVec::get_bucket_and_pos_at(new_size - 1);
    assert_eq!(vec.get_bucket(bucket).is_empty(), false);
    assert_eq!(vec.get_bucket(bucket + 1).is_empty(), true);
}

#[test]
fn test_reserve_allocates_correct_bucket() {
    let mut vec = LockfreeVec::new();

    check_bucket(&mut vec, 7);
    check_bucket(&mut vec, 8);
    check_bucket(&mut vec, 9);
    check_bucket(&mut vec, 16);
    check_bucket(&mut vec, 32);
    check_bucket(&mut vec, 47);
    check_bucket(&mut vec, 48);
    check_bucket(&mut vec, 49);
}

#[test]
fn pop_back_returns_elements_in_reverse() {
    let mut vec = LockfreeVec::new();
    for i in 0..100 {
        vec.push_back(i * 3);
    }
    for i in (0..100).rev() {
        assert_eq!(vec.size(), i + 1);
        assert_eq!(vec.pop_back(), Some(i * 3));
    }
    assert_eq!(vec.size(), 0);
    assert_eq!(vec.pop_back(), None);
    assert_eq!(vec.size(), 0);
}

#[test]
fn pop_back_on_new_vector_is_none() {
    let mut vec = LockfreeVec::new();
    assert_eq!(vec.pop_back(), None);
    let mut counted = LockfreeVec::with_reference_counting();
    assert_eq!(counted.pop_back(), None);
}

#[test]
fn new_vector_has_no_storage() {
    let vec = LockfreeVec::new();
    for bucket in 0..64 {
        assert!(vec.get_bucket(bucket).is_empty());
    }
}

#[test]
fn push_back_allocates_buckets_lazily() {
    let mut vec = LockfreeVec::new();
    vec.push_back(1);
    assert_eq!(vec.get_bucket(0).len(), 8);
    assert!(vec.get_bucket(1).is_empty());
    for i in 1..9 {
        vec.push_back(i);
    }
    assert_eq!(vec.get_bucket(1).len(), 16);
    assert!(vec.get_bucket(2).is_empty());
}

#[test]
fn read_after_write() {
    let mut vec = LockfreeVec::new();
    vec.reserve(40);
    vec.write(0, 77);
    assert_eq!(vec.read(0), 77);
    assert_eq!(vec.size(), 0);
    for i in 0..30 {
        vec.push_back(i);
    }
    vec.write(17, 1234);
    assert_eq!(vec.read(17), 1234);
    assert_eq!(vec.read(16), 16);
    assert_eq!(vec.read(18), 18);
    vec.write(30, 5);
    assert_eq!(vec.read(30), 5);
    assert_eq!(vec.size(), 30);
}

#[test]
fn reserve_is_idempotent_and_never_shrinks() {
    let mut vec = LockfreeVec::new();
    vec.reserve(100);
    let (bucket, _) = LockfreeVec::get_bucket_and_pos_at(99);
    assert_eq!(bucket, 3);
    assert_eq!(vec.get_bucket(3).len(), 64);
    vec.write(0, 9);
    vec.reserve(10);
    assert_eq!(vec.get_bucket(3).len(), 64);
    vec.reserve(100);
    assert_eq!(vec.get_bucket(3).len(), 64);
    assert!(vec.get_bucket(4).is_empty());
    assert_eq!(vec.read(0), 9);
    assert_eq!(vec.size(), 0);
    vec.reserve(0);
    assert_eq!(vec.size(), 0);
}

#[test]
fn bucket_sizes_double() {
    let mut expected = FIRST_BUCKET_SIZE;
    for bucket in 0..20 {
        assert_eq!(bucket_size(bucket), expected);
        expected *= 2;
    }
}

#[test]
fn bucket_mapping_is_contiguous() {
    let mut bucket = 0;
    let mut offset = 0;
    for i in 0..5000 {
        assert_eq!(LockfreeVec::get_bucket_and_pos_at(i), (bucket, offset));
        offset += 1;
        if offset == bucket_size(bucket) {
            bucket += 1;
            offset = 0;
        }
    }
}

#[test]
fn reference_counting_vector_behaves_alike() {
    let mut vec = LockfreeVec::with_reference_counting();
    for i in 0..1000 {
        vec.push_back(i + 1);
        assert_eq!(vec.size(), i + 1);
    }
    for i in 0..1000 {
        assert_eq!(vec.read(i), i + 1);
    }
    for i in (0..1000).rev() {
        assert_eq!(vec.pop_back(), Some(i + 1));
    }
    assert_eq!(vec.pop_back(), None);
}
