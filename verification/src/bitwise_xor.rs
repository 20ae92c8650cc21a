//! Two puzzles solved by exclusive or: the number missing from a run of
//! consecutive numbers, and the number that occurs twice in one.
use vstd::prelude::*;
use vstd::seq_lib::to_multiset_build;

verus! {

/// The exclusive or of the elements of `s`.
pub open spec fn xor_all(s: Seq<i32>) -> i32
    decreases s.len(),
{
    if s.len() == 0 {
        0
    } else {
        xor_all(s.drop_last()) ^ s.last()
    }
}

/// The numbers from `first` on, `count` of them.
pub open spec fn numbers(first: int, count: nat) -> Seq<i32> {
    Seq::new(count, |i: int| (first + i) as i32)
}

/// Exclusive or does not mind the order of its operands, and a number
/// cancels itself.
proof fn lemma_xor(a: i32, b: i32, c: i32)
    ensures
        (a ^ b) ^ c == (a ^ c) ^ b,
        a ^ (a ^ b) == b,
        (a ^ b) ^ b == a,
        a ^ 0 == a,
        a ^ b == b ^ a,
        (a ^ b) ^ a == b,
        a ^ a == 0,
{
    assert((a ^ b) ^ a == b) by (bit_vector);
    assert(a ^ a == 0) by (bit_vector);
    assert((a ^ b) ^ c == (a ^ c) ^ b) by (bit_vector);
    assert(a ^ (a ^ b) == b) by (bit_vector);
    assert((a ^ b) ^ b == a) by (bit_vector);
    assert(a ^ 0 == a) by (bit_vector);
    assert(a ^ b == b ^ a) by (bit_vector);
}

/// Taking an element out of a sequence takes it out of the exclusive or.
proof fn lemma_xor_remove(s: Seq<i32>, i: int)
    requires
        0 <= i < s.len(),
    ensures
        xor_all(s) == xor_all(s.remove(i)) ^ s[i],
    decreases s.len(),
{
    if i == s.len() - 1 {
        assert(s.remove(i) =~= s.drop_last());
    } else {
        lemma_xor_remove(s.drop_last(), i);
        assert(s.remove(i).drop_last() =~= s.drop_last().remove(i));
        assert(s.remove(i).last() == s.last());
        lemma_xor(xor_all(s.drop_last().remove(i)), s[i], s.last());
    }
}

/// Sequences with the same elements have the same exclusive or.
pub proof fn lemma_xor_of_elements(a: Seq<i32>, b: Seq<i32>)
    requires
        a.to_multiset() == b.to_multiset(),
    ensures
        xor_all(a) == xor_all(b),
    decreases a.len(),
{
    a.to_multiset_ensures();
    b.to_multiset_ensures();
    if a.len() > 0 {
        let x = a.last();
        assert(a.contains(x));
        assert(b.to_multiset().count(x) > 0);
        assert(b.contains(x));
        let i = choose|i: int| 0 <= i < b.len() && b[i] == x;
        lemma_xor_remove(b, i);
        assert(a.remove(a.len() - 1) =~= a.drop_last());
        assert(a.drop_last().to_multiset() =~= b.remove(i).to_multiset());
        lemma_xor_of_elements(a.drop_last(), b.remove(i));
    } else {
        assert(b.len() == 0);
    }
}

/// The exclusive or of `first`, `first + 1` and so on, `count` numbers.
fn xor_numbers(first: i32, count: usize) -> (r: i32)
    requires
        first + count <= i32::MAX,
    ensures
        r == xor_all(numbers(first as int, count as nat)),
{
    let mut acc: i32 = 0;
    let mut i: usize = 0;
    let mut next: i32 = first;
    while i < count
        invariant
            i <= count,
            next == first + i,
            first + count <= i32::MAX,
            acc == xor_all(numbers(first as int, i as nat)),
        decreases count - i,
    {
        proof {
            assert(numbers(first as int, (i + 1) as nat).drop_last() =~= numbers(
                first as int,
                i as nat,
            ));
        }
        acc = acc ^ next;
        i = i + 1;
        if i < count {
            next = next + 1;
        } else {
            proof {
                assert(next + 1 == first + i);
            }
            return acc;
        }
    }
    acc
}

/// The exclusive or of the elements of `arr`.
fn xor_elements(arr: &Vec<i32>) -> (r: i32)
    ensures
        r == xor_all(arr@),
{
    let mut acc: i32 = 0;
    let mut i: usize = 0;
    while i < arr.len()
        invariant
            i <= arr.len(),
            acc == xor_all(arr@.take(i as int)),
        decreases arr.len() - i,
    {
        proof {
            assert(arr@.take(i + 1).drop_last() =~= arr@.take(i as int));
        }
        acc = acc ^ arr[i];
        i = i + 1;
    }
    proof {
        assert(arr@.take(arr.len() as int) =~= arr@);
    }
    acc
}

/// `m` is what `s` lacks to hold each of the numbers from one up to its
/// length and one more exactly once.
pub open spec fn is_missing(s: Seq<i32>, m: i32) -> bool {
    s.push(m).to_multiset() == numbers(1, s.len() + 1).to_multiset()
}

/// The number missing from `arr`: where `arr` holds each of the numbers
/// from one up to its length and one more, but for one of them, exactly
/// once, that one is returned.
pub fn find_missing(arr: &Vec<i32>) -> (r: i32)
    requires
        arr.len() < i32::MAX - 1,
    ensures
        r == xor_all(arr@) ^ xor_all(numbers(1, arr.len() as nat + 1)),
        forall|m: i32| is_missing(arr@, m) ==> r == m,
{
    let nums = xor_elements(arr);
    let all_nums = xor_numbers(1, arr.len() + 1);
    proof {
        assert forall|m: i32| is_missing(arr@, m) implies nums ^ all_nums == m by {
            lemma_xor_of_elements(arr@.push(m), numbers(1, arr.len() as nat + 1));
            assert(arr@.push(m).drop_last() =~= arr@);
            lemma_xor(nums, m, 0);
        }
    }
    nums ^ all_nums
}

/// `d` is what `s` holds beyond each of the numbers from one up to its
/// length less one exactly once.
pub open spec fn is_repeated(s: Seq<i32>, d: i32) -> bool {
    s.len() > 0 && s.to_multiset() == numbers(1, (s.len() - 1) as nat).push(d).to_multiset()
}

/// The number that `arr` holds twice: where `arr` holds each of the numbers
/// from one up to its length less one exactly once, and one of them once
/// more, that one is returned.
pub fn find_repeated(arr: &Vec<i32>) -> (r: i32)
    requires
        arr.len() < i32::MAX,
    ensures
        r == xor_all(arr@) ^ xor_all(numbers(0, arr.len() as nat)),
        forall|d: i32| is_repeated(arr@, d) ==> r == d,
{
    let mut ans: i32 = 0;
    let mut idx: usize = 0;
    let mut place: i32 = 0;
    proof {
        lemma_xor(0, 0, 0);
        assert(arr@.take(0) =~= Seq::<i32>::empty());
    }
    while idx < arr.len()
        invariant
            idx <= arr.len(),
            arr.len() < i32::MAX,
            place == idx,
            ans == xor_all(arr@.take(idx as int)) ^ xor_all(numbers(0, idx as nat)),
        decreases arr.len() - idx,
    {
        proof {
            assert(arr@.take(idx + 1).drop_last() =~= arr@.take(idx as int));
            assert(numbers(0, (idx + 1) as nat).drop_last() =~= numbers(0, idx as nat));
            let a = xor_all(arr@.take(idx as int));
            let n = xor_all(numbers(0, idx as nat));
            let x = arr[idx as int];
            assert(((a ^ n) ^ x) ^ place == (a ^ x) ^ (n ^ place)) by (bit_vector);
        }
        ans = ans ^ arr[idx] ^ place;
        idx = idx + 1;
        place = place + 1;
    }
    proof {
        assert(arr@.take(arr.len() as int) =~= arr@);
        assert forall|d: i32| is_repeated(arr@, d) implies ans == d by {
            let run = numbers(1, (arr.len() - 1) as nat);
            lemma_xor_of_elements(arr@, run.push(d));
            assert(run.push(d).drop_last() =~= run);
            lemma_numbers_from_zero((arr.len() - 1) as nat);
            assert(xor_all(run.push(d)) == xor_all(run) ^ d);
            lemma_xor(xor_all(run), d, 0);
        }
    }
    ans
}

/// Zero adds nothing to an exclusive or.
proof fn lemma_numbers_from_zero(count: nat)
    ensures
        xor_all(numbers(0, count + 1)) == xor_all(numbers(1, count)),
    decreases count,
{
    if count == 0 {
        assert(numbers(0, 1).drop_last() =~= Seq::<i32>::empty());
        assert(numbers(0, 1).last() == 0);
        assert(xor_all(numbers(0, 1)) == xor_all(numbers(0, 1).drop_last()) ^ numbers(0, 1).last());
        assert(xor_all(Seq::<i32>::empty()) == 0);
        assert(numbers(1, 0) =~= Seq::<i32>::empty());
        lemma_xor(0, 0, 0);
    } else {
        lemma_numbers_from_zero((count - 1) as nat);
        assert(numbers(0, count + 1).drop_last() =~= numbers(0, count));
        assert(numbers(1, count).drop_last() =~= numbers(1, (count - 1) as nat));
        assert(numbers(0, count + 1).last() == numbers(1, count).last());
    }
}

} // verus!
