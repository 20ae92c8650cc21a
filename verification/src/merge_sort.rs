//! Merge sort.
use vstd::prelude::*;
use vstd::seq_lib::to_multiset_build;

verus! {

/// No element of `s` is larger than one that comes after it.
pub open spec fn is_sorted(s: Seq<i32>) -> bool {
    forall|i: int, j: int| 0 <= i <= j < s.len() ==> s[i] <= s[j]
}

/// A copy of the elements of `nums` from `from` up to `to`.
fn copy_range(nums: &Vec<i32>, from: usize, to: usize) -> (part: Vec<i32>)
    requires
        from <= to <= nums.len(),
    ensures
        part@ == nums@.subrange(from as int, to as int),
{
    let mut part: Vec<i32> = Vec::new();
    let mut i: usize = from;
    while i < to
        invariant
            from <= i <= to <= nums.len(),
            part@ == nums@.subrange(from as int, i as int),
        decreases to - i,
    {
        part.push(nums[i]);
        assert(nums@.subrange(from as int, i as int).push(nums[i as int]) =~= nums@.subrange(
            from as int,
            i + 1,
        ));
        i = i + 1;
    }
    part
}

/// A sequence has the elements of its two parts.
proof fn lemma_split_multiset(s: Seq<i32>, k: int)
    requires
        0 <= k <= s.len(),
    ensures
        s.to_multiset() == s.subrange(0, k).to_multiset().add(s.subrange(k, s.len() as int).to_multiset()),
    decreases s.len() - k,
{
    let left = s.subrange(0, k);
    let right = s.subrange(k, s.len() as int);
    if k == s.len() {
        assert(left =~= s);
        assert(right =~= Seq::<i32>::empty());
        lemma_empty_multiset();
        assert(s.to_multiset() =~= left.to_multiset().add(right.to_multiset()));
    } else {
        lemma_split_multiset(s, k + 1);
        let left1 = s.subrange(0, k + 1);
        let right1 = s.subrange(k + 1, s.len() as int);
        assert(left1 =~= left.push(s[k]));
        to_multiset_build(left, s[k]);
        assert(right =~= seq![s[k]] + right1);
        assert(right.drop_first() =~= right1);
        assert(right.to_multiset() =~= right1.to_multiset().insert(s[k])) by {
            lemma_first_in_multiset(right);
        }
        assert(s.to_multiset() =~= left.to_multiset().add(right.to_multiset()));
    }
}

/// The empty sequence has no elements.
proof fn lemma_empty_multiset()
    ensures
        Seq::<i32>::empty().to_multiset() == vstd::multiset::Multiset::<i32>::empty(),
        Seq::<i32>::empty().to_multiset().add(Seq::<i32>::empty().to_multiset())
            == Seq::<i32>::empty().to_multiset(),
{
    let e = Seq::<i32>::empty().to_multiset();
    Seq::<i32>::empty().to_multiset_ensures();
    assert forall|x: i32| e.count(x) == 0 by {
        assert(e.count(x) <= e.len());
    }
    assert(e =~= vstd::multiset::Multiset::<i32>::empty());
    assert(e.add(e) =~= e);
}

/// A sequence that is not empty has its first element and the elements
/// of the rest.
proof fn lemma_first_in_multiset(s: Seq<i32>)
    requires
        s.len() > 0,
    ensures
        s.to_multiset() == s.drop_first().to_multiset().insert(s.first()),
{
    assert(s =~= s.remove(0).insert(0, s.first()));
    s.to_multiset_ensures();
    assert(s.remove(0) =~= s.drop_first());
    assert(s.remove(0).to_multiset() =~= s.to_multiset().remove(s[0]));
    assert(s.to_multiset().count(s[0]) > 0) by {
        assert(s.contains(s[0]));
    }
    assert(s.to_multiset() =~= s.drop_first().to_multiset().insert(s.first()));
}

/// Sorts `nums`: afterwards it holds the elements it held, each as often
/// as before, in ascending order.
pub fn merge_sort(nums: &mut Vec<i32>)
    ensures
        is_sorted(final(nums)@),
        final(nums)@.to_multiset() == old(nums)@.to_multiset(),
        final(nums).len() == old(nums).len(),
    decreases old(nums).len(),
{
    let n = nums.len();
    if n < 2 {
        return ;
    }
    // divide
    let mut left = copy_range(nums, 0, n / 2);
    let mut right = copy_range(nums, n / 2, n);
    proof {
        lemma_split_multiset(nums@, (n / 2) as int);
    }
    // conquer
    merge_sort(&mut left);
    merge_sort(&mut right);
    let mut leftidx: usize = 0;
    let mut rightidx: usize = 0;
    // combine
    let mut i: usize = 0;
    proof {
        assert(nums@.subrange(0, 0) =~= Seq::<i32>::empty());
        assert(left@.subrange(0, 0) =~= Seq::<i32>::empty());
        assert(right@.subrange(0, 0) =~= Seq::<i32>::empty());
        lemma_empty_multiset();
    }
    while i < n
        invariant
            nums.len() == n,
            left.len() + right.len() == n,
            leftidx <= left.len(),
            rightidx <= right.len(),
            i == leftidx + rightidx,
            is_sorted(left@),
            is_sorted(right@),
            is_sorted(nums@.subrange(0, i as int)),
            forall|b: int|
                i > 0 && leftidx <= b < left.len() ==> nums@[i - 1] <= #[trigger] left@[b],
            forall|b: int|
                i > 0 && rightidx <= b < right.len() ==> nums@[i - 1] <= #[trigger] right@[b],
            nums@.subrange(0, i as int).to_multiset() == left@.subrange(
                0,
                leftidx as int,
            ).to_multiset().add(right@.subrange(0, rightidx as int).to_multiset()),
        decreases n - i,
    {
        let smaller;
        let ghost before = nums@;
        if leftidx < left.len() && (rightidx >= right.len() || left[leftidx] <= right[rightidx]) {
            smaller = left[leftidx];
            proof {
                assert(left@.subrange(0, leftidx + 1) =~= left@.subrange(0, leftidx as int).push(
                    smaller,
                ));
                to_multiset_build(left@.subrange(0, leftidx as int), smaller);
            }
            leftidx += 1;
        } else {
            smaller = right[rightidx];
            proof {
                assert(right@.subrange(0, rightidx + 1) =~= right@.subrange(
                    0,
                    rightidx as int,
                ).push(smaller));
                to_multiset_build(right@.subrange(0, rightidx as int), smaller);
            }
            rightidx += 1;
        }
        nums[i] = smaller;
        proof {
            assert(nums@.subrange(0, i + 1) =~= before.subrange(0, i as int).push(smaller));
            to_multiset_build(before.subrange(0, i as int), smaller);
            assert(nums@.subrange(0, i + 1).to_multiset() =~= left@.subrange(
                0,
                leftidx as int,
            ).to_multiset().add(right@.subrange(0, rightidx as int).to_multiset()));
            let sorted = nums@.subrange(0, i + 1);
            let earlier = before.subrange(0, i as int);
            assert forall|a: int, b: int| 0 <= a <= b < sorted.len() implies sorted[a]
                <= sorted[b] by {
                if b < i {
                    assert(earlier[a] <= earlier[b]);
                } else if a < i {
                    assert(earlier[a] <= earlier[i - 1]);
                }
            }
        }
        i += 1;
    }
    proof {
        assert(nums@.subrange(0, n as int) =~= nums@);
        assert(left@.subrange(0, left.len() as int) =~= left@);
        assert(right@.subrange(0, right.len() as int) =~= right@);
    }
}

} // verus!
