//! Finding a pattern in a text with the help of the pattern's prefix
//! function.
use vstd::prelude::*;

verus! {

/// The first `k` elements of `s` are also the last `k` of its first `n`,
/// and `k` is less than `n`: the prefix of length `n` has a border of
/// length `k`.
pub open spec fn is_border(s: Seq<u8>, n: int, k: int) -> bool {
    &&& 0 <= k < n <= s.len()
    &&& s.subrange(0, k) == s.subrange(n - k, n)
}

/// `k` is the length of the longest border of the prefix of length `n`.
pub open spec fn is_longest_border(s: Seq<u8>, n: int, k: int) -> bool {
    &&& is_border(s, n, k)
    &&& forall|b: int| #[trigger] is_border(s, n, b) ==> b <= k
}

/// The first `k` elements of `p` are the last `k` of the first `n`
/// elements of `t`.
pub open spec fn ends_with_prefix(t: Seq<u8>, n: int, p: Seq<u8>, k: int) -> bool {
    &&& 0 <= k <= n <= t.len()
    &&& k <= p.len()
    &&& p.subrange(0, k) == t.subrange(n - k, n)
}

/// `p` occurs in `t` at index `at`.
pub open spec fn occurs_at(t: Seq<u8>, p: Seq<u8>, at: int) -> bool {
    &&& 0 <= at
    &&& at + p.len() <= t.len()
    &&& t.subrange(at, at + p.len()) == p
}

/// A border of a border is a border: of two borders of the same prefix,
/// the shorter one is a border of the prefix as long as the longer one.
proof fn lemma_border_of_border(s: Seq<u8>, n: int, k: int, b: int)
    requires
        is_border(s, n, k),
        0 <= b < k,
    ensures
        is_border(s, n, b) <==> is_border(s, k, b),
{
    let front = s.subrange(0, k);
    let back = s.subrange(n - k, n);
    assert(front == back);
    assert(s.subrange(k - b, k) =~= front.subrange(k - b, k));
    assert(s.subrange(n - b, n) =~= back.subrange(k - b, k));
}

/// A border that the next element extends is a border, one longer, of the
/// prefix one longer, and every border of that prefix that is not empty
/// comes about in this way.
proof fn lemma_extend_border(s: Seq<u8>, n: int, k: int)
    requires
        0 <= k < n < s.len(),
    ensures
        is_border(s, n, k) && s[k] == s[n] <==> is_border(s, n + 1, k + 1),
{
    if is_border(s, n, k) && s[k] == s[n] {
        assert(s.subrange(0, k + 1) =~= s.subrange(0, k).push(s[k]));
        assert(s.subrange(n - k, n + 1) =~= s.subrange(n - k, n).push(s[n]));
    }
    if is_border(s, n + 1, k + 1) {
        let front = s.subrange(0, k + 1);
        let back = s.subrange(n - k, n + 1);
        assert(front == back);
        assert(front[k] == back[k]);
        assert(s.subrange(0, k) =~= front.subrange(0, k));
        assert(s.subrange(n - k, n) =~= back.subrange(0, k));
    }
}

/// The empty border is a border of every prefix that is not empty.
proof fn lemma_empty_border(s: Seq<u8>, n: int)
    requires
        0 < n <= s.len(),
    ensures
        is_border(s, n, 0),
{
    assert(s.subrange(0, 0) =~= s.subrange(n, n));
}

/// The prefix function of `s`: for each index the length of the longest
/// border of the prefix that ends there.
pub fn calc_prefix(s: &[u8]) -> (result: Vec<usize>)
    ensures
        result.len() == s.len(),
        forall|i: int| 0 <= i < s.len() ==> is_longest_border(s@, i + 1, #[trigger] result[i] as int),
{
    let n = s.len();
    let mut result: Vec<usize> = Vec::new();
    if n == 0 {
        return result;
    }
    result.push(0);
    proof {
        lemma_empty_border(s@, 1);
    }
    let mut k: usize = 0;
    let mut i: usize = 1;
    while i < n
        invariant
            1 <= i <= n,
            n == s.len(),
            result.len() == i,
            k == result[i - 1],
            forall|j: int| 0 <= j < i ==> is_longest_border(s@, j + 1, #[trigger] result[j] as int),
        decreases n - i,
    {
        // backtrack k
        while k > 0 && s[i] != s[k]
            invariant
                1 <= i < n,
                n == s.len(),
                result.len() == i,
                is_border(s@, i as int, k as int),
                forall|b: int| #[trigger]
                    is_border(s@, i as int, b) && s@[b] == s@[i as int] ==> b <= k,
                forall|j: int|
                    0 <= j < i ==> is_longest_border(s@, j + 1, #[trigger] result[j] as int),
            decreases k,
        {
            let shorter = result[k - 1];
            proof {
                assert(is_longest_border(s@, k as int, shorter as int));
                assert forall|b: int| #[trigger]
                    is_border(s@, i as int, b) && s@[b] == s@[i as int] implies b <= shorter by {
                    if b < k {
                        lemma_border_of_border(s@, i as int, k as int, b);
                    }
                }
                lemma_border_of_border(s@, i as int, k as int, shorter as int);
            }
            k = shorter;
        }
        proof {
            let longer: int = i + 1;
            let best: int = if s@[k as int] == s@[i as int] {
                k + 1
            } else {
                k as int
            };
            assert forall|b: int| #[trigger] is_border(s@, longer, b) implies b <= best by {
                if b > 0 {
                    lemma_extend_border(s@, i as int, b - 1);
                }
            }
            if s@[k as int] == s@[i as int] {
                lemma_extend_border(s@, i as int, k as int);
            } else {
                lemma_empty_border(s@, i + 1);
            }
        }
        if s[k] == s[i] {
            k += 1;
        }
        result.push(k);
        i += 1;
    }
    result
}

/// A prefix of the pattern at the end of the text so far, shorter than
/// another one, is a border of that one.
proof fn lemma_prefix_at_end(t: Seq<u8>, n: int, p: Seq<u8>, k: int, b: int)
    requires
        ends_with_prefix(t, n, p, k),
        0 <= b < k,
    ensures
        ends_with_prefix(t, n, p, b) <==> is_border(p, k, b),
{
    let front = p.subrange(0, k);
    let back = t.subrange(n - k, n);
    assert(front == back);
    assert(p.subrange(k - b, k) =~= front.subrange(k - b, k));
    assert(t.subrange(n - b, n) =~= back.subrange(k - b, k));
}

/// A prefix of the pattern at the end of the text so far that the next
/// element of the text continues is a prefix, one longer, at the end of
/// the text with that element, and every such prefix that is not empty
/// comes about in this way.
proof fn lemma_extend_prefix(t: Seq<u8>, n: int, p: Seq<u8>, k: int)
    requires
        0 <= k < p.len(),
        k <= n < t.len(),
    ensures
        ends_with_prefix(t, n, p, k) && p[k] == t[n] <==> ends_with_prefix(t, n + 1, p, k + 1),
{
    if ends_with_prefix(t, n, p, k) && p[k] == t[n] {
        assert(p.subrange(0, k + 1) =~= p.subrange(0, k).push(p[k]));
        assert(t.subrange(n - k, n + 1) =~= t.subrange(n - k, n).push(t[n]));
    }
    if ends_with_prefix(t, n + 1, p, k + 1) {
        let front = p.subrange(0, k + 1);
        let back = t.subrange(n - k, n + 1);
        assert(front == back);
        assert(front[k] == back[k]);
        assert(p.subrange(0, k) =~= front.subrange(0, k));
        assert(t.subrange(n - k, n) =~= back.subrange(0, k));
    }
}

/// The index of the first occurrence of `pattern` in `t`, or -1 if there
/// is none.
pub fn kmp(t: &[u8], pattern: &[u8]) -> (r: i32)
    requires
        pattern.len() > 0,
        t.len() <= i32::MAX,
    ensures
        r == -1 || occurs_at(t@, pattern@, r as int),
        r == -1 ==> forall|at: int| !#[trigger] occurs_at(t@, pattern@, at),
        r != -1 ==> forall|at: int| 0 <= at < r ==> !#[trigger] occurs_at(t@, pattern@, at),
{
    let result = calc_prefix(pattern);
    let m = pattern.len();
    let mut max_prefix_len: usize = 0;
    let mut i: usize = 0;
    proof {
        assert(pattern@.subrange(0, 0) =~= t@.subrange(0, 0));
    }
    while i < t.len()
        invariant
            i <= t.len(),
            m == pattern.len(),
            m > 0,
            t.len() <= i32::MAX,
            result.len() == m,
            forall|j: int|
                0 <= j < m ==> is_longest_border(pattern@, j + 1, #[trigger] result[j] as int),
            max_prefix_len < m,
            ends_with_prefix(t@, i as int, pattern@, max_prefix_len as int),
            forall|b: int| #[trigger]
                ends_with_prefix(t@, i as int, pattern@, b) ==> b <= max_prefix_len,
            forall|at: int| at + m <= i ==> !#[trigger] occurs_at(t@, pattern@, at),
        decreases t.len() - i,
    {
        while max_prefix_len > 0 && t[i] != pattern[max_prefix_len]
            invariant
                i < t.len(),
                m == pattern.len(),
                result.len() == m,
                forall|j: int|
                    0 <= j < m ==> is_longest_border(pattern@, j + 1, #[trigger] result[j] as int),
                max_prefix_len < m,
                ends_with_prefix(t@, i as int, pattern@, max_prefix_len as int),
                forall|b: int| #[trigger]
                    ends_with_prefix(t@, i as int, pattern@, b) && b < m && pattern@[b]
                        == t@[i as int] ==> b <= max_prefix_len,
            decreases max_prefix_len,
        {
            let shorter = result[max_prefix_len - 1];
            proof {
                assert(is_longest_border(pattern@, max_prefix_len as int, shorter as int));
                lemma_prefix_at_end(
                    t@,
                    i as int,
                    pattern@,
                    max_prefix_len as int,
                    shorter as int,
                );
                assert forall|b: int| #[trigger]
                    ends_with_prefix(t@, i as int, pattern@, b) && b < m && pattern@[b]
                        == t@[i as int] implies b <= shorter by {
                    if b < max_prefix_len {
                        lemma_prefix_at_end(t@, i as int, pattern@, max_prefix_len as int, b);
                    }
                }
            }
            max_prefix_len = shorter;
        }
        proof {
            let next: int = if pattern@[max_prefix_len as int] == t@[i as int] {
                max_prefix_len + 1
            } else {
                max_prefix_len as int
            };
            let longer: int = i + 1;
            assert forall|b: int| #[trigger]
                ends_with_prefix(t@, longer, pattern@, b) implies b <= next by {
                if b > 0 {
                    lemma_extend_prefix(t@, i as int, pattern@, b - 1);
                }
            }
            if pattern@[max_prefix_len as int] == t@[i as int] {
                lemma_extend_prefix(t@, i as int, pattern@, max_prefix_len as int);
            } else {
                assert(pattern@.subrange(0, 0) =~= t@.subrange(i + 1, i + 1));
            }
            assert forall|at: int| at + m == longer implies (#[trigger] occurs_at(
                t@,
                pattern@,
                at,
            ) <==> ends_with_prefix(t@, longer, pattern@, m as int)) by {
                assert(pattern@.subrange(0, m as int) =~= pattern@);
            }
        }
        if pattern[max_prefix_len] == t[i] {
            max_prefix_len += 1;
        }
        if max_prefix_len == m {
            // occurs at index
            proof {
                assert(pattern@.subrange(0, m as int) =~= pattern@);
            }
            return (i + 1 - m) as i32;
        }
        i += 1;
    }
    proof {
        assert forall|at: int| !#[trigger] occurs_at(t@, pattern@, at) by {
            if occurs_at(t@, pattern@, at) {
                assert(at + m <= t.len());
            }
        }
    }
    return -1;
}

} // verus!
