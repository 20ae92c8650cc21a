use lockfree_vector::bitwise_xor::{find_missing, find_repeated};
use lockfree_vector::fourier_transform::is_power_of_two;
use lockfree_vector::merge_sort::merge_sort;
use lockfree_vector::mirror_binary_tree::Node;
use lockfree_vector::string_find::{calc_prefix, kmp};

#[test]
fn merge_sort_sorts() {
    let mut input = vec![10, 2, 30, 4];
    merge_sort(&mut input);
    assert_eq!(input, vec![2, 4, 10, 30]);
    let mut empty: Vec<i32> = vec![];
    merge_sort(&mut empty);
    assert!(empty.is_empty());
    let mut one = vec![7];
    merge_sort(&mut one);
    assert_eq!(one, vec![7]);
    let mut many = vec![5, -1, 5, 0, i32::MAX, i32::MIN, 3, 3, -1];
    merge_sort(&mut many);
    assert_eq!(many, vec![i32::MIN, -1, -1, 0, 3, 3, 5, 5, i32::MAX]);
}

#[test]
fn merge_sort_agrees_with_the_standard_sort() {
    let mut state: u64 = 12345;
    for len in 0..60 {
        let mut data: Vec<i32> = Vec::new();
        for _ in 0..len {
            state = state.wrapping_mul(6364136223846793005).wrapping_add(1442695040888963407);
            data.push(((state >> 40) as i32) % 50 - 25);
        }
        let mut expected = data.clone();
        expected.sort();
        merge_sort(&mut data);
        assert_eq!(data, expected);
    }
}

#[test]
fn find_missing_finds_the_missing_number() {
    assert_eq!(find_missing(&vec![1, 2, 3, 4, 6]), 5);
    assert_eq!(find_missing(&vec![]), 1);
    assert_eq!(find_missing(&vec![2]), 1);
    assert_eq!(find_missing(&vec![1]), 2);
    assert_eq!(find_missing(&vec![3, 1, 4, 2]), 5);
    assert_eq!(find_missing(&vec![5, 3, 1, 4]), 2);
}

#[test]
fn find_repeated_finds_the_number_held_twice() {
    assert_eq!(find_repeated(&vec![1, 2, 3, 4, 2]), 2);
    assert_eq!(find_repeated(&vec![1, 1]), 1);
    assert_eq!(find_repeated(&vec![3, 1, 3, 2]), 3);
    assert_eq!(find_repeated(&vec![4, 3, 2, 1, 4]), 4);
}

#[test]
fn is_power_of_two_tells_powers_of_two() {
    assert!(!is_power_of_two(0));
    assert!(is_power_of_two(1));
    assert!(is_power_of_two(2));
    assert!(!is_power_of_two(3));
    assert!(is_power_of_two(4));
    assert!(!is_power_of_two(6));
    assert!(is_power_of_two(1024));
    assert!(!is_power_of_two(1023));
    assert!(is_power_of_two(1 << 40));
    assert!(!is_power_of_two(usize::MAX));
}

fn leaf(val: i32) -> Node {
    Node { val, left: None, right: None }
}

fn inorder(node: &Node, out: &mut Vec<i32>) {
    if let Some(left) = &node.left {
        inorder(left, out);
    }
    out.push(node.val);
    if let Some(right) = &node.right {
        inorder(right, out);
    }
}

#[test]
fn insert_keeps_the_search_order() {
    let mut head = leaf(50);
    for val in [50, 25, 60, 26, 28, 58, 71] {
        head.insert(val);
    }
    let mut values = Vec::new();
    inorder(&head, &mut values);
    assert_eq!(values, vec![25, 26, 28, 50, 58, 60, 71]);
    assert_eq!(head.left.as_ref().unwrap().val, 25);
    assert_eq!(head.right.as_ref().unwrap().val, 60);
    assert_eq!(head.left.as_ref().unwrap().right.as_ref().unwrap().val, 26);
    assert!(head.left.as_ref().unwrap().left.is_none());
    head.insert(26);
    let mut again = Vec::new();
    inorder(&head, &mut again);
    assert_eq!(again, values);
}

#[test]
fn mirror_turns_the_order_around() {
    let mut head = leaf(50);
    for val in [25, 60, 26, 28, 58, 71] {
        head.insert(val);
    }
    head.mirror();
    let mut values = Vec::new();
    inorder(&head, &mut values);
    assert_eq!(values, vec![71, 60, 58, 50, 28, 26, 25]);
    assert_eq!(head.left.as_ref().unwrap().val, 60);
    assert_eq!(head.right.as_ref().unwrap().val, 25);
    head.mirror();
    let mut back = Vec::new();
    inorder(&head, &mut back);
    assert_eq!(back, vec![25, 26, 28, 50, 58, 60, 71]);
}

#[test]
fn calc_prefix_gives_the_longest_borders() {
    assert_eq!(calc_prefix(b"hu huh"), vec![0, 0, 0, 1, 2, 1]);
    assert_eq!(calc_prefix(b"aaaa"), vec![0, 1, 2, 3]);
    assert_eq!(calc_prefix(b"abcabcd"), vec![0, 0, 0, 1, 2, 3, 0]);
    assert_eq!(calc_prefix(b"aabaaab"), vec![0, 1, 0, 1, 2, 2, 3]);
    assert_eq!(calc_prefix(b""), Vec::<usize>::new());
}

#[test]
fn kmp_finds_the_first_occurrence() {
    assert_eq!(kmp(b"hu hu hu hu huj huh", b"hu huh"), -1);
    assert_eq!(kmp(b"hu hu hu hu huh huj", b"hu huh"), 9);
    assert_eq!(kmp(b"ab", b"ab"), 0);
    assert_eq!(kmp(b"aaab", b"ab"), 2);
    assert_eq!(kmp(b"abababc", b"abc"), 4);
    assert_eq!(kmp(b"abc", b"abcd"), -1);
    assert_eq!(kmp(b"", b"a"), -1);
    assert_eq!(kmp(b"aaaa", b"b"), -1);
    assert_eq!(kmp(b"xayaza", b"a"), 1);
}
