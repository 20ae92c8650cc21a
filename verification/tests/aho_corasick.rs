use lockfree_vector::aho_corasick::{AhoCorasick, Vertex, CHAR_MAX};

fn automaton(words: &[&str]) -> AhoCorasick {
    let mut ah = AhoCorasick::new();
    for word in words {
        ah.add_string(word.as_bytes());
    }
    ah.recalculate();
    ah
}

fn naive_count(words: &[&str], text: &str) -> usize {
    let letters: Vec<u8> = text.bytes().filter(|b| !b.is_ascii_whitespace() && *b != 11).collect();
    let mut distinct: Vec<&str> = words.to_vec();
    distinct.sort();
    distinct.dedup();
    let mut count = 0;
    for end in 1..=letters.len() {
        for word in &distinct {
            let w = word.as_bytes();
            if !w.is_empty() && w.len() <= end && &letters[end - w.len()..end] == w {
                count += 1;
            }
        }
    }
    count
}

#[test]
fn new_vertex_leads_nowhere() {
    let v = Vertex::new();
    assert_eq!(v.next.len(), CHAR_MAX);
    assert!(v.next.iter().all(|n| n.is_none()));
    assert!(!v.is_leaf);
    assert_eq!(v.parent, 0);
    assert_eq!(v.parent_pos, 0);
    assert_eq!(v.link, None);
    assert_eq!(v.exit_link, None);
}

#[test]
fn new_automaton_has_two_vertices() {
    let ah = AhoCorasick::new();
    assert_eq!(ah.trie.len(), 2);
    assert!(!ah.recalculated);
}

#[test]
fn add_string_builds_the_trie() {
    let mut ah = AhoCorasick::new();
    ah.add_string(b"ab");
    assert_eq!(ah.trie.len(), 4);
    assert_eq!(ah.trie[0].next[0], Some(2));
    assert_eq!(ah.trie[2].next[1], Some(3));
    assert_eq!(ah.trie[3].parent, 2);
    assert_eq!(ah.trie[3].parent_pos, 1);
    assert!(ah.trie[3].is_leaf);
    assert!(!ah.trie[2].is_leaf);
    ah.add_string(b"ac");
    assert_eq!(ah.trie.len(), 5);
    assert_eq!(ah.trie[2].next[2], Some(4));
    ah.add_string(b"a");
    assert_eq!(ah.trie.len(), 5);
    assert!(ah.trie[2].is_leaf);
    assert!(!ah.recalculated);
}

#[test]
fn recalculate_links_the_longest_suffixes() {
    let ah = automaton(&["he", "she", "his", "hers"]);
    assert!(ah.recalculated);
    // h=2 he=3 s=4 sh=5 she=6 hi=7 his=8 her=9 hers=10
    assert_eq!(ah.trie[0].link, Some(0));
    assert_eq!(ah.trie[2].link, Some(0));
    assert_eq!(ah.trie[5].link, Some(2));
    assert_eq!(ah.trie[6].link, Some(3));
    assert_eq!(ah.trie[8].link, Some(4));
    assert_eq!(ah.trie[10].link, Some(4));
    assert_eq!(ah.trie[6].exit_link, Some(6));
    assert_eq!(ah.trie[5].exit_link, Some(0));
    assert_eq!(ah.trie[3].exit_link, Some(3));
    assert_eq!(ah.trie[9].exit_link, Some(0));
}

#[test]
fn count_matches_counts_every_occurrence() {
    let ah = automaton(&["a", "b", "c"]);
    assert_eq!(ah.count_matches(b"bac"), 3);
    let ah = automaton(&["he", "she", "his", "hers"]);
    assert_eq!(ah.count_matches(b"ushers"), 3);
    assert_eq!(ah.count_matches(b"u she rs"), 3);
    assert_eq!(ah.count_matches(b""), 0);
    assert_eq!(ah.count_matches(b"hishishis"), 3);
    let ah = automaton(&["a", "aa", "aaa"]);
    assert_eq!(ah.count_matches(b"aaaa"), 9);
    let ah = automaton(&[]);
    assert_eq!(ah.count_matches(b"abc"), 0);
    let ah = automaton(&["abc", "abc", ""]);
    assert_eq!(ah.count_matches(b"abcabc"), 2);
}

#[test]
fn count_matches_agrees_with_counting_by_hand() {
    let sets: Vec<Vec<&str>> = vec![
        vec!["ab", "ba", "aba", "b"],
        vec!["abcd", "bc", "c", "cd", "d"],
        vec!["aaa", "aa", "ab", "bab", "baa"],
        vec!["z"],
    ];
    let texts = ["abababab", "abcdabcd bcd cd", "aabaabaaabab", "zzz az", "  ", "b a b\ta\nb"];
    for words in &sets {
        let ah = automaton(words);
        for text in texts {
            assert_eq!(ah.count_matches(text.as_bytes()), naive_count(words, text), "{:?} in {:?}", words, text);
        }
    }
}

#[test]
fn recalculate_twice_changes_nothing() {
    let mut ah = automaton(&["ab", "b"]);
    let links: Vec<_> = ah.trie.iter().map(|v| (v.link, v.exit_link)).collect();
    ah.recalculate();
    let again: Vec<_> = ah.trie.iter().map(|v| (v.link, v.exit_link)).collect();
    assert_eq!(links, again);
    ah.add_string(b"ba");
    assert!(!ah.recalculated);
    ah.recalculate();
    assert_eq!(ah.count_matches(b"abab"), 5);
}
