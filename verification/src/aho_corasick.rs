//! Counting the occurrences of many words in a text at once: the words are
//! kept in a trie whose vertices are linked to the vertices of their
//! longest suffixes.
use vstd::prelude::*;

verus! {

/// Number of letters.
pub const CHAR_MAX: usize = 26;

/// A vertex of the trie.
#[derive(Debug)]
pub struct Vertex {
    /// The vertex that each letter leads to.
    pub next: Vec<Option<usize>>,
    /// A word ends here.
    pub is_leaf: bool,
    /// The vertex that leads here.
    pub parent: usize,
    /// The letter that leads here.
    pub parent_pos: usize,
    /// The vertex of the longest suffix that is in the trie.
    pub link: Option<usize>,
    /// The vertex of the longest suffix that is a word, this vertex
    /// included; the root if there is none.
    pub exit_link: Option<usize>,
}

impl Vertex {
    /// A vertex that leads nowhere.
    pub fn new() -> (v: Vertex)
        ensures
            v.next.len() == CHAR_MAX,
            forall|c: int| 0 <= c < CHAR_MAX ==> (#[trigger] v.next[c]).is_none(),
            !v.is_leaf,
            v.parent == 0,
            v.parent_pos == 0,
            v.link.is_none(),
            v.exit_link.is_none(),
    {
        let mut next: Vec<Option<usize>> = Vec::new();
        let mut c: usize = 0;
        while c < CHAR_MAX
            invariant
                c <= CHAR_MAX,
                next.len() == c,
                forall|d: int| 0 <= d < c ==> (#[trigger] next[d]).is_none(),
            decreases CHAR_MAX - c,
        {
            next.push(None);
            c = c + 1;
        }
        Vertex { next, is_leaf: false, parent: 0, parent_pos: 0, link: None, exit_link: None }
    }
}

/// The vertex `v` stands for a string: it is the root or one of the
/// vertices made for a letter. The second vertex stands for nothing.
pub open spec fn is_node(trie: Seq<Vertex>, v: int) -> bool {
    v == 0 || 2 <= v < trie.len()
}

/// The letters that lead from the root to `v`.
pub open spec fn label(trie: Seq<Vertex>, v: int) -> Seq<usize>
    decreases v,
{
    if 2 <= v < trie.len() && trie[v].parent < v {
        label(trie, trie[v].parent as int).push(trie[v].parent_pos)
    } else {
        Seq::empty()
    }
}

/// The vertex `v` was made after the vertex that leads to it, which is not
/// the second vertex, and that vertex leads to it by the letter that `v`
/// has noted.
pub open spec fn parent_ok(trie: Seq<Vertex>, v: int) -> bool {
    &&& trie[v].parent < v
    &&& trie[v].parent != 1
    &&& trie[v].parent_pos < CHAR_MAX
    &&& trie[trie[v].parent as int].next[trie[v].parent_pos as int] == Some(v as usize)
}

/// If the letter `c` leads anywhere from `u`, it leads to a vertex made
/// for it.
pub open spec fn child_ok(trie: Seq<Vertex>, u: int, c: int) -> bool {
    trie[u].next[c].is_some() ==> {
        let w = trie[u].next[c].unwrap();
        &&& 2 <= w < trie.len()
        &&& trie[w as int].parent == u
        &&& trie[w as int].parent_pos == c
        &&& u != 1
    }
}

/// The vertices form a trie.
#[verifier::opaque]
pub open spec fn is_trie(trie: Seq<Vertex>) -> bool {
    &&& 2 <= trie.len() <= usize::MAX
    &&& forall|v: int| 0 <= v < trie.len() ==> (#[trigger] trie[v]).next.len() == CHAR_MAX
    &&& forall|v: int| 2 <= v < trie.len() ==> #[trigger] parent_ok(trie, v)
    &&& forall|u: int, c: int|
        0 <= u < trie.len() && 0 <= c < CHAR_MAX ==> #[trigger] child_ok(trie, u, c)
}

/// What a trie says of its size.
pub proof fn lemma_size(trie: Seq<Vertex>)
    requires
        is_trie(trie),
    ensures
        2 <= trie.len() <= usize::MAX,
{
    reveal(is_trie);
}

/// What a trie says of each of its vertices.
pub proof fn lemma_vertex(trie: Seq<Vertex>, v: int)
    requires
        is_trie(trie),
        0 <= v < trie.len(),
    ensures
        trie[v].next.len() == CHAR_MAX,
        v >= 2 ==> parent_ok(trie, v),
{
    reveal(is_trie);
}

/// Where a letter leads from a vertex of a trie, there is a vertex that
/// knows where it comes from.
pub proof fn lemma_child(trie: Seq<Vertex>, u: int, c: int)
    requires
        is_trie(trie),
        0 <= u < trie.len(),
        0 <= c < CHAR_MAX,
    ensures
        child_ok(trie, u, c),
{
    reveal(is_trie);
}

/// The vertex that the letters of `s` lead to from the root, if they lead
/// anywhere.
pub open spec fn find(trie: Seq<Vertex>, s: Seq<usize>) -> Option<usize>
    decreases s.len(),
{
    if s.len() == 0 {
        Some(0)
    } else {
        match find(trie, s.drop_last()) {
            Some(u) => if s.last() < CHAR_MAX {
                trie[u as int].next[s.last() as int]
            } else {
                None
            },
            None => None,
        }
    }
}

/// The letters that lead to a vertex lead to it.
pub proof fn lemma_find_label(trie: Seq<Vertex>, v: int)
    requires
        is_trie(trie),
        is_node(trie, v),
    ensures
        find(trie, label(trie, v)) == Some(v as usize),
    decreases v,
{
    lemma_size(trie);
    if v >= 2 {
        lemma_vertex(trie, v);
        let p = trie[v].parent as int;
        lemma_find_label(trie, p);
        assert(label(trie, v).drop_last() =~= label(trie, p));
    }
}

/// Where letters lead, there is a vertex that stands for them.
pub proof fn lemma_label_find(trie: Seq<Vertex>, s: Seq<usize>)
    requires
        is_trie(trie),
        find(trie, s).is_some(),
    ensures
        is_node(trie, find(trie, s).unwrap() as int),
        label(trie, find(trie, s).unwrap() as int) == s,
    decreases s.len(),
{
    lemma_size(trie);
    if s.len() > 0 {
        let u = find(trie, s.drop_last()).unwrap() as int;
        lemma_label_find(trie, s.drop_last());
        lemma_child(trie, u, s.last() as int);
        let w = find(trie, s).unwrap() as int;
        lemma_vertex(trie, w);
        assert(label(trie, w) =~= s);
    }
}

/// Vertices that stand for the same string are the same vertex.
pub proof fn lemma_label_injective(trie: Seq<Vertex>, a: int, b: int)
    requires
        is_trie(trie),
        is_node(trie, a),
        is_node(trie, b),
        label(trie, a) == label(trie, b),
    ensures
        a == b,
{
    lemma_size(trie);
    lemma_find_label(trie, a);
    lemma_find_label(trie, b);
}

/// The letter of a lower case byte.
pub open spec fn letter(b: u8) -> usize {
    (b - 97) as usize
}

/// The letters of lower case bytes.
pub open spec fn letters(s: Seq<u8>) -> Seq<usize> {
    Seq::new(s.len(), |i: int| letter(s[i]))
}

/// All bytes are lower case letters.
pub open spec fn is_lower_case(s: Seq<u8>) -> bool {
    forall|i: int| 0 <= i < s.len() ==> 97 <= #[trigger] s[i] <= 122
}

/// The vertex `v` of `later` comes from where it came in `earlier`, and
/// leads where it led and, by letters that led nowhere, to vertices that
/// `earlier` has not.
pub open spec fn vertex_kept(earlier: Seq<Vertex>, later: Seq<Vertex>, v: int) -> bool {
    &&& later[v].parent == earlier[v].parent
    &&& later[v].parent_pos == earlier[v].parent_pos
    &&& forall|c: int|
        0 <= c < CHAR_MAX ==> if (#[trigger] earlier[v].next[c]).is_some() {
            later[v].next[c] == earlier[v].next[c]
        } else {
            later[v].next[c].is_some() ==> later[v].next[c].unwrap() >= earlier.len()
        }
}

/// `later` has the vertices of `earlier` where they were, leading where
/// they led and further, and more vertices after them.
#[verifier::opaque]
pub open spec fn extends(earlier: Seq<Vertex>, later: Seq<Vertex>) -> bool {
    &&& earlier.len() <= later.len()
    &&& forall|v: int| 0 <= v < earlier.len() ==> #[trigger] vertex_kept(earlier, later, v)
}

/// What extending says of each vertex.
pub proof fn lemma_kept(earlier: Seq<Vertex>, later: Seq<Vertex>, v: int)
    requires
        extends(earlier, later),
        0 <= v < earlier.len(),
    ensures
        earlier.len() <= later.len(),
        vertex_kept(earlier, later, v),
{
    reveal(extends);
}

/// A trie extends itself.
pub proof fn lemma_extends_itself(a: Seq<Vertex>)
    ensures
        extends(a, a),
{
    reveal(extends);
    assert forall|v: int| 0 <= v < a.len() implies #[trigger] vertex_kept(a, a, v) by {}
}

/// Extending carries over.
pub proof fn lemma_extends_transitive(a: Seq<Vertex>, b: Seq<Vertex>, c: Seq<Vertex>)
    requires
        extends(a, b),
        extends(b, c),
    ensures
        extends(a, c),
{
    reveal(extends);
    assert forall|v: int| 0 <= v < a.len() implies #[trigger] vertex_kept(a, c, v) by {
        assert(vertex_kept(a, b, v));
        assert(vertex_kept(b, c, v));
        assert forall|l: int| 0 <= l < CHAR_MAX implies if (#[trigger] a[v].next[l]).is_some() {
            c[v].next[l] == a[v].next[l]
        } else {
            c[v].next[l].is_some() ==> c[v].next[l].unwrap() >= a.len()
        } by {
            if a[v].next[l].is_some() {
                assert(b[v].next[l] == a[v].next[l]);
                assert(b[v].next[l].is_some());
            } else if b[v].next[l].is_some() {
                assert(c[v].next[l] == b[v].next[l]);
            } else {
                assert(b[v].next[l].is_none());
            }
        }
    }
}

/// The vertices of a trie stand for the same strings in a trie that
/// extends it.
pub proof fn lemma_extends_label(earlier: Seq<Vertex>, later: Seq<Vertex>, v: int)
    requires
        is_trie(earlier),
        extends(earlier, later),
        0 <= v < earlier.len(),
    ensures
        label(later, v) == label(earlier, v),
    decreases v,
{
    lemma_kept(earlier, later, v);
    if v >= 2 {
        lemma_vertex(earlier, v);
        lemma_extends_label(earlier, later, earlier[v].parent as int);
    }
}

/// Letters that lead to a vertex of a trie lead there in a trie that
/// extends it, and letters that lead to one of its vertices there lead to
/// it here.
pub proof fn lemma_extends_find(earlier: Seq<Vertex>, later: Seq<Vertex>, s: Seq<usize>)
    requires
        is_trie(earlier),
        is_trie(later),
        extends(earlier, later),
    ensures
        find(earlier, s).is_some() ==> find(later, s) == find(earlier, s),
        find(later, s).is_some() && find(later, s).unwrap() < earlier.len() ==> find(earlier, s)
            == find(later, s),
    decreases s.len(),
{
    lemma_size(earlier);
    if s.len() > 0 {
        lemma_extends_find(earlier, later, s.drop_last());
        if find(earlier, s).is_some() {
            lemma_label_find(earlier, s.drop_last());
            let u = find(earlier, s.drop_last()).unwrap() as int;
            lemma_kept(earlier, later, u);
            assert(earlier[u].next[s.last() as int].is_some());
        }
        if find(later, s).is_some() && find(later, s).unwrap() < earlier.len() {
            let v = find(later, s).unwrap() as int;
            lemma_label_find(later, s);
            lemma_extends_label(earlier, later, v);
            if v >= 2 {
                lemma_find_label(earlier, v);
            } else {
                assert(s =~= Seq::<usize>::empty());
            }
        }
    }
}

/// A trie in which a letter that led nowhere from one of its vertices
/// leads to a new last vertex is a trie.
proof fn lemma_child_added(before: Seq<Vertex>, after: Seq<Vertex>, u: int, c: int)
    requires
        is_trie(before),
        before.len() < usize::MAX,
        is_node(before, u),
        0 <= c < CHAR_MAX,
        before[u].next[c].is_none(),
        after.len() == before.len() + 1,
        after[before.len() as int].next.len() == CHAR_MAX,
        forall|l: int| 0 <= l < CHAR_MAX ==> (#[trigger] after[before.len() as int].next[l]).is_none(),
        after[before.len() as int].parent == u,
        after[before.len() as int].parent_pos == c,
        after[u].next@ == before[u].next@.update(c, Some(before.len() as usize)),
        after[u].parent == before[u].parent,
        after[u].parent_pos == before[u].parent_pos,
        forall|v: int| 0 <= v < before.len() && v != u ==> #[trigger] after[v] == before[v],
    ensures
        is_trie(after),
{
    lemma_size(before);
    let fresh = before.len() as int;
    assert forall|v: int| 0 <= v < after.len() implies (#[trigger] after[v]).next.len()
        == CHAR_MAX by {
        if v < before.len() {
            lemma_vertex(before, v);
        }
    }
    assert forall|v: int| 2 <= v < after.len() implies #[trigger] parent_ok(after, v) by {
        if v < before.len() {
            lemma_vertex(before, v);
            let p = before[v].parent as int;
            lemma_vertex(before, p);
            assert(before[p].next[before[v].parent_pos as int] == Some(v as usize));
        } else {
            lemma_vertex(before, u);
        }
    }
    assert forall|v: int, l: int| 0 <= v < after.len() && 0 <= l < CHAR_MAX implies #[trigger] child_ok(
        after,
        v,
        l,
    ) by {
        if v == fresh {
        } else {
            lemma_child(before, v, l);
            lemma_vertex(before, v);
            if after[v].next[l].is_some() && !(v == u && l == c) {
                let w = before[v].next[l].unwrap() as int;
                assert(w != u || after[w].parent == before[w].parent);
            }
        }
    }
    reveal(is_trie);
}

/// A trie in which a letter that led nowhere from one of its vertices
/// leads to a new last vertex extends the trie.
proof fn lemma_child_extends(before: Seq<Vertex>, after: Seq<Vertex>, u: int, c: int)
    requires
        is_trie(before),
        is_node(before, u),
        0 <= c < CHAR_MAX,
        before[u].next[c].is_none(),
        after.len() == before.len() + 1,
        after[u].next@ == before[u].next@.update(c, Some(before.len() as usize)),
        after[u].parent == before[u].parent,
        after[u].parent_pos == before[u].parent_pos,
        forall|v: int| 0 <= v < before.len() && v != u ==> #[trigger] after[v] == before[v],
    ensures
        extends(before, after),
{
    lemma_size(before);
    lemma_vertex(before, u);
    assert forall|v: int| 0 <= v < before.len() implies #[trigger] vertex_kept(before, after, v) by {
        if v != u {
            assert(after[v] == before[v]);
        }
    }
    reveal(extends);
}

/// A trie stays one, and extends what it was, when only the mark of a
/// vertex changes.
proof fn lemma_leaf_marked(before: Seq<Vertex>, after: Seq<Vertex>, u: int)
    requires
        is_trie(before),
        0 <= u < before.len(),
        after.len() == before.len(),
        after[u].next == before[u].next,
        after[u].parent == before[u].parent,
        after[u].parent_pos == before[u].parent_pos,
        forall|v: int| 0 <= v < before.len() && v != u ==> #[trigger] after[v] == before[v],
    ensures
        is_trie(after),
        extends(before, after),
{
    lemma_size(before);
    assert forall|v: int| 0 <= v < after.len() implies (#[trigger] after[v]).next.len()
        == CHAR_MAX by {
        lemma_vertex(before, v);
    }
    assert forall|v: int| 2 <= v < after.len() implies #[trigger] parent_ok(after, v) by {
        lemma_vertex(before, v);
        let p = before[v].parent as int;
        assert(after[p].next == before[p].next);
    }
    assert forall|v: int, l: int| 0 <= v < after.len() && 0 <= l < CHAR_MAX implies #[trigger] child_ok(
        after,
        v,
        l,
    ) by {
        lemma_child(before, v, l);
        assert(after[v].next == before[v].next);
        if before[v].next[l].is_some() {
            let w = before[v].next[l].unwrap() as int;
            assert(after[w].parent == before[w].parent);
        }
    }
    assert forall|v: int| 0 <= v < before.len() implies #[trigger] vertex_kept(before, after, v) by {
        assert(after[v].next == before[v].next);
    }
    reveal(is_trie);
    reveal(extends);
}

/// `a` is the end of `b`.
pub open spec fn is_suffix(a: Seq<usize>, b: Seq<usize>) -> bool {
    a.len() <= b.len() && a == b.subrange(b.len() - a.len(), b.len() as int)
}

/// The end of an end is an end.
pub proof fn lemma_suffix_transitive(a: Seq<usize>, b: Seq<usize>, c: Seq<usize>)
    requires
        is_suffix(a, b),
        is_suffix(b, c),
    ensures
        is_suffix(a, c),
{
    assert(a =~= c.subrange(c.len() - a.len(), c.len() as int));
}

/// Of two ends of the same string, the shorter is an end of the longer.
pub proof fn lemma_suffix_of_suffix(a: Seq<usize>, b: Seq<usize>, c: Seq<usize>)
    requires
        is_suffix(a, c),
        is_suffix(b, c),
        a.len() <= b.len(),
    ensures
        is_suffix(a, b),
{
    assert(a =~= b.subrange(b.len() - a.len(), b.len() as int));
}

/// An end of a string with one more letter is empty or an end of the
/// string with that letter.
pub proof fn lemma_suffix_push(a: Seq<usize>, b: Seq<usize>, c: usize)
    ensures
        is_suffix(a, b) ==> is_suffix(a.push(c), b.push(c)),
        is_suffix(a, b.push(c)) && a.len() > 0 ==> a.last() == c && is_suffix(a.drop_last(), b),
{
    if is_suffix(a, b) {
        assert(a.push(c) =~= b.push(c).subrange(b.len() - a.len(), b.len() as int + 1));
    }
    if is_suffix(a, b.push(c)) && a.len() > 0 {
        let whole = b.push(c);
        assert(a.last() == whole[whole.len() - 1]);
        assert(a.drop_last() =~= b.subrange(b.len() - (a.len() - 1), b.len() as int));
    }
}

/// The letters `s` are in the trie.
pub open spec fn in_trie(trie: Seq<Vertex>, s: Seq<usize>) -> bool {
    find(trie, s).is_some()
}

/// The letters `s` are a word that is not empty.
pub open spec fn is_word(trie: Seq<Vertex>, s: Seq<usize>) -> bool {
    match find(trie, s) {
        Some(v) => s.len() > 0 && trie[v as int].is_leaf,
        None => false,
    }
}

/// The link of `v` leads to the vertex of the longest end of the string of
/// `v`, itself apart, that is in the trie; the link of the root leads to
/// the root.
pub open spec fn link_ok(trie: Seq<Vertex>, v: int) -> bool {
    match trie[v].link {
        Some(u) => if v == 0 {
            u == 0
        } else {
            &&& is_node(trie, u as int)
            &&& is_suffix(label(trie, u as int), label(trie, v))
            &&& label(trie, u as int).len() < label(trie, v).len()
            &&& forall|s: Seq<usize>|
                #![trigger in_trie(trie, s)]
                in_trie(trie, s) && is_suffix(s, label(trie, v)) && s.len() < label(trie, v).len()
                    ==> s.len() <= label(trie, u as int).len()
        },
        None => false,
    }
}

/// The exit link of `v` leads to the vertex of the longest end of the
/// string of `v` that is a word, or to the root if no end is a word.
pub open spec fn exit_ok(trie: Seq<Vertex>, v: int) -> bool {
    match trie[v].exit_link {
        Some(e) => if e == 0 {
            forall|s: Seq<usize>|
                #![trigger is_word(trie, s)]
                is_word(trie, s) ==> !is_suffix(s, label(trie, v))
        } else {
            &&& 2 <= e < trie.len()
            &&& trie[e as int].is_leaf
            &&& is_suffix(label(trie, e as int), label(trie, v))
            &&& forall|s: Seq<usize>|
                #![trigger is_word(trie, s)]
                is_word(trie, s) && is_suffix(s, label(trie, v)) ==> s.len() <= label(
                    trie,
                    e as int,
                ).len()
        },
        None => false,
    }
}

/// The vertex `v` has its links.
pub open spec fn vertex_linked(trie: Seq<Vertex>, v: int) -> bool {
    link_ok(trie, v) && exit_ok(trie, v)
}

/// Every vertex has its links.
#[verifier::opaque]
pub open spec fn is_linked(trie: Seq<Vertex>) -> bool {
    forall|v: int| is_node(trie, v) ==> #[trigger] vertex_linked(trie, v)
}

/// `later` is `earlier` but for the links of its vertices.
#[verifier::opaque]
pub open spec fn same_shape(earlier: Seq<Vertex>, later: Seq<Vertex>) -> bool {
    &&& earlier.len() == later.len()
    &&& forall|v: int|
        0 <= v < earlier.len() ==> {
            &&& (#[trigger] later[v]).next == earlier[v].next
            &&& later[v].parent == earlier[v].parent
            &&& later[v].parent_pos == earlier[v].parent_pos
            &&& later[v].is_leaf == earlier[v].is_leaf
        }
}

/// What the same shape says of each vertex.
pub proof fn lemma_shape(earlier: Seq<Vertex>, later: Seq<Vertex>, v: int)
    requires
        same_shape(earlier, later),
        0 <= v < earlier.len(),
    ensures
        earlier.len() == later.len(),
        later[v].next == earlier[v].next,
        later[v].parent == earlier[v].parent,
        later[v].parent_pos == earlier[v].parent_pos,
        later[v].is_leaf == earlier[v].is_leaf,
{
    reveal(same_shape);
}

/// The same shape carries over.
pub proof fn lemma_shape_transitive(a: Seq<Vertex>, b: Seq<Vertex>, c: Seq<Vertex>)
    requires
        same_shape(a, b),
        same_shape(b, c),
    ensures
        same_shape(a, c),
{
    reveal(same_shape);
}

/// Tries of the same shape are tries with the same strings.
pub proof fn lemma_shape_trie(earlier: Seq<Vertex>, later: Seq<Vertex>)
    requires
        is_trie(earlier),
        same_shape(earlier, later),
    ensures
        is_trie(later),
        extends(earlier, later),
        extends(later, earlier),
{
    reveal(same_shape);
    lemma_size(earlier);
    assert forall|v: int| 0 <= v < later.len() implies (#[trigger] later[v]).next.len()
        == CHAR_MAX by {
        lemma_vertex(earlier, v);
    }
    assert forall|v: int| 2 <= v < later.len() implies #[trigger] parent_ok(later, v) by {
        lemma_vertex(earlier, v);
    }
    assert forall|v: int, l: int| 0 <= v < later.len() && 0 <= l < CHAR_MAX implies #[trigger] child_ok(
        later,
        v,
        l,
    ) by {
        lemma_child(earlier, v, l);
    }
    assert forall|v: int| 0 <= v < earlier.len() implies #[trigger] vertex_kept(earlier, later, v) by {}
    assert forall|v: int| 0 <= v < earlier.len() implies #[trigger] vertex_kept(later, earlier, v) by {}
    reveal(is_trie);
    reveal(extends);
}

/// In tries of the same shape the same letters lead to the same vertices,
/// and the vertices stand for the same strings.
pub proof fn lemma_shape_find(earlier: Seq<Vertex>, later: Seq<Vertex>, s: Seq<usize>)
    requires
        is_trie(earlier),
        same_shape(earlier, later),
    ensures
        find(later, s) == find(earlier, s),
        is_word(later, s) == is_word(earlier, s),
    decreases s.len(),
{
    lemma_size(earlier);
    lemma_shape(earlier, later, 0);
    if s.len() > 0 {
        lemma_shape_find(earlier, later, s.drop_last());
        if find(earlier, s.drop_last()).is_some() {
            lemma_label_find(earlier, s.drop_last());
            lemma_shape(earlier, later, find(earlier, s.drop_last()).unwrap() as int);
        }
    }
    if find(earlier, s).is_some() {
        lemma_label_find(earlier, s);
        lemma_shape(earlier, later, find(earlier, s).unwrap() as int);
    }
}

/// In tries of the same shape the vertices stand for the same strings.
pub proof fn lemma_shape_label(earlier: Seq<Vertex>, later: Seq<Vertex>, v: int)
    requires
        is_trie(earlier),
        same_shape(earlier, later),
        0 <= v < earlier.len(),
    ensures
        label(later, v) == label(earlier, v),
{
    lemma_shape_trie(earlier, later);
    lemma_extends_label(earlier, later, v);
}

/// A vertex that has its links has them in a trie of the same shape in
/// which its links are the same.
pub proof fn lemma_shape_linked(earlier: Seq<Vertex>, later: Seq<Vertex>, v: int)
    requires
        is_trie(earlier),
        same_shape(earlier, later),
        is_node(earlier, v),
        vertex_linked(earlier, v),
        later[v].link == earlier[v].link,
        later[v].exit_link == earlier[v].exit_link,
    ensures
        vertex_linked(later, v),
{
    lemma_size(earlier);
    lemma_shape(earlier, later, v);
    lemma_shape_label(earlier, later, v);
    let u = earlier[v].link.unwrap() as int;
    if v != 0 {
        lemma_shape_label(earlier, later, u);
        assert forall|s: Seq<usize>|
            #![trigger in_trie(later, s)]
            in_trie(later, s) && is_suffix(s, label(later, v)) && s.len() < label(later, v).len() implies s.len()
            <= label(later, u).len() by {
            lemma_shape_find(earlier, later, s);
            assert(in_trie(earlier, s));
        }
    }
    let e = earlier[v].exit_link.unwrap() as int;
    if e == 0 {
        assert forall|s: Seq<usize>| #![trigger is_word(later, s)] is_word(later, s) implies !is_suffix(
            s,
            label(later, v),
        ) by {
            lemma_shape_find(earlier, later, s);
            assert(is_word(earlier, s));
        }
    } else {
        lemma_shape(earlier, later, e);
        lemma_shape_label(earlier, later, e);
        assert forall|s: Seq<usize>|
            #![trigger is_word(later, s)]
            is_word(later, s) && is_suffix(s, label(later, v)) implies s.len() <= label(
            later,
            e,
        ).len() by {
            lemma_shape_find(earlier, later, s);
            assert(is_word(earlier, s));
        }
    }
}

/// Every vertex nearer the root than `depth` has its links.
pub open spec fn linked_below(trie: Seq<Vertex>, depth: nat) -> bool {
    forall|w: int|
        is_node(trie, w) && label(trie, w).len() < depth ==> #[trigger] vertex_linked(trie, w)
}

/// The letters `s` are in the trie, are an end of `whole` but not all of
/// it, and the letter `ch` leads on from them.
pub open spec fn leads_on(trie: Seq<Vertex>, whole: Seq<usize>, ch: usize, s: Seq<usize>) -> bool {
    &&& in_trie(trie, s)
    &&& is_suffix(s, whole)
    &&& s.len() < whole.len()
    &&& in_trie(trie, s.push(ch))
}

/// The vertex `cur` stands for an end of `whole`, not all of it, and no
/// longer end of that kind is led on from by `ch`.
pub open spec fn is_candidate(trie: Seq<Vertex>, whole: Seq<usize>, ch: usize, cur: int) -> bool {
    &&& is_node(trie, cur)
    &&& is_suffix(label(trie, cur), whole)
    &&& label(trie, cur).len() < whole.len()
    &&& forall|s: Seq<usize>| #[trigger]
        leads_on(trie, whole, ch, s) ==> s.len() <= label(trie, cur).len()
}

/// The link of a vertex is the first candidate.
proof fn lemma_first_candidate(trie: Seq<Vertex>, p: int, ch: usize)
    requires
        is_trie(trie),
        2 <= p < trie.len(),
        link_ok(trie, p),
    ensures
        is_candidate(trie, label(trie, p), ch, trie[p].link.unwrap() as int),
{
}

/// From a candidate that `ch` does not lead on from, the next candidate
/// is its link.
proof fn lemma_next_candidate(trie: Seq<Vertex>, whole: Seq<usize>, ch: usize, cur: int)
    requires
        is_trie(trie),
        is_candidate(trie, whole, ch, cur),
        cur != 0,
        ch < CHAR_MAX,
        trie[cur].next[ch as int].is_none(),
        link_ok(trie, cur),
    ensures
        is_candidate(trie, whole, ch, trie[cur].link.unwrap() as int),
        label(trie, trie[cur].link.unwrap() as int).len() < label(trie, cur).len(),
{
    let next = trie[cur].link.unwrap() as int;
    lemma_size(trie);
    lemma_suffix_transitive(label(trie, next), label(trie, cur), whole);
    lemma_find_label(trie, cur);
    assert forall|s: Seq<usize>| #[trigger] leads_on(trie, whole, ch, s) implies s.len() <= label(
        trie,
        next,
    ).len() by {
        lemma_suffix_of_suffix(s, label(trie, cur), whole);
        if s.len() == label(trie, cur).len() {
            assert(s =~= label(trie, cur));
            assert(s.push(ch).drop_last() =~= s);
        }
        assert(in_trie(trie, s));
    }
}

/// Where `ch` leads on from a candidate for the vertex that leads to `i`,
/// it leads to the vertex of the longest end of the string of `i`, itself
/// apart, that is in the trie.
proof fn lemma_link_found(trie: Seq<Vertex>, i: int, cur: int, w: int)
    requires
        is_trie(trie),
        2 <= i < trie.len(),
        is_candidate(trie, label(trie, trie[i].parent as int), trie[i].parent_pos, cur),
        trie[cur].next[trie[i].parent_pos as int] == Some(w as usize),
        0 <= w < trie.len(),
    ensures
        is_node(trie, w),
        is_suffix(label(trie, w), label(trie, i)),
        label(trie, w).len() < label(trie, i).len(),
        forall|s: Seq<usize>|
            #![trigger in_trie(trie, s)]
            in_trie(trie, s) && is_suffix(s, label(trie, i)) && s.len() < label(trie, i).len()
                ==> s.len() <= label(trie, w).len(),
{
    lemma_size(trie);
    lemma_vertex(trie, i);
    let p = trie[i].parent as int;
    let ch = trie[i].parent_pos;
    let whole = label(trie, p);
    lemma_child(trie, cur, ch as int);
    lemma_vertex(trie, w);
    assert(label(trie, w) == label(trie, cur).push(ch));
    assert(label(trie, i) == whole.push(ch));
    lemma_suffix_push(label(trie, cur), whole, ch);
    assert forall|s: Seq<usize>|
        #![trigger in_trie(trie, s)]
        in_trie(trie, s) && is_suffix(s, label(trie, i)) && s.len() < label(trie, i).len() implies s.len()
        <= label(trie, w).len() by {
        if s.len() > 0 {
            lemma_suffix_push(s, whole, ch);
            assert(s =~= s.drop_last().push(ch));
            assert(leads_on(trie, whole, ch, s.drop_last()));
        }
    }
}

/// Where `ch` leads on from no candidate for the vertex that leads to
/// `i`, down to the root, the longest end of the string of `i`, itself
/// apart, that is in the trie is empty.
proof fn lemma_link_root(trie: Seq<Vertex>, i: int)
    requires
        is_trie(trie),
        2 <= i < trie.len(),
        trie[i].parent == 0 || (is_candidate(
            trie,
            label(trie, trie[i].parent as int),
            trie[i].parent_pos,
            0,
        ) && trie[0].next[trie[i].parent_pos as int].is_none()),
    ensures
        is_suffix(label(trie, 0), label(trie, i)),
        label(trie, 0).len() < label(trie, i).len(),
        forall|s: Seq<usize>|
            #![trigger in_trie(trie, s)]
            in_trie(trie, s) && is_suffix(s, label(trie, i)) && s.len() < label(trie, i).len()
                ==> s.len() <= label(trie, 0).len(),
{
    lemma_size(trie);
    lemma_vertex(trie, i);
    let p = trie[i].parent as int;
    let ch = trie[i].parent_pos;
    let whole = label(trie, p);
    assert(label(trie, i) == whole.push(ch));
    assert(label(trie, 0) =~= label(trie, i).subrange(
        label(trie, i).len() as int,
        label(trie, i).len() as int,
    ));
    assert forall|s: Seq<usize>|
        #![trigger in_trie(trie, s)]
        in_trie(trie, s) && is_suffix(s, label(trie, i)) && s.len() < label(trie, i).len() implies s.len()
        <= label(trie, 0).len() by {
        if s.len() > 0 {
            lemma_suffix_push(s, whole, ch);
            assert(s =~= s.drop_last().push(ch));
            if trie[i].parent == 0 {
                assert(s.drop_last().len() < whole.len());
            } else {
                assert(leads_on(trie, whole, ch, s.drop_last()));
                assert(s.drop_last() =~= Seq::<usize>::empty());
                assert(s.drop_last().len() == 0);
                assert(find(trie, s) == trie[0].next[ch as int]);
            }
        }
    }
}

/// The exit link of a vertex at which a word ends leads to the vertex
/// itself.
proof fn lemma_exit_self(trie: Seq<Vertex>, i: int)
    requires
        is_trie(trie),
        2 <= i < trie.len(),
        trie[i].is_leaf,
    ensures
        is_suffix(label(trie, i), label(trie, i)),
        forall|s: Seq<usize>|
            #![trigger is_word(trie, s)]
            is_word(trie, s) && is_suffix(s, label(trie, i)) ==> s.len() <= label(trie, i).len(),
{
    assert(label(trie, i) =~= label(trie, i).subrange(0, label(trie, i).len() as int));
}

/// The exit link of a vertex at which no word ends is the exit link of
/// the vertex that its link leads to.
proof fn lemma_exit_inherited(trie: Seq<Vertex>, i: int, u: int)
    requires
        is_trie(trie),
        2 <= i < trie.len(),
        !trie[i].is_leaf,
        is_node(trie, u),
        is_suffix(label(trie, u), label(trie, i)),
        label(trie, u).len() < label(trie, i).len(),
        forall|s: Seq<usize>|
            #![trigger in_trie(trie, s)]
            in_trie(trie, s) && is_suffix(s, label(trie, i)) && s.len() < label(trie, i).len()
                ==> s.len() <= label(trie, u).len(),
        exit_ok(trie, u),
    ensures
        forall|s: Seq<usize>|
            #![trigger is_word(trie, s)]
            is_word(trie, s) && is_suffix(s, label(trie, i)) ==> is_suffix(s, label(trie, u)),
        trie[u].exit_link.unwrap() != 0 ==> is_suffix(
            label(trie, trie[u].exit_link.unwrap() as int),
            label(trie, i),
        ),
{
    lemma_size(trie);
    lemma_find_label(trie, i);
    assert forall|s: Seq<usize>|
        #![trigger is_word(trie, s)]
        is_word(trie, s) && is_suffix(s, label(trie, i)) implies is_suffix(s, label(trie, u)) by {
        if s.len() == label(trie, i).len() {
            assert(s =~= label(trie, i));
            assert(false);
        }
        assert(in_trie(trie, s));
        assert(s.len() <= label(trie, u).len());
        lemma_suffix_of_suffix(s, label(trie, u), label(trie, i));
    }
    let e = trie[u].exit_link.unwrap() as int;
    if e != 0 {
        lemma_suffix_transitive(label(trie, e), label(trie, u), label(trie, i));
    }
}

/// Many words, kept for counting their occurrences in a text.
pub struct AhoCorasick {
    /// The vertices of the trie: the root, a vertex that stands for
    /// nothing, and one vertex for each prefix of a word.
    pub trie: Vec<Vertex>,
    /// The links are those of the words kept.
    pub recalculated: bool,
}

impl AhoCorasick {
    /// The letters `s` are one of the words kept. The empty word is none.
    pub open spec fn has_word(&self, s: Seq<usize>) -> bool {
        match find(self.trie@, s) {
            Some(v) => s.len() > 0 && self.trie[v as int].is_leaf,
            None => false,
        }
    }

    /// The vertices form a trie, and where the links are said to be those
    /// of the words kept, they are.
    pub open spec fn wf(&self) -> bool {
        &&& is_trie(self.trie@)
        &&& self.recalculated ==> is_linked(self.trie@)
    }

    /// No words.
    pub fn new() -> (obj: AhoCorasick)
        ensures
            obj.wf(),
            !obj.recalculated,
            obj.trie.len() == 2,
            forall|s: Seq<usize>| !obj.has_word(s),
    {
        let mut trie: Vec<Vertex> = Vec::new();
        trie.push(Vertex::new());
        let mut obj = AhoCorasick { trie, recalculated: false };
        obj.trie.push(Vertex::new());
        proof {
            assert(is_trie(obj.trie@)) by {
                reveal(is_trie);
                assert forall|u: int, c: int|
                    0 <= u < obj.trie.len() && 0 <= c < CHAR_MAX implies #[trigger] child_ok(
                    obj.trie@,
                    u,
                    c,
                ) by {
                    assert(obj.trie[u].next[c].is_none());
                }
            }
            assert forall|s: Seq<usize>| !obj.has_word(s) by {
                if find(obj.trie@, s).is_some() && s.len() > 0 {
                    lemma_label_find(obj.trie@, s);
                }
            }
        }
        obj
    }

    /// Makes a vertex for the letter `pos` after the vertex `vertex_id`,
    /// from which that letter leads nowhere yet.
    fn add_child(&mut self, vertex_id: usize, pos: usize)
        requires
            is_trie(old(self).trie@),
            is_node(old(self).trie@, vertex_id as int),
            pos < CHAR_MAX,
            old(self).trie[vertex_id as int].next.len() == CHAR_MAX,
            old(self).trie[vertex_id as int].next[pos as int].is_none(),
            old(self).trie.len() < usize::MAX,
        ensures
            is_trie(final(self).trie@),
            extends(old(self).trie@, final(self).trie@),
            final(self).recalculated == old(self).recalculated,
            final(self).trie.len() == old(self).trie.len() + 1,
            final(self).trie[vertex_id as int].next.len() == CHAR_MAX,
            final(self).trie[vertex_id as int].next[pos as int] == Some(old(self).trie.len()),
            !final(self).trie[old(self).trie.len() as int].is_leaf,
            forall|v: int|
                0 <= v < old(self).trie.len() ==> (#[trigger] final(self).trie[v]).is_leaf == old(
                    self,
                ).trie[v].is_leaf,
    {
        let fresh = self.trie.len();
        proof {
            lemma_size(self.trie@);
        }
        self.trie[vertex_id].next[pos] = Some(fresh);
        let mut tmp_new = Vertex::new();
        tmp_new.parent = vertex_id;
        tmp_new.parent_pos = pos;
        self.trie.push(tmp_new);
        proof {
            lemma_child_added(old(self).trie@, self.trie@, vertex_id as int, pos as int);
            lemma_child_extends(old(self).trie@, self.trie@, vertex_id as int, pos as int);
        }
    }

    /// Adds the word `new_str`, given in lower case letters, to the words
    /// kept.
    pub fn add_string(&mut self, new_str: &[u8])
        requires
            old(self).wf(),
            is_lower_case(new_str@),
            old(self).trie.len() + new_str.len() <= usize::MAX,
        ensures
            final(self).wf(),
            !final(self).recalculated,
            forall|s: Seq<usize>| #[trigger]
                final(self).has_word(s) == (old(self).has_word(s) || (s == letters(new_str@)
                    && s.len() > 0)),
            final(self).trie.len() <= old(self).trie.len() + new_str.len(),
    {
        let ghost word = letters(new_str@);
        let mut vertex_id: usize = 0;
        let mut k: usize = 0;
        self.recalculated = false;
        proof {
            assert(word.take(0) =~= Seq::<usize>::empty());
            lemma_extends_itself(self.trie@);
            lemma_size(self.trie@);
        }
        while k < new_str.len()
            invariant
                k <= new_str.len(),
                is_lower_case(new_str@),
                word == letters(new_str@),
                !self.recalculated,
                is_trie(old(self).trie@),
                is_trie(self.trie@),
                extends(old(self).trie@, self.trie@),
                old(self).trie.len() <= self.trie.len() <= old(self).trie.len() + k,
                old(self).trie.len() + new_str.len() <= usize::MAX,
                is_node(self.trie@, vertex_id as int),
                vertex_id < self.trie.len(),
                find(self.trie@, word.take(k as int)) == Some(vertex_id),
                forall|v: int|
                    0 <= v < old(self).trie.len() ==> (#[trigger] self.trie[v]).is_leaf == old(
                        self,
                    ).trie[v].is_leaf,
                forall|v: int|
                    old(self).trie.len() <= v < self.trie.len() ==> !(#[trigger] self.trie[v]).is_leaf,
            decreases new_str.len() - k,
        {
            let pos = (new_str[k] - 97u8) as usize;
            let ghost before = self.trie@;
            proof {
                lemma_vertex(self.trie@, vertex_id as int);
                assert(word[k as int] == pos);
                assert(word.take(k + 1).drop_last() =~= word.take(k as int));
                assert(word.take(k + 1).last() == pos);
            }
            if self.trie[vertex_id].next[pos].is_none() {
                self.add_child(vertex_id, pos);
                proof {
                    lemma_extends_transitive(old(self).trie@, before, self.trie@);
                    lemma_extends_find(before, self.trie@, word.take(k as int));
                }
            }
            proof {
                lemma_child(self.trie@, vertex_id as int, pos as int);
            }
            vertex_id = self.trie[vertex_id].next[pos].unwrap();
            k = k + 1;
        }
        let ghost before = self.trie@;
        self.trie[vertex_id].is_leaf = true;  // this is the end of the string
        proof {
            let after = self.trie@;
            assert(word.take(word.len() as int) =~= word);
            lemma_leaf_marked(before, after, vertex_id as int);
            lemma_extends_transitive(old(self).trie@, before, after);
            lemma_extends_find(before, after, word);
            let first = old(self).trie@;
            assert(find(after, word) == Some(vertex_id));
            lemma_label_find(after, word);
            assert forall|s: Seq<usize>| #[trigger]
                self.has_word(s) == (old(self).has_word(s) || (s == word && s.len() > 0)) by {
                lemma_extends_find(first, after, s);
                if old(self).has_word(s) {
                    let v = find(first, s).unwrap() as int;
                    lemma_label_find(first, s);
                    assert(before[v].is_leaf == first[v].is_leaf);
                    assert(self.has_word(s));
                }
                if self.has_word(s) {
                    let v = find(after, s).unwrap() as int;
                    lemma_label_find(after, s);
                    if v != vertex_id {
                        assert(after[v] == before[v]);
                        assert(before[v].is_leaf);
                        assert(v < first.len());
                        assert(first[v].is_leaf);
                    }
                }
            }
        }
    }
}

impl AhoCorasick {
    /// The vertex of the longest end of the string of `i`, itself apart,
    /// that is in the trie, found by way of the links of vertices nearer
    /// the root.
    fn find_link(&self, i: usize) -> (u: usize)
        requires
            is_trie(self.trie@),
            2 <= i < self.trie.len(),
            linked_below(self.trie@, label(self.trie@, i as int).len()),
        ensures
            is_node(self.trie@, u as int),
            u < self.trie.len(),
            is_suffix(label(self.trie@, u as int), label(self.trie@, i as int)),
            label(self.trie@, u as int).len() < label(self.trie@, i as int).len(),
            forall|s: Seq<usize>|
                #![trigger in_trie(self.trie@, s)]
                in_trie(self.trie@, s) && is_suffix(s, label(self.trie@, i as int)) && s.len()
                    < label(self.trie@, i as int).len() ==> s.len() <= label(
                    self.trie@,
                    u as int,
                ).len(),
    {
        proof {
            lemma_size(self.trie@);
            lemma_vertex(self.trie@, i as int);
        }
        let parent = self.trie[i].parent;
        let ch_vertex = self.trie[i].parent_pos;
        if parent == 0 {
            // 1st level
            proof {
                lemma_link_root(self.trie@, i as int);
            }
            return 0;
        }
        proof {
            assert(label(self.trie@, i as int) == label(self.trie@, parent as int).push(ch_vertex));
            assert(vertex_linked(self.trie@, parent as int));
            lemma_first_candidate(self.trie@, parent as int, ch_vertex);
        }
        let ghost whole = label(self.trie@, parent as int);
        let mut cur_better_vertex = self.trie[parent].link.unwrap();
        loop
            invariant
                is_trie(self.trie@),
                2 <= i < self.trie.len(),
                self.trie[i as int].parent == parent,
                self.trie[i as int].parent_pos == ch_vertex,
                ch_vertex < CHAR_MAX,
                parent != 0,
                whole == label(self.trie@, parent as int),
                label(self.trie@, i as int) == whole.push(ch_vertex),
                linked_below(self.trie@, label(self.trie@, i as int).len()),
                is_candidate(self.trie@, whole, ch_vertex, cur_better_vertex as int),
                cur_better_vertex < self.trie.len(),
            decreases label(self.trie@, cur_better_vertex as int).len(),
        {
            proof {
                lemma_vertex(self.trie@, cur_better_vertex as int);
                lemma_child(self.trie@, cur_better_vertex as int, ch_vertex as int);
            }
            if self.trie[cur_better_vertex].next[ch_vertex].is_some() {
                let found = self.trie[cur_better_vertex].next[ch_vertex].unwrap();
                proof {
                    lemma_link_found(
                        self.trie@,
                        i as int,
                        cur_better_vertex as int,
                        found as int,
                    );
                }
                return found;
            }
            if cur_better_vertex == 0 {
                proof {
                    lemma_link_root(self.trie@, i as int);
                }
                return 0;
            }
            proof {
                assert(vertex_linked(self.trie@, cur_better_vertex as int));
                lemma_next_candidate(self.trie@, whole, ch_vertex, cur_better_vertex as int);
            }
            cur_better_vertex = self.trie[cur_better_vertex].link.unwrap();  // go back to suf link
        }
    }

    /// Gives the vertex `i` its links, by way of the links of the vertices
    /// nearer the root.
    fn link_vertex(&mut self, i: usize)
        requires
            is_trie(old(self).trie@),
            is_node(old(self).trie@, i as int),
            linked_below(old(self).trie@, label(old(self).trie@, i as int).len()),
        ensures
            same_shape(old(self).trie@, final(self).trie@),
            final(self).recalculated == old(self).recalculated,
            vertex_linked(final(self).trie@, i as int),
            forall|w: int|
                0 <= w < old(self).trie.len() && w != i ==> (#[trigger] final(self).trie[w]).link
                    == old(self).trie[w].link && final(self).trie[w].exit_link == old(
                    self,
                ).trie[w].exit_link,
    {
        proof {
            lemma_size(self.trie@);
        }
        let link_target: usize = if i == 0 {
            0
        } else {
            self.find_link(i)
        };
        let exit_target: usize = if i == 0 {
            0
        } else if self.trie[i].is_leaf {
            i
        } else {
            proof {
                assert(vertex_linked(self.trie@, link_target as int));
            }
            self.trie[link_target].exit_link.unwrap()
        };
        self.trie[i].link = Some(link_target);
        // The longest end of the string that is a word.
        self.trie[i].exit_link = Some(exit_target);
        proof {
            let before = old(self).trie@;
            let after = self.trie@;
            assert(same_shape(before, after)) by {
                reveal(same_shape);
            }
            lemma_linked_vertex(before, after, i as int);
        }
    }
}

/// A vertex that has been given the links that the trie before called for
/// has its links.
proof fn lemma_linked_vertex(before: Seq<Vertex>, after: Seq<Vertex>, i: int)
    requires
        is_trie(before),
        same_shape(before, after),
        is_node(before, i),
        after[i].link.is_some(),
        after[i].exit_link.is_some(),
        i == 0 ==> after[i].link == Some(0usize) && after[i].exit_link == Some(0usize),
        i != 0 ==> {
            let u = after[i].link.unwrap() as int;
            let e = after[i].exit_link.unwrap() as int;
            &&& is_node(before, u)
            &&& is_suffix(label(before, u), label(before, i))
            &&& label(before, u).len() < label(before, i).len()
            &&& forall|s: Seq<usize>|
                #![trigger in_trie(before, s)]
                in_trie(before, s) && is_suffix(s, label(before, i)) && s.len() < label(
                    before,
                    i,
                ).len() ==> s.len() <= label(before, u).len()
            &&& before[i].is_leaf ==> e == i
            &&& !before[i].is_leaf ==> exit_ok(before, u) && Some(e as usize)
                == before[u].exit_link
        },
    ensures
        vertex_linked(after, i),
{
    lemma_size(before);
    lemma_shape(before, after, i);
    lemma_shape_label(before, after, i);
    lemma_shape_trie(before, after);
    if i == 0 {
        assert forall|s: Seq<usize>| #![trigger is_word(after, s)] is_word(after, s) implies !is_suffix(
            s,
            label(after, 0),
        ) by {}
    } else {
        let u = after[i].link.unwrap() as int;
        let e = after[i].exit_link.unwrap() as int;
        lemma_shape_label(before, after, u);
        assert forall|s: Seq<usize>|
            #![trigger in_trie(after, s)]
            in_trie(after, s) && is_suffix(s, label(after, i)) && s.len() < label(after, i).len() implies s.len()
            <= label(after, u).len() by {
            lemma_shape_find(before, after, s);
            assert(in_trie(before, s));
        }
        assert(link_ok(after, i));
        if before[i].is_leaf {
            lemma_exit_self(before, i);
            assert forall|s: Seq<usize>|
                #![trigger is_word(after, s)]
                is_word(after, s) && is_suffix(s, label(after, i)) implies s.len() <= label(
                after,
                i,
            ).len() by {}
        } else {
            lemma_exit_inherited(before, i, u);
            if e == 0 {
                assert forall|s: Seq<usize>|
                    #![trigger is_word(after, s)]
                    is_word(after, s) implies !is_suffix(s, label(after, i)) by {
                    lemma_shape_find(before, after, s);
                    assert(is_word(before, s));
                }
            } else {
                lemma_shape(before, after, e);
                lemma_shape_label(before, after, e);
                assert forall|s: Seq<usize>|
                    #![trigger is_word(after, s)]
                    is_word(after, s) && is_suffix(s, label(after, i)) implies s.len() <= label(
                    after,
                    e,
                ).len() by {
                    lemma_shape_find(before, after, s);
                    assert(is_word(before, s));
                }
            }
        }
    }
}

/// How far from the root the vertex `v` is.
pub open spec fn depth(trie: Seq<Vertex>, v: int) -> nat {
    label(trie, v).len()
}

/// The vertices `order` begin with the root, stand for strings, are all
/// different, and come nearer ones first.
pub open spec fn is_level_order(trie: Seq<Vertex>, order: Seq<usize>) -> bool {
    &&& order.len() >= 1
    &&& order[0] == 0
    &&& forall|k: int| 0 <= k < order.len() ==> is_node(trie, #[trigger] order[k] as int)
    &&& order.no_duplicates()
    &&& forall|a: int, b: int|
        0 <= a <= b < order.len() ==> depth(trie, #[trigger] order[a] as int) <= depth(
            trie,
            #[trigger] order[b] as int,
        )
}

/// Wherever a letter leads from one of the first `head` vertices of
/// `order`, it leads to one of `order`.
pub open spec fn is_closed(trie: Seq<Vertex>, order: Seq<usize>, head: int) -> bool {
    forall|j: int, c: int|
        0 <= j < head && 0 <= c < CHAR_MAX && (#[trigger] trie[order[j] as int].next[c]).is_some()
            ==> order.contains(trie[order[j] as int].next[c].unwrap())
}

/// Every vertex of `order` but the first is led to by one of the first
/// `bound` vertices of `order`.
pub open spec fn has_parents(trie: Seq<Vertex>, order: Seq<usize>, bound: int) -> bool {
    forall|k: int|
        1 <= k < order.len() ==> order.subrange(0, bound).contains(
            (#[trigger] trie[order[k] as int]).parent,
        )
}

/// A vertex nearer the root than the next one to be seen to has been seen
/// to.
proof fn lemma_nearer_seen(trie: Seq<Vertex>, order: Seq<usize>, head: int, w: int)
    requires
        is_trie(trie),
        is_level_order(trie, order),
        0 <= head < order.len(),
        is_closed(trie, order, head),
        is_node(trie, w),
        depth(trie, w) < depth(trie, order[head] as int),
    ensures
        order.subrange(0, head).contains(w as usize),
    decreases w,
{
    lemma_size(trie);
    if w == 0 {
        if head == 0 {
            assert(order[0] == 0);
            assert(false);
        }
        assert(order.subrange(0, head)[0] == 0);
    } else {
        lemma_vertex(trie, w);
        let p = trie[w].parent as int;
        lemma_nearer_seen(trie, order, head, p);
        let j = choose|j: int| 0 <= j < head && order.subrange(0, head)[j] == p as usize;
        assert(order[j] == p as usize);
        assert(trie[order[j] as int].next[trie[w].parent_pos as int].is_some());
        assert(order.contains(w as usize));
        let k = choose|k: int| 0 <= k < order.len() && order[k] == w as usize;
        if k >= head {
            assert(depth(trie, order[head] as int) <= depth(trie, order[k] as int));
        }
        assert(order.subrange(0, head)[k] == w as usize);
    }
}

/// Once every vertex of `order` has been seen to, `order` has every
/// vertex that stands for a string.
proof fn lemma_all_seen(trie: Seq<Vertex>, order: Seq<usize>, w: int)
    requires
        is_trie(trie),
        is_level_order(trie, order),
        is_closed(trie, order, order.len() as int),
        is_node(trie, w),
    ensures
        order.contains(w as usize),
    decreases w,
{
    lemma_size(trie);
    if w == 0 {
        assert(order[0] == 0);
    } else {
        lemma_vertex(trie, w);
        let p = trie[w].parent as int;
        lemma_all_seen(trie, order, p);
        let j = choose|j: int| 0 <= j < order.len() && order[j] == p as usize;
        assert(trie[order[j] as int].next[trie[w].parent_pos as int].is_some());
    }
}

/// There are `n` numbers below `n`.
proof fn lemma_count_below(n: nat)
    ensures
        Set::new(|x: usize| x < n).finite(),
        Set::new(|x: usize| x < n).len() <= n,
    decreases n,
{
    let s = Set::new(|x: usize| x < n);
    if n == 0 {
        assert(s =~= Set::<usize>::empty());
    } else {
        lemma_count_below((n - 1) as nat);
        let smaller = Set::new(|x: usize| x < n - 1);
        if n - 1 <= usize::MAX {
            assert(s =~= smaller.insert((n - 1) as usize));
        } else {
            assert(s =~= smaller);
        }
    }
}

/// Vertices that are all different are no more than there are vertices.
proof fn lemma_order_bounded(trie: Seq<Vertex>, order: Seq<usize>)
    requires
        is_level_order(trie, order),
        trie.len() >= 2,
    ensures
        order.len() <= trie.len(),
{
    let all = Set::new(|x: usize| x < trie.len());
    lemma_count_below(trie.len());
    order.unique_seq_to_set();
    assert(order.to_set().subset_of(all)) by {
        assert forall|x: usize| order.to_set().contains(x) implies all.contains(x) by {
            let k = choose|k: int| 0 <= k < order.len() && order[k] == x;
            assert(is_node(trie, order[k] as int));
        }
    }
    vstd::set_lib::lemma_len_subset(order.to_set(), all);
}

/// A vertex that a letter leads to from the vertex being seen to, which
/// has not been put last yet for another letter, is none of `order`; put
/// last, it keeps `order` in order.
proof fn lemma_put_last(
    trie: Seq<Vertex>,
    order: Seq<usize>,
    head: int,
    first: int,
    c: int,
    w: usize,
)
    requires
        is_trie(trie),
        is_level_order(trie, order),
        0 <= head < first <= order.len(),
        has_parents(trie, order.subrange(0, first), head),
        0 <= c < CHAR_MAX,
        trie[order[head] as int].next[c] == Some(w),
        forall|k: int|
            first <= k < order.len() ==> trie[(#[trigger] order[k]) as int].parent == order[head]
                && trie[order[k] as int].parent_pos < c,
        depth(trie, order.last() as int) <= depth(trie, order[head] as int) + 1,
    ensures
        is_level_order(trie, order.push(w)),
        trie[w as int].parent == order[head],
        trie[w as int].parent_pos == c,
        depth(trie, w as int) == depth(trie, order[head] as int) + 1,
{
    lemma_size(trie);
    let i = order[head] as int;
    lemma_child(trie, i, c);
    lemma_vertex(trie, w as int);
    assert(label(trie, w as int) == label(trie, i).push(c as usize));
    let longer = order.push(w);
    assert forall|k: int| 0 <= k < order.len() implies order[k] != w by {
        if order[k] == w {
            if k == 0 {
            } else if k < first {
                let front = order.subrange(0, first);
                assert(front[k] == order[k]);
                assert(front.subrange(0, head).contains(trie[front[k] as int].parent));
                let j = choose|j: int|
                    0 <= j < head && front.subrange(0, head)[j] == trie[front[k] as int].parent;
                assert(order[j] == order[head]);
            } else {
                assert(trie[order[k] as int].parent_pos < c);
            }
        }
    }
    assert forall|a: int, b: int| 0 <= a <= b < longer.len() implies depth(
        trie,
        #[trigger] longer[a] as int,
    ) <= depth(trie, #[trigger] longer[b] as int) by {
        if b == order.len() {
            if a < order.len() {
                assert(depth(trie, order[a] as int) <= depth(trie, order.last() as int)) by {
                    assert(order.last() == order[order.len() - 1]);
                }
            }
        } else {
            assert(depth(trie, order[a] as int) <= depth(trie, order[b] as int));
        }
    }
    assert forall|k: int| 0 <= k < longer.len() implies is_node(trie, #[trigger] longer[k] as int) by {
        if k < order.len() {
            assert(is_node(trie, order[k] as int));
        }
    }
    assert(longer.no_duplicates()) by {
        assert forall|a: int, b: int|
            0 <= a < longer.len() && 0 <= b < longer.len() && a != b implies longer[a]
            != longer[b] by {
            if a < order.len() && b < order.len() {
                assert(order[a] != order[b]);
            }
        }
    }
}

impl AhoCorasick {
    /// Puts last in the queue the vertices that the letters lead to from
    /// the vertex `i`, which the search is seeing to.
    fn push_children(
        &self,
        i: usize,
        queue: &mut std::collections::VecDeque<usize>,
        Ghost(order): Ghost<Seq<usize>>,
        Ghost(head): Ghost<int>,
    ) -> (longer: Ghost<Seq<usize>>)
        requires
            is_trie(self.trie@),
            is_level_order(self.trie@, order),
            0 <= head < order.len(),
            order[head] == i,
            is_closed(self.trie@, order, head),
            has_parents(self.trie@, order, head),
            depth(self.trie@, order.last() as int) <= depth(self.trie@, i as int) + 1,
            old(queue)@ == order.subrange(head + 1, order.len() as int),
        ensures
            is_level_order(self.trie@, longer@),
            is_closed(self.trie@, longer@, head + 1),
            has_parents(self.trie@, longer@, head + 1),
            longer@.len() >= order.len(),
            longer@.subrange(0, order.len() as int) == order,
            final(queue)@ == longer@.subrange(head + 1, longer@.len() as int),
            head + 1 < longer@.len() ==> depth(self.trie@, longer@.last() as int) <= depth(
                self.trie@,
                longer@[head + 1] as int,
            ) + 1,
    {
        let ghost mut longer = order;
        let mut c: usize = 0;
        proof {
            lemma_size(self.trie@);
            lemma_vertex(self.trie@, i as int);
            assert(longer.subrange(0, order.len() as int) =~= order);
        }
        while c < CHAR_MAX
            invariant
                c <= CHAR_MAX,
                is_trie(self.trie@),
                i < self.trie.len(),
                self.trie[i as int].next.len() == CHAR_MAX,
                is_level_order(self.trie@, order),
                is_level_order(self.trie@, longer),
                0 <= head < order.len() <= longer.len(),
                order[head] == i,
                longer.subrange(0, order.len() as int) == order,
                has_parents(self.trie@, order, head),
                is_closed(self.trie@, order, head),
                forall|k: int|
                    order.len() <= k < longer.len() ==> self.trie[(
                    #[trigger] longer[k]) as int].parent == i && self.trie[longer[k] as int].parent_pos
                        < c,
                forall|d: int|
                    0 <= d < c && (#[trigger] self.trie[i as int].next[d]).is_some()
                        ==> longer.contains(self.trie[i as int].next[d].unwrap()),
                depth(self.trie@, longer.last() as int) <= depth(self.trie@, i as int) + 1,
                queue@ == longer.subrange(head + 1, longer.len() as int),
            decreases CHAR_MAX - c,
        {
            if let Some(child) = self.trie[i].next[c] {
                proof {
                    assert(longer[head] == order[head]) by {
                        assert(longer.subrange(0, order.len() as int)[head] == longer[head]);
                    }
                    assert(longer.subrange(0, order.len() as int) == order);
                    lemma_put_last(
                        self.trie@,
                        longer,
                        head,
                        order.len() as int,
                        c as int,
                        child,
                    );
                }
                let ghost shorter = longer;
                queue.push_back(child);
                proof {
                    longer = longer.push(child);
                    assert(longer.subrange(0, order.len() as int) =~= order);
                    assert(queue@ =~= longer.subrange(head + 1, longer.len() as int));
                    assert forall|d: int|
                        0 <= d < c + 1 && (#[trigger] self.trie[i as int].next[d]).is_some() implies longer.contains(
                        self.trie[i as int].next[d].unwrap(),
                    ) by {
                        if d < c {
                            let x = self.trie[i as int].next[d].unwrap();
                            assert(shorter.contains(x));
                            let k = choose|k: int| 0 <= k < shorter.len() && shorter[k] == x;
                            assert(longer[k] == x);
                        } else {
                            assert(longer[longer.len() - 1] == child);
                        }
                    }
                    assert forall|k: int| order.len() <= k < longer.len() implies self.trie[(
                    #[trigger] longer[k]) as int].parent == i && self.trie[longer[k] as int].parent_pos
                        < c + 1 by {
                        if k < shorter.len() {
                            assert(longer[k] == shorter[k]);
                        }
                    }
                }
            }
            c = c + 1;
        }
        proof {
            assert(is_closed(self.trie@, longer, head + 1)) by {
                assert forall|j: int, d: int|
                    0 <= j < head + 1 && 0 <= d < CHAR_MAX && (
                    #[trigger] self.trie@[longer[j] as int].next[d]).is_some() implies longer.contains(
                    self.trie@[longer[j] as int].next[d].unwrap(),
                ) by {
                    assert(longer[j] == order[j]) by {
                        assert(longer.subrange(0, order.len() as int)[j] == longer[j]);
                    }
                    if j < head {
                        let x = self.trie@[order[j] as int].next[d].unwrap();
                        assert(order.contains(x));
                        let k = choose|k: int| 0 <= k < order.len() && order[k] == x;
                        assert(longer[k] == x) by {
                            assert(longer.subrange(0, order.len() as int)[k] == longer[k]);
                        }
                    }
                }
            }
            assert(has_parents(self.trie@, longer, head + 1)) by {
                assert forall|k: int| 1 <= k < longer.len() implies longer.subrange(
                    0,
                    head + 1,
                ).contains((#[trigger] self.trie@[longer[k] as int]).parent) by {
                    if k < order.len() {
                        assert(longer[k] == order[k]) by {
                            assert(longer.subrange(0, order.len() as int)[k] == longer[k]);
                        }
                        let par = self.trie@[order[k] as int].parent;
                        assert(order.subrange(0, head).contains(par));
                        let j = choose|j: int|
                            0 <= j < head && order.subrange(0, head)[j] == par;
                        assert(longer.subrange(0, head + 1)[j] == par) by {
                            assert(longer.subrange(0, order.len() as int)[j] == longer[j]);
                        }
                    } else {
                        assert(longer.subrange(0, head + 1)[head] == i) by {
                            assert(longer.subrange(0, order.len() as int)[head] == longer[head]);
                        }
                    }
                }
            }
            if head + 1 < longer.len() {
                assert(depth(self.trie@, longer[head] as int) <= depth(
                    self.trie@,
                    longer[head + 1] as int,
                ));
                assert(longer[head] == i) by {
                    assert(longer.subrange(0, order.len() as int)[head] == longer[head]);
                }
            }
        }
        Ghost(longer)
    }
}

impl AhoCorasick {
    /// Gives every vertex its links, unless the links are in place: the
    /// link of a vertex leads to the vertex of the longest end of its
    /// string, itself apart, that is in the trie, and its exit link to the
    /// vertex of the longest end that is a word. The words stay the same,
    /// the second vertex, which stands for nothing, stays as it is, and
    /// where the links are in place the whole trie does.
    #[verifier::rlimit(80)]
    pub fn recalculate(&mut self)
        requires
            old(self).wf(),
        ensures
            final(self).wf(),
            final(self).recalculated,
            same_shape(old(self).trie@, final(self).trie@),
            forall|s: Seq<usize>| final(self).has_word(s) == old(self).has_word(s),
            old(self).recalculated ==> final(self).trie@ == old(self).trie@,
            final(self).trie@[1] == old(self).trie@[1],
    {
        proof {
            lemma_same_shape_itself(self.trie@);
        }
        if self.recalculated {
            return ;
        }
        self.recalculated = true;
        let mut queue = std::collections::VecDeque::<usize>::new();
        queue.push_front(0);
        let ghost shape = self.trie@;
        let ghost mut order: Seq<usize> = seq![0usize];
        let ghost mut head: int = 0;
        proof {
            lemma_size(shape);
            assert(queue@ =~= order.subrange(0, 1));
            assert(label(shape, 0) =~= Seq::<usize>::empty());
        }
        // BFS
        loop
            invariant
                self.recalculated,
                shape == old(self).trie@,
                is_trie(shape),
                is_trie(self.trie@),
                same_shape(shape, self.trie@),
                is_level_order(shape, order),
                0 <= head <= order.len(),
                is_closed(shape, order, head),
                has_parents(shape, order, head),
                head < order.len() ==> depth(shape, order.last() as int) <= depth(
                    shape,
                    order[head] as int,
                ) + 1,
                queue@ == order.subrange(head, order.len() as int),
                forall|j: int| 0 <= j < head ==> vertex_linked(self.trie@, #[trigger] order[j] as int),
                self.trie@[1] == shape[1],
            ensures
                head == order.len(),
            decreases shape.len() - head,
        {
            proof {
                lemma_size(shape);
                lemma_order_bounded(shape, order);
                lemma_shape(shape, self.trie@, 0);
            }
            let i = match queue.pop_front() {
                Some(i) => i,
                None => {
                    break ;
                },
            };
            let ghost before = self.trie@;
            proof {
                assert(i == order[head]);
                assert(is_node(shape, order[head] as int));
                lemma_shape(shape, before, i as int);
                lemma_shape_label(shape, before, i as int);
                lemma_linked_below(shape, before, order, head);
            }
            self.link_vertex(i);
            proof {
                lemma_shape(before, self.trie@, 1);
                assert(self.trie@[1].link == before[1].link);
                lemma_shape_transitive(shape, before, self.trie@);
                lemma_shape_trie(before, self.trie@);
                lemma_still_linked(shape, before, self.trie@, order, head);
                assert(queue@ =~= order.subrange(head + 1, order.len() as int));
            }
            let longer = self.push_children_of(i, &mut queue, Ghost(shape), Ghost(order), Ghost(head));
            proof {
                assert forall|j: int| 0 <= j < head + 1 implies vertex_linked(
                    self.trie@,
                    #[trigger] longer@[j] as int,
                ) by {
                    assert(longer@.subrange(0, order.len() as int)[j] == longer@[j]);
                }
                order = longer@;
                head = head + 1;
            }
        }
        proof {
            assert(is_linked(self.trie@)) by {
                reveal(is_linked);
                assert forall|v: int| is_node(self.trie@, v) implies #[trigger] vertex_linked(
                    self.trie@,
                    v,
                ) by {
                    lemma_shape(shape, self.trie@, 0);
                    lemma_all_seen(shape, order, v);
                    let j = choose|j: int| 0 <= j < order.len() && order[j] == v as usize;
                    assert(vertex_linked(self.trie@, order[j] as int));
                }
            }
            assert forall|s: Seq<usize>| self.has_word(s) == old(self).has_word(s) by {
                lemma_shape_find(shape, self.trie@, s);
            }
        }
    }

    /// Puts last in the queue the vertices that the letters lead to from
    /// the vertex `i`, which the search is seeing to, in a trie of the
    /// shape `shape`.
    fn push_children_of(
        &self,
        i: usize,
        queue: &mut std::collections::VecDeque<usize>,
        Ghost(shape): Ghost<Seq<Vertex>>,
        Ghost(order): Ghost<Seq<usize>>,
        Ghost(head): Ghost<int>,
    ) -> (longer: Ghost<Seq<usize>>)
        requires
            is_trie(shape),
            same_shape(shape, self.trie@),
            is_level_order(shape, order),
            0 <= head < order.len(),
            order[head] == i,
            is_closed(shape, order, head),
            has_parents(shape, order, head),
            depth(shape, order.last() as int) <= depth(shape, i as int) + 1,
            old(queue)@ == order.subrange(head + 1, order.len() as int),
        ensures
            is_level_order(shape, longer@),
            is_closed(shape, longer@, head + 1),
            has_parents(shape, longer@, head + 1),
            longer@.len() >= order.len(),
            longer@.subrange(0, order.len() as int) == order,
            final(queue)@ == longer@.subrange(head + 1, longer@.len() as int),
            head + 1 < longer@.len() ==> depth(shape, longer@.last() as int) <= depth(
                shape,
                longer@[head + 1] as int,
            ) + 1,
    {
        proof {
            lemma_size(shape);
            assert(is_node(shape, order[head] as int));
            lemma_shape_trie(shape, self.trie@);
            lemma_level_order_shape(shape, self.trie@, order);
            lemma_shape_label(shape, self.trie@, i as int);
            assert(order.last() == order[order.len() - 1]);
            lemma_shape_label(shape, self.trie@, order.last() as int);
            lemma_closed_shape(shape, self.trie@, order, head);
            lemma_parents_shape(shape, self.trie@, order, head);
        }
        let longer = self.push_children(i, queue, Ghost(order), Ghost(head));
        proof {
            lemma_shape_symmetric(shape, self.trie@);
            lemma_level_order_shape(self.trie@, shape, longer@);
            lemma_closed_shape(self.trie@, shape, longer@, head + 1);
            lemma_parents_shape(self.trie@, shape, longer@, head + 1);
            if head + 1 < longer@.len() {
                assert(longer@.last() == longer@[longer@.len() - 1]);
                lemma_size(self.trie@);
                assert(is_node(self.trie@, longer@[longer@.len() - 1] as int));
                assert(is_node(self.trie@, longer@[head + 1] as int));
                lemma_shape_label(self.trie@, shape, longer@.last() as int);
                lemma_shape_label(self.trie@, shape, longer@[head + 1] as int);
            }
        }
        longer
    }
}

/// When the search comes to a vertex, every vertex nearer the root has
/// its links.
proof fn lemma_linked_below(shape: Seq<Vertex>, trie: Seq<Vertex>, order: Seq<usize>, head: int)
    requires
        is_trie(shape),
        same_shape(shape, trie),
        is_level_order(shape, order),
        0 <= head < order.len(),
        is_closed(shape, order, head),
        forall|j: int| 0 <= j < head ==> vertex_linked(trie, #[trigger] order[j] as int),
    ensures
        linked_below(trie, label(trie, order[head] as int).len()),
{
    lemma_size(shape);
    lemma_shape(shape, trie, 0);
    let i = order[head] as int;
    assert(is_node(shape, order[head] as int));
    lemma_shape_label(shape, trie, i);
    assert forall|w: int| is_node(trie, w) && label(trie, w).len() < label(trie, i).len() implies #[trigger] vertex_linked(
        trie,
        w,
    ) by {
        assert(is_node(shape, w));
        lemma_shape_label(shape, trie, w);
        lemma_nearer_seen(shape, order, head, w);
        let j = choose|j: int| 0 <= j < head && order.subrange(0, head)[j] == w as usize;
        assert(order[j] == w as usize);
    }
}

/// The vertices seen to keep their links when the next one gets its own.
proof fn lemma_still_linked(
    shape: Seq<Vertex>,
    before: Seq<Vertex>,
    after: Seq<Vertex>,
    order: Seq<usize>,
    head: int,
)
    requires
        is_trie(shape),
        is_trie(before),
        same_shape(shape, before),
        same_shape(before, after),
        is_level_order(shape, order),
        0 <= head < order.len(),
        forall|j: int| 0 <= j < head ==> vertex_linked(before, #[trigger] order[j] as int),
        vertex_linked(after, order[head] as int),
        forall|w: int|
            0 <= w < before.len() && w != order[head] ==> (#[trigger] after[w]).link
                == before[w].link && after[w].exit_link == before[w].exit_link,
    ensures
        forall|j: int| 0 <= j < head + 1 ==> vertex_linked(after, #[trigger] order[j] as int),
{
    lemma_size(shape);
    lemma_shape(shape, before, 0);
    assert forall|j: int| 0 <= j < head + 1 implies vertex_linked(after, #[trigger] order[j] as int) by {
        if j < head {
            assert(is_node(shape, order[j] as int));
            assert(order[j] != order[head]);
            lemma_shape_linked(before, after, order[j] as int);
        }
    }
}

/// A trie has its own shape.
pub proof fn lemma_same_shape_itself(a: Seq<Vertex>)
    ensures
        same_shape(a, a),
{
    reveal(same_shape);
}

/// Having the same shape goes both ways.
pub proof fn lemma_shape_symmetric(a: Seq<Vertex>, b: Seq<Vertex>)
    requires
        same_shape(a, b),
    ensures
        same_shape(b, a),
{
    reveal(same_shape);
}

/// Vertices in level order in a trie are so in a trie of the same shape.
proof fn lemma_level_order_shape(a: Seq<Vertex>, b: Seq<Vertex>, order: Seq<usize>)
    requires
        is_trie(a),
        same_shape(a, b),
        is_level_order(a, order),
    ensures
        is_level_order(b, order),
{
    lemma_size(a);
    lemma_shape(a, b, 0);
    assert forall|k: int| 0 <= k < order.len() implies is_node(b, #[trigger] order[k] as int) by {
        assert(is_node(a, order[k] as int));
    }
    assert forall|x: int, y: int| 0 <= x <= y < order.len() implies depth(
        b,
        #[trigger] order[x] as int,
    ) <= depth(b, #[trigger] order[y] as int) by {
        assert(is_node(a, order[x] as int));
        assert(is_node(a, order[y] as int));
        lemma_size(a);
        lemma_shape_label(a, b, order[x] as int);
        lemma_shape_label(a, b, order[y] as int);
        assert(depth(a, order[x] as int) <= depth(a, order[y] as int));
    }
}

/// Vertices closed under the letters in a trie are so in a trie of the
/// same shape.
proof fn lemma_closed_shape(a: Seq<Vertex>, b: Seq<Vertex>, order: Seq<usize>, head: int)
    requires
        is_trie(a),
        same_shape(a, b),
        is_level_order(a, order),
        0 <= head <= order.len(),
        is_closed(a, order, head),
    ensures
        is_closed(b, order, head),
{
    lemma_size(a);
    assert forall|j: int, c: int|
        0 <= j < head && 0 <= c < CHAR_MAX && (#[trigger] b[order[j] as int].next[c]).is_some() implies order.contains(
        b[order[j] as int].next[c].unwrap(),
    ) by {
        assert(is_node(a, order[j] as int));
        lemma_shape(a, b, order[j] as int);
        assert(a[order[j] as int].next[c].is_some());
    }
}

/// Vertices led to by earlier ones in a trie are so in a trie of the same
/// shape.
proof fn lemma_parents_shape(a: Seq<Vertex>, b: Seq<Vertex>, order: Seq<usize>, bound: int)
    requires
        is_trie(a),
        same_shape(a, b),
        is_level_order(a, order),
        has_parents(a, order, bound),
    ensures
        has_parents(b, order, bound),
{
    lemma_size(a);
    assert forall|k: int| 1 <= k < order.len() implies order.subrange(0, bound).contains(
        (#[trigger] b[order[k] as int]).parent,
    ) by {
        assert(is_node(a, order[k] as int));
        lemma_shape(a, b, order[k] as int);
        assert(order.subrange(0, bound).contains(a[order[k] as int].parent));
    }
}

/// A byte that stands for white space.
pub open spec fn is_space(b: u8) -> bool {
    b == 32 || (9 <= b <= 13)
}

/// The letters of a text, its white space left out.
pub open spec fn scanned(text: Seq<u8>) -> Seq<usize>
    decreases text.len(),
{
    if text.len() == 0 {
        Seq::empty()
    } else if is_space(text.last()) {
        scanned(text.drop_last())
    } else {
        scanned(text.drop_last()).push(letter(text.last()))
    }
}

/// Every byte of the text is white space or a lower case letter.
pub open spec fn is_scannable(text: Seq<u8>) -> bool {
    forall|i: int| 0 <= i < text.len() ==> is_space(#[trigger] text[i]) || 97 <= text[i] <= 122
}

/// The words that end where `t` ends.
pub open spec fn words_ending(trie: Seq<Vertex>, t: Seq<usize>) -> Set<Seq<usize>> {
    Set::new(|s: Seq<usize>| is_word(trie, s) && is_suffix(s, t))
}

/// The number of occurrences of words in `t`: for each place in `t`, the
/// number of words that end there.
pub open spec fn occurrences(trie: Seq<Vertex>, t: Seq<usize>) -> nat
    decreases t.len(),
{
    if t.len() == 0 {
        0
    } else {
        occurrences(trie, t.drop_last()) + words_ending(trie, t).len()
    }
}

/// The vertex `cur` stands for the longest end of `t` that is in the trie.
pub open spec fn is_state(trie: Seq<Vertex>, t: Seq<usize>, cur: int) -> bool {
    &&& is_node(trie, cur)
    &&& is_suffix(label(trie, cur), t)
    &&& forall|s: Seq<usize>|
        #![trigger in_trie(trie, s)]
        in_trie(trie, s) && is_suffix(s, t) ==> s.len() <= label(trie, cur).len()
}

/// The letters `s` are in the trie, are an end of `t`, and the letter `ch`
/// leads on from them.
pub open spec fn goes_on(trie: Seq<Vertex>, t: Seq<usize>, ch: usize, s: Seq<usize>) -> bool {
    &&& in_trie(trie, s)
    &&& is_suffix(s, t)
    &&& in_trie(trie, s.push(ch))
}

/// The vertex `cur` stands for an end of `t`, and no longer end of `t` is
/// led on from by `ch`.
pub open spec fn is_fallback(trie: Seq<Vertex>, t: Seq<usize>, ch: usize, cur: int) -> bool {
    &&& is_node(trie, cur)
    &&& is_suffix(label(trie, cur), t)
    &&& forall|s: Seq<usize>| #[trigger]
        goes_on(trie, t, ch, s) ==> s.len() <= label(trie, cur).len()
}

/// From a vertex that `ch` does not lead on from, the search falls back
/// on its link.
proof fn lemma_fall_back(trie: Seq<Vertex>, t: Seq<usize>, ch: usize, cur: int)
    requires
        is_trie(trie),
        is_fallback(trie, t, ch, cur),
        cur != 0,
        ch < CHAR_MAX,
        trie[cur].next[ch as int].is_none(),
        link_ok(trie, cur),
    ensures
        is_fallback(trie, t, ch, trie[cur].link.unwrap() as int),
        label(trie, trie[cur].link.unwrap() as int).len() < label(trie, cur).len(),
{
    let next = trie[cur].link.unwrap() as int;
    lemma_size(trie);
    lemma_suffix_transitive(label(trie, next), label(trie, cur), t);
    lemma_find_label(trie, cur);
    assert forall|s: Seq<usize>| #[trigger] goes_on(trie, t, ch, s) implies s.len() <= label(
        trie,
        next,
    ).len() by {
        assert(s.len() <= label(trie, cur).len());
        lemma_suffix_of_suffix(s, label(trie, cur), t);
        if s.len() == label(trie, cur).len() {
            assert(s =~= label(trie, cur));
            assert(s.push(ch).drop_last() =~= s);
            assert(s.push(ch).last() == ch);
            assert(find(trie, s.push(ch)) == trie[cur].next[ch as int]);
            assert(false);
        }
        assert(in_trie(trie, s) && is_suffix(s, label(trie, cur)) && s.len() < label(
            trie,
            cur,
        ).len());
    }
}

/// Where `ch` leads on from the vertex that the search has fallen back
/// on, it leads to the state after `ch`.
proof fn lemma_step_found(trie: Seq<Vertex>, t: Seq<usize>, ch: usize, cur: int, w: int)
    requires
        is_trie(trie),
        is_fallback(trie, t, ch, cur),
        ch < CHAR_MAX,
        0 <= cur < trie.len(),
        trie[cur].next[ch as int] == Some(w as usize),
        0 <= w < trie.len(),
    ensures
        is_state(trie, t.push(ch), w),
{
    lemma_size(trie);
    lemma_child(trie, cur, ch as int);
    lemma_vertex(trie, w);
    assert(label(trie, w) == label(trie, cur).push(ch));
    lemma_suffix_push(label(trie, cur), t, ch);
    assert forall|s: Seq<usize>|
        #![trigger in_trie(trie, s)]
        in_trie(trie, s) && is_suffix(s, t.push(ch)) implies s.len() <= label(trie, w).len() by {
        if s.len() > 0 {
            lemma_suffix_push(s, t, ch);
            assert(s =~= s.drop_last().push(ch));
            assert(goes_on(trie, t, ch, s.drop_last()));
        }
    }
}

/// Where `ch` leads on from nothing down to the root, the state after
/// `ch` is the root.
proof fn lemma_step_root(trie: Seq<Vertex>, t: Seq<usize>, ch: usize)
    requires
        is_trie(trie),
        is_fallback(trie, t, ch, 0),
        ch < CHAR_MAX,
        trie[0].next[ch as int].is_none(),
    ensures
        is_state(trie, t.push(ch), 0),
{
    lemma_size(trie);
    let longer = t.push(ch);
    assert(label(trie, 0) =~= longer.subrange(longer.len() as int, longer.len() as int));
    assert forall|s: Seq<usize>|
        #![trigger in_trie(trie, s)]
        in_trie(trie, s) && is_suffix(s, longer) implies s.len() <= label(trie, 0).len() by {
        if s.len() > 0 {
            lemma_suffix_push(s, t, ch);
            assert(s =~= s.drop_last().push(ch));
            assert(goes_on(trie, t, ch, s.drop_last()));
            assert(s.drop_last().len() == 0);
            assert(s.drop_last() =~= Seq::<usize>::empty());
            assert(find(trie, s) == trie[0].next[ch as int]);
        }
    }
}

/// A state is what the search falls back on first.
proof fn lemma_state_is_fallback(trie: Seq<Vertex>, t: Seq<usize>, ch: usize, cur: int)
    requires
        is_state(trie, t, cur),
    ensures
        is_fallback(trie, t, ch, cur),
{
    assert forall|s: Seq<usize>| #[trigger] goes_on(trie, t, ch, s) implies s.len() <= label(
        trie,
        cur,
    ).len() by {
        assert(in_trie(trie, s));
    }
}

/// The words found so far are the words that end where `t` ends and are
/// longer than the string of `check`.
pub open spec fn is_found(
    trie: Seq<Vertex>,
    t: Seq<usize>,
    check: int,
    found: Set<Seq<usize>>,
) -> bool {
    &&& found.finite()
    &&& forall|s: Seq<usize>|
        found.contains(s) <==> #[trigger] is_word(trie, s) && is_suffix(s, t) && s.len() > label(
            trie,
            check,
        ).len()
}

/// Where the exit link of `check` leads to the root, every word that ends
/// where `t` ends has been found.
proof fn lemma_found_all(
    trie: Seq<Vertex>,
    t: Seq<usize>,
    check: int,
    found: Set<Seq<usize>>,
)
    requires
        is_trie(trie),
        is_node(trie, check),
        is_suffix(label(trie, check), t),
        is_found(trie, t, check, found),
        exit_ok(trie, check),
        trie[check].exit_link == Some(0usize),
    ensures
        found == words_ending(trie, t),
{
    assert forall|s: Seq<usize>| found.contains(s) == words_ending(trie, t).contains(s) by {
        if is_word(trie, s) && is_suffix(s, t) && s.len() <= label(trie, check).len() {
            lemma_suffix_of_suffix(s, label(trie, check), t);
        }
    }
    assert(found =~= words_ending(trie, t));
}

/// Where the exit link of `check` leads to a vertex, its word is the next
/// word found, and the search goes on from the link of that vertex.
proof fn lemma_found_next(
    trie: Seq<Vertex>,
    t: Seq<usize>,
    check: int,
    found: Set<Seq<usize>>,
    e: int,
)
    requires
        is_trie(trie),
        is_node(trie, check),
        is_suffix(label(trie, check), t),
        is_found(trie, t, check, found),
        0 <= check < trie.len(),
        exit_ok(trie, check),
        trie[check].exit_link == Some(e as usize),
        e != 0,
        0 <= e < trie.len(),
        link_ok(trie, e),
    ensures
        !found.contains(label(trie, e)),
        is_found(trie, t, trie[e].link.unwrap() as int, found.insert(label(trie, e))),
        is_suffix(label(trie, trie[e].link.unwrap() as int), t),
        label(trie, trie[e].link.unwrap() as int).len() < label(trie, e).len(),
        label(trie, e).len() <= label(trie, check).len(),
{
    lemma_size(trie);
    let next = trie[e].link.unwrap() as int;
    let word = label(trie, e);
    lemma_find_label(trie, e);
    lemma_suffix_transitive(word, label(trie, check), t);
    lemma_suffix_transitive(label(trie, next), word, t);
    assert(is_word(trie, word));
    assert(word.len() <= label(trie, check).len());
    assert(!found.contains(word));
    let more = found.insert(word);
    assert forall|s: Seq<usize>|
        more.contains(s) <==> #[trigger] is_word(trie, s) && is_suffix(s, t) && s.len() > label(
            trie,
            next,
        ).len() by {
        if is_word(trie, s) && is_suffix(s, t) && s.len() > label(trie, next).len() {
            if s.len() <= label(trie, check).len() {
                lemma_suffix_of_suffix(s, label(trie, check), t);
                assert(s.len() <= word.len());
                lemma_suffix_of_suffix(s, word, t);
                if s.len() < word.len() {
                    assert(in_trie(trie, s));
                    assert(false);
                }
                assert(s =~= word);
            }
        }
        if s == word {
            assert(is_word(trie, word));
        }
    }
}

impl AhoCorasick {
    /// The state of the search after the letter `pos`, from the state
    /// `current_state` after the letters `t`.
    fn next_state(&self, current_state: usize, pos: usize, Ghost(t): Ghost<Seq<usize>>) -> (next: usize)
        requires
            self.wf(),
            self.recalculated,
            pos < CHAR_MAX,
            is_state(self.trie@, t, current_state as int),
        ensures
            is_state(self.trie@, t.push(pos), next as int),
            next < self.trie.len(),
    {
        let mut current_state = current_state;
        proof {
            lemma_size(self.trie@);
            lemma_state_is_fallback(self.trie@, t, pos, current_state as int);
        }
        loop
            invariant
                self.wf(),
                self.recalculated,
                pos < CHAR_MAX,
                current_state < self.trie.len(),
                is_fallback(self.trie@, t, pos, current_state as int),
            decreases label(self.trie@, current_state as int).len(),
        {
            proof {
                lemma_vertex(self.trie@, current_state as int);
                lemma_child(self.trie@, current_state as int, pos as int);
            }
            if let Some(v) = self.trie[current_state].next[pos] {
                proof {
                    lemma_step_found(self.trie@, t, pos, current_state as int, v as int);
                }
                return v;
            }
            // otherwise jump by suffix links
            if current_state == 0 {
                proof {
                    lemma_step_root(self.trie@, t, pos);
                }
                return 0;
            }
            proof {
                reveal(is_linked);
                assert(vertex_linked(self.trie@, current_state as int));
                lemma_fall_back(self.trie@, t, pos, current_state as int);
            }
            current_state = self.trie[current_state].link.unwrap();
        }
    }

    /// The number of words that end where the letters `t` end, of which
    /// the longest end in the trie is the string of `current_state`.
    fn count_here(&self, current_state: usize, Ghost(t): Ghost<Seq<usize>>) -> (n: usize)
        requires
            self.wf(),
            self.recalculated,
            is_state(self.trie@, t, current_state as int),
            t.len() <= usize::MAX,
        ensures
            words_ending(self.trie@, t).finite(),
            n == words_ending(self.trie@, t).len(),
            n <= t.len(),
    {
        let mut result: usize = 0;
        let mut check_state = current_state;
        let ghost mut found: Set<Seq<usize>> = Set::empty();
        proof {
            lemma_size(self.trie@);
            assert forall|s: Seq<usize>|
                found.contains(s) <==> #[trigger] is_word(self.trie@, s) && is_suffix(s, t)
                    && s.len() > label(self.trie@, check_state as int).len() by {
                if is_word(self.trie@, s) && is_suffix(s, t) {
                    assert(in_trie(self.trie@, s));
                }
            }
        }
        loop
            invariant
                self.wf(),
                self.recalculated,
                check_state < self.trie.len(),
                is_node(self.trie@, check_state as int),
                is_suffix(label(self.trie@, check_state as int), t),
                is_found(self.trie@, t, check_state as int, found),
                result == found.len(),
                result + label(self.trie@, check_state as int).len() <= t.len(),
                t.len() <= usize::MAX,
            ensures
                found == words_ending(self.trie@, t),
                found.finite(),
                result == found.len(),
                result <= t.len(),
            decreases label(self.trie@, check_state as int).len(),
        {
            proof {
                reveal(is_linked);
                assert(vertex_linked(self.trie@, check_state as int));
            }
            // checking all words that we can get from current prefix;
            let exit = self.trie[check_state].exit_link.unwrap();
            if exit == 0 {
                proof {
                    lemma_found_all(self.trie@, t, check_state as int, found);
                }
                break ;
            }
            proof {
                assert(vertex_linked(self.trie@, exit as int));
                lemma_found_next(self.trie@, t, check_state as int, found, exit as int);
                found = found.insert(label(self.trie@, exit as int));
            }
            result += 1;  // MATCH
            check_state = self.trie[exit].link.unwrap();
            proof {
                assert(link_ok(self.trie@, exit as int));
            }
        }
        result
    }

    /// The number of occurrences of the words kept in `text`: for each
    /// place in the text, its white space left out, the number of words
    /// that end there.
    pub fn count_matches(&self, text: &[u8]) -> (result: usize)
        requires
            self.wf(),
            self.recalculated,
            is_scannable(text@),
            text.len() * text.len() <= usize::MAX,
        ensures
            result == occurrences(self.trie@, scanned(text@)),
    {
        let mut result: usize = 0;
        let mut current_state: usize = 0;
        let mut k: usize = 0;
        let ghost mut t: Seq<usize> = Seq::empty();
        proof {
            lemma_size(self.trie@);
            assert(text@.take(0) =~= Seq::<u8>::empty());
            assert(label(self.trie@, 0) =~= t.subrange(0, 0));
            assert forall|s: Seq<usize>|
                #![trigger in_trie(self.trie@, s)]
                in_trie(self.trie@, s) && is_suffix(s, t) implies s.len() <= label(
                self.trie@,
                0,
            ).len() by {}
        }
        while k < text.len()
            invariant
                k <= text.len(),
                self.wf(),
                self.recalculated,
                is_scannable(text@),
                text.len() * text.len() <= usize::MAX,
                t == scanned(text@.take(k as int)),
                t.len() <= k,
                current_state < self.trie.len(),
                is_state(self.trie@, t, current_state as int),
                result == occurrences(self.trie@, t),
                result <= k * text.len(),
            decreases text.len() - k,
        {
            let ch = text[k];
            proof {
                assert(text@.take(k + 1).drop_last() =~= text@.take(k as int));
                assert(text@.take(k + 1).last() == ch);
            }
            if ch == 32 || (9 <= ch && ch <= 13) {
                k = k + 1;
                proof {
                    assert((k - 1) * text.len() <= k * text.len()) by (nonlinear_arith)
                        requires
                            k >= 1,
                    ;
                }
                continue ;
            }
            let pos = (ch - 97u8) as usize;
            current_state = self.next_state(current_state, pos, Ghost(t));
            proof {
                t = t.push(pos);
                assert(t.drop_last() =~= scanned(text@.take(k as int)));
            }
            let here = self.count_here(current_state, Ghost(t));
            proof {
                assert(k * text.len() + text.len() == (k + 1) * text.len()) by (nonlinear_arith);
                assert((k + 1) * text.len() <= text.len() * text.len()) by (nonlinear_arith)
                    requires
                        k + 1 <= text.len(),
                ;
            }
            result = result + here;
            k = k + 1;
        }
        proof {
            assert(text@.take(text.len() as int) =~= text@);
        }
        result
    }
}

} // verus!
