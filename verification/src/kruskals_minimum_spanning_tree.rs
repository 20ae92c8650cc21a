//! A tree put together from the edges of a graph, lightest first: an edge
//! is taken when what is known of the trees at its two ends does not make
//! it close a cycle.
use vstd::prelude::*;
use crate::spanning_tree::{
    create_connection_matrix, is_connection_matrix, is_parent_array, is_square,
};

verus! {

/// A weighted graph, given by its matrix of weights.
pub struct Graph {
    pub data: Vec<Vec<i32>>,
}

/// An edge, from the vertex with the smaller number to the other.
pub type Edge = (usize, usize);

/// The edges from the vertex `i` to the vertices after it and before `j`.
pub open spec fn row_edges(data: Seq<Vec<i32>>, i: int, j: int) -> Seq<Edge>
    decreases j - i,
{
    if j <= i + 1 {
        Seq::empty()
    } else if data[i][j - 1] > 0 {
        row_edges(data, i, j - 1).push((i as usize, (j - 1) as usize))
    } else {
        row_edges(data, i, j - 1)
    }
}

/// The edges from the vertices before `i`, each to the vertices after it.
pub open spec fn all_edges(data: Seq<Vec<i32>>, i: int) -> Seq<Edge>
    decreases i,
{
    if i <= 0 {
        Seq::empty()
    } else {
        all_edges(data, i - 1) + row_edges(data, i - 1, data.len() as int)
    }
}

/// The weight of an edge.
pub open spec fn weight(data: Seq<Vec<i32>>, e: Edge) -> i32 {
    data[e.0 as int][e.1 as int]
}

/// The edges `sorted` with `e` put in after every edge that is no heavier.
pub open spec fn insert_edge(data: Seq<Vec<i32>>, sorted: Seq<Edge>, e: Edge) -> Seq<Edge>
    decreases sorted.len(),
{
    if sorted.len() > 0 && weight(data, sorted.last()) > weight(data, e) {
        insert_edge(data, sorted.drop_last(), e).push(sorted.last())
    } else {
        sorted.push(e)
    }
}

/// The edges `list` by weight, lightest first, equally heavy ones in the
/// order in which `list` has them.
pub open spec fn sort_edges(data: Seq<Vec<i32>>, list: Seq<Edge>) -> Seq<Edge>
    decreases list.len(),
{
    if list.len() == 0 {
        Seq::empty()
    } else {
        insert_edge(data, sort_edges(data, list.drop_last()), list.last())
    }
}

/// No edge of `edges` is heavier than one that comes after it.
pub open spec fn is_sorted_by_weight(data: Seq<Vec<i32>>, edges: Seq<Edge>) -> bool {
    forall|a: int, b: int|
        0 <= a <= b < edges.len() ==> weight(data, #[trigger] edges[a]) <= weight(
            data,
            #[trigger] edges[b],
        )
}

/// Putting an edge into sorted edges leaves them sorted, with the edge
/// among them.
pub proof fn lemma_insert_edge(data: Seq<Vec<i32>>, sorted: Seq<Edge>, e: Edge)
    requires
        is_sorted_by_weight(data, sorted),
    ensures
        is_sorted_by_weight(data, insert_edge(data, sorted, e)),
        insert_edge(data, sorted, e).to_multiset() == sorted.to_multiset().insert(e),
        insert_edge(data, sorted, e).len() == sorted.len() + 1,
        forall|k: int|
            0 <= k < insert_edge(data, sorted, e).len() ==> #[trigger] insert_edge(
                data,
                sorted,
                e,
            )[k] == e || sorted.contains(insert_edge(data, sorted, e)[k]),
    decreases sorted.len(),
{
    let out = insert_edge(data, sorted, e);
    if sorted.len() > 0 && weight(data, sorted.last()) > weight(data, e) {
        let front = sorted.drop_last();
        let last = sorted.last();
        assert forall|a: int, b: int| 0 <= a <= b < front.len() implies weight(
            data,
            #[trigger] front[a],
        ) <= weight(data, #[trigger] front[b]) by {
            assert(front[a] == sorted[a] && front[b] == sorted[b]);
        }
        lemma_insert_edge(data, front, e);
        let inner = insert_edge(data, front, e);
        assert(out == inner.push(last));
        vstd::seq_lib::to_multiset_build(inner, last);
        assert(sorted =~= front.push(last));
        vstd::seq_lib::to_multiset_build(front, last);
        assert(out.to_multiset() =~= sorted.to_multiset().insert(e));
        assert forall|k: int| 0 <= k < out.len() implies #[trigger] out[k] == e || sorted.contains(
            out[k],
        ) by {
            if k < inner.len() {
                assert(out[k] == inner[k]);
                if inner[k] != e {
                    assert(front.contains(inner[k]));
                    let j = choose|j: int| 0 <= j < front.len() && front[j] == inner[k];
                    assert(sorted[j] == inner[k]);
                }
            } else {
                assert(sorted[sorted.len() - 1] == last);
            }
        }
        assert forall|a: int, b: int| 0 <= a <= b < out.len() implies weight(
            data,
            #[trigger] out[a],
        ) <= weight(data, #[trigger] out[b]) by {
            if b < inner.len() {
                assert(out[a] == inner[a] && out[b] == inner[b]);
            } else if a < inner.len() {
                assert(out[a] == inner[a]);
                if inner[a] != e {
                    let j = choose|j: int| 0 <= j < front.len() && front[j] == inner[a];
                    assert(sorted[j] == inner[a]);
                    assert(weight(data, sorted[j]) <= weight(data, sorted[sorted.len() - 1]));
                }
            }
        }
    } else {
        vstd::seq_lib::to_multiset_build(sorted, e);
        assert forall|a: int, b: int| 0 <= a <= b < out.len() implies weight(
            data,
            #[trigger] out[a],
        ) <= weight(data, #[trigger] out[b]) by {
            if b < sorted.len() {
                assert(out[a] == sorted[a] && out[b] == sorted[b]);
            } else if a < sorted.len() {
                assert(out[a] == sorted[a]);
                assert(weight(data, sorted[a]) <= weight(data, sorted[sorted.len() - 1]));
            }
        }
        assert forall|k: int| 0 <= k < out.len() implies #[trigger] out[k] == e || sorted.contains(
            out[k],
        ) by {
            if k < sorted.len() {
                assert(out[k] == sorted[k]);
            }
        }
    }
}

/// Sorting gives the same edges, lightest first.
pub proof fn lemma_sort_edges(data: Seq<Vec<i32>>, list: Seq<Edge>)
    ensures
        is_sorted_by_weight(data, sort_edges(data, list)),
        sort_edges(data, list).to_multiset() == list.to_multiset(),
    decreases list.len(),
{
    if list.len() == 0 {
        assert(list =~= Seq::<Edge>::empty());
    } else {
        lemma_sort_edges(data, list.drop_last());
        lemma_insert_edge(data, sort_edges(data, list.drop_last()), list.last());
        assert(list =~= list.drop_last().push(list.last()));
        vstd::seq_lib::to_multiset_build(list.drop_last(), list.last());
    }
}

/// The number of places before `k` at which both `a` and `b` are set.
pub open spec fn count_common(a: Seq<bool>, b: Seq<bool>, k: int) -> nat
    decreases k,
{
    if k <= 0 {
        0
    } else if a[k - 1] && b[k - 1] {
        count_common(a, b, k - 1) + 1
    } else {
        count_common(a, b, k - 1)
    }
}

/// What is set in `a` or in `b`.
pub open spec fn union_of(a: Seq<bool>, b: Seq<bool>) -> Seq<bool> {
    Seq::new(a.len(), |x: int| a[x] || b[x])
}

/// What is known while the tree is put together: a parent for each vertex,
/// and for each vertex the vertices known to be in its tree.
pub struct Forest {
    pub parents: Seq<i32>,
    pub trees: Seq<Seq<bool>>,
}

/// The forest before any edge is taken: every vertex has the first vertex
/// for its parent and is alone in its tree.
pub open spec fn start_forest(n: nat) -> Forest {
    Forest {
        parents: Seq::new(n, |v: int| 0i32),
        trees: Seq::new(n, |v: int| Seq::new(n, |x: int| x == v)),
    }
}

/// The forest once the edge `e` has been looked at: where the trees at
/// its ends are known to share fewer than two vertices, the edge is taken.
/// Its first end gets its second end for a parent if it has the first
/// vertex for its parent, else its second end gets its first; and each
/// end learns of the tree of the other.
pub open spec fn take_edge(f: Forest, e: Edge) -> Forest {
    let v1 = e.0 as int;
    let v2 = e.1 as int;
    if count_common(f.trees[v1], f.trees[v2], f.trees.len() as int) < 2 {
        let both = union_of(f.trees[v1], f.trees[v2]);
        Forest {
            parents: if f.parents[v1] == 0 {
                f.parents.update(v1, v2 as i32)
            } else {
                f.parents.update(v2, v1 as i32)
            },
            trees: f.trees.update(v1, both).update(v2, both),
        }
    } else {
        f
    }
}

/// The forest once the edges `edges` have been looked at in turn.
pub open spec fn take_edges(f: Forest, edges: Seq<Edge>) -> Forest
    decreases edges.len(),
{
    if edges.len() == 0 {
        f
    } else {
        take_edge(take_edges(f, edges.drop_last()), edges.last())
    }
}

/// The forest has a parent and a tree for each of `n` vertices.
pub open spec fn is_forest(f: Forest, n: int) -> bool {
    &&& is_parent_array(f.parents, n)
    &&& f.trees.len() == n
    &&& forall|v: int| 0 <= v < n ==> (#[trigger] f.trees[v]).len() == n
}

/// Both ends of each edge are among `n` vertices.
pub open spec fn are_edges(edges: Seq<Edge>, n: int) -> bool {
    forall|k: int| 0 <= k < edges.len() ==> (#[trigger] edges[k]).0 < n && edges[k].1 < n
}

/// Putting an edge among edges leaves edges.
proof fn lemma_insert_edges(data: Seq<Vec<i32>>, sorted: Seq<Edge>, e: Edge, n: int)
    requires
        are_edges(sorted, n),
        e.0 < n,
        e.1 < n,
    ensures
        are_edges(insert_edge(data, sorted, e), n),
        insert_edge(data, sorted, e).len() == sorted.len() + 1,
    decreases sorted.len(),
{
    if sorted.len() > 0 && weight(data, sorted.last()) > weight(data, e) {
        assert forall|k: int| 0 <= k < sorted.drop_last().len() implies (
        #[trigger] sorted.drop_last()[k]).0 < n && sorted.drop_last()[k].1 < n by {
            assert(sorted.drop_last()[k] == sorted[k]);
        }
        lemma_insert_edges(data, sorted.drop_last(), e, n);
        assert(sorted.last() == sorted[sorted.len() - 1]);
    }
}

/// Taking an edge leaves a forest.
proof fn lemma_take_edge(f: Forest, e: Edge, n: int)
    requires
        is_forest(f, n),
        e.0 < n,
        e.1 < n,
        n <= i32::MAX,
    ensures
        is_forest(take_edge(f, e), n),
{
    let g = take_edge(f, e);
    assert forall|v: int| 0 <= v < n implies (#[trigger] g.trees[v]).len() == n by {
        assert(f.trees[v].len() == n);
        assert(f.trees[e.0 as int].len() == n);
    }
}

impl Graph {
    /// The matrix is square.
    pub open spec fn wf(&self) -> bool {
        is_square(self.data@)
    }

    /// The graph with weights `data`.
    pub fn new(data: Vec<Vec<i32>>) -> (g: Graph)
        ensures
            g.data == data,
    {
        Graph { data: data }
    }

    /// The matrix that shows the edges between each vertex and its parent
    /// in `mst`, with their weights, in both directions.
    #[allow(non_snake_case)]
    pub fn createConnectionMatrix(&self, mst: Vec<i32>) -> (matrix: Vec<Vec<i32>>)
        requires
            self.wf(),
            is_parent_array(mst@, self.data.len() as int),
        ensures
            is_connection_matrix(matrix@, self.data@, mst@),
    {
        create_connection_matrix(&self.data, &mst)
    }

    /// The edges of the graph, each once, from the vertex with the smaller
    /// number to the other, by rows.
    fn edges(&self) -> (edges: Vec<Edge>)
        requires
            self.wf(),
        ensures
            edges@ == all_edges(self.data@, self.data.len() as int),
            are_edges(edges@, self.data.len() as int),
    {
        let n = self.data.len();
        let mut edges: Vec<Edge> = Vec::new();
        let mut idx1: usize = 0;
        while idx1 < n
            invariant
                idx1 <= n,
                n == self.data.len(),
                self.wf(),
                edges@ == all_edges(self.data@, idx1 as int),
                are_edges(edges@, n as int),
            decreases n - idx1,
        {
            let ghost before = edges@;
            let mut idx2: usize = idx1 + 1;
            while idx2 < n
                invariant
                    idx1 < n,
                    idx1 + 1 <= idx2,
                    idx2 <= n || idx2 == idx1 + 1,
                    n == self.data.len(),
                    self.wf(),
                    edges@ == before + row_edges(self.data@, idx1 as int, idx2 as int),
                    are_edges(edges@, n as int),
                decreases n - idx2,
            {
                if self.data[idx1][idx2] > 0 {
                    edges.push((idx1, idx2));
                }
                proof {
                    assert(edges@ =~= before + row_edges(self.data@, idx1 as int, idx2 + 1));
                }
                idx2 = idx2 + 1;
            }
            proof {
                if idx2 > n {
                    assert(row_edges(self.data@, idx1 as int, idx2 as int) =~= row_edges(
                        self.data@,
                        idx1 as int,
                        n as int,
                    ));
                }
            }
            idx1 = idx1 + 1;
        }
        edges
    }

    /// The edges `edges` by weight, lightest first, equally heavy ones in
    /// the order in which they come.
    fn sorted(&self, edges: &Vec<Edge>) -> (sorted: Vec<Edge>)
        requires
            self.wf(),
            are_edges(edges@, self.data.len() as int),
        ensures
            sorted@ == sort_edges(self.data@, edges@),
            are_edges(sorted@, self.data.len() as int),
            sorted.len() == edges.len(),
    {
        let mut sorted: Vec<Edge> = Vec::new();
        let mut k: usize = 0;
        while k < edges.len()
            invariant
                k <= edges.len(),
                self.wf(),
                are_edges(edges@, self.data.len() as int),
                sorted@ == sort_edges(self.data@, edges@.take(k as int)),
                are_edges(sorted@, self.data.len() as int),
                sorted.len() == k,
            decreases edges.len() - k,
        {
            let e = edges[k];
            let w = self.data[e.0][e.1];
            let ghost before = sorted@;
            proof {
                assert(edges@.take(k + 1).drop_last() =~= edges@.take(k as int));
                assert(edges@.take(k + 1).last() == e);
                lemma_insert_edges(self.data@, before, e, self.data.len() as int);
            }
            let mut pos: usize = sorted.len();
            proof {
                assert(before.take(pos as int) =~= before);
                assert(insert_edge(self.data@, before, e) + before.skip(pos as int)
                    =~= insert_edge(self.data@, before, e));
            }
            while pos > 0 && self.data[sorted[pos - 1].0][sorted[pos - 1].1] > w
                invariant
                    pos <= sorted.len(),
                    sorted@ == before,
                    self.wf(),
                    are_edges(before, self.data.len() as int),
                    e.0 < self.data.len(),
                    e.1 < self.data.len(),
                    w == weight(self.data@, e),
                    insert_edge(self.data@, before, e) == insert_edge(
                        self.data@,
                        before.take(pos as int),
                        e,
                    ) + before.skip(pos as int),
                decreases pos,
            {
                proof {
                    let front = before.take(pos as int);
                    assert(front.last() == before[pos - 1]);
                    assert(front.drop_last() =~= before.take(pos - 1));
                    assert(insert_edge(self.data@, front, e) == insert_edge(
                        self.data@,
                        front.drop_last(),
                        e,
                    ).push(front.last()));
                    assert(insert_edge(self.data@, front.drop_last(), e).push(front.last())
                        + before.skip(pos as int) =~= insert_edge(
                        self.data@,
                        before.take(pos - 1),
                        e,
                    ) + before.skip(pos - 1));
                }
                pos = pos - 1;
            }
            proof {
                let front = before.take(pos as int);
                if pos > 0 {
                    assert(front.last() == before[pos - 1]);
                }
                assert(insert_edge(self.data@, front, e) == front.push(e));
                assert(before.take(0) =~= Seq::<Edge>::empty());
            }
            sorted.insert(pos, e);
            proof {
                assert(sorted@ =~= before.take(pos as int).push(e) + before.skip(pos as int));
            }
            k = k + 1;
        }
        proof {
            assert(edges@.take(edges.len() as int) =~= edges@);
        }
        sorted
    }

    /// The edges of the tree that comes of looking at the edges of the
    /// graph lightest first and taking those that are not known to close
    /// a cycle. Each end of an edge taken learns of the tree of the other
    /// end and of no more, so that an edge may be taken though it closes a
    /// cycle; and a vertex keeps one parent, so that an edge taken may
    /// replace another.
    #[allow(non_snake_case)]
    pub fn calculateMST(&self) -> (matrix: Vec<Vec<i32>>)
        requires
            self.wf(),
            0 < self.data.len() <= i32::MAX,
        ensures
            is_connection_matrix(
                matrix@,
                self.data@,
                take_edges(
                    start_forest(self.data.len() as nat),
                    sort_edges(self.data@, all_edges(self.data@, self.data.len() as int)),
                ).parents,
            ),
    {
        let elems = self.data.len();
        let mut mst = vec![0i32; elems];
        let mut sub_trees: Vec<Vec<bool>> = Vec::new();
        let mut elem: usize = 0;
        while elem < elems
            invariant
                elem <= elems,
                sub_trees.len() == elem,
                forall|v: int| 0 <= v < elem ==> (#[trigger] sub_trees[v])@ =~= Seq::new(
                    elems as nat,
                    |x: int| x == v,
                ),
            decreases elems - elem,
        {
            let mut t = vec![false; elems];
            t[elem] = true;
            sub_trees.push(t);
            elem = elem + 1;
        }
        let edges = self.edges();
        let sorted_edges = self.sorted(&edges);
        let ghost start = start_forest(elems as nat);
        proof {
            assert(mst@ =~= start.parents);
            assert(sorted_edges@.take(0) =~= Seq::<Edge>::empty());
        }
        let mut k: usize = 0;
        while k < sorted_edges.len()
            invariant
                k <= sorted_edges.len(),
                elems == self.data.len(),
                0 < elems <= i32::MAX,
                self.wf(),
                are_edges(sorted_edges@, elems as int),
                mst.len() == elems,
                sub_trees.len() == elems,
                is_forest(take_edges(start, sorted_edges@.take(k as int)), elems as int),
                mst@ == take_edges(start, sorted_edges@.take(k as int)).parents,
                forall|v: int|
                    0 <= v < elems ==> (#[trigger] sub_trees[v])@ == take_edges(
                        start,
                        sorted_edges@.take(k as int),
                    ).trees[v],
            decreases sorted_edges.len() - k,
        {
            let (vert1, vert2) = sorted_edges[k];
            let ghost f = take_edges(start, sorted_edges@.take(k as int));
            proof {
                assert(sorted_edges@.take(k + 1).drop_last() =~= sorted_edges@.take(k as int));
                assert(sorted_edges@.take(k + 1).last() == (vert1, vert2));
                lemma_take_edge(f, (vert1, vert2), elems as int);
                assert(sub_trees[vert1 as int]@ == f.trees[vert1 as int]);
                assert(sub_trees[vert2 as int]@ == f.trees[vert2 as int]);
            }
            let is_not_a_cycle = common(&sub_trees[vert1], &sub_trees[vert2]) < 2;
            if is_not_a_cycle {
                if mst[vert1] == 0 {
                    mst[vert1] = vert2 as i32;
                } else {
                    mst[vert2] = vert1 as i32;
                }
                let un = union(&sub_trees[vert1], &sub_trees[vert2]);
                let un2 = union(&sub_trees[vert1], &sub_trees[vert2]);
                sub_trees[vert1] = un;
                sub_trees[vert2] = un2;
            }
            proof {
                let g = take_edge(f, (vert1, vert2));
                assert(mst@ =~= g.parents);
                assert forall|v: int| 0 <= v < elems implies (#[trigger] sub_trees[v])@
                    == g.trees[v] by {}
            }
            k = k + 1;
        }
        proof {
            assert(sorted_edges@.take(sorted_edges.len() as int) =~= sorted_edges@);
        }
        self.createConnectionMatrix(mst)
    }
}

/// The number of vertices that are in both trees.
fn common(a: &Vec<bool>, b: &Vec<bool>) -> (n: usize)
    requires
        a.len() == b.len(),
    ensures
        n == count_common(a@, b@, a.len() as int),
{
    let mut n: usize = 0;
    let mut x: usize = 0;
    while x < a.len()
        invariant
            x <= a.len(),
            a.len() == b.len(),
            n == count_common(a@, b@, x as int),
            n <= x,
        decreases a.len() - x,
    {
        if a[x] && b[x] {
            n = n + 1;
        }
        x = x + 1;
    }
    n
}

/// The vertices that are in one of the trees.
fn union(a: &Vec<bool>, b: &Vec<bool>) -> (un: Vec<bool>)
    requires
        a.len() == b.len(),
    ensures
        un@ == union_of(a@, b@),
{
    let mut un: Vec<bool> = Vec::new();
    let mut x: usize = 0;
    while x < a.len()
        invariant
            x <= a.len(),
            a.len() == b.len(),
            un.len() == x,
            forall|y: int| 0 <= y < x ==> un[y] == (a[y] || b[y]),
        decreases a.len() - x,
    {
        un.push(a[x] || b[x]);
        x = x + 1;
    }
    assert(un@ =~= union_of(a@, b@));
    un
}

} // verus!
