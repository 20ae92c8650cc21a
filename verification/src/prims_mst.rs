//! A spanning tree grown from the first vertex, one vertex at a time, over
//! the lightest edge that leaves the tree.
use vstd::prelude::*;
use crate::spanning_tree::{
    cost, create_connection_matrix, is_connection_matrix, is_parent_array, is_square,
};

verus! {

/// A weighted graph, given by its matrix of weights.
pub struct Graph {
    pub data: Vec<Vec<i32>>,
}

/// Some edge leads from a vertex that is taken to one that is not.
pub open spec fn has_crossing_edge(data: Seq<Vec<i32>>, taken: Seq<bool>) -> bool {
    exists|u: int, v: int|
        0 <= u < data.len() && 0 <= v < data.len() && taken[u] && !taken[v] && #[trigger] cost(
            data,
            u,
            v,
        ) < i32::MAX
}

/// However the vertices are split into those taken, the first among them,
/// and those not, an edge leads from the one part to the other.
pub open spec fn is_connected(data: Seq<Vec<i32>>) -> bool {
    forall|taken: Seq<bool>|
        taken.len() == data.len() && taken[0] && taken.contains(false)
            ==> #[trigger] has_crossing_edge(data, taken)
}

/// The least cost of a step from one of the vertices `order` to `x`.
pub open spec fn key(data: Seq<Vec<i32>>, order: Seq<int>, x: int) -> i32
    decreases order.len(),
{
    if order.len() == 0 {
        i32::MAX
    } else {
        let rest = key(data, order.drop_last(), x);
        let last = cost(data, order.last(), x);
        if last < rest {
            last
        } else {
            rest
        }
    }
}

/// No step from one of the vertices `order` to `x` costs less than the
/// least cost.
proof fn lemma_key_is_least(data: Seq<Vec<i32>>, order: Seq<int>, x: int, j: int)
    requires
        0 <= j < order.len(),
    ensures
        key(data, order, x) <= cost(data, order[j], x),
    decreases order.len(),
{
    if j < order.len() - 1 {
        lemma_key_is_least(data, order.drop_last(), x, j);
    }
}

/// `order` takes every vertex once, the first vertex first, and `parents`
/// gives each vertex but the first a vertex taken before it, to which a
/// lightest of the edges leads that lead from the vertices taken before
/// to those not taken before.
pub open spec fn is_grown_tree(data: Seq<Vec<i32>>, order: Seq<int>, parents: Seq<i32>) -> bool {
    let n = data.len() as int;
    &&& order.len() == n
    &&& order.no_duplicates()
    &&& forall|k: int| 0 <= k < n ==> 0 <= #[trigger] order[k] < n
    &&& n > 0 ==> order[0] == 0 && parents[0] == 0
    &&& is_parent_array(parents, n)
    &&& forall|k: int| 1 <= k < n ==> #[trigger] joins_lightest(data, order, parents, k)
}

/// The vertex taken at place `k` hangs on a vertex taken before it, by a
/// lightest of the edges that lead from the vertices taken before to the
/// others. Of the vertices that could be joined as cheaply it is the
/// first, and of the vertices taken before from which its edge is as
/// light, its parent was taken first.
pub open spec fn joins_lightest(data: Seq<Vec<i32>>, order: Seq<int>, parents: Seq<i32>, k: int) -> bool {
    let v = order[k];
    let p = parents[v];
    let taken = order.subrange(0, k);
    &&& hangs_on(data, taken, v, p, data[p as int][v])
    &&& data[p as int][v] < i32::MAX
    &&& forall|j: int, x: int|
        0 <= j < k && 0 <= x < data.len() && !taken.contains(x) ==> data[p as int][v]
            <= #[trigger] cost(data, order[j], x)
    &&& forall|x: int|
        0 <= x < v && !taken.contains(x) ==> data[p as int][v] < #[trigger] key(data, taken, x)
}

impl Graph {
    /// The matrix is square.
    pub open spec fn wf(&self) -> bool {
        is_square(self.data@)
    }

    /// The graph with weights `data`.
    pub fn new(data: Vec<Vec<i32>>) -> (g: Graph)
        ensures
            g.data == data,
    {
        Graph { data: data }
    }

    /// The vertex not yet visited with the least weight; among equals the
    /// first.
    #[allow(non_snake_case)]
    pub fn findNextVertex(&self, weights: &Vec<i32>, visited: &Vec<bool>) -> (r: usize)
        requires
            weights.len() == self.data.len(),
            visited.len() == self.data.len(),
            exists|v: int| 0 <= v < weights.len() && !visited[v] && weights[v] < i32::MAX,
        ensures
            r < self.data.len(),
            !visited[r as int],
            weights[r as int] < i32::MAX,
            forall|v: int| 0 <= v < weights.len() && !visited[v] ==> weights[r as int] <= weights[v],
            forall|v: int| 0 <= v < r && !visited[v] ==> weights[r as int] < weights[v],
    {
        let mut min_index: Option<usize> = None;
        let mut best_weight = i32::MAX;
        let mut v: usize = 0;
        while v < self.data.len()
            invariant
                v <= self.data.len(),
                weights.len() == self.data.len(),
                visited.len() == self.data.len(),
                min_index.is_none() ==> best_weight == i32::MAX && forall|u: int|
                    0 <= u < v ==> visited[u] || weights[u] == i32::MAX,
                min_index.is_some() ==> {
                    &&& min_index.unwrap() < v
                    &&& !visited[min_index.unwrap() as int]
                    &&& best_weight == weights[min_index.unwrap() as int]
                    &&& best_weight < i32::MAX
                    &&& forall|u: int| 0 <= u < v && !visited[u] ==> best_weight <= weights[u]
                    &&& forall|u: int|
                        0 <= u < min_index.unwrap() && !visited[u] ==> best_weight < weights[u]
                },
            decreases self.data.len() - v,
        {
            if weights[v] < best_weight && !visited[v] {
                min_index = Some(v);
                best_weight = weights[v];
            }
            v = v + 1;
        }
        min_index.unwrap()
    }

    /// The matrix that shows the edges between each vertex and its parent
    /// in `mst`, with their weights, in both directions.
    #[allow(non_snake_case)]
    pub fn createConnectionMatrix(&self, mst: Vec<i32>) -> (matrix: Vec<Vec<i32>>)
        requires
            self.wf(),
            is_parent_array(mst@, self.data.len() as int),
        ensures
            is_connection_matrix(matrix@, self.data@, mst@),
    {
        create_connection_matrix(&self.data, &mst)
    }

    /// The edges of a spanning tree of a connected graph: the tree grows
    /// from the first vertex, and each vertex joins it over a lightest of
    /// the edges that lead out of the tree at that time.
    #[allow(non_snake_case)]
    #[verifier::rlimit(60)]
    pub fn calculateMST(&self) -> (matrix: Vec<Vec<i32>>)
        requires
            self.wf(),
            0 < self.data.len() <= i32::MAX,
            is_connected(self.data@),
        ensures
            exists|order: Seq<int>, parents: Seq<i32>| #[trigger]
                is_grown_tree(self.data@, order, parents) && is_connection_matrix(
                    matrix@,
                    self.data@,
                    parents,
                ),
    {
        let elems = self.data.len();
        let mut weights = vec![i32::MAX; elems];
        let mut mst = vec![0i32; elems];
        weights[0] = 0;
        let mut visited = vec![false; elems];
        let ghost mut order: Seq<int> = Seq::empty();
        let mut round: usize = 0;
        while round < elems
            invariant
                round <= elems,
                elems == self.data.len(),
                0 < elems <= i32::MAX,
                self.wf(),
                is_connected(self.data@),
                weights.len() == elems,
                mst.len() == elems,
                visited.len() == elems,
                order.len() == round,
                order.no_duplicates(),
                forall|k: int| 0 <= k < round ==> 0 <= #[trigger] order[k] < elems,
                forall|x: int| 0 <= x < elems ==> (#[trigger] visited[x] <==> order.contains(x)),
                round > 0 ==> order[0] == 0,
                round == 0 ==> weights[0] == 0,
                mst[0] == 0,
                is_parent_array(mst@, elems as int),
                forall|x: int|
                    0 <= x < elems && !visited[x] && (round > 0 || x > 0) ==> #[trigger] weights[x]
                        == key(self.data@, order, x),
                forall|x: int|
                    0 <= x < elems && !visited[x] && weights[x] < i32::MAX && (round > 0 || x > 0)
                        ==> hangs_on(self.data@, order, x, #[trigger] mst[x], weights[x]),
                forall|k: int| 1 <= k < round ==> #[trigger] joins_lightest(self.data@, order, mst@, k),
            decreases elems - round,
        {
            proof {
                if round > 0 {
                    assert(visited@[0]) by {
                        assert(order[0] == 0);
                    }
                    lemma_someone_left(visited@, order, elems as int);
                    assert(has_crossing_edge(self.data@, visited@));
                    let (u, v) = choose|u: int, v: int|
                        0 <= u < self.data.len() && 0 <= v < self.data.len() && visited@[u]
                            && !visited@[v] && #[trigger] cost(self.data@, u, v) < i32::MAX;
                    let j = choose|j: int| 0 <= j < order.len() && order[j] == u;
                    lemma_key_is_least(self.data@, order, v, j);
                    assert(!visited[v] && weights[v] < i32::MAX);
                } else {
                    assert(!visited[0] && weights[0] < i32::MAX);
                    assert forall|x: int| 0 < x < elems implies weights[x] == i32::MAX by {
                        lemma_key_of_none(self.data@, x);
                        assert(order =~= Seq::<int>::empty());
                    }
                }
            }
            let first_vertex = self.findNextVertex(&weights, &visited);
            let ghost before = order;
            let ghost old_weights = weights@;
            let ghost old_mst = mst@;
            let ghost old_visited = visited@;
            visited[first_vertex] = true;
            proof {
                order = order.push(first_vertex as int);
                lemma_taken(old_visited, visited@, before, order, first_vertex as int);
                if round > 0 {
                    // The vertex joins over a lightest edge out of the tree.
                    assert(hangs_on(
                        self.data@,
                        before,
                        first_vertex as int,
                        old_mst[first_vertex as int],
                        old_weights[first_vertex as int],
                    ));
                    assert(joins_lightest(self.data@, order, mst@, round as int)) by {
                        assert(order.subrange(0, round as int) =~= before);
                        assert forall|j: int, x: int|
                            0 <= j < round && 0 <= x < elems && !before.contains(x) implies old_weights[first_vertex as int]
                            <= #[trigger] cost(self.data@, order[j], x) by {
                            assert(!old_visited[x]);
                            lemma_key_is_least(self.data@, before, x, j);
                        }
                        assert forall|x: int|
                            0 <= x < first_vertex && !before.contains(x) implies old_weights[first_vertex as int]
                            < #[trigger] key(self.data@, before, x) by {
                            assert(!old_visited[x]);
                            assert(old_weights[x] == key(self.data@, before, x));
                        }
                    }
                    assert forall|k: int| 1 <= k < round implies #[trigger] joins_lightest(
                        self.data@,
                        order,
                        mst@,
                        k,
                    ) by {
                        assert(joins_lightest(self.data@, before, mst@, k));
                        assert(order.subrange(0, k) =~= before.subrange(0, k));
                    }
                }
                assert forall|x: int| 0 <= x < elems && !visited[x] implies old_weights[x] == key(
                    self.data@,
                    before,
                    x,
                ) by {}
            }
            let mut second_vertex: usize = 0;
            while second_vertex < elems
                invariant
                    second_vertex <= elems,
                    elems == self.data.len(),
                    0 < elems <= i32::MAX,
                    first_vertex < elems,
                    self.wf(),
                    weights.len() == elems,
                    mst.len() == elems,
                    visited.len() == elems,
                    old_weights.len() == elems,
                    old_mst.len() == elems,
                    visited[first_vertex as int],
                    visited[0],
                    order == before.push(first_vertex as int),
                    mst[0] == 0,
                    is_parent_array(mst@, elems as int),
                    is_parent_array(old_mst, elems as int),
                    forall|x: int| 0 <= x < elems && visited[x] ==> #[trigger] mst[x] == old_mst[x],
                    forall|x: int|
                        0 <= x < elems && !visited[x] ==> #[trigger] old_weights[x] == key(
                            self.data@,
                            before,
                            x,
                        ),
                    forall|x: int|
                        0 <= x < elems && !visited[x] && old_weights[x] < i32::MAX ==> hangs_on(
                            self.data@,
                            before,
                            x,
                            #[trigger] old_mst[x],
                            old_weights[x],
                        ),
                    forall|x: int|
                        second_vertex <= x < elems ==> #[trigger] weights[x] == old_weights[x],
                    forall|x: int| second_vertex <= x < elems ==> #[trigger] mst[x] == old_mst[x],
                    forall|x: int|
                        0 <= x < second_vertex && !visited[x] ==> #[trigger] weights[x] == key(
                            self.data@,
                            order,
                            x,
                        ),
                    forall|x: int|
                        0 <= x < second_vertex && !visited[x] && weights[x] < i32::MAX ==> hangs_on(
                            self.data@,
                            order,
                            x,
                            #[trigger] mst[x],
                            weights[x],
                        ),
                decreases elems - second_vertex,
            {
                proof {
                    assert(order.drop_last() =~= before);
                    assert(order.last() == first_vertex);
                    if !visited[second_vertex as int] {
                        assert(old_weights[second_vertex as int] == key(
                            self.data@,
                            before,
                            second_vertex as int,
                        ));
                        if old_weights[second_vertex as int] < i32::MAX {
                            lemma_still_hangs(
                                self.data@,
                                before,
                                first_vertex as int,
                                second_vertex as int,
                                old_mst[second_vertex as int],
                                old_weights[second_vertex as int],
                            );
                        }
                    }
                    assert(order[order.len() - 1] == first_vertex);
                }
                if self.data[first_vertex][second_vertex] > 0 && !visited[second_vertex]
                    && weights[second_vertex] > self.data[first_vertex][second_vertex] {
                    proof {
                        lemma_hangs_on_last(
                            self.data@,
                            before,
                            first_vertex as int,
                            second_vertex as int,
                        );
                    }
                    weights[second_vertex] = self.data[first_vertex][second_vertex];
                    mst[second_vertex] = first_vertex as i32;
                }
                second_vertex = second_vertex + 1;
            }
            proof {
                assert forall|k: int| 1 <= k < round + 1 implies #[trigger] joins_lightest(
                    self.data@,
                    order,
                    mst@,
                    k,
                ) by {
                    assert(joins_lightest(self.data@, order, old_mst, k));
                    let v = order[k];
                    assert(order.contains(v));
                    assert(visited[v]);
                }
            }
            round = round + 1;
        }
        let matrix = self.createConnectionMatrix(mst);
        proof {
            assert(is_grown_tree(self.data@, order, mst@));
        }
        matrix
    }
}

/// The vertex `x` hangs on the vertex `parent`, one of `order`, by an edge
/// of weight `weight`, and the step to `x` costs more from every vertex
/// that comes before `parent` in `order`.
pub open spec fn hangs_on(data: Seq<Vec<i32>>, order: Seq<int>, x: int, parent: i32, weight: i32) -> bool {
    &&& data[parent as int][x] == weight
    &&& weight > 0
    &&& exists|at: int| is_first_as_light(data, order, x, parent, weight, at)
}

/// The vertex `parent` is at the place `at` in `order`, and the step to
/// `x` costs more than `weight` from every vertex before that place.
pub open spec fn is_first_as_light(
    data: Seq<Vec<i32>>,
    order: Seq<int>,
    x: int,
    parent: i32,
    weight: i32,
    at: int,
) -> bool {
    &&& 0 <= at < order.len()
    &&& order[at] == parent as int
    &&& forall|j: int| 0 <= j < at ==> #[trigger] cost(data, order[j], x) > weight
}

/// A vertex that hangs on one of the vertices taken hangs on it when one
/// more is taken.
proof fn lemma_still_hangs(
    data: Seq<Vec<i32>>,
    before: Seq<int>,
    first: int,
    x: int,
    parent: i32,
    weight: i32,
)
    requires
        hangs_on(data, before, x, parent, weight),
    ensures
        hangs_on(data, before.push(first), x, parent, weight),
{
    let at = choose|at: int| is_first_as_light(data, before, x, parent, weight, at);
    let longer = before.push(first);
    assert(longer[at] == parent as int);
    assert forall|j: int| 0 <= j < at implies #[trigger] cost(data, longer[j], x) > weight by {
        assert(longer[j] == before[j]);
    }
    assert(is_first_as_light(data, longer, x, parent, weight, at));
}

/// A vertex to which the step from the vertex taken last is cheaper than
/// from any taken before hangs on the vertex taken last.
proof fn lemma_hangs_on_last(data: Seq<Vec<i32>>, before: Seq<int>, first: int, x: int)
    requires
        0 <= first <= i32::MAX,
        0 < data[first][x] < key(data, before, x),
    ensures
        hangs_on(data, before.push(first), x, first as i32, data[first][x]),
{
    let longer = before.push(first);
    let at = before.len() as int;
    assert(longer[at] == first);
    assert forall|j: int| 0 <= j < at implies #[trigger] cost(data, longer[j], x) > data[first][x] by {
        assert(longer[j] == before[j]);
        lemma_key_is_least(data, before, x, j);
    }
    assert(is_first_as_light(data, longer, x, first as i32, data[first][x], at));
}

/// Taking one more vertex, which was not taken, keeps the account of the
/// vertices taken.
proof fn lemma_taken(
    old_visited: Seq<bool>,
    visited: Seq<bool>,
    before: Seq<int>,
    order: Seq<int>,
    first: int,
)
    requires
        0 <= first < old_visited.len(),
        !old_visited[first],
        visited == old_visited.update(first, true),
        order == before.push(first),
        before.no_duplicates(),
        forall|x: int| 0 <= x < old_visited.len() ==> (#[trigger] old_visited[x] <==> before.contains(x)),
    ensures
        order.no_duplicates(),
        forall|x: int| 0 <= x < visited.len() ==> (#[trigger] visited[x] <==> order.contains(x)),
{
    assert forall|x: int| 0 <= x < visited.len() implies (#[trigger] visited[x] <==> order.contains(
        x,
    )) by {
        if x == first {
            assert(order[order.len() - 1] == x);
        } else if old_visited[x] {
            let j = choose|j: int| 0 <= j < before.len() && before[j] == x;
            assert(order[j] == x);
        } else if order.contains(x) {
            let j = choose|j: int| 0 <= j < order.len() && order[j] == x;
            assert(before[j] == x);
        }
    }
    assert forall|a: int, b: int|
        0 <= a < order.len() && 0 <= b < order.len() && a != b implies order[a] != order[b] by {
        if a == before.len() {
            assert(before[b] == order[b]);
            assert(before.contains(order[b]));
        } else if b == before.len() {
            assert(before[a] == order[a]);
            assert(before.contains(order[a]));
        } else {
            assert(before[a] != before[b]);
        }
    }
}

/// With no vertex to step from, the least cost is the largest weight
/// there is.
proof fn lemma_key_of_none(data: Seq<Vec<i32>>, x: int)
    ensures
        key(data, Seq::<int>::empty(), x) == i32::MAX,
{
}

/// Fewer vertices taken than there are vertices leaves a vertex not taken.
proof fn lemma_someone_left(visited: Seq<bool>, order: Seq<int>, n: int)
    requires
        visited.len() == n,
        order.len() < n,
        order.no_duplicates(),
        forall|k: int| 0 <= k < order.len() ==> 0 <= #[trigger] order[k] < n,
        forall|x: int| 0 <= x < n ==> (#[trigger] visited[x] <==> order.contains(x)),
    ensures
        visited.contains(false),
{
    if !visited.contains(false) {
        assert forall|x: int| 0 <= x < n implies order.contains(x) by {
            if !visited[x] {
                assert(visited.contains(false));
            }
        }
        let all = Set::new(|x: int| 0 <= x < n);
        let taken = order.to_set();
        assert(all.subset_of(taken)) by {
            assert forall|x: int| all.contains(x) implies taken.contains(x) by {
                assert(order.contains(x));
            }
        }
        lemma_range_size(n);
        order.unique_seq_to_set();
        vstd::set_lib::lemma_len_subset(all, taken);
    }
}

/// There are `n` numbers from zero up to `n`.
proof fn lemma_range_size(n: int)
    requires
        n >= 0,
    ensures
        Set::new(|x: int| 0 <= x < n).finite(),
        Set::new(|x: int| 0 <= x < n).len() == n,
    decreases n,
{
    let s = Set::new(|x: int| 0 <= x < n);
    if n == 0 {
        assert(s =~= Set::<int>::empty());
    } else {
        lemma_range_size(n - 1);
        let smaller = Set::new(|x: int| 0 <= x < n - 1);
        assert(s =~= smaller.insert(n - 1));
    }
}

} // verus!
