//! A tree put together in rounds: in each round every vertex in turn takes
//! the lightest of its edges that it has not tried before.
use vstd::prelude::*;
use crate::spanning_tree::{
    create_connection_matrix, is_connection_matrix, is_parent_array, is_square,
};

verus! {

/// A weighted graph, given by its matrix of weights.
pub struct Graph {
    pub data: Vec<Vec<i32>>,
}

/// The edge from a vertex with the weights `row` to `v2` can be tried: it
/// is an edge, lighter than the largest weight there is, and has not been
/// tried.
pub open spec fn can_try(row: Seq<i32>, tried: Seq<bool>, v2: int) -> bool {
    0 <= v2 < row.len() && 0 < row[v2] < i32::MAX && !tried[v2]
}

/// `v2` is the first among the lightest edges that can be tried.
pub open spec fn is_next_edge(row: Seq<i32>, tried: Seq<bool>, v2: int) -> bool {
    &&& can_try(row, tried, v2)
    &&& forall|x: int| can_try(row, tried, x) ==> row[v2] <= #[trigger] row[x]
    &&& forall|x: int| can_try(row, tried, x) && x < v2 ==> row[v2] < #[trigger] row[x]
}

/// The number of places that are not set.
pub open spec fn count_unset(s: Seq<bool>) -> nat
    decreases s.len(),
{
    if s.len() == 0 {
        0
    } else if s.last() {
        count_unset(s.drop_last())
    } else {
        count_unset(s.drop_last()) + 1
    }
}

/// Setting a place that is not set leaves one place less that is not set.
pub proof fn lemma_set_one(s: Seq<bool>, i: int)
    requires
        0 <= i < s.len(),
        !s[i],
    ensures
        count_unset(s.update(i, true)) + 1 == count_unset(s),
    decreases s.len(),
{
    if i == s.len() - 1 {
        assert(s.update(i, true).drop_last() =~= s.drop_last());
    } else {
        lemma_set_one(s.drop_last(), i);
        assert(s.update(i, true).drop_last() =~= s.drop_last().update(i, true));
    }
}

/// Following the parents from `vert` leads to the first vertex before it
/// leads to a vertex that is marked or comes again.
pub open spec fn reaches_first(parents: Seq<i32>, vert: int, visited: Seq<bool>) -> bool
    decreases count_unset(visited),
    when 0 <= vert < visited.len() && is_parent_array(parents, visited.len() as int)
    via reaches_first_decreases
{
    if vert == 0 {
        true
    } else if !visited[vert] {
        reaches_first(parents, parents[vert] as int, visited.update(vert, true))
    } else {
        false
    }
}

#[via_fn]
proof fn reaches_first_decreases(parents: Seq<i32>, vert: int, visited: Seq<bool>) {
    if vert != 0 && !visited[vert] {
        lemma_set_one(visited, vert);
    }
}

/// No vertex of `n` is marked.
pub open spec fn unmarked(n: nat) -> Seq<bool> {
    Seq::new(n, |x: int| false)
}

/// From every vertex the parents lead to the first vertex.
pub open spec fn is_finished(parents: Seq<i32>) -> bool {
    forall|v: int|
        1 <= v < parents.len() ==> #[trigger] reaches_first(parents, v, unmarked(parents.len()))
}

/// What is known while the tree is put together: a parent for each vertex,
/// and for each vertex the edges that it has tried.
pub struct Progress {
    pub parents: Seq<i32>,
    pub tried: Seq<Seq<bool>>,
}

/// The progress before any edge is tried.
pub open spec fn start_progress(n: nat) -> Progress {
    Progress {
        parents: Seq::new(n, |v: int| 0i32),
        tried: Seq::new(n, |v: int| Seq::new(n, |x: int| false)),
    }
}

/// The progress once the vertex `v` has tried the edge to `v2`: the edge
/// is tried, and `v` gets `v2` for a parent if it has the first vertex for
/// its parent, else `v2` gets `v`.
pub open spec fn try_edge(p: Progress, v: int, v2: int) -> Progress {
    Progress {
        parents: if p.parents[v] == 0 {
            p.parents.update(v, v2 as i32)
        } else {
            p.parents.update(v2, v as i32)
        },
        tried: p.tried.update(v, p.tried[v].update(v2, true)),
    }
}

/// The progress has a parent and a row of edges tried for each of `n`
/// vertices.
pub open spec fn is_progress(p: Progress, n: int) -> bool {
    &&& is_parent_array(p.parents, n)
    &&& p.tried.len() == n
    &&& forall|v: int| 0 <= v < n ==> (#[trigger] p.tried[v]).len() == n
}

/// The progress once each of the vertices from `from` on has taken its
/// turn in a round, or nothing if one of them has no edge left to try.
pub open spec fn round_from(data: Seq<Vec<i32>>, p: Progress, from: int) -> Option<Progress>
    decreases data.len() - from,
{
    if from >= data.len() {
        Some(p)
    } else if exists|v2: int| is_next_edge(data[from]@, p.tried[from], v2) {
        let v2 = choose|v2: int| is_next_edge(data[from]@, p.tried[from], v2);
        round_from(data, try_edge(p, from, v2), from + 1)
    } else {
        None
    }
}

/// The parents once rounds have been played until the parents lead from
/// every vertex to the first, or nothing if a vertex had no edge left to
/// try or `rounds` rounds did not do.
pub open spec fn play(data: Seq<Vec<i32>>, p: Progress, rounds: nat) -> Option<Seq<i32>>
    decreases rounds,
{
    if rounds == 0 {
        None
    } else {
        match round_from(data, p, 0) {
            Some(q) => if is_finished(q.parents) {
                Some(q.parents)
            } else {
                play(data, q, (rounds - 1) as nat)
            },
            None => None,
        }
    }
}

/// There is one first among the lightest edges that can be tried.
proof fn lemma_next_edge_unique(row: Seq<i32>, tried: Seq<bool>, a: int, b: int)
    requires
        is_next_edge(row, tried, a),
        is_next_edge(row, tried, b),
    ensures
        a == b,
{
}

impl Graph {
    /// The matrix is square.
    pub open spec fn wf(&self) -> bool {
        is_square(self.data@)
    }

    /// The graph with weights `data`.
    pub fn new(data: Vec<Vec<i32>>) -> (g: Graph)
        ensures
            g.data == data,
    {
        Graph { data: data }
    }

    /// The matrix that shows the edges between each vertex and its parent
    /// in `mst`, with their weights, in both directions.
    #[allow(non_snake_case)]
    pub fn createConnectionMatrix(&self, mst: Vec<i32>) -> (matrix: Vec<Vec<i32>>)
        requires
            self.wf(),
            is_parent_array(mst@, self.data.len() as int),
        ensures
            is_connection_matrix(matrix@, self.data@, mst@),
    {
        create_connection_matrix(&self.data, &mst)
    }

    /// Whether the parents `mst` lead from every vertex to the first.
    #[allow(non_snake_case)]
    pub fn isFinished(&self, mst: &Vec<i32>) -> (r: bool)
        requires
            is_parent_array(mst@, self.data.len() as int),
        ensures
            r == is_finished(mst@),
    {
        let n = self.data.len();
        let mut v2: usize = 1;
        while v2 < n
            invariant
                1 <= v2,
                n == self.data.len(),
                is_parent_array(mst@, n as int),
                forall|v: int| 1 <= v < v2 ==> #[trigger] reaches_first(mst@, v, unmarked(n as nat)),
            decreases n - v2,
        {
            let mut visited = vec![false; n];
            proof {
                assert(visited@ =~= unmarked(n as nat));
            }
            let ok = self.reaches_first_node(mst, v2, &mut visited);
            if !ok {
                return false;
            }
            v2 = v2 + 1;
        }
        true
    }

    /// Whether the parents `mst` lead from `vert` to the first vertex
    /// before they lead to a vertex that is marked in `visited` or comes
    /// again. The vertices passed are marked.
    pub fn reaches_first_node(&self, mst: &Vec<i32>, vert: usize, visited: &mut Vec<bool>) -> (r:
        bool)
        requires
            vert < old(visited).len(),
            is_parent_array(mst@, old(visited).len() as int),
        ensures
            r == reaches_first(mst@, vert as int, old(visited)@),
            final(visited).len() == old(visited).len(),
        decreases count_unset(old(visited)@),
    {
        if vert == 0 {
            return true;
        }
        if !visited[vert] {
            proof {
                lemma_set_one(visited@, vert as int);
            }
            visited[vert] = true;
            return self.reaches_first_node(mst, mst[vert] as usize, visited);
        }
        return false;
    }

    /// The first among the lightest edges of `v1` that have not been tried,
    /// if there is one.
    fn next_minimum_edge(&self, v1: usize, visited: &Vec<Vec<bool>>) -> (r: Option<usize>)
        requires
            self.wf(),
            v1 < self.data.len(),
            visited.len() == self.data.len(),
            visited[v1 as int].len() == self.data.len(),
        ensures
            match r {
                Some(v2) => is_next_edge(self.data[v1 as int]@, visited[v1 as int]@, v2 as int),
                None => forall|x: int| !can_try(self.data[v1 as int]@, visited[v1 as int]@, x),
            },
    {
        let mut min_index: Option<usize> = None;
        let mut best_weight = i32::MAX;
        let mut v2: usize = 0;
        let ghost row = self.data[v1 as int]@;
        let ghost tried = visited[v1 as int]@;
        while v2 < self.data.len()
            invariant
                v2 <= self.data.len(),
                self.wf(),
                v1 < self.data.len(),
                visited.len() == self.data.len(),
                visited[v1 as int].len() == self.data.len(),
                row == self.data[v1 as int]@,
                tried == visited[v1 as int]@,
                row.len() == self.data.len(),
                min_index.is_none() ==> best_weight == i32::MAX && forall|x: int|
                    0 <= x < v2 ==> !can_try(row, tried, x),
                min_index.is_some() ==> {
                    &&& min_index.unwrap() < v2
                    &&& can_try(row, tried, min_index.unwrap() as int)
                    &&& best_weight == row[min_index.unwrap() as int]
                    &&& forall|x: int|
                        0 <= x < v2 && can_try(row, tried, x) ==> best_weight <= #[trigger] row[x]
                    &&& forall|x: int|
                        0 <= x < min_index.unwrap() && can_try(row, tried, x) ==> best_weight
                            < #[trigger] row[x]
                },
            decreases self.data.len() - v2,
        {
            if self.data[v1][v2] < best_weight && !visited[v1][v2] && self.data[v1][v2] > 0 {
                min_index = Some(v2);
                best_weight = self.data[v1][v2];
            }
            v2 = v2 + 1;
        }
        min_index
    }

    /// The first among the lightest edges of `v1` that can be tried.
    #[allow(non_snake_case)]
    pub fn findNextMinimumEdge(&self, v1: usize, visited: &Vec<Vec<bool>>) -> (r: usize)
        requires
            self.wf(),
            v1 < self.data.len(),
            visited.len() == self.data.len(),
            visited[v1 as int].len() == self.data.len(),
            exists|x: int| can_try(self.data[v1 as int]@, visited[v1 as int]@, x),
        ensures
            is_next_edge(self.data[v1 as int]@, visited[v1 as int]@, r as int),
    {
        let min_index = self.next_minimum_edge(v1, visited);
        proof {
            if min_index.is_none() {
                let x = choose|x: int| can_try(self.data[v1 as int]@, visited[v1 as int]@, x);
                assert(!can_try(self.data[v1 as int]@, visited[v1 as int]@, x));
            }
        }
        min_index.unwrap()
    }
}

/// The progress `p` is what `mst` and `visited` hold.
pub open spec fn holds_progress(p: Progress, mst: Seq<i32>, visited: Seq<Vec<bool>>) -> bool {
    &&& p.parents == mst
    &&& p.tried.len() == visited.len()
    &&& forall|v: int| 0 <= v < visited.len() ==> (#[trigger] visited[v])@ == p.tried[v]
}

/// Trying an edge leaves progress.
proof fn lemma_try_edge(p: Progress, v: int, v2: int, n: int)
    requires
        is_progress(p, n),
        0 <= v < n,
        0 <= v2 < n,
        n <= i32::MAX,
    ensures
        is_progress(try_edge(p, v, v2), n),
{
    let q = try_edge(p, v, v2);
    assert forall|x: int| 0 <= x < n implies (#[trigger] q.tried[x]).len() == n by {
        assert(p.tried[x].len() == n);
    }
}

impl Graph {
    /// Lets each vertex in turn try the first among the lightest of its
    /// edges that it can try. Tells whether every vertex had one.
    fn play_round(&self, mst: &mut Vec<i32>, visited: &mut Vec<Vec<bool>>, Ghost(p): Ghost<
        Progress,
    >) -> (r: (bool, Ghost<Progress>))
        requires
            self.wf(),
            0 < self.data.len() <= i32::MAX,
            is_progress(p, self.data.len() as int),
            holds_progress(p, old(mst)@, old(visited)@),
        ensures
            r.0 == round_from(self.data@, p, 0).is_some(),
            r.0 ==> round_from(self.data@, p, 0) == Some(r.1@) && is_progress(
                r.1@,
                self.data.len() as int,
            ) && holds_progress(r.1@, final(mst)@, final(visited)@),
    {
        let n = self.data.len();
        let ghost mut q = p;
        let mut v: usize = 0;
        while v < n
            invariant
                v <= n,
                n == self.data.len(),
                0 < n <= i32::MAX,
                self.wf(),
                is_progress(q, n as int),
                holds_progress(q, mst@, visited@),
                round_from(self.data@, p, 0) == round_from(self.data@, q, v as int),
            decreases n - v,
        {
            proof {
                assert(visited[v as int]@ == q.tried[v as int]);
                assert(q.tried[v as int].len() == n);
            }
            let v2 = match self.next_minimum_edge(v, visited) {
                Some(v2) => v2,
                None => {
                    return (false, Ghost(q));
                },
            };
            proof {
                let chosen = choose|x: int| is_next_edge(self.data[v as int]@, q.tried[v as int], x);
                lemma_next_edge_unique(self.data[v as int]@, q.tried[v as int], chosen, v2 as int);
                lemma_try_edge(q, v as int, v2 as int, n as int);
            }
            let ghost before = visited@;
            visited[v][v2] = true;
            if mst[v] == 0 {
                mst[v] = v2 as i32;
            } else {
                mst[v2] = v as i32;
            }
            proof {
                let next = try_edge(q, v as int, v2 as int);
                assert(mst@ =~= next.parents);
                assert forall|x: int| 0 <= x < visited.len() implies (#[trigger] visited[x])@
                    == next.tried[x] by {
                    assert(before[x]@ == q.tried[x]);
                }
                q = next;
            }
            v = v + 1;
        }
        (true, Ghost(q))
    }

    /// Plays rounds until the parents lead from every vertex to the first;
    /// gives up when a vertex has no edge left to try, or after as many
    /// rounds as there are vertices.
    fn play_rounds(&self) -> (r: Option<Vec<i32>>)
        requires
            self.wf(),
            0 < self.data.len() <= i32::MAX,
        ensures
            match r {
                Some(mst) => play(
                    self.data@,
                    start_progress(self.data.len() as nat),
                    self.data.len() as nat,
                ) == Some(mst@) && is_parent_array(mst@, self.data.len() as int),
                None => play(
                    self.data@,
                    start_progress(self.data.len() as nat),
                    self.data.len() as nat,
                ).is_none(),
            },
    {
        let elems = self.data.len();
        let mut mst = vec![0i32; elems];
        let mut visited: Vec<Vec<bool>> = Vec::new();
        let mut row: usize = 0;
        while row < elems
            invariant
                row <= elems,
                visited.len() == row,
                forall|v: int| 0 <= v < row ==> (#[trigger] visited[v])@ =~= Seq::new(
                    elems as nat,
                    |x: int| false,
                ),
            decreases elems - row,
        {
            visited.push(vec![false; elems]);
            row = row + 1;
        }
        let ghost start = start_progress(elems as nat);
        let ghost mut p = start;
        let mut rounds: usize = elems;
        proof {
            assert(mst@ =~= start.parents);
        }
        while rounds > 0
            invariant
                elems == self.data.len(),
                0 < elems <= i32::MAX,
                self.wf(),
                rounds <= elems,
                start == start_progress(elems as nat),
                is_progress(p, elems as int),
                holds_progress(p, mst@, visited@),
                play(self.data@, start, elems as nat) == play(self.data@, p, rounds as nat),
            decreases rounds,
        {
            let ghost before = p;
            let (played, next) = self.play_round(&mut mst, &mut visited, Ghost(p));
            if !played {
                proof {
                    assert(round_from(self.data@, before, 0).is_none());
                    assert(play(self.data@, before, rounds as nat).is_none());
                }
                return None;
            }
            proof {
                p = next@;
                assert(round_from(self.data@, before, 0) == Some(p));
            }
            if self.isFinished(&mst) {
                proof {
                    assert(play(self.data@, before, rounds as nat) == Some(p.parents));
                }
                return Some(mst);
            }
            proof {
                assert(play(self.data@, before, rounds as nat) == play(
                    self.data@,
                    p,
                    (rounds - 1) as nat,
                ));
            }
            rounds = rounds - 1;
        }
        None
    }

    /// The edges of the tree that the rounds put together, if the rounds
    /// come to an end: in each round every vertex in turn tries the first
    /// among the lightest of its edges that it can try, and gets the other
    /// end for a parent if it has the first vertex for its parent, else
    /// the other end gets it. The rounds end when the parents lead from
    /// every vertex to the first vertex.
    pub fn try_calculate_mst(&self) -> (r: Option<Vec<Vec<i32>>>)
        requires
            self.wf(),
            0 < self.data.len() <= i32::MAX,
        ensures
            match r {
                Some(matrix) => {
                    let parents = play(
                        self.data@,
                        start_progress(self.data.len() as nat),
                        self.data.len() as nat,
                    );
                    parents.is_some() && is_connection_matrix(matrix@, self.data@, parents.unwrap())
                },
                None => play(
                    self.data@,
                    start_progress(self.data.len() as nat),
                    self.data.len() as nat,
                ).is_none(),
            },
    {
        match self.play_rounds() {
            Some(mst) => Some(self.createConnectionMatrix(mst)),
            None => None,
        }
    }

    /// The edges of the tree that the rounds put together, for a graph on
    /// which the rounds come to an end.
    #[allow(non_snake_case)]
    pub fn calculateMST(&self) -> (matrix: Vec<Vec<i32>>)
        requires
            self.wf(),
            0 < self.data.len() <= i32::MAX,
            play(
                self.data@,
                start_progress(self.data.len() as nat),
                self.data.len() as nat,
            ).is_some(),
        ensures
            is_connection_matrix(
                matrix@,
                self.data@,
                play(
                    self.data@,
                    start_progress(self.data.len() as nat),
                    self.data.len() as nat,
                ).unwrap(),
            ),
    {
        let mst = self.play_rounds().unwrap();
        self.createConnectionMatrix(mst)
    }
}

} // verus!
