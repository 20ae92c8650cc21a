//! Weighted graphs given by a square matrix of weights, in which a weight
//! above zero is an edge, and the matrix that shows the edges of a tree.
use vstd::prelude::*;

verus! {

/// The matrix has as many rows as columns.
pub open spec fn is_square(data: Seq<Vec<i32>>) -> bool {
    forall|i: int| 0 <= i < data.len() ==> (#[trigger] data[i]).len() == data.len()
}

/// What a step from `u` to `v` costs: the weight of the edge, or the
/// largest weight there is where there is no edge.
pub open spec fn cost(data: Seq<Vec<i32>>, u: int, v: int) -> i32 {
    if data[u][v] > 0 {
        data[u][v]
    } else {
        i32::MAX
    }
}

/// `parents` gives every vertex a vertex.
pub open spec fn is_parent_array(parents: Seq<i32>, n: int) -> bool {
    &&& parents.len() == n
    &&& forall|i: int| 0 <= i < n ==> 0 <= #[trigger] parents[i] < n
}

/// The entry at `a`, `b` of the matrix that shows the edges between each
/// of the first `k` vertices and its parent, in both directions. Where
/// two vertices are each other's parent, the weight comes from the row of
/// the larger one.
pub open spec fn connection(data: Seq<Vec<i32>>, parents: Seq<i32>, k: int, a: int, b: int) -> i32 {
    let from_a = a < k && parents[a] == b;
    let from_b = b < k && parents[b] == a;
    if from_a && (!from_b || a >= b) {
        data[a][b]
    } else if from_b {
        data[b][a]
    } else {
        0
    }
}

/// `matrix` shows the edges between each vertex and its parent, and
/// nothing else.
pub open spec fn is_connection_matrix(
    matrix: Seq<Vec<i32>>,
    data: Seq<Vec<i32>>,
    parents: Seq<i32>,
) -> bool {
    &&& matrix.len() == data.len()
    &&& is_square(matrix)
    &&& forall|a: int, b: int|
        0 <= a < data.len() && 0 <= b < data.len() ==> #[trigger] matrix[a][b] == connection(
            data,
            parents,
            data.len() as int,
            a,
            b,
        )
}

/// A square matrix of zeros with `n` rows.
fn zero_matrix(n: usize) -> (matrix: Vec<Vec<i32>>)
    ensures
        matrix.len() == n,
        is_square(matrix@),
        forall|a: int, b: int| 0 <= a < n && 0 <= b < n ==> #[trigger] matrix[a][b] == 0,
{
    let mut matrix: Vec<Vec<i32>> = Vec::new();
    let mut i: usize = 0;
    while i < n
        invariant
            i <= n,
            matrix.len() == i,
            forall|a: int| 0 <= a < i ==> (#[trigger] matrix[a]).len() == n,
            forall|a: int, b: int| 0 <= a < i && 0 <= b < n ==> #[trigger] matrix[a][b] == 0,
        decreases n - i,
    {
        matrix.push(vec![0i32; n]);
        i = i + 1;
    }
    matrix
}

/// The matrix that shows, of the graph `data`, the edges between each
/// vertex and its parent in `mst`, with their weights, in both directions.
pub fn create_connection_matrix(data: &Vec<Vec<i32>>, mst: &Vec<i32>) -> (matrix: Vec<Vec<i32>>)
    requires
        is_square(data@),
        is_parent_array(mst@, data.len() as int),
    ensures
        is_connection_matrix(matrix@, data@, mst@),
{
    let n = data.len();
    let mut connection_matrix = zero_matrix(n);
    let mut idx1: usize = 0;
    while idx1 < n
        invariant
            idx1 <= n,
            n == data.len(),
            is_square(data@),
            is_parent_array(mst@, n as int),
            connection_matrix.len() == n,
            is_square(connection_matrix@),
            forall|a: int, b: int|
                0 <= a < n && 0 <= b < n ==> #[trigger] connection_matrix[a][b] == connection(
                    data@,
                    mst@,
                    idx1 as int,
                    a,
                    b,
                ),
        decreases n - idx1,
    {
        let idx2 = mst[idx1] as usize;
        let ghost before = connection_matrix@;
        let weight = data[idx1][idx2];
        connection_matrix[idx1][idx2] = weight;
        connection_matrix[idx2][idx1] = weight;
        proof {
            assert forall|a: int, b: int| 0 <= a < n && 0 <= b < n implies #[trigger] connection_matrix[a][b]
                == connection(data@, mst@, idx1 + 1, a, b) by {
                assert(before[a][b] == connection(data@, mst@, idx1 as int, a, b));
            }
            assert forall|i: int| 0 <= i < connection_matrix.len() implies (
            #[trigger] connection_matrix[i]).len() == n by {
                assert(before[i].len() == n);
            }
        }
        idx1 = idx1 + 1;
    }
    connection_matrix
}

} // verus!
