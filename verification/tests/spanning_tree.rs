use lockfree_vector::prims_mst::Graph;
use lockfree_vector::spanning_tree::create_connection_matrix;

fn test_data() -> Vec<Vec<i32>> {
    vec![
        vec![0, 2, 0, 6, 0],
        vec![2, 0, 3, 8, 5],
        vec![0, 3, 0, 0, 7],
        vec![6, 8, 0, 0, 9],
        vec![0, 5, 7, 9, 0],
    ]
}

fn test_data_solved() -> Vec<Vec<i32>> {
    vec![
        vec![0, 2, 0, 6, 0],
        vec![2, 0, 3, 0, 5],
        vec![0, 3, 0, 0, 0],
        vec![6, 0, 0, 0, 0],
        vec![0, 5, 0, 0, 0],
    ]
}

#[test]
fn prim_grows_the_lightest_tree() {
    let g = Graph::new(test_data());
    assert_eq!(g.calculateMST(), test_data_solved());
}

#[test]
fn prim_on_a_single_vertex() {
    let g = Graph::new(vec![vec![0]]);
    assert_eq!(g.calculateMST(), vec![vec![0]]);
}

#[test]
fn prim_breaks_ties_by_the_first_vertex() {
    let g = Graph::new(vec![vec![0, 1, 1], vec![1, 0, 1], vec![1, 1, 0]]);
    assert_eq!(g.calculateMST(), vec![vec![0, 1, 1], vec![1, 0, 0], vec![1, 0, 0]]);
}

#[test]
fn find_next_vertex_takes_the_lightest_unvisited() {
    let g = Graph::new(test_data());
    let weights = vec![0, 2, i32::MAX, 6, 2];
    assert_eq!(g.findNextVertex(&weights, &vec![false; 5]), 0);
    assert_eq!(g.findNextVertex(&weights, &vec![true, false, false, false, false]), 1);
    assert_eq!(g.findNextVertex(&weights, &vec![true, true, false, false, false]), 4);
    assert_eq!(g.findNextVertex(&weights, &vec![true, true, false, false, true]), 3);
}

#[test]
fn connection_matrix_shows_each_parent_edge_twice() {
    let data = test_data();
    let matrix = create_connection_matrix(&data, &vec![0, 0, 1, 0, 1]);
    assert_eq!(matrix, test_data_solved());
    let g = Graph::new(test_data());
    assert_eq!(g.createConnectionMatrix(vec![0, 0, 1, 0, 1]), test_data_solved());
    let skewed = vec![vec![1, 2], vec![3, 4]];
    assert_eq!(create_connection_matrix(&skewed, &vec![1, 0]), vec![vec![0, 3], vec![3, 0]]);
    assert_eq!(create_connection_matrix(&skewed, &vec![0, 1]), vec![vec![1, 0], vec![0, 4]]);
}

#[test]
fn kruskal_puts_the_lightest_tree_together() {
    let g = lockfree_vector::kruskals_minimum_spanning_tree::Graph::new(test_data());
    assert_eq!(g.calculateMST(), test_data_solved());
    assert_eq!(g.createConnectionMatrix(vec![0, 0, 1, 0, 1]), test_data_solved());
}

#[test]
fn kruskal_on_small_graphs() {
    let g = lockfree_vector::kruskals_minimum_spanning_tree::Graph::new(vec![vec![0]]);
    assert_eq!(g.calculateMST(), vec![vec![0]]);
    let g = lockfree_vector::kruskals_minimum_spanning_tree::Graph::new(vec![vec![0, 4], vec![4, 0]]);
    assert_eq!(g.calculateMST(), vec![vec![0, 4], vec![4, 0]]);
    // Equally heavy edges are looked at by rows: (0,1), (0,2), then (1,2),
    // which the trees known at its ends no longer allow.
    let g = lockfree_vector::kruskals_minimum_spanning_tree::Graph::new(vec![
        vec![0, 1, 1],
        vec![1, 0, 1],
        vec![1, 1, 0],
    ]);
    assert_eq!(g.calculateMST(), vec![vec![0, 1, 1], vec![1, 0, 0], vec![1, 0, 0]]);
}

#[test]
fn boruvka_puts_the_lightest_tree_together() {
    let g = lockfree_vector::boruvka_mst::Graph::new(test_data());
    assert_eq!(g.try_calculate_mst(), Some(test_data_solved()));
    assert_eq!(g.calculateMST(), test_data_solved());
}

#[test]
fn boruvka_gives_up_without_edges() {
    let g = lockfree_vector::boruvka_mst::Graph::new(vec![vec![0, 0], vec![0, 0]]);
    assert_eq!(g.try_calculate_mst(), None);
    let g = lockfree_vector::boruvka_mst::Graph::new(vec![
        vec![0, 1, 0],
        vec![1, 0, 0],
        vec![0, 0, 0],
    ]);
    assert_eq!(g.try_calculate_mst(), None);
}

#[test]
fn boruvka_helpers() {
    let g = lockfree_vector::boruvka_mst::Graph::new(test_data());
    let mut visited = vec![vec![false; 5]; 5];
    assert_eq!(g.findNextMinimumEdge(1, &visited), 0);
    visited[1][0] = true;
    assert_eq!(g.findNextMinimumEdge(1, &visited), 2);
    visited[1][2] = true;
    assert_eq!(g.findNextMinimumEdge(1, &visited), 4);
    assert_eq!(g.findNextMinimumEdge(3, &visited), 0);
    assert!(g.isFinished(&vec![0, 0, 1, 0, 1]));
    assert!(!g.isFinished(&vec![0, 2, 1, 0, 1]));
    assert!(!g.isFinished(&vec![0, 0, 1, 3, 1]));
    let mut seen = vec![false; 5];
    assert!(g.reaches_first_node(&vec![0, 0, 1, 0, 1], 2, &mut seen));
    assert_eq!(seen, vec![false, true, true, false, false]);
    let mut seen = vec![false; 5];
    assert!(!g.reaches_first_node(&vec![0, 2, 1, 0, 1], 4, &mut seen));
    assert_eq!(seen, vec![false, true, true, false, true]);
    let mut seen = vec![false, false, true, false, false];
    assert!(!g.reaches_first_node(&vec![0, 0, 1, 0, 1], 2, &mut seen));
}
