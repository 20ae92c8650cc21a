use lockfree_vector::distributed_ghs_mst::{
    EdgeState, Graph, MessageRequest, Node, Reaction, RequestType,
};

fn test_data2() -> Vec<Vec<usize>> {
    vec![vec![0, 1, 3], vec![1, 0, 2], vec![3, 2, 0]]
}

#[test]
fn graph_new_keeps_the_matrix_and_has_no_nodes() {
    let graph = Graph::new(test_data2());
    assert_eq!(graph.data, test_data2());
    assert!(graph.nodes.is_empty());
}

#[test]
fn init_makes_one_node_per_row() {
    let mut graph = Graph::new(test_data2());
    graph.init();
    assert_eq!(graph.nodes.len(), 3);
    for (i, node) in graph.nodes.iter().enumerate() {
        assert_eq!(node.id, i);
        assert_eq!(node.vertices, test_data2()[i]);
        assert_eq!(node.states, vec![EdgeState::Basic; 3]);
    }
}

#[test]
fn default_edge_state_is_basic() {
    assert_eq!(EdgeState::default(), EdgeState::Basic);
}

#[test]
fn find_min_edge_takes_the_lightest_basic_edge() {
    let mut node = Node::new(1, vec![2, 0, 3, 8, 5]);
    assert_eq!(node.find_min_edge(), 0);
    node.states[0] = EdgeState::Branch;
    assert_eq!(node.find_min_edge(), 2);
    node.states[2] = EdgeState::Rejected;
    assert_eq!(node.find_min_edge(), 4);
    let tie = Node::new(0, vec![0, 4, 4, 9]);
    assert_eq!(tie.find_min_edge(), 1);
}

#[test]
fn has_pending_and_is_done_follow_the_states() {
    let mut node = Node::new(0, vec![0, 1, 0]);
    assert!(!node.has_pending());
    assert!(!node.is_done());
    node.states[1] = EdgeState::Requested;
    assert!(node.has_pending());
    assert!(!node.is_done());
    node.states[1] = EdgeState::Branch;
    assert!(!node.has_pending());
    assert!(node.is_done());
    let lonely = Node::new(0, vec![0, 0]);
    assert!(lonely.is_done());
}

#[test]
fn propose_requests_one_edge_at_a_time() {
    let mut node = Node::new(2, vec![3, 2, 0]);
    let first = node.propose(4);
    assert_eq!(
        first,
        Some(MessageRequest { to: 1, from: 2, level: 4, req: RequestType::Search })
    );
    assert_eq!(node.states, vec![EdgeState::Basic, EdgeState::Requested, EdgeState::Basic]);
    assert_eq!(node.propose(4), None);
    assert_eq!(node.states, vec![EdgeState::Basic, EdgeState::Requested, EdgeState::Basic]);
}

fn search(to: usize, from: usize, level: usize) -> MessageRequest {
    MessageRequest { to, from, level, req: RequestType::Search }
}

#[test]
fn receive_ignores_requests_for_others() {
    let mut node = Node::new(0, vec![0, 1, 3]);
    let r = node.receive(2, search(1, 2, 0));
    assert_eq!(r, Reaction { level: 2, send: None });
    assert_eq!(node.states, vec![EdgeState::Basic; 3]);
}

#[test]
fn receive_merges_at_equal_levels() {
    let mut node = Node::new(0, vec![0, 1, 3]);
    node.propose(0);
    let r = node.receive(0, search(0, 1, 0));
    assert_eq!(r, Reaction { level: 1, send: None });
    assert_eq!(node.states[1], EdgeState::Branch);
}

#[test]
fn receive_absorbs_a_lower_level() {
    let mut node = Node::new(0, vec![0, 1, 3]);
    node.propose(3);
    let r = node.receive(3, search(0, 1, 1));
    assert_eq!(
        r,
        Reaction {
            level: 3,
            send: Some(MessageRequest { to: 1, from: 0, level: 3, req: RequestType::Absorb }),
        }
    );
    assert_eq!(node.states[1], EdgeState::Branch);
}

#[test]
fn receive_waits_on_a_higher_level() {
    let mut node = Node::new(0, vec![0, 1, 3]);
    node.propose(1);
    let r = node.receive(1, search(0, 1, 2));
    assert_eq!(r, Reaction { level: 1, send: None });
    assert_eq!(node.states[1], EdgeState::Requested);
}

#[test]
fn receive_passes_on_a_search_over_an_unrequested_edge() {
    let mut node = Node::new(0, vec![0, 1, 3]);
    let msg = search(0, 2, 0);
    let r = node.receive(0, msg);
    assert_eq!(r, Reaction { level: 0, send: Some(msg) });
    assert_eq!(node.states, vec![EdgeState::Basic; 3]);
}

#[test]
fn receive_absorb_and_reject() {
    let mut node = Node::new(0, vec![0, 1, 3]);
    let absorb = MessageRequest { to: 0, from: 1, level: 5, req: RequestType::Absorb };
    assert_eq!(node.receive(2, absorb), Reaction { level: 5, send: None });
    assert_eq!(node.states[1], EdgeState::Branch);
    let reject = MessageRequest { to: 0, from: 2, level: 0, req: RequestType::Reject };
    assert_eq!(node.receive(5, reject), Reaction { level: 5, send: None });
    assert_eq!(node.states[2], EdgeState::Rejected);
    assert!(node.is_done());
}
