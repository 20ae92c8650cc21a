//! The node of a distributed minimum spanning tree computation: the state of
//! its edges, the choice of the edge to ask for next, and its reaction to a
//! request that reaches it. Sending and receiving are left to the caller.
use vstd::prelude::*;

verus! {

/// State of an edge as its node sees it.
#[derive(Copy, Clone, PartialEq, Eq, Debug)]
pub enum EdgeState {
    /// Not yet considered.
    Basic,
    /// Asked for; the answer is outstanding.
    Requested,
    /// Part of the tree.
    Branch,
    /// Not part of the tree.
    Rejected,
}

impl Default for EdgeState {
    fn default() -> (s: EdgeState)
        ensures
            s == EdgeState::Basic,
    {
        EdgeState::Basic
    }
}

/// What a request asks for.
#[derive(Copy, Clone, PartialEq, Eq, Debug)]
pub enum RequestType {
    /// Asks the other end to join over this edge.
    Search,
    /// Tells the other end that it has been taken in.
    Absorb,
    /// Tells the other end that the edge is not wanted.
    Reject,
}

/// A request from one node to another.
#[derive(Copy, Clone, PartialEq, Eq, Debug)]
pub struct MessageRequest {
    pub to: usize,
    pub from: usize,
    pub level: usize,
    pub req: RequestType,
}

/// What a node does about a request: its level afterwards, and what it
/// sends, if anything.
#[derive(Copy, Clone, PartialEq, Eq, Debug)]
pub struct Reaction {
    pub level: usize,
    pub send: Option<MessageRequest>,
}

/// One vertex with the weights of its edges; weight zero means no edge.
#[derive(Clone, Debug)]
pub struct Node {
    pub id: usize,
    pub vertices: Vec<usize>,
    pub states: Vec<EdgeState>,
}

/// The edge to `i` can be asked for: it exists, leads elsewhere, is lighter
/// than the heaviest weight there is, and has not been considered.
pub open spec fn is_candidate(
    id: usize,
    vertices: Seq<usize>,
    states: Seq<EdgeState>,
    i: int,
) -> bool {
    &&& 0 <= i < vertices.len()
    &&& i != id
    &&& vertices[i] != 0
    &&& vertices[i] < usize::MAX
    &&& states[i] == EdgeState::Basic
}

/// Edge `i` needs nothing more: it is decided, or it is no edge at all.
pub open spec fn is_settled(id: usize, vertices: Seq<usize>, states: Seq<EdgeState>, i: int) -> bool {
    match states[i] {
        EdgeState::Branch => true,
        EdgeState::Rejected => true,
        EdgeState::Requested => false,
        EdgeState::Basic => i == id || vertices[i] == 0,
    }
}

/// The states of the edges and the reaction of a node at `level` with edge
/// states `states` to the request `received`.
pub open spec fn react(
    id: usize,
    states: Seq<EdgeState>,
    level: usize,
    received: MessageRequest,
) -> (Seq<EdgeState>, Reaction) {
    let from = received.from as int;
    if received.to != id {
        (states, Reaction { level, send: None })
    } else {
        match received.req {
            RequestType::Search => match states[from] {
                EdgeState::Requested => if level == received.level {
                    (
                        states.update(from, EdgeState::Branch),
                        Reaction { level: (level + 1) as usize, send: None },
                    )
                } else if level > received.level {
                    (
                        states.update(from, EdgeState::Branch),
                        Reaction {
                            level,
                            send: Some(
                                MessageRequest {
                                    to: received.from,
                                    from: id,
                                    level,
                                    req: RequestType::Absorb,
                                },
                            ),
                        },
                    )
                } else {
                    (states, Reaction { level, send: None })
                },
                _ => (states, Reaction { level, send: Some(received) }),
            },
            RequestType::Absorb => (
                states.update(from, EdgeState::Branch),
                Reaction { level: received.level, send: None },
            ),
            RequestType::Reject => (
                states.update(from, EdgeState::Rejected),
                Reaction { level, send: None },
            ),
        }
    }
}

impl Node {
    /// Every edge has a state.
    pub open spec fn wf(&self) -> bool {
        self.states.len() == self.vertices.len()
    }

    /// Edge `i` can be asked for.
    pub open spec fn candidate(&self, i: int) -> bool {
        is_candidate(self.id, self.vertices@, self.states@, i)
    }

    /// Some edge has been asked for and not answered.
    pub open spec fn pending(&self) -> bool {
        exists|i: int| 0 <= i < self.states.len() && self.states[i] == EdgeState::Requested
    }

    /// Every edge is settled.
    pub open spec fn done(&self) -> bool {
        forall|i: int|
            0 <= i < self.states.len() ==> is_settled(self.id, self.vertices@, self.states@, i)
    }

    /// The node `id` with edge weights `verts`, none of them considered yet.
    pub fn new(id: usize, verts: Vec<usize>) -> (node: Node)
        ensures
            node.wf(),
            node.id == id,
            node.vertices == verts,
            forall|i: int| 0 <= i < node.states.len() ==> node.states[i] == EdgeState::Basic,
    {
        let len = verts.len();
        let mut states: Vec<EdgeState> = Vec::new();
        let mut i: usize = 0;
        while i < len
            invariant
                i <= len,
                states.len() == i,
                forall|j: int| 0 <= j < i ==> states[j] == EdgeState::Basic,
            decreases len - i,
        {
            states.push(EdgeState::default());
            i = i + 1;
        }
        Node { id, vertices: verts, states }
    }

    /// Whether some edge has been asked for and not answered.
    pub fn has_pending(&self) -> (r: bool)
        ensures
            r == self.pending(),
    {
        let mut i: usize = 0;
        while i < self.states.len()
            invariant
                i <= self.states.len(),
                forall|j: int| 0 <= j < i ==> self.states[j] != EdgeState::Requested,
            decreases self.states.len() - i,
        {
            match self.states[i] {
                EdgeState::Requested => {
                    return true;
                },
                _ => {},
            }
            i = i + 1;
        }
        false
    }

    /// The lightest edge that can be asked for; among equally light ones
    /// the first.
    pub fn find_min_edge(&self) -> (r: usize)
        requires
            self.wf(),
            exists|i: int| self.candidate(i),
        ensures
            self.candidate(r as int),
            forall|j: int| self.candidate(j) ==> self.vertices[r as int] <= self.vertices[j],
            forall|j: int| self.candidate(j) && j < r ==> self.vertices[r as int] < self.vertices[j],
    {
        let mut best: usize = usize::MAX;
        let mut idx: Option<usize> = None;
        let mut i: usize = 0;
        while i < self.vertices.len()
            invariant
                i <= self.vertices.len(),
                self.wf(),
                idx.is_none() ==> best == usize::MAX && forall|j: int|
                    0 <= j < i ==> !self.candidate(j),
                idx.is_some() ==> {
                    &&& idx.unwrap() < i
                    &&& self.candidate(idx.unwrap() as int)
                    &&& best == self.vertices[idx.unwrap() as int]
                    &&& forall|j: int| 0 <= j < i && self.candidate(j) ==> best <= self.vertices[j]
                    &&& forall|j: int|
                        0 <= j < idx.unwrap() && self.candidate(j) ==> best < self.vertices[j]
                },
            decreases self.vertices.len() - i,
        {
            if !(i == self.id || self.vertices[i] == 0) {
                match self.states[i] {
                    EdgeState::Basic => {
                        if self.vertices[i] < best {
                            best = self.vertices[i];
                            idx = Some(i);
                        }
                    },
                    _ => {},
                }
            }
            i = i + 1;
        }
        idx.unwrap()
    }

    /// Whether every edge is settled.
    pub fn is_done(&self) -> (r: bool)
        requires
            self.wf(),
        ensures
            r == self.done(),
    {
        let mut i: usize = 0;
        while i < self.states.len()
            invariant
                i <= self.states.len(),
                self.wf(),
                forall|j: int|
                    0 <= j < i ==> is_settled(self.id, self.vertices@, self.states@, j),
            decreases self.states.len() - i,
        {
            let settled = match self.states[i] {
                EdgeState::Branch => true,
                EdgeState::Rejected => true,
                EdgeState::Requested => false,
                EdgeState::Basic => i == self.id || self.vertices[i] == 0,
            };
            if !settled {
                assert(!is_settled(self.id, self.vertices@, self.states@, i as int));
                return false;
            }
            i = i + 1;
        }
        true
    }

    /// Asks for the lightest edge that can be asked for, unless an answer
    /// is outstanding: the edge becomes requested, and the request to send
    /// is returned.
    pub fn propose(&mut self, level: usize) -> (r: Option<MessageRequest>)
        requires
            old(self).wf(),
            old(self).pending() || exists|i: int| old(self).candidate(i),
        ensures
            final(self).wf(),
            final(self).id == old(self).id,
            final(self).vertices == old(self).vertices,
            old(self).pending() ==> r.is_none() && final(self).states == old(self).states,
            !old(self).pending() ==> {
                &&& r.is_some()
                &&& r.unwrap().from == old(self).id
                &&& r.unwrap().level == level
                &&& r.unwrap().req == RequestType::Search
                &&& old(self).candidate(r.unwrap().to as int)
                &&& forall|j: int|
                    old(self).candidate(j) ==> old(self).vertices[r.unwrap().to as int] <= old(
                        self,
                    ).vertices[j]
                &&& final(self).states@ == old(self).states@.update(
                    r.unwrap().to as int,
                    EdgeState::Requested,
                )
            },
    {
        if self.has_pending() {
            return None;
        }
        let edge = self.find_min_edge();
        self.states[edge] = EdgeState::Requested;
        Some(MessageRequest { to: edge, from: self.id, level, req: RequestType::Search })
    }

    /// Reacts to the request `received` at level `level`. A request for
    /// another node changes nothing. A search over an edge that this node
    /// has asked for merges the two at equal levels and takes the other in
    /// at a lower one; a search over any other edge is passed on. Being
    /// taken in raises the level to that of the other end.
    pub fn receive(&mut self, level: usize, received: MessageRequest) -> (r: Reaction)
        requires
            old(self).wf(),
            received.to == old(self).id ==> {
                &&& received.from < old(self).states.len()
                &&& received.req == RequestType::Search ==> (old(self).states[received.from as int]
                    == EdgeState::Requested || old(self).states[received.from as int]
                    == EdgeState::Basic) && level < usize::MAX
                &&& received.req == RequestType::Absorb ==> received.level > level
            },
        ensures
            final(self).wf(),
            final(self).id == old(self).id,
            final(self).vertices == old(self).vertices,
            (final(self).states@, r) == react(old(self).id, old(self).states@, level, received),
    {
        if received.to != self.id {
            return Reaction { level, send: None };
        }
        match received.req {
            RequestType::Search => match self.states[received.from] {
                EdgeState::Requested => {
                    if level == received.level {
                        self.states[received.from] = EdgeState::Branch;
                        Reaction { level: level + 1, send: None }
                    } else if level > received.level {
                        self.states[received.from] = EdgeState::Branch;
                        Reaction {
                            level,
                            send: Some(
                                MessageRequest {
                                    to: received.from,
                                    from: self.id,
                                    level,
                                    req: RequestType::Absorb,
                                },
                            ),
                        }
                    } else {
                        Reaction { level, send: None }
                    }
                },
                _ => Reaction { level, send: Some(received) },
            },
            RequestType::Absorb => {
                self.states[received.from] = EdgeState::Branch;
                Reaction { level: received.level, send: None }
            },
            RequestType::Reject => {
                self.states[received.from] = EdgeState::Rejected;
                Reaction { level, send: None }
            },
        }
    }
}

/// A weighted graph, given by its matrix of weights, and its nodes.
pub struct Graph {
    pub data: Vec<Vec<usize>>,
    pub nodes: Vec<Node>,
}

impl Graph {
    /// The graph with weights `data`, its nodes not yet made.
    pub fn new(data: Vec<Vec<usize>>) -> (g: Graph)
        ensures
            g.data == data,
            g.nodes@ == Seq::<Node>::empty(),
    {
        Graph { data, nodes: Vec::new() }
    }

    /// Adds one node for each row of the matrix, with the row as the
    /// weights of its edges.
    pub fn init(&mut self)
        ensures
            final(self).data == old(self).data,
            final(self).nodes.len() == old(self).nodes.len() + old(self).data.len(),
            forall|i: int|
                0 <= i < old(self).nodes.len() ==> final(self).nodes[i] == old(self).nodes[i],
            forall|i: int|
                0 <= i < old(self).data.len() ==> {
                    let node = #[trigger] final(self).nodes[old(self).nodes.len() + i];
                    &&& node.wf()
                    &&& node.id == i
                    &&& node.vertices@ == old(self).data[i]@
                    &&& forall|j: int|
                        0 <= j < node.states.len() ==> node.states[j] == EdgeState::Basic
                },
    {
        let mut i: usize = 0;
        while i < self.data.len()
            invariant
                i <= self.data.len(),
                self.data == old(self).data,
                self.nodes.len() == old(self).nodes.len() + i,
                forall|k: int|
                    0 <= k < old(self).nodes.len() ==> self.nodes[k] == old(self).nodes[k],
                forall|k: int|
                    0 <= k < i ==> {
                        let node = #[trigger] self.nodes[old(self).nodes.len() + k];
                        &&& node.wf()
                        &&& node.id == k
                        &&& node.vertices@ == old(self).data[k]@
                        &&& forall|j: int|
                            0 <= j < node.states.len() ==> node.states[j] == EdgeState::Basic
                    },
            decreases self.data.len() - i,
        {
            let row = copy_row(&self.data[i]);
            self.nodes.push(Node::new(i, row));
            i = i + 1;
        }
    }
}

/// A copy of `row`.
fn copy_row(row: &Vec<usize>) -> (r: Vec<usize>)
    ensures
        r@ == row@,
{
    let mut r: Vec<usize> = Vec::new();
    let mut i: usize = 0;
    while i < row.len()
        invariant
            i <= row.len(),
            r@ == row@.take(i as int),
        decreases row.len() - i,
    {
        r.push(row[i]);
        assert(row@.take(i as int).push(row[i as int]) =~= row@.take(i + 1));
        i = i + 1;
    }
    assert(row@.take(row.len() as int) =~= row@);
    r
}

} // verus!
