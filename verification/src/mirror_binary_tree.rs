//! A binary search tree of `i32` that can be mirrored.
use vstd::prelude::*;

verus! {

/// A tree: a value and up to two subtrees.
pub struct Node {
    pub val: i32,
    pub left: Option<Box<Node>>,
    pub right: Option<Box<Node>>,
}

/// The values of an optional subtree.
pub open spec fn values_of(tree: Option<Box<Node>>) -> Set<i32>
    decreases tree,
{
    match tree {
        Some(node) => node.values(),
        None => Set::empty(),
    }
}

/// The values of an optional subtree, from left to right.
pub open spec fn inorder_of(tree: Option<Box<Node>>) -> Seq<i32>
    decreases tree,
{
    match tree {
        Some(node) => node.inorder(),
        None => Seq::empty(),
    }
}

/// An optional subtree is a search tree.
pub open spec fn is_search_tree(tree: Option<Box<Node>>) -> bool
    decreases tree,
{
    match tree {
        Some(node) => node.is_bst(),
        None => true,
    }
}

/// An optional subtree, mirrored.
pub open spec fn mirror_of(tree: Option<Box<Node>>) -> Option<Box<Node>>
    decreases tree,
{
    match tree {
        Some(node) => Some(Box::new(node.mirrored())),
        None => None,
    }
}

/// An optional subtree with `val` put in.
pub open spec fn insert_into(tree: Option<Box<Node>>, val: i32) -> Option<Box<Node>>
    decreases tree,
{
    match tree {
        Some(node) => Some(Box::new(node.inserted(val))),
        None => Some(Box::new(Node { val, left: None, right: None })),
    }
}

impl Node {
    /// The values in the tree.
    pub open spec fn values(self) -> Set<i32>
        decreases self,
    {
        values_of(self.left).union(values_of(self.right)).insert(self.val)
    }

    /// The values in the tree, from left to right.
    pub open spec fn inorder(self) -> Seq<i32>
        decreases self,
    {
        inorder_of(self.left).push(self.val) + inorder_of(self.right)
    }

    /// Smaller values are to the left and larger ones to the right, at
    /// every node.
    pub open spec fn is_bst(self) -> bool
        decreases self,
    {
        &&& is_search_tree(self.left)
        &&& is_search_tree(self.right)
        &&& forall|x: i32| values_of(self.left).contains(x) ==> x < self.val
        &&& forall|x: i32| values_of(self.right).contains(x) ==> x > self.val
    }

    /// The tree with left and right exchanged at every node.
    pub open spec fn mirrored(self) -> Node
        decreases self,
    {
        Node { val: self.val, left: mirror_of(self.right), right: mirror_of(self.left) }
    }

    /// The tree with `val` put in where a search finds its place, unless a
    /// search finds `val` itself.
    pub open spec fn inserted(self, val: i32) -> Node
        decreases self,
    {
        if self.val == val {
            self
        } else if val < self.val {
            Node { val: self.val, left: insert_into(self.left, val), right: self.right }
        } else {
            Node { val: self.val, left: self.left, right: insert_into(self.right, val) }
        }
    }

    /// Putting a value in adds it to the values.
    pub proof fn lemma_inserted_values(self, val: i32)
        ensures
            self.inserted(val).values() == self.values().insert(val),
        decreases self,
    {
        if self.val == val {
            assert(self.values().insert(val) =~= self.values());
        } else if val < self.val {
            match self.left {
                Some(node) => node.lemma_inserted_values(val),
                None => {
                    assert((Node { val, left: None, right: None }).values() =~= Set::<i32>::empty().insert(val));
                },
            }
            assert(self.inserted(val).values() =~= self.values().insert(val));
        } else {
            match self.right {
                Some(node) => node.lemma_inserted_values(val),
                None => {
                    assert((Node { val, left: None, right: None }).values() =~= Set::<i32>::empty().insert(val));
                },
            }
            assert(self.inserted(val).values() =~= self.values().insert(val));
        }
    }

    /// Putting a value into a search tree leaves a search tree.
    pub proof fn lemma_inserted_is_bst(self, val: i32)
        requires
            self.is_bst(),
        ensures
            self.inserted(val).is_bst(),
        decreases self,
    {
        let leaf = Node { val, left: None, right: None };
        assert(leaf.values() =~= Set::<i32>::empty().insert(val));
        assert(leaf.is_bst());
        if self.val == val {
        } else if val < self.val {
            match self.left {
                Some(node) => {
                    node.lemma_inserted_is_bst(val);
                    node.lemma_inserted_values(val);
                },
                None => {},
            }
            let grown = insert_into(self.left, val);
            assert(is_search_tree(grown));
            assert(values_of(grown) =~= values_of(self.left).insert(val));
            assert forall|x: i32| values_of(grown).contains(x) implies x < self.val by {}
        } else {
            match self.right {
                Some(node) => {
                    node.lemma_inserted_is_bst(val);
                    node.lemma_inserted_values(val);
                },
                None => {},
            }
            let grown = insert_into(self.right, val);
            assert(is_search_tree(grown));
            assert(values_of(grown) =~= values_of(self.right).insert(val));
            assert forall|x: i32| values_of(grown).contains(x) implies x > self.val by {}
        }
    }

    /// Mirroring turns the order of the values around.
    pub proof fn lemma_mirrored_inorder(self)
        ensures
            self.mirrored().inorder() == self.inorder().reverse(),
        decreases self,
    {
        match self.left {
            Some(node) => node.lemma_mirrored_inorder(),
            None => {},
        }
        match self.right {
            Some(node) => node.lemma_mirrored_inorder(),
            None => {},
        }
        let l = inorder_of(self.left);
        let r = inorder_of(self.right);
        assert(inorder_of(mirror_of(self.left)) =~= l.reverse());
        assert(inorder_of(mirror_of(self.right)) =~= r.reverse());
        assert((r.reverse().push(self.val) + l.reverse()) =~= (l.push(self.val) + r).reverse());
    }

    /// Mirroring twice gives the tree back.
    pub proof fn lemma_mirrored_twice(self)
        ensures
            self.mirrored().mirrored() == self,
        decreases self,
    {
        match self.left {
            Some(node) => node.lemma_mirrored_twice(),
            None => {},
        }
        match self.right {
            Some(node) => node.lemma_mirrored_twice(),
            None => {},
        }
    }

    /// Puts `val` into the tree where a search finds its place, unless a
    /// search finds `val` itself: the values of the tree are those it had
    /// and `val`, and a search tree stays one.
    pub fn insert(&mut self, val: i32)
        ensures
            *final(self) == old(self).inserted(val),
            final(self).values() == old(self).values().insert(val),
            old(self).is_bst() ==> final(self).is_bst(),
        decreases *old(self),
    {
        proof {
            old(self).lemma_inserted_values(val);
            if old(self).is_bst() {
                old(self).lemma_inserted_is_bst(val);
            }
        }
        if self.val == val {
            return ;
        }
        if val < self.val {
            match &mut self.left {
                Some(sub) => sub.insert(val),
                None => {
                    self.left = Some(Box::new(Node { val: val, left: None, right: None }));
                },
            }
        } else {
            match &mut self.right {
                Some(sub) => sub.insert(val),
                None => {
                    self.right = Some(Box::new(Node { val: val, left: None, right: None }));
                },
            }
        }
    }

    /// Exchanges left and right at every node: the values come in the
    /// opposite order.
    pub fn mirror(&mut self)
        ensures
            *final(self) == old(self).mirrored(),
            final(self).inorder() == old(self).inorder().reverse(),
        decreases *old(self),
    {
        proof {
            old(self).lemma_mirrored_inorder();
        }
        match &mut self.left {
            Some(sub) => sub.mirror(),
            None => {},
        }
        match &mut self.right {
            Some(sub) => sub.mirror(),
            None => {},
        }
        std::mem::swap(&mut self.left, &mut self.right);
    }
}

} // verus!
