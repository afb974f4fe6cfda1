//! The node arena: an append-only store in which nodes name each other by
//! position.

use vstd::prelude::*;

verus! {

/// One node of the arena.
///
/// `depth` and `length` are counted in ticks of the event clock.
#[derive(Debug)]
pub struct FlatNode {
    pub name: String,
    pub left_child: Option<usize>,
    pub right_child: Option<usize>,
    pub parent: Option<usize>,
    pub depth: Option<usize>,
    pub length: usize,
}

/// The arena and the position of its root.
#[derive(Debug)]
pub struct FlatTree {
    pub nodes: Vec<FlatNode>,
    pub root: usize,
}

impl FlatTree {
    /// An empty arena. The root is meaningless until a node exists.
    pub fn new() -> (tree: FlatTree)
        ensures
            tree.nodes@.len() == 0,
            tree.root == 0,
    {
        FlatTree { nodes: Vec::new(), root: 0 }
    }

    /// Number of nodes stored.
    pub fn len(&self) -> (n: usize)
        ensures
            n == self.nodes@.len(),
    {
        self.nodes.len()
    }

    /// Appends a node and returns its position. The positions handed out
    /// count up from zero, and no earlier node is touched. The arena does
    /// not look at the child and parent positions it is given.
    pub fn add_node(
        &mut self,
        name: String,
        left_child: Option<usize>,
        right_child: Option<usize>,
        parent: Option<usize>,
        depth: Option<usize>,
        length: usize,
    ) -> (index: usize)
        ensures
            index == old(self).nodes@.len(),
            final(self).root == old(self).root,
            final(self).nodes@ == old(self).nodes@.push(
                (FlatNode { name, left_child, right_child, parent, depth, length }),
            ),
    {
        let index: usize = self.nodes.len();
        self.nodes.push(FlatNode { name, left_child, right_child, parent, depth, length });
        index
    }

    /// The node at position `i`.
    pub fn node(&self, i: usize) -> (n: &FlatNode)
        requires
            i < self.nodes@.len(),
        ensures
            *n == self.nodes@[i as int],
    {
        &self.nodes[i]
    }

    /// Joins node `i` to `parent` by a branch of `length` ticks. Nothing else
    /// changes.
    pub fn attach(&mut self, i: usize, parent: Option<usize>, length: usize)
        requires
            i < old(self).nodes@.len(),
        ensures
            final(self).root == old(self).root,
            final(self).nodes@ == old(self).nodes@.update(
                i as int,
                (FlatNode { parent, length, ..old(self).nodes@[i as int] }),
            ),
    {
        self.nodes[i].parent = parent;
        self.nodes[i].length = length;
    }

    /// Rewrites the depth of node `i`. Nothing else changes.
    pub fn set_depth(&mut self, i: usize, depth: Option<usize>)
        requires
            i < old(self).nodes@.len(),
        ensures
            final(self).root == old(self).root,
            final(self).nodes@ == old(self).nodes@.update(
                i as int,
                (FlatNode { depth, ..old(self).nodes@[i as int] }),
            ),
    {
        self.nodes[i].depth = depth;
    }
}

} // verus!
