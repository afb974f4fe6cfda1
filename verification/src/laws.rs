//! What holds of every finished tree, whatever was drawn.

use crate::arena::{FlatNode, FlatTree};
use crate::nested::{
    is_tree, leaves_of, lemma_unfolds_more, mirrors, newick, size_of, unfolds, Node,
};
use crate::simulate::{born, leaf_count, linked, sealed_node, sealed_tree, subtree_size};
use vstd::prelude::*;

verus! {

/// The sum of the branch lengths from node `i` up to the root, the root's
/// own branch included.
pub open spec fn path_to_root(nodes: Seq<FlatNode>, i: int) -> int
    decreases nodes.len() - i,
{
    if nodes[i].parent is Some && i < nodes[i].parent->0 < nodes.len() {
        nodes[i].length + path_to_root(nodes, nodes[i].parent->0 as int)
    } else {
        nodes[i].length as int
    }
}

/// The node reached from `i` by following parent links `steps` times,
/// staying where there is no parent.
pub open spec fn climb(nodes: Seq<FlatNode>, i: int, steps: nat) -> int
    decreases steps,
{
    if steps == 0 {
        i
    } else {
        match nodes[i].parent {
            Some(p) => climb(nodes, p as int, (steps - 1) as nat),
            None => i,
        }
    }
}

/// Where the nodes without children are exactly the first `m`, there are
/// `m` leaves.
pub proof fn lemma_leading_leaves(nodes: Seq<FlatNode>, m: int)
    requires
        0 <= m <= nodes.len(),
        forall|i: int| 0 <= i < nodes.len() ==> ((#[trigger] nodes[i]).left_child is None <==> i < m),
    ensures
        leaf_count(nodes) == m,
    decreases nodes.len(),
{
    if nodes.len() > 0 {
        let rest = nodes.drop_last();
        assert forall|i: int| 0 <= i < rest.len() implies ((#[trigger] rest[i]).left_child is None
            <==> i < if m == nodes.len() { m - 1 } else { m }) by {
            assert(rest[i] == nodes[i]);
        }
        lemma_leading_leaves(rest, if m == nodes.len() { m - 1 } else { m });
    }
}

/// A finished tree has one leaf more than it has inner nodes. Its first
/// `extant` nodes are leaves; where no other leaf appeared on the way, the
/// tree has exactly `extant` leaves and one inner node less.
pub proof fn law_leaf_count(tree: FlatTree, extant: int)
    requires
        sealed_tree(tree, extant),
    ensures
        leaf_count(tree.nodes@) * 2 == tree.nodes@.len() + 1,
        forall|i: int|
            0 <= i < extant ==> (#[trigger] tree.nodes@[i]).left_child is None
                && tree.nodes@[i].right_child is None,
        (forall|i: int| extant <= i < tree.nodes@.len() ==> (#[trigger] tree.nodes@[i]).left_child is Some)
            ==> leaf_count(tree.nodes@) == extant && tree.nodes@.len() == 2 * extant - 1,
{
    let nodes = tree.nodes@;
    assert forall|i: int| 0 <= i < extant implies (#[trigger] nodes[i]).left_child is None
        && nodes[i].right_child is None by {
        assert(sealed_node(nodes, i, extant));
    }
    if forall|i: int| extant <= i < nodes.len() ==> (#[trigger] nodes[i]).left_child is Some {
        lemma_leading_leaves(nodes, extant);
    }
}

/// A run from one lineage in which no other lineage ever appears ends with
/// its first tick: the tree is the one leaf it began with, which is the
/// root, on a branch of one tick.
pub proof fn law_single_lineage(tree: FlatTree)
    requires
        sealed_tree(tree, 1),
        forall|i: int| 1 <= i < tree.nodes@.len() ==> (#[trigger] tree.nodes@[i]).left_child is Some,
    ensures
        tree.nodes@.len() == 1,
        tree.root == 0,
        tree.nodes@[0].left_child is None,
        tree.nodes@[0].right_child is None,
        tree.nodes@[0].parent is None,
        tree.nodes@[0].length == 1,
        tree.nodes@[0].depth == Some(1usize),
{
    law_leaf_count(tree, 1);
    assert(sealed_node(tree.nodes@, 0, 1));
}

/// Every node of a finished tree has two children or none. The two are
/// distinct, stand before the node in the arena, and name it as parent.
pub proof fn law_binary(tree: FlatTree, extant: int, i: int)
    requires
        sealed_tree(tree, extant),
        0 <= i < tree.nodes@.len(),
    ensures
        tree.nodes@[i].left_child is Some <==> tree.nodes@[i].right_child is Some,
        tree.nodes@[i].left_child is Some ==> {
            let a = tree.nodes@[i].left_child->0 as int;
            let b = tree.nodes@[i].right_child->0 as int;
            &&& 0 <= a < i
            &&& 0 <= b < i
            &&& a != b
            &&& tree.nodes@[a].parent == Some(i as usize)
            &&& tree.nodes@[b].parent == Some(i as usize)
        },
{
    assert(sealed_node(tree.nodes@, i, extant));
}

/// In a finished tree the root, which is the last node made, is the one
/// node without a parent, and every node reaches it by parent links.
pub proof fn law_single_root(tree: FlatTree, extant: int, i: int)
    requires
        sealed_tree(tree, extant),
        0 <= i < tree.nodes@.len(),
    ensures
        tree.root == tree.nodes@.len() - 1,
        tree.nodes@[i].parent is None <==> i == tree.root,
        exists|steps: nat| climb(tree.nodes@, i, steps) == tree.root,
    decreases tree.nodes@.len() - i,
{
    let nodes = tree.nodes@;
    assert(sealed_node(nodes, i, extant));
    if i == tree.root {
        assert(climb(nodes, i, 0) == tree.root);
    } else {
        let p = nodes[i].parent->0 as int;
        law_single_root(tree, extant, p);
        let steps = choose|steps: nat| climb(nodes, p, steps) == tree.root;
        assert(climb(nodes, i, steps + 1) == tree.root);
    }
}

/// In a finished tree every branch spans at least one tick: no node is made
/// at or after the tick of its parent, and the root's own branch ends with
/// the last tick. So a clock that never runs backward gives no branch a
/// negative length.
pub proof fn law_branch_lengths(tree: FlatTree, extant: int, i: int)
    requires
        sealed_tree(tree, extant),
        0 <= i < tree.nodes@.len(),
    ensures
        tree.nodes@[i].length >= 1,
        tree.nodes@[i].parent is Some ==> born(i, extant) + tree.nodes@[i].length == born(
            tree.nodes@[i].parent->0 as int,
            extant,
        ),
        tree.nodes@[i].parent is None ==> born(i, extant) + tree.nodes@[i].length
            == tree.nodes@.len() - extant + 1,
{
    let nodes = tree.nodes@;
    assert(sealed_node(nodes, i, extant));
    if nodes[i].parent is Some {
        let p = nodes[i].parent->0 as int;
        assert(sealed_node(nodes, p, extant));
        assert(linked(nodes, p, extant));
    }
}

/// In a finished tree the depth of a node is the sum of the branch lengths
/// from it up to the root, the root's own branch included.
pub proof fn law_depth_is_path(tree: FlatTree, extant: int, i: int)
    requires
        sealed_tree(tree, extant),
        0 <= i < tree.nodes@.len(),
    ensures
        tree.nodes@[i].depth == Some(path_to_root(tree.nodes@, i) as usize),
        path_to_root(tree.nodes@, i) == tree.nodes@.len() - extant + 1 - born(i, extant),
    decreases tree.nodes@.len() - i,
{
    let nodes = tree.nodes@;
    assert(sealed_node(nodes, i, extant));
    if nodes[i].parent is Some {
        let p = nodes[i].parent->0 as int;
        law_depth_is_path(tree, extant, p);
        law_branch_lengths(tree, extant, i);
    }
}

/// The leaves that a finished tree started from are all equally far from
/// the root: as far as the run had ticks.
pub proof fn law_ultrametric(tree: FlatTree, extant: int, i: int, j: int)
    requires
        sealed_tree(tree, extant),
        0 <= i < extant,
        0 <= j < extant,
    ensures
        path_to_root(tree.nodes@, i) == path_to_root(tree.nodes@, j),
        path_to_root(tree.nodes@, i) == tree.nodes@.len() - extant + 1,
{
    law_depth_is_path(tree, extant, i);
    law_depth_is_path(tree, extant, j);
}

/// A finished tree can be unfolded into a nested one from any node: no
/// child position dangles, no node has one child alone, and no chain of
/// children comes back to where it began, since the levels below node `i`
/// are at most `i + 1`.
pub proof fn law_unfolds(tree: FlatTree, extant: int, i: int)
    requires
        sealed_tree(tree, extant),
        0 <= i < tree.nodes@.len(),
    ensures
        unfolds(tree.nodes@, i, (i + 1) as nat),
    decreases i,
{
    let nodes = tree.nodes@;
    assert(sealed_node(nodes, i, extant));
    if nodes[i].left_child is Some {
        let a = nodes[i].left_child->0 as int;
        let b = nodes[i].right_child->0 as int;
        law_unfolds(tree, extant, a);
        law_unfolds(tree, extant, b);
        lemma_unfolds_more(nodes, a, (a + 1) as nat, i as nat);
        lemma_unfolds_more(nodes, b, (b + 1) as nat, i as nat);
    }
}

/// Below the root of a finished tree stands a tree, which unfolds within
/// as many levels as the arena has nodes: the making of the nested tree
/// does not fail on it.
pub proof fn law_root_unfolds(tree: FlatTree, extant: int)
    requires
        sealed_tree(tree, extant),
    ensures
        unfolds(tree.nodes@, tree.root as int, tree.nodes@.len()),
        is_tree(tree.nodes@, tree.root as int),
{
    law_unfolds(tree, extant, tree.root as int);
}

/// A nested tree has one leaf more than it has inner nodes.
pub proof fn law_nested_counts(node: Node)
    ensures
        leaves_of(node) * 2 == size_of(node) + 1,
    decreases node,
{
    match node.children {
        None => {},
        Some(pair) => {
            law_nested_counts(pair.0);
            law_nested_counts(pair.1);
        },
    }
}

/// The nested tree made from node `i` of a finished tree has as many nodes
/// as the arena holds at and below that node.
pub proof fn lemma_mirror_size(node: Node, tree: FlatTree, extant: int, i: int)
    requires
        sealed_tree(tree, extant),
        mirrors(node, tree.nodes@, i),
    ensures
        size_of(node) == subtree_size(tree.nodes@, i),
    decreases node,
{
    let nodes = tree.nodes@;
    assert(sealed_node(nodes, i, extant));
    match node.children {
        None => {},
        Some(pair) => {
            lemma_mirror_size(pair.0, tree, extant, nodes[i].left_child->0 as int);
            lemma_mirror_size(pair.1, tree, extant, nodes[i].right_child->0 as int);
        },
    }
}

/// The nested tree made from the root of a finished tree has as many nodes
/// as the arena and as many leaves. Where no leaf appeared on the way, its
/// leaves are as many as the lineages that the run began with.
pub proof fn law_nested_tree(node: Node, tree: FlatTree, extant: int)
    requires
        sealed_tree(tree, extant),
        mirrors(node, tree.nodes@, tree.root as int),
    ensures
        size_of(node) == tree.nodes@.len(),
        leaves_of(node) == leaf_count(tree.nodes@),
        (forall|i: int| extant <= i < tree.nodes@.len() ==> (#[trigger] tree.nodes@[i]).left_child is Some)
            ==> leaves_of(node) == extant,
{
    lemma_mirror_size(node, tree, extant, tree.root as int);
    law_nested_counts(node);
    law_leaf_count(tree, extant);
}

/// The text of node `i` alone: its name, a colon and its length.
pub open spec fn own_text(nodes: Seq<FlatNode>, lengths: Seq<String>, i: int) -> Seq<char> {
    nodes[i].name@ + seq![':'] + lengths[i]@
}

/// The text of an inner node `i` over two leaves: in brackets the left
/// leaf, a comma and the right leaf, then the node itself.
pub open spec fn cherry_text(nodes: Seq<FlatNode>, lengths: Seq<String>, i: int) -> Seq<char> {
    seq!['('] + own_text(nodes, lengths, nodes[i].left_child->0 as int) + seq![','] + own_text(
        nodes,
        lengths,
        nodes[i].right_child->0 as int,
    ) + seq![')'] + own_text(nodes, lengths, i)
}

/// The text of a nested leaf is the text of its node alone.
pub proof fn lemma_leaf(node: Node, nodes: Seq<FlatNode>, lengths: Seq<String>, i: int)
    requires
        mirrors(node, nodes, i),
        nodes[i].left_child is None,
    ensures
        newick(node, lengths) == own_text(nodes, lengths, i),
{
}

/// The text of a nested node over two leaves.
pub proof fn lemma_cherry(node: Node, nodes: Seq<FlatNode>, lengths: Seq<String>, i: int)
    requires
        mirrors(node, nodes, i),
        nodes[i].left_child is Some,
        nodes[i].right_child is Some,
        0 <= nodes[i].left_child->0 < nodes.len(),
        0 <= nodes[i].right_child->0 < nodes.len(),
        nodes[nodes[i].left_child->0 as int].left_child is None,
        nodes[nodes[i].right_child->0 as int].left_child is None,
    ensures
        newick(node, lengths) == cherry_text(nodes, lengths, i),
{
    let pair = node.children->0;
    lemma_leaf(pair.0, nodes, lengths, nodes[i].left_child->0 as int);
    lemma_leaf(pair.1, nodes, lengths, nodes[i].right_child->0 as int);
}

/// A run from three lineages in which no other lineage ever appears takes
/// two fusions: the tree has five nodes. The fourth node stands over two
/// of the three leaves, the fifth, the root, over the fourth node and the
/// third leaf, on either side. The text of the nested tree made from the
/// root is the one or the other of the two forms that the grammar has for
/// such a tree.
pub proof fn law_three_lineages(tree: FlatTree, node: Node, lengths: Seq<String>)
    requires
        sealed_tree(tree, 3),
        forall|i: int| 3 <= i < tree.nodes@.len() ==> (#[trigger] tree.nodes@[i]).left_child is Some,
        mirrors(node, tree.nodes@, tree.root as int),
    ensures
        tree.nodes@.len() == 5,
        tree.root == 4,
        size_of(node) == 5,
        leaves_of(node) == 3,
        ({
            let nodes = tree.nodes@;
            let a = nodes[3].left_child->0 as int;
            let b = nodes[3].right_child->0 as int;
            let c = 3 - a - b;
            &&& nodes[3].left_child is Some
            &&& nodes[3].right_child is Some
            &&& 0 <= a < 3
            &&& 0 <= b < 3
            &&& 0 <= c < 3
            &&& a != b
            &&& a != c
            &&& b != c
            &&& {
                ||| {
                    &&& nodes[4].left_child == Some(3usize)
                    &&& nodes[4].right_child == Some(c as usize)
                    &&& newick(node, lengths) == seq!['('] + cherry_text(nodes, lengths, 3) + seq![','] + own_text(nodes, lengths, c) + seq![')'] + own_text(nodes, lengths, 4)
                }
                ||| {
                    &&& nodes[4].left_child == Some(c as usize)
                    &&& nodes[4].right_child == Some(3usize)
                    &&& newick(node, lengths) == seq!['('] + own_text(nodes, lengths, c) + seq![','] + cherry_text(nodes, lengths, 3) + seq![')'] + own_text(nodes, lengths, 4)
                }
            }
        }),
{
    let nodes = tree.nodes@;
    law_leaf_count(tree, 3);
    law_nested_tree(node, tree, 3);
    assert(sealed_node(nodes, 0, 3));
    assert(sealed_node(nodes, 1, 3));
    assert(sealed_node(nodes, 2, 3));
    assert(sealed_node(nodes, 3, 3));
    assert(sealed_node(nodes, 4, 3));
    let top = node.children->0;
    let left = nodes[4].left_child->0 as int;
    let right = nodes[4].right_child->0 as int;
    assert(mirrors(top.0, nodes, left));
    assert(mirrors(top.1, nodes, right));
    if left == 3 {
        lemma_cherry(top.0, nodes, lengths, 3);
        lemma_leaf(top.1, nodes, lengths, right);
    } else {
        lemma_leaf(top.0, nodes, lengths, left);
        lemma_cherry(top.1, nodes, lengths, 3);
    }
}

} // verus!
