//! Why as many levels as the arena has nodes are enough to unfold any tree
//! in it: along the longest way down from a node no position comes twice.

use crate::arena::FlatNode;
use crate::nested::{lemma_unfolds_more, unfolds};
use vstd::prelude::*;
use vstd::set_lib::{lemma_int_range, lemma_len_subset, set_int_range};

verus! {

/// Number of levels of the tree below node `i`, where it unfolds within
/// `fuel` levels.
pub open spec fn height(nodes: Seq<FlatNode>, i: int, fuel: nat) -> nat
    decreases fuel,
{
    if fuel == 0 || !(0 <= i < nodes.len()) {
        0
    } else {
        match (nodes[i].left_child, nodes[i].right_child) {
            (Some(a), Some(b)) => {
                let left = height(nodes, a as int, (fuel - 1) as nat);
                let right = height(nodes, b as int, (fuel - 1) as nat);
                if left >= right {
                    left + 1
                } else {
                    right + 1
                }
            },
            _ => 1,
        }
    }
}

/// The positions on a longest way down from node `i`.
pub open spec fn longest_way(nodes: Seq<FlatNode>, i: int, fuel: nat) -> Set<int>
    decreases fuel,
{
    if fuel == 0 || !(0 <= i < nodes.len()) {
        Set::empty()
    } else {
        match (nodes[i].left_child, nodes[i].right_child) {
            (Some(a), Some(b)) => {
                let left = height(nodes, a as int, (fuel - 1) as nat);
                let right = height(nodes, b as int, (fuel - 1) as nat);
                if left >= right {
                    longest_way(nodes, a as int, (fuel - 1) as nat).insert(i)
                } else {
                    longest_way(nodes, b as int, (fuel - 1) as nat).insert(i)
                }
            },
            _ => Set::empty().insert(i),
        }
    }
}

/// More fuel does not change the height of a tree that unfolds.
pub proof fn lemma_height_kept(nodes: Seq<FlatNode>, i: int, fuel: nat, more: nat)
    requires
        unfolds(nodes, i, fuel),
        fuel <= more,
    ensures
        unfolds(nodes, i, more),
        height(nodes, i, more) == height(nodes, i, fuel),
    decreases fuel,
{
    lemma_unfolds_more(nodes, i, fuel, more);
    if nodes[i].left_child is Some && nodes[i].right_child is Some {
        let a = nodes[i].left_child->0 as int;
        let b = nodes[i].right_child->0 as int;
        lemma_height_kept(nodes, a, (fuel - 1) as nat, (more - 1) as nat);
        lemma_height_kept(nodes, b, (fuel - 1) as nat, (more - 1) as nat);
    }
}

/// A tree that unfolds does so within its height.
pub proof fn lemma_height_enough(nodes: Seq<FlatNode>, i: int, fuel: nat)
    requires
        unfolds(nodes, i, fuel),
    ensures
        1 <= height(nodes, i, fuel) <= fuel,
        unfolds(nodes, i, height(nodes, i, fuel)),
    decreases fuel,
{
    if nodes[i].left_child is Some && nodes[i].right_child is Some {
        let a = nodes[i].left_child->0 as int;
        let b = nodes[i].right_child->0 as int;
        let rest = (fuel - 1) as nat;
        lemma_height_enough(nodes, a, rest);
        lemma_height_enough(nodes, b, rest);
        let h = height(nodes, i, fuel);
        lemma_unfolds_more(nodes, a, height(nodes, a, rest), (h - 1) as nat);
        lemma_unfolds_more(nodes, b, height(nodes, b, rest), (h - 1) as nat);
    }
}

/// On a longest way down from a node that unfolds there are as many
/// positions as the tree has levels, all of them in the arena, and each the
/// top of a tree that is no higher.
pub proof fn lemma_longest_way(nodes: Seq<FlatNode>, i: int, fuel: nat)
    requires
        unfolds(nodes, i, fuel),
    ensures
        longest_way(nodes, i, fuel).finite(),
        longest_way(nodes, i, fuel).len() == height(nodes, i, fuel),
        longest_way(nodes, i, fuel).subset_of(set_int_range(0, nodes.len() as int)),
        forall|j: int| #[trigger]
            longest_way(nodes, i, fuel).contains(j) ==> unfolds(nodes, j, fuel) && height(
                nodes,
                j,
                fuel,
            ) <= height(nodes, i, fuel),
    decreases fuel,
{
    if nodes[i].left_child is Some && nodes[i].right_child is Some {
        let a = nodes[i].left_child->0 as int;
        let b = nodes[i].right_child->0 as int;
        let rest = (fuel - 1) as nat;
        let c = if height(nodes, a, rest) >= height(nodes, b, rest) { a } else { b };
        let below = longest_way(nodes, c, rest);
        lemma_longest_way(nodes, c, rest);
        assert(longest_way(nodes, i, fuel) == below.insert(i));
        assert(height(nodes, i, fuel) == height(nodes, c, rest) + 1);
        assert forall|j: int| #[trigger] below.contains(j) implies unfolds(nodes, j, fuel)
            && height(nodes, j, fuel) < height(nodes, i, fuel) by {
            lemma_height_kept(nodes, j, rest, fuel);
        }
        if below.contains(i) {
            assert(height(nodes, i, fuel) < height(nodes, i, fuel));
        }
    } else {
        assert(longest_way(nodes, i, fuel) == Set::<int>::empty().insert(i));
    }
}

/// A tree that unfolds at all unfolds within as many levels as the arena
/// has nodes.
pub proof fn lemma_arena_is_enough(nodes: Seq<FlatNode>, i: int, fuel: nat)
    requires
        unfolds(nodes, i, fuel),
    ensures
        unfolds(nodes, i, nodes.len()),
{
    lemma_longest_way(nodes, i, fuel);
    lemma_height_enough(nodes, i, fuel);
    lemma_int_range(0, nodes.len() as int);
    lemma_len_subset(longest_way(nodes, i, fuel), set_int_range(0, nodes.len() as int));
    lemma_unfolds_more(nodes, i, height(nodes, i, fuel), nodes.len());
}

} // verus!
