//! The steps of proof behind the events of a run.

use crate::arena::FlatNode;
use crate::simulate::{
    joined, leaf_count, lineages_at, linked, pair_removed, replaced, running_node, subtree_size,
    total_below, without,
};
use vstd::prelude::*;

verus! {

/// Taking a pair out of a sequence without repetitions, and putting a new
/// greater item at the end, leaves a sequence without repetitions that
/// holds the new item and all the old ones but the pair.
pub proof fn lemma_pair_removed(s: Seq<usize>, i1: int, i2: int, x: usize)
    requires
        s.no_duplicates(),
        0 <= i1 < s.len(),
        0 <= i2 < s.len(),
        i1 != i2,
        forall|k: int| 0 <= k < s.len() ==> #[trigger] s[k] < x,
    ensures
        pair_removed(s, i1, i2).len() == s.len() - 2,
        pair_removed(s, i1, i2).push(x).no_duplicates(),
        forall|k: int| 0 <= k < s.len() - 1 ==> #[trigger] pair_removed(s, i1, i2).push(x)[k] <= x,
        replaced(s, pair_removed(s, i1, i2).push(x), s[i1], s[i2], x),
{
    let hi = if i1 > i2 { i1 } else { i2 };
    let lo = if i1 > i2 { i2 } else { i1 };
    let w = without(s, hi);
    lemma_without(s, hi);
    lemma_without(w, lo);
    let r = without(w, lo);
    assert(r == pair_removed(s, i1, i2));
    let t = r.push(x);
    assert(w[lo] == s[lo]);
    assert forall|k: int| 0 <= k < r.len() implies #[trigger] r[k] < x by {
        assert(r.contains(r[k]));
        assert(s.contains(r[k]));
        let j = choose|j: int| 0 <= j < s.len() && s[j] == r[k];
        assert(s[j] < x);
    }
    assert forall|y: usize| t.contains(y) <==> (y == x || (s.contains(y) && y != s[i1] && y
        != s[i2])) by {
        if t.contains(y) {
            let k = choose|k: int| 0 <= k < t.len() && t[k] == y;
            if k < r.len() {
                assert(r[k] == y);
                assert(r.contains(y));
            }
        }
        if y == x {
            assert(t[t.len() - 1] == y);
        }
        if s.contains(y) && y != s[i1] && y != s[i2] {
            assert(r.contains(y));
            let k = choose|k: int| 0 <= k < r.len() && r[k] == y;
            assert(t[k] == y);
        }
    }
    assert forall|a: int, b: int| 0 <= a < t.len() && 0 <= b < t.len() && a != b implies t[a]
        != t[b] by {
        if a < r.len() {
            assert(r[a] < x);
        }
        if b < r.len() {
            assert(r[b] < x);
        }
    }
}

/// A fusion keeps every node as the running process wants it.
pub proof fn lemma_joined(
    before: Seq<FlatNode>,
    after: Seq<FlatNode>,
    alive_before: Seq<usize>,
    alive_after: Seq<usize>,
    left: int,
    right: int,
    extant: int,
)
    requires
        1 <= extant <= before.len() <= usize::MAX,
        forall|i: int| 0 <= i < before.len() ==> #[trigger] running_node(before, alive_before, i, extant),
        joined(before, after, left, right, extant),
        0 <= left < before.len(),
        0 <= right < before.len(),
        left != right,
        alive_before.contains(left as usize),
        alive_before.contains(right as usize),
        replaced(alive_before, alive_after, left as usize, right as usize, before.len() as usize),
    ensures
        forall|i: int| 0 <= i < after.len() ==> #[trigger] running_node(after, alive_after, i, extant),
        leaf_count(after) == leaf_count(before),
{
    let index = before.len() as int;
    assert(running_node(before, alive_before, left, extant));
    assert(running_node(before, alive_before, right, extant));
    assert forall|i: int| 0 <= i < after.len() implies #[trigger] running_node(
        after,
        alive_after,
        i,
        extant,
    ) by {
        if i < index {
            assert(running_node(before, alive_before, i, extant));
            let n = before[i];
            assert(after[i].left_child == n.left_child);
            assert(after[i].right_child == n.right_child);
            assert(after[i].name == n.name);
            assert(after[i].depth == n.depth);
            if n.left_child is Some {
                let a = n.left_child->0 as int;
                let b = n.right_child->0 as int;
                assert(after[a].parent == before[a].parent);
                assert(after[b].parent == before[b].parent);
            }
            if i == left || i == right {
                assert(linked(after, i, extant));
            } else {
                assert(after[i] == n);
                if n.parent is Some {
                    let p = n.parent->0 as int;
                    assert(after[p].left_child == before[p].left_child);
                    assert(after[p].right_child == before[p].right_child);
                }
                assert(linked(after, i, extant));
            }
        } else {
            assert(linked(after, i, extant));
        }
    }
    assert(after.drop_last().len() == before.len());
    assert forall|i: int| 0 <= i < before.len() implies after.drop_last()[i].left_child
        == before[i].left_child by {
        assert(after.drop_last()[i] == after[i]);
    }
    lemma_leaf_count_same(after.drop_last(), before);
}

/// The number of lineages after `k` ticks depends on the children of the
/// nodes made up to that tick alone: it is the same in any arena that
/// agrees on them, and so is the number after every earlier tick.
pub proof fn lemma_lineages_kept(before: Seq<FlatNode>, after: Seq<FlatNode>, extant: int, k: int)
    requires
        0 <= extant,
        0 <= k,
        extant + k <= before.len() <= after.len(),
        forall|i: int| 0 <= i < before.len() ==> before[i].left_child == after[i].left_child,
    ensures
        forall|j: int| 0 <= j <= k ==> lineages_at(before, extant, j) == #[trigger] lineages_at(after, extant, j),
    decreases k,
{
    if k > 0 {
        lemma_lineages_kept(before, after, extant, k - 1);
        assert(lineages_at(before, extant, k - 1) == lineages_at(after, extant, k - 1));
        assert(before[extant + k - 1].left_child == after[extant + k - 1].left_child);
        assert(lineages_at(before, extant, k) == lineages_at(after, extant, k));
    }
    assert forall|j: int| 0 <= j <= k implies lineages_at(before, extant, j) == #[trigger] lineages_at(
        after,
        extant,
        j,
    ) by {
        if j == 0 {
            assert(lineages_at(before, extant, 0) == extant);
            assert(lineages_at(after, extant, 0) == extant);
        }
    }
}

/// The number of nodes below a node depends on the children of the nodes
/// up to it alone.
pub proof fn lemma_subtree_kept(before: Seq<FlatNode>, after: Seq<FlatNode>, i: int)
    requires
        before.len() <= after.len(),
        forall|j: int|
            0 <= j < before.len() ==> before[j].left_child == after[j].left_child
                && before[j].right_child == after[j].right_child,
        i < before.len(),
    ensures
        subtree_size(after, i) == subtree_size(before, i),
    decreases i,
{
    if 0 <= i && before[i].left_child is Some && before[i].right_child is Some
        && before[i].left_child->0 < i && before[i].right_child->0 < i {
        lemma_subtree_kept(before, after, before[i].left_child->0 as int);
        lemma_subtree_kept(before, after, before[i].right_child->0 as int);
    }
}

/// So does the number of nodes below a row of nodes.
pub proof fn lemma_total_kept(before: Seq<FlatNode>, after: Seq<FlatNode>, tops: Seq<usize>)
    requires
        before.len() <= after.len(),
        forall|j: int|
            0 <= j < before.len() ==> before[j].left_child == after[j].left_child
                && before[j].right_child == after[j].right_child,
        forall|k: int| 0 <= k < tops.len() ==> #[trigger] tops[k] < before.len(),
    ensures
        total_below(after, tops) == total_below(before, tops),
    decreases tops.len(),
{
    if tops.len() > 0 {
        assert(tops[tops.len() - 1] < before.len());
        lemma_subtree_kept(before, after, tops.last() as int);
        assert forall|k: int| 0 <= k < tops.drop_last().len() implies #[trigger] tops.drop_last()[k]
            < before.len() by {
            assert(tops[k] < before.len());
        }
        lemma_total_kept(before, after, tops.drop_last());
    }
}

/// One more top adds what is below it.
pub proof fn lemma_total_push(nodes: Seq<FlatNode>, tops: Seq<usize>, x: usize)
    ensures
        total_below(nodes, tops.push(x)) == total_below(nodes, tops) + subtree_size(nodes, x as int),
{
    assert(tops.push(x).drop_last() =~= tops);
}

/// A top put in the place of another changes the total by the difference
/// of what is below the two.
pub proof fn lemma_total_update(nodes: Seq<FlatNode>, tops: Seq<usize>, i: int, x: usize)
    requires
        0 <= i < tops.len(),
    ensures
        total_below(nodes, tops.update(i, x)) == total_below(nodes, tops) - subtree_size(
            nodes,
            tops[i] as int,
        ) + subtree_size(nodes, x as int),
    decreases tops.len(),
{
    let changed = tops.update(i, x);
    if i == tops.len() - 1 {
        assert(changed.drop_last() =~= tops.drop_last());
    } else {
        assert(changed.drop_last() =~= tops.drop_last().update(i, x));
        lemma_total_update(nodes, tops.drop_last(), i, x);
    }
}

/// A swap-remove takes from the total what is below the top removed.
pub proof fn lemma_total_without(nodes: Seq<FlatNode>, tops: Seq<usize>, i: int)
    requires
        0 <= i < tops.len(),
    ensures
        total_below(nodes, without(tops, i)) == total_below(nodes, tops) - subtree_size(
            nodes,
            tops[i] as int,
        ),
{
    if i == tops.len() - 1 {
        assert(without(tops, i) =~= tops.drop_last());
    } else {
        assert(without(tops, i) =~= tops.drop_last().update(i, tops.last()));
        lemma_total_update(nodes, tops.drop_last(), i, tops.last());
    }
}

/// A fusion adds one node and keeps the total in step: what was below the
/// two tops that left is below the new top.
pub proof fn lemma_total_fused(
    before: Seq<FlatNode>,
    after: Seq<FlatNode>,
    tops: Seq<usize>,
    i1: int,
    i2: int,
)
    requires
        0 <= i1 < tops.len(),
        0 <= i2 < tops.len(),
        i1 != i2,
        tops.no_duplicates(),
        forall|k: int| 0 <= k < tops.len() ==> #[trigger] tops[k] < before.len(),
        before.len() <= usize::MAX,
        after.len() == before.len() + 1,
        forall|j: int|
            0 <= j < before.len() ==> before[j].left_child == after[j].left_child
                && before[j].right_child == after[j].right_child,
        after[before.len() as int].left_child == Some(tops[i1]),
        after[before.len() as int].right_child == Some(tops[i2]),
    ensures
        total_below(after, pair_removed(tops, i1, i2).push(before.len() as usize)) == total_below(
            before,
            tops,
        ) + 1,
{
    let hi = if i1 > i2 { i1 } else { i2 };
    let lo = if i1 > i2 { i2 } else { i1 };
    let first = without(tops, hi);
    let rest = without(first, lo);
    let index = before.len() as usize;
    lemma_total_without(before, tops, hi);
    lemma_total_without(before, first, lo);
    assert(first[lo] == tops[lo]);
    lemma_without(tops, hi);
    lemma_without(first, lo);
    assert forall|k: int| 0 <= k < rest.len() implies #[trigger] rest[k] < before.len() by {
        assert(rest.contains(rest[k]));
        assert(tops.contains(rest[k]));
        let j = choose|j: int| 0 <= j < tops.len() && tops[j] == rest[k];
        assert(tops[j] < before.len());
    }
    lemma_total_kept(before, after, rest);
    lemma_total_push(after, rest, index);
    assert(tops[i1] < before.len() && tops[i2] < before.len());
    lemma_subtree_kept(before, after, tops[i1] as int);
    lemma_subtree_kept(before, after, tops[i2] as int);
    assert(subtree_size(after, index as int) == 1 + subtree_size(after, tops[i1] as int)
        + subtree_size(after, tops[i2] as int));
}

/// Writing down the number of the living at the next tick keeps the counts
/// in step with the arena, also where the arena has grown or parents and
/// lengths have changed meanwhile.
pub proof fn lemma_lineages_push(
    before: Seq<FlatNode>,
    after: Seq<FlatNode>,
    counts: Seq<usize>,
    n: usize,
    extant: int,
)
    requires
        0 <= extant,
        extant + counts.len() <= before.len() <= after.len(),
        forall|i: int| 0 <= i < before.len() ==> before[i].left_child == after[i].left_child,
        forall|k: int| 0 <= k < counts.len() ==> #[trigger] counts[k] == lineages_at(before, extant, k),
        n == lineages_at(before, extant, counts.len() as int),
    ensures
        lineages_at(after, extant, counts.len() as int) == n,
        forall|k: int|
            0 <= k <= counts.len() ==> #[trigger] counts.push(n)[k] == lineages_at(after, extant, k),
{
    lemma_lineages_kept(before, after, extant, counts.len() as int);
    assert forall|k: int| 0 <= k <= counts.len() implies #[trigger] counts.push(n)[k]
        == lineages_at(after, extant, k) by {
        assert(lineages_at(before, extant, k) == lineages_at(after, extant, k));
        if k < counts.len() {
            assert(counts[k] == lineages_at(before, extant, k));
        }
    }
}

/// Adding a node adds one leaf, or none.
pub proof fn lemma_leaf_count_push(nodes: Seq<FlatNode>, node: FlatNode)
    ensures
        leaf_count(nodes.push(node)) == leaf_count(nodes) + if node.left_child is None {
            1nat
        } else {
            0nat
        },
{
    assert(nodes.push(node).drop_last() =~= nodes);
}

/// The number of leaves depends on the children alone.
pub proof fn lemma_leaf_count_same(a: Seq<FlatNode>, b: Seq<FlatNode>)
    requires
        a.len() == b.len(),
        forall|i: int| 0 <= i < a.len() ==> a[i].left_child == b[i].left_child,
    ensures
        leaf_count(a) == leaf_count(b),
    decreases a.len(),
{
    if a.len() > 0 {
        lemma_leaf_count_same(a.drop_last(), b.drop_last());
    }
}

/// A swap-remove on a sequence without repetitions takes out the item at
/// the position given and no other, and puts the last item in its place.
pub proof fn lemma_without(s: Seq<usize>, i: int)
    requires
        0 <= i < s.len(),
        s.no_duplicates(),
    ensures
        without(s, i).len() == s.len() - 1,
        without(s, i).no_duplicates(),
        forall|x: usize| without(s, i).contains(x) <==> (s.contains(x) && x != s[i]),
        forall|k: int| 0 <= k < s.len() - 1 && k != i ==> without(s, i)[k] == s[k],
{
    let w = without(s, i);
    assert forall|x: usize| w.contains(x) <==> (s.contains(x) && x != s[i]) by {
        if w.contains(x) {
            let k = choose|k: int| 0 <= k < w.len() && w[k] == x;
            if k == i {
                assert(s[s.len() - 1] == x);
            } else {
                assert(s[k] == x);
            }
        }
        if s.contains(x) && x != s[i] {
            let k = choose|k: int| 0 <= k < s.len() && s[k] == x;
            if k == s.len() - 1 {
                assert(w[i] == x);
            } else {
                assert(w[k] == x);
            }
        }
    }
}

} // verus!
