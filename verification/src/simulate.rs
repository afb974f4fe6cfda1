//! The birth-death process, run backward in time on the event clock.
//!
//! A birth fuses two living lineages into their ancestor, a death lets a new
//! lineage appear, and a birth with one lineage left ends the run. Every
//! event takes one tick.

use crate::arena::{FlatNode, FlatTree};
use crate::chance::{flip, pick_below};
use crate::lemmas::{
    lemma_joined, lemma_leaf_count_push, lemma_leaf_count_same, lemma_lineages_push,
    lemma_pair_removed, lemma_subtree_kept, lemma_total_fused, lemma_total_kept,
    lemma_total_push,
};
use rand::distributions::Bernoulli;
use rand::rngs::StdRng;
use vstd::prelude::*;
use vstd::string::to_string_from_display_ensures;

verus! {

/// Why a run gave no tree.
#[derive(Debug, Clone, Copy, PartialEq, Eq, Structural)]
pub enum SimError {
    /// No surviving lineage was asked for.
    NoLineages,
    /// The arena would have grown beyond the limit given.
    NodeLimit,
}

/// What a tick brings.
#[derive(Debug, Clone, Copy, PartialEq, Eq, Structural)]
pub enum Event {
    /// A birth among several lineages: two of them fuse.
    Fusion,
    /// A birth with one lineage left: the run ends.
    Ending,
    /// A death: a new lineage appears.
    Death,
}

/// The tick at which the node at position `i` comes into being: the
/// `extant` first nodes exist from the start, and each later tick but the
/// last makes one node.
pub open spec fn born(i: int, extant: int) -> int {
    if i < extant {
        0
    } else {
        i - extant + 1
    }
}

/// Number of nodes without children.
pub open spec fn leaf_count(nodes: Seq<FlatNode>) -> nat
    decreases nodes.len(),
{
    if nodes.len() == 0 {
        0
    } else {
        leaf_count(nodes.drop_last()) + if nodes.last().left_child is None {
            1nat
        } else {
            0nat
        }
    }
}

/// Number of lineages alive after `k` ticks of a run that began with
/// `extant`: each tick that made a leaf added one, each tick that made an
/// inner node took one away.
pub open spec fn lineages_at(nodes: Seq<FlatNode>, extant: int, k: int) -> int
    decreases k,
{
    if k <= 0 {
        extant
    } else {
        lineages_at(nodes, extant, k - 1) + if nodes[extant + k - 1].left_child is None {
            1int
        } else {
            -1int
        }
    }
}

/// Number of nodes at and below node `i`, by the children that stand
/// before it in the arena.
pub open spec fn subtree_size(nodes: Seq<FlatNode>, i: int) -> int
    decreases i,
{
    if 0 <= i < nodes.len() && nodes[i].left_child is Some && nodes[i].right_child is Some
        && nodes[i].left_child->0 < i && nodes[i].right_child->0 < i {
        1 + subtree_size(nodes, nodes[i].left_child->0 as int) + subtree_size(
            nodes,
            nodes[i].right_child->0 as int,
        )
    } else {
        1
    }
}

/// Number of nodes at and below the nodes at the positions in `tops`,
/// added up.
pub open spec fn total_below(nodes: Seq<FlatNode>, tops: Seq<usize>) -> int
    decreases tops.len(),
{
    if tops.len() == 0 {
        0
    } else {
        total_below(nodes, tops.drop_last()) + subtree_size(nodes, tops.last() as int)
    }
}

/// The sequence after a swap-remove at position `i`.
pub open spec fn without(s: Seq<usize>, i: int) -> Seq<usize> {
    s.update(i, s.last()).drop_last()
}

/// The name of node `i` is its position, written as `to_string` writes it.
pub open spec fn named(nodes: Seq<FlatNode>, i: int) -> bool {
    to_string_from_display_ensures::<usize>(&(i as usize), nodes[i].name)
}

/// Node `i` is tied to its neighbours as the process ties it: it has two
/// distinct earlier children that name it as parent, or none; a parent, if
/// it has one, is later, names it as a child, and is reached by a branch as
/// long as the ticks between the two.
pub open spec fn linked(nodes: Seq<FlatNode>, i: int, extant: int) -> bool {
    let n = nodes[i];
    &&& n.left_child is Some <==> n.right_child is Some
    &&& i < extant ==> n.left_child is None
    &&& n.left_child is Some && n.right_child is Some ==> {
        let a = n.left_child->0 as int;
        let b = n.right_child->0 as int;
        &&& a < i
        &&& b < i
        &&& a != b
        &&& nodes[a].parent == Some(i as usize)
        &&& nodes[b].parent == Some(i as usize)
    }
    &&& n.parent is Some ==> {
        let p = n.parent->0 as int;
        &&& i < p < nodes.len()
        &&& (nodes[p].left_child == Some(i as usize) || nodes[p].right_child == Some(i as usize))
        &&& n.length == born(p, extant) - born(i, extant)
    }
}

/// What holds of node `i` while the process runs: its depth is the tick of
/// its making, and it lacks a parent exactly while it is alive.
pub open spec fn running_node(nodes: Seq<FlatNode>, alive: Seq<usize>, i: int, extant: int) -> bool {
    &&& linked(nodes, i, extant)
    &&& named(nodes, i)
    &&& nodes[i].depth == Some(born(i, extant) as usize)
    &&& nodes[i].parent is None <==> alive.contains(i as usize)
    &&& nodes[i].parent is None ==> nodes[i].length == 0
}

/// What holds of node `i` of a finished tree: its depth is the number of
/// ticks from its making to the end of the run, and only the last node
/// lacks a parent; the branch of that node ends with the run.
pub open spec fn sealed_node(nodes: Seq<FlatNode>, i: int, extant: int) -> bool {
    let ticks = nodes.len() - extant + 1;
    &&& linked(nodes, i, extant)
    &&& named(nodes, i)
    &&& nodes[i].depth == Some((ticks - born(i, extant)) as usize)
    &&& nodes[i].parent is None <==> i == nodes.len() - 1
    &&& nodes[i].parent is None ==> nodes[i].length == ticks - born(i, extant)
}

/// A finished tree grown from `extant` lineages: the root is the last
/// node, there is one leaf more than inner nodes, and all nodes stand at
/// or below the root.
pub open spec fn sealed_tree(tree: FlatTree, extant: int) -> bool {
    let nodes = tree.nodes@;
    &&& 1 <= extant <= nodes.len()
    &&& tree.root == nodes.len() - 1
    &&& leaf_count(nodes) * 2 == nodes.len() + 1
    &&& subtree_size(nodes, nodes.len() - 1) == nodes.len()
    &&& forall|i: int| 0 <= i < nodes.len() ==> #[trigger] sealed_node(nodes, i, extant)
}

/// The living after the lineages at positions `i1` and `i2` have left, the
/// higher position first, each by a swap-remove.
pub open spec fn pair_removed(s: Seq<usize>, i1: int, i2: int) -> Seq<usize> {
    if i1 > i2 {
        without(without(s, i1), i2)
    } else {
        without(without(s, i2), i1)
    }
}

/// The arena `after` is the arena `before` with one node more, made at the
/// next tick, whose children are `left` and `right`; these two have the new
/// node as parent and a branch from their making to this tick; no other
/// node has changed.
pub open spec fn joined(
    before: Seq<FlatNode>,
    after: Seq<FlatNode>,
    left: int,
    right: int,
    extant: int,
) -> bool {
    let index = before.len() as int;
    let now = born(index, extant);
    &&& after.len() == index + 1
    &&& named(after, index)
    &&& after[index].left_child == Some(left as usize)
    &&& after[index].right_child == Some(right as usize)
    &&& after[index].parent is None
    &&& after[index].depth == Some(now as usize)
    &&& after[index].length == 0
    &&& forall|i: int|
        0 <= i < index ==> #[trigger] after[i] == if i == left || i == right {
            FlatNode {
                parent: Some(index as usize),
                length: (now - born(i, extant)) as usize,
                ..before[i]
            }
        } else {
            before[i]
        }
}

/// The items of `after` are `x` and those of `before` other than `a` and `b`.
pub open spec fn replaced(before: Seq<usize>, after: Seq<usize>, a: usize, b: usize, x: usize) -> bool {
    forall|y: usize| #[trigger]
        after.contains(y) <==> (y == x || (before.contains(y) && y != a && y != b))
}

/// A run of the process: the arena, the positions of the living lineages,
/// the ticks gone by, and for each tick the number of lineages that were
/// alive when it began.
#[derive(Debug)]
pub struct Simulation {
    pub tree: FlatTree,
    pub alive: Vec<usize>,
    pub time: usize,
    pub lineages: Vec<usize>,
    pub extant: usize,
}

impl Simulation {
    /// The state of a run that has not ended.
    pub open spec fn growing(&self) -> bool {
        let nodes = self.tree.nodes@;
        let alive = self.alive@;
        &&& 1 <= self.extant
        &&& nodes.len() == self.extant + self.time
        &&& self.lineages@.len() == self.time
        &&& forall|k: int|
            0 <= k < self.lineages@.len() ==> #[trigger] self.lineages@[k] == lineages_at(
                nodes,
                self.extant as int,
                k,
            )
        &&& forall|k: int| 0 <= k < self.lineages@.len() ==> #[trigger] self.lineages@[k] >= 1
        &&& alive.len() == lineages_at(nodes, self.extant as int, self.time as int)
        &&& alive.len() >= 1
        &&& alive.no_duplicates()
        &&& alive.last() == nodes.len() - 1
        &&& forall|k: int| 0 <= k < alive.len() ==> #[trigger] alive[k] < nodes.len()
        &&& leaf_count(nodes) * 2 == nodes.len() + alive.len()
        &&& total_below(nodes, alive) == nodes.len()
        &&& forall|i: int|
            0 <= i < nodes.len() ==> #[trigger] running_node(nodes, alive, i, self.extant as int)
    }

    /// The state of a run that has ended: no lineage is left, the tree is
    /// finished, and `lineages` holds for every tick the number of lineages
    /// that it began with, which is at least one.
    pub open spec fn sealed(&self) -> bool {
        &&& sealed_tree(self.tree, self.extant as int)
        &&& self.alive@.len() == 0
        &&& self.time == self.tree.nodes@.len() - self.extant + 1
        &&& self.lineages@.len() == self.time
        &&& forall|k: int|
            0 <= k < self.lineages@.len() ==> #[trigger] self.lineages@[k] == lineages_at(
                self.tree.nodes@,
                self.extant as int,
                k,
            )
        &&& forall|k: int| 0 <= k < self.lineages@.len() ==> #[trigger] self.lineages@[k] >= 1
    }

    /// This state is `before` after a death: one tick has passed, the
    /// tick's count of lineages is written down, and a new leaf, made at
    /// this tick, stands last in the arena and last among the living.
    /// Nothing else has changed.
    pub open spec fn sprouted_from(&self, before: Simulation) -> bool {
        let n = self.tree.nodes@.last();
        &&& self.growing()
        &&& self.extant == before.extant
        &&& self.time == before.time + 1
        &&& self.tree.root == before.tree.root
        &&& self.lineages@ == before.lineages@.push(before.alive@.len() as usize)
        &&& self.alive@ == before.alive@.push(before.tree.nodes@.len() as usize)
        &&& self.tree.nodes@.len() == before.tree.nodes@.len() + 1
        &&& self.tree.nodes@.drop_last() == before.tree.nodes@
        &&& n.left_child is None
        &&& n.right_child is None
        &&& n.parent is None
        &&& n.depth == Some(self.time)
        &&& n.length == 0
    }

    /// This state is `before` after the fusion of the lineages at the
    /// positions `i1` and `i2` of the living: one tick has passed, the
    /// tick's count of lineages is written down, the two have left the
    /// living, the higher position first, and their new parent stands last
    /// in the arena and last among the living.
    pub open spec fn fused_from(&self, before: Simulation, i1: int, i2: int) -> bool {
        &&& self.growing()
        &&& self.extant == before.extant
        &&& self.time == before.time + 1
        &&& self.tree.root == before.tree.root
        &&& self.lineages@ == before.lineages@.push(before.alive@.len() as usize)
        &&& self.alive@ == pair_removed(before.alive@, i1, i2).push(
            before.tree.nodes@.len() as usize,
        )
        &&& joined(
            before.tree.nodes@,
            self.tree.nodes@,
            before.alive@[i1] as int,
            before.alive@[i2] as int,
            before.extant as int,
        )
    }

    /// This state is `before` after the last birth: one tick has passed,
    /// the count of one lineage is written down, nobody is alive, the last
    /// node is the root with a branch up to this tick, and every depth is
    /// the number of ticks from the node's making to this tick. Nothing
    /// else has changed.
    pub open spec fn sealed_from(&self, before: Simulation) -> bool {
        &&& self.sealed()
        &&& self.extant == before.extant
        &&& self.time == before.time + 1
        &&& self.tree.root == before.tree.nodes@.len() - 1
        &&& self.lineages@ == before.lineages@.push(1usize)
        &&& self.tree.nodes@.len() == before.tree.nodes@.len()
        &&& forall|i: int|
            0 <= i < before.tree.nodes@.len() ==> #[trigger] self.tree.nodes@[i] == (FlatNode {
                depth: Some((self.time - born(i, before.extant as int)) as usize),
                length: if i == before.tree.nodes@.len() - 1 {
                    (self.time - born(i, before.extant as int)) as usize
                } else {
                    before.tree.nodes@[i].length
                },
                ..before.tree.nodes@[i]
            })
    }
}

/// The second position of a pair in the living, from the first position
/// and a draw that skips it.
pub open spec fn second_of(first: int, draw: int) -> int {
    if draw >= first {
        draw + 1
    } else {
        draw
    }
}

/// The event of a tick: a birth fuses two lineages where there are
/// several and ends the run where there is one; anything else is a death.
pub open spec fn event_of(is_birth: bool, lineages: int) -> Event {
    if is_birth && lineages > 1 {
        Event::Fusion
    } else if is_birth {
        Event::Ending
    } else {
        Event::Death
    }
}

/// The event that a flip of the coin brings while `lineages` lineages are
/// alive: heads is a birth, tails a death.
pub fn next_event(is_birth: bool, lineages: usize) -> (event: Event)
    ensures
        event == event_of(is_birth, lineages as int),
{
    if is_birth && lineages > 1 {
        Event::Fusion
    } else if is_birth {
        Event::Ending
    } else {
        Event::Death
    }
}

/// The second position of a pair, from a first position and a draw below
/// one less than the number of lineages: the draw skips the first position,
/// so that each unordered pair is as likely as any other.
pub fn other_position(first: usize, draw: usize) -> (second: usize)
    requires
        draw < usize::MAX,
    ensures
        second == second_of(first as int, draw as int),
        second != first,
{
    if draw >= first {
        draw + 1
    } else {
        draw
    }
}

/// Whether a pair of positions has to be drawn for the event: for a
/// fusion, and for nothing else.
pub fn draws_pair(event: Event) -> (needed: bool)
    ensures
        needed == (event == Event::Fusion),
{
    match event {
        Event::Fusion => true,
        Event::Ending => false,
        Event::Death => false,
    }
}

/// The two bounds below which the positions of a pair are drawn while
/// `lineages` lineages are alive: the first position among all of them,
/// the second among the others.
pub fn draw_bounds(lineages: usize) -> (b: (usize, usize))
    requires
        lineages > 1,
    ensures
        b.0 == lineages,
        b.1 == lineages - 1,
{
    (lineages, lineages - 1)
}

impl Simulation {
    /// A run at tick zero: `n_extant` living leaves, named by their
    /// positions, without parent or children.
    pub fn start(n_extant: usize) -> (sim: Simulation)
        requires
            n_extant >= 1,
        ensures
            sim.growing(),
            sim.extant == n_extant,
            sim.time == 0,
            sim.tree.root == 0,
            sim.tree.nodes@.len() == n_extant,
            sim.alive@ == Seq::new(n_extant as nat, |k: int| k as usize),
            forall|i: int|
                0 <= i < n_extant ==> {
                    let n = #[trigger] sim.tree.nodes@[i];
                    &&& n.left_child is None
                    &&& n.right_child is None
                    &&& n.parent is None
                    &&& n.depth == Some(0usize)
                    &&& n.length == 0
                },
    {
        let mut tree = FlatTree::new();
        if n_extant <= usize::MAX / 2 {
            tree.nodes.reserve(2 * n_extant);
        }
        let mut alive: Vec<usize> = Vec::new();
        let mut k: usize = 0;
        while k < n_extant
            invariant
                k <= n_extant,
                tree.root == 0,
                tree.nodes@.len() == k,
                alive@ == Seq::new(k as nat, |j: int| j as usize),
                leaf_count(tree.nodes@) == k,
                total_below(tree.nodes@, alive@) == k,
                forall|i: int|
                    0 <= i < k ==> {
                        let n = #[trigger] tree.nodes@[i];
                        &&& n.left_child is None
                        &&& n.right_child is None
                        &&& n.parent is None
                        &&& n.depth == Some(0usize)
                        &&& n.length == 0
                        &&& named(tree.nodes@, i)
                    },
            decreases n_extant - k,
        {
            let ghost before = tree.nodes@;
            let ghost tops = alive@;
            let name = k.to_string();
            tree.add_node(name, None, None, None, Some(0), 0);
            alive.push(k);
            proof {
                lemma_leaf_count_push(before, tree.nodes@[k as int]);
                lemma_total_kept(before, tree.nodes@, tops);
                lemma_total_push(tree.nodes@, tops, k);
                assert(alive@ =~= Seq::new((k + 1) as nat, |j: int| j as usize));
            }
            k = k + 1;
        }
        let sim = Simulation { tree, alive, time: 0, lineages: Vec::new(), extant: n_extant };
        proof {
            assert forall|i: int| 0 <= i < sim.tree.nodes@.len() implies #[trigger] running_node(
                sim.tree.nodes@,
                sim.alive@,
                i,
                n_extant as int,
            ) by {
                let n = sim.tree.nodes@[i];
                assert(n.parent is None);
                assert(sim.alive@[i] == i as usize);
            }
        }
        sim
    }

    /// A death: one tick passes and a new leaf appears among the living.
    pub fn sprout(&mut self)
        requires
            old(self).growing(),
        ensures
            final(self).sprouted_from(*old(self)),
    {
        let ghost before = *self;
        let n: usize = self.alive.len();
        let index: usize = self.tree.nodes.len();
        self.lineages.push(n);
        self.time = self.time + 1;
        let name = index.to_string();
        self.tree.add_node(name, None, None, None, Some(self.time), 0);
        self.alive.push(index);
        proof {
            let nodes = self.tree.nodes@;
            let alive = self.alive@;
            let extant = self.extant as int;
            lemma_leaf_count_push(before.tree.nodes@, nodes[index as int]);
            assert(nodes.drop_last() =~= before.tree.nodes@);
            lemma_lineages_push(before.tree.nodes@, nodes, before.lineages@, n, extant);
            assert(lineages_at(nodes, extant, before.time + 1) == alive.len());
            lemma_total_kept(before.tree.nodes@, nodes, before.alive@);
            lemma_total_push(nodes, before.alive@, index);
            assert forall|i: int| 0 <= i < nodes.len() implies #[trigger] running_node(
                nodes,
                alive,
                i,
                extant,
            ) by {
                if i < index {
                    assert(running_node(before.tree.nodes@, before.alive@, i, extant));
                    assert(nodes[i] == before.tree.nodes@[i]);
                    if before.alive@.contains(i as usize) {
                        let k = choose|k: int| 0 <= k < before.alive@.len() && before.alive@[k] == i;
                        assert(alive[k] == i);
                    }
                    if alive.contains(i as usize) {
                        let k = choose|k: int| 0 <= k < alive.len() && alive[k] == i;
                        assert(before.alive@[k] == i);
                    }
                } else {
                    assert(alive[alive.len() - 1] == index);
                }
            }
            assert forall|a: int, b: int| 0 <= a < alive.len() && 0 <= b < alive.len() && a != b implies alive[a] != alive[b] by {
                if a < alive.len() - 1 {
                    assert(before.alive@[a] < index);
                }
                if b < alive.len() - 1 {
                    assert(before.alive@[b] < index);
                }
            }
        }
    }

    /// A birth among several lineages: one tick passes, the lineages at
    /// positions `i1` and `i2` of the living leave them, the higher position
    /// first, and a new node takes both as its children, left and right.
    /// Each child gets the new node as parent and a branch as long as the
    /// ticks since its own making.
    pub fn fuse(&mut self, i1: usize, i2: usize)
        requires
            old(self).growing(),
            i1 < old(self).alive@.len(),
            i2 < old(self).alive@.len(),
            i1 != i2,
        ensures
            final(self).fused_from(*old(self), i1 as int, i2 as int),
    {
        let ghost before = *self;
        let ghost extant = self.extant as int;
        let n: usize = self.alive.len();
        let left: usize = self.alive[i1];
        let right: usize = self.alive[i2];
        let (hi, lo) = if i1 > i2 {
            (i1, i2)
        } else {
            (i2, i1)
        };
        let index: usize = self.tree.nodes.len();
        proof {
            assert(running_node(before.tree.nodes@, before.alive@, left as int, extant));
            assert(running_node(before.tree.nodes@, before.alive@, right as int, extant));
        }
        let born_left: usize = self.tree.node(left).depth.unwrap();
        let born_right: usize = self.tree.node(right).depth.unwrap();
        self.alive.swap_remove(hi);
        self.alive.swap_remove(lo);
        self.alive.push(index);
        self.lineages.push(n);
        self.time = self.time + 1;
        let now: usize = self.time;
        let name = index.to_string();
        self.tree.add_node(name, Some(left), Some(right), None, Some(now), 0);
        self.tree.attach(left, Some(index), now - born_left);
        self.tree.attach(right, Some(index), now - born_right);
        proof {
            let nodes = self.tree.nodes@;
            let old_nodes = before.tree.nodes@;
            assert(joined(old_nodes, nodes, left as int, right as int, extant));
            assert(self.alive@ == pair_removed(before.alive@, i1 as int, i2 as int).push(index));
            lemma_pair_removed(before.alive@, i1 as int, i2 as int, index);
            assert(before.alive@[i1 as int] == left && before.alive@[i2 as int] == right);
            assert(before.alive@.contains(left) && before.alive@.contains(right));
            lemma_joined(old_nodes, nodes, before.alive@, self.alive@, left as int, right as int, extant);
            lemma_lineages_push(old_nodes, nodes, before.lineages@, n, extant);
            assert(nodes[extant + before.time].left_child is Some);
            lemma_total_fused(old_nodes, nodes, before.alive@, i1 as int, i2 as int);
            assert(lineages_at(nodes, extant, before.time + 1) == self.alive@.len());
        }
    }

    /// The tick at which node `i` was made and the tick at which its
    /// branch ends, read off the depth and the length of a finished tree;
    /// nothing where the node, its depth or such ticks do not exist.
    pub open spec fn span(&self, i: int) -> Option<(usize, usize)> {
        let nodes = self.tree.nodes@;
        if 0 <= i < nodes.len() && nodes[i].depth is Some && nodes[i].depth->0 <= self.time
            && self.time - nodes[i].depth->0 + nodes[i].length <= usize::MAX {
            Some(
                (
                    (self.time - nodes[i].depth->0) as usize,
                    (self.time - nodes[i].depth->0 + nodes[i].length) as usize,
                ),
            )
        } else {
            None
        }
    }

    /// The two ticks between which the branch above node `i` runs. In a
    /// finished tree every node has them: the tick of its making, and a
    /// later tick that is not after the end of the run.
    pub fn branch_ticks(&self, i: usize) -> (ticks: Option<(usize, usize)>)
        ensures
            ticks == self.span(i as int),
            self.sealed() && i < self.tree.nodes@.len() ==> {
                let made = born(i as int, self.extant as int);
                let ended = made + self.tree.nodes@[i as int].length;
                &&& ticks == Some((made as usize, ended as usize))
                &&& 0 <= made < ended <= self.time
            },
    {
        proof {
            if self.sealed() && i < self.tree.nodes@.len() {
                let nodes = self.tree.nodes@;
                let extant = self.extant as int;
                assert(sealed_node(nodes, i as int, extant));
                if nodes[i as int].parent is Some {
                    let p = nodes[i as int].parent->0 as int;
                    assert(sealed_node(nodes, p, extant));
                    assert(linked(nodes, p, extant));
                }
            }
        }
        if i >= self.tree.nodes.len() {
            return None;
        }
        let node = self.tree.node(i);
        match node.depth {
            None => None,
            Some(depth) => {
                if depth > self.time {
                    return None;
                }
                let made: usize = self.time - depth;
                if node.length > usize::MAX - made {
                    return None;
                }
                Some((made, made + node.length))
            },
        }
    }

    /// The last birth: one tick passes, the one lineage left becomes the
    /// root with a branch as long as the ticks since its making, and every
    /// depth is turned round, from ticks since the start into ticks before
    /// the end.
    pub fn seal(&mut self)
        requires
            old(self).growing(),
            old(self).alive@.len() == 1,
        ensures
            final(self).sealed_from(*old(self)),
    {
        let ghost before = *self;
        let ghost extant = self.extant as int;
        let last: usize = self.alive[0];
        let size: usize = self.tree.nodes.len();
        proof {
            assert(before.alive@.last() == before.alive@[0]);
            assert(running_node(before.tree.nodes@, before.alive@, last as int, extant));
            assert(before.alive@.contains(last));
        }
        self.lineages.push(1);
        self.time = self.time + 1;
        let now: usize = self.time;
        let born_last: usize = self.tree.node(last).depth.unwrap();
        let parent: Option<usize> = self.tree.node(last).parent;
        self.tree.attach(last, parent, now - born_last);
        self.tree.root = last;
        self.alive.pop();
        let ghost raw = self.tree.nodes@;
        proof {
            assert forall|i: int| 0 <= i < size implies (#[trigger] raw[i]).depth == Some(
                born(i, extant) as usize,
            ) by {
                assert(running_node(before.tree.nodes@, before.alive@, i, extant));
            }
        }
        let max_height: usize = self.tree.node(last).depth.unwrap() + self.tree.node(last).length;
        let mut j: usize = 0;
        while j < size
            invariant
                j <= size,
                size == raw.len(),
                self.tree.nodes@.len() == size,
                self.tree.root == last,
                self.alive@.len() == 0,
                self.lineages@ == before.lineages@.push(1usize),
                self.time == now,
                self.extant == before.extant,
                max_height == now,
                now == size - extant + 1,
                1 <= extant,
                forall|i: int| 0 <= i < size ==> (#[trigger] raw[i]).depth == Some(born(i, extant) as usize),
                forall|i: int|
                    0 <= i < j ==> #[trigger] self.tree.nodes@[i] == (FlatNode {
                        depth: Some((now - born(i, extant)) as usize),
                        ..raw[i]
                    }),
                forall|i: int| j <= i < size ==> #[trigger] self.tree.nodes@[i] == raw[i],
            decreases size - j,
        {
            let d: usize = self.tree.node(j).depth.unwrap();
            assert(raw[j as int].depth == Some(born(j as int, extant) as usize));
            self.tree.set_depth(j, Some(max_height - d));
            j = j + 1;
        }
        proof {
            let nodes = self.tree.nodes@;
            let old_nodes = before.tree.nodes@;
            lemma_leaf_count_same(old_nodes, nodes);
            lemma_lineages_push(old_nodes, nodes, before.lineages@, 1, extant);
            assert(before.alive@.drop_last().len() == 0);
            assert(total_below(old_nodes, before.alive@.drop_last()) == 0);
            assert(before.alive@.last() == last);
            assert(total_below(old_nodes, before.alive@) == subtree_size(old_nodes, last as int));
            lemma_subtree_kept(old_nodes, nodes, last as int);
            assert forall|i: int| 0 <= i < nodes.len() implies #[trigger] sealed_node(
                nodes,
                i,
                extant,
            ) by {
                assert(running_node(old_nodes, before.alive@, i, extant));
                let n = old_nodes[i];
                if n.left_child is Some {
                    let a = n.left_child->0 as int;
                    let b = n.right_child->0 as int;
                    assert(nodes[a].parent == old_nodes[a].parent);
                    assert(nodes[b].parent == old_nodes[b].parent);
                }
                if n.parent is Some {
                    let p = n.parent->0 as int;
                    assert(nodes[p].left_child == old_nodes[p].left_child);
                }
                if before.alive@.contains(i as usize) {
                    let k = choose|k: int| 0 <= k < before.alive@.len() && before.alive@[k] == i;
                    assert(k == 0);
                }
            }
        }
    }

    /// The event that a flip of the coin brings to this run: what
    /// `next_event` gives for the flip and the number of the living.
    pub fn event_for(&self, is_birth: bool) -> (event: Event)
        requires
            self.growing(),
        ensures
            event == event_of(is_birth, self.alive@.len() as int),
            event == Event::Fusion ==> self.alive@.len() > 1,
            event == Event::Ending ==> self.alive@.len() == 1,
    {
        next_event(is_birth, self.alive.len())
    }

    /// The two bounds below which the positions of the next pair are
    /// drawn: what `draw_bounds` gives for the number of the living.
    pub fn pair_bounds(&self) -> (b: (usize, usize))
        requires
            self.alive@.len() > 1,
        ensures
            b.0 == self.alive@.len(),
            b.1 == self.alive@.len() - 1,
    {
        draw_bounds(self.alive.len())
    }

    /// One tick of the run. `first` and `draw` are the two draws for a
    /// fusion, the first below the number of the living and the second
    /// below one less; the other events do not look at them.
    ///
    /// A birth with one lineage left ends the run: the answer is `true`.
    /// A fusion or a death that finds `max_nodes` nodes or more in the
    /// arena is refused, and the run is left as it was. Otherwise the
    /// fusion takes the pair at `first` and at the position that
    /// `other_position` gives for the draw, the death adds a leaf, and the
    /// answer is `false`: the run goes on.
    pub fn step(&mut self, event: Event, first: usize, draw: usize, max_nodes: usize) -> (out: Result<
        bool,
        SimError,
    >)
        requires
            old(self).growing(),
            event == Event::Fusion ==> old(self).alive@.len() > 1 && first < old(self).alive@.len()
                && draw < old(self).alive@.len() - 1,
            event == Event::Ending ==> old(self).alive@.len() == 1,
        ensures
            event == Event::Ending ==> out == Ok::<bool, SimError>(true) && final(self).sealed_from(
                *old(self),
            ),
            event != Event::Ending && old(self).tree.nodes@.len() >= max_nodes ==> out == Err::<
                bool,
                SimError,
            >(SimError::NodeLimit) && *final(self) == *old(self),
            event == Event::Fusion && old(self).tree.nodes@.len() < max_nodes ==> out == Ok::<
                bool,
                SimError,
            >(false) && final(self).fused_from(
                *old(self),
                first as int,
                second_of(first as int, draw as int),
            ),
            event == Event::Death && old(self).tree.nodes@.len() < max_nodes ==> out == Ok::<
                bool,
                SimError,
            >(false) && final(self).sprouted_from(*old(self)),
    {
        match event {
            Event::Ending => {
                self.seal();
                Ok(true)
            },
            Event::Fusion => {
                if self.tree.len() >= max_nodes {
                    return Err(SimError::NodeLimit);
                }
                let living: usize = self.alive.len();
                assert(draw < living);
                let second: usize = other_position(first, draw);
                self.fuse(first, second);
                Ok(false)
            },
            Event::Death => {
                if self.tree.len() >= max_nodes {
                    return Err(SimError::NodeLimit);
                }
                self.sprout();
                Ok(false)
            },
        }
    }
}

/// Grows a tree from `n_extant` surviving lineages. Each tick the coin is
/// flipped: heads is a birth, tails a death. A birth among several lineages
/// fuses a pair drawn evenly from all pairs; a birth with one lineage left
/// ends the run. What a flip and a pair of draws do to the run is what
/// `Simulation::step` says.
///
/// The run is given up once the arena holds `max_nodes` nodes and would
/// grow: a coin that rarely shows heads would otherwise never stop.
pub fn conditional_bd(coin: &Bernoulli, rng: &mut StdRng, n_extant: usize, max_nodes: usize) -> (run:
    Result<Simulation, SimError>)
    ensures
        n_extant == 0 <==> run == Err::<Simulation, SimError>(SimError::NoLineages),
        0 < n_extant && max_nodes < n_extant ==> run == Err::<Simulation, SimError>(
            SimError::NodeLimit,
        ),
        run is Ok ==> {
            &&& run->Ok_0.sealed()
            &&& run->Ok_0.extant == n_extant
            &&& run->Ok_0.tree.nodes@.len() <= max_nodes
        },
{
    if n_extant == 0 {
        return Err(SimError::NoLineages);
    }
    if n_extant > max_nodes {
        return Err(SimError::NodeLimit);
    }
    let mut sim = Simulation::start(n_extant);
    loop
        invariant
            sim.growing(),
            sim.extant == n_extant,
            n_extant > 0,
            sim.tree.nodes@.len() <= max_nodes,
        decreases max_nodes - sim.tree.nodes@.len(),
    {
        let event = sim.event_for(flip(coin, rng));
        let mut first: usize = 0;
        let mut draw: usize = 0;
        if draws_pair(event) {
            let bounds = sim.pair_bounds();
            first = pick_below(rng, bounds.0);
            draw = pick_below(rng, bounds.1);
        }
        match sim.step(event, first, draw, max_nodes) {
            Ok(done) => {
                if done {
                    return Ok(sim);
                }
            },
            Err(e) => {
                return Err(e);
            },
        }
    }
}

} // verus!
