//! The nested tree: each node owns its children. It is made from the arena
//! once the arena is complete, and written out as parenthesised text.

use crate::arena::FlatNode;
use crate::depth::lemma_arena_is_enough;
use vstd::prelude::*;
use vstd::string::to_string_from_display_ensures;

verus! {

/// The arena does not hold a tree below the position asked for: a position
/// lies outside it, a node has one child alone, or a chain of children
/// does not end.
#[derive(Debug, Clone, Copy, PartialEq, Eq, Structural)]
pub struct MalformedTree;

/// A node that owns its two children, or has none. `index` is the position
/// in the arena that it was made from.
#[derive(Debug)]
pub struct Node {
    pub name: String,
    pub index: usize,
    pub length: usize,
    pub children: Option<Box<(Node, Node)>>,
}

/// The subtree below node `i` unfolds within `fuel` levels: every position
/// met lies in the arena, and every node met has two children or none.
pub open spec fn unfolds(nodes: Seq<FlatNode>, i: int, fuel: nat) -> bool
    decreases fuel,
{
    &&& fuel > 0
    &&& 0 <= i < nodes.len()
    &&& match (nodes[i].left_child, nodes[i].right_child) {
        (None, None) => true,
        (Some(a), Some(b)) => unfolds(nodes, a as int, (fuel - 1) as nat) && unfolds(
            nodes,
            b as int,
            (fuel - 1) as nat,
        ),
        _ => false,
    }
}

/// Below node `i` stands a tree: the children and their children end
/// somewhere, every position met lies in the arena, and every node met has
/// two children or none.
pub open spec fn is_tree(nodes: Seq<FlatNode>, i: int) -> bool {
    exists|fuel: nat| unfolds(nodes, i, fuel)
}

/// More fuel never hurts.
pub proof fn lemma_unfolds_more(nodes: Seq<FlatNode>, i: int, fuel: nat, more: nat)
    requires
        unfolds(nodes, i, fuel),
        fuel <= more,
    ensures
        unfolds(nodes, i, more),
    decreases fuel,
{
    if nodes[i].left_child is Some && nodes[i].right_child is Some {
        let a = nodes[i].left_child->0 as int;
        let b = nodes[i].right_child->0 as int;
        lemma_unfolds_more(nodes, a, (fuel - 1) as nat, (more - 1) as nat);
        lemma_unfolds_more(nodes, b, (fuel - 1) as nat, (more - 1) as nat);
    }
}

/// `node` is the arena's node `i` with everything below it: same name and
/// length, and children that are in turn what the arena holds at the two
/// child positions, left before right.
pub open spec fn mirrors(node: Node, nodes: Seq<FlatNode>, i: int) -> bool
    decreases node,
{
    &&& 0 <= i < nodes.len()
    &&& node.index == i
    &&& node.name == nodes[i].name
    &&& node.length == nodes[i].length
    &&& match node.children {
        None => nodes[i].left_child is None && nodes[i].right_child is None,
        Some(pair) => {
            &&& nodes[i].left_child is Some
            &&& nodes[i].right_child is Some
            &&& mirrors(pair.0, nodes, nodes[i].left_child->0 as int)
            &&& mirrors(pair.1, nodes, nodes[i].right_child->0 as int)
        },
    }
}

/// Number of nodes of a nested tree.
pub open spec fn size_of(node: Node) -> nat
    decreases node,
{
    match node.children {
        None => 1,
        Some(pair) => 1 + size_of(pair.0) + size_of(pair.1),
    }
}

/// Number of leaves of a nested tree.
pub open spec fn leaves_of(node: Node) -> nat
    decreases node,
{
    match node.children {
        None => 1,
        Some(pair) => leaves_of(pair.0) + leaves_of(pair.1),
    }
}

/// Every node of the nested tree comes from a position below `n`.
pub open spec fn covered(node: Node, n: int) -> bool
    decreases node,
{
    &&& node.index < n
    &&& match node.children {
        None => true,
        Some(pair) => covered(pair.0, n) && covered(pair.1, n),
    }
}

/// The text of a nested tree: a leaf is its name, a colon and its length;
/// an inner node is, in brackets, its left child, a comma and its right
/// child, and then its own name, a colon and its length. The length of a
/// node is written as `lengths` has it at the node's position.
pub open spec fn newick(node: Node, lengths: Seq<String>) -> Seq<char>
    decreases node,
{
    let own = node.name@ + seq![':'] + lengths[node.index as int]@;
    match node.children {
        None => own,
        Some(pair) => seq!['('] + newick(pair.0, lengths) + seq![','] + newick(pair.1, lengths)
            + seq![')'] + own,
    }
}

/// What is built below position `i` with `fuel` levels to spend.
fn build(nodes: &Vec<FlatNode>, i: usize, fuel: usize) -> (made: Result<Node, MalformedTree>)
    ensures
        made is Ok <==> unfolds(nodes@, i as int, fuel as nat),
        made is Ok ==> mirrors(made->Ok_0, nodes@, i as int),
    decreases fuel,
{
    if fuel == 0 || i >= nodes.len() {
        return Err(MalformedTree);
    }
    let flat = &nodes[i];
    match (flat.left_child, flat.right_child) {
        (None, None) => Ok(
            Node { name: flat.name.clone(), index: i, length: flat.length, children: None },
        ),
        (Some(a), Some(b)) => {
            let left = match build(nodes, a, fuel - 1) {
                Ok(node) => node,
                Err(e) => {
                    return Err(e);
                },
            };
            let right = match build(nodes, b, fuel - 1) {
                Ok(node) => node,
                Err(e) => {
                    return Err(e);
                },
            };
            Ok(
                Node {
                    name: flat.name.clone(),
                    index: i,
                    length: flat.length,
                    children: Some(Box::new((left, right))),
                },
            )
        },
        _ => Err(MalformedTree),
    }
}

/// Makes the nested tree below `root_index`. It fails where no tree is
/// there: the root or a child position lies outside the arena, a node has
/// one child alone, or a chain of children never ends because it comes
/// back to itself. The arena is only read.
pub fn flat_to_node(nodes: &Vec<FlatNode>, root_index: usize) -> (made: Result<Node, MalformedTree>)
    ensures
        made is Ok <==> is_tree(nodes@, root_index as int),
        made is Ok ==> mirrors(made->Ok_0, nodes@, root_index as int),
{
    proof {
        if is_tree(nodes@, root_index as int) {
            let fuel = choose|fuel: nat| unfolds(nodes@, root_index as int, fuel);
            lemma_arena_is_enough(nodes@, root_index as int, fuel);
        }
    }
    build(nodes, root_index, nodes.len())
}

/// Writes a nested tree as text, with the length of each node taken from
/// `lengths` at the node's position. Nothing is written where `lengths` is
/// too short for a node of the tree. The closing semicolon is left to the
/// caller.
pub fn node_to_newick(node: &Node, lengths: &Vec<String>) -> (text: Option<String>)
    ensures
        text is Some <==> covered(*node, lengths@.len() as int),
        text is Some ==> text->0@ == newick(*node, lengths@),
    decreases *node,
{
    let mut out = String::new();
    match &node.children {
        None => {},
        Some(pair) => {
            let left = match node_to_newick(&pair.0, lengths) {
                Some(s) => s,
                None => {
                    return None;
                },
            };
            let right = match node_to_newick(&pair.1, lengths) {
                Some(s) => s,
                None => {
                    return None;
                },
            };
            out.push('(');
            out.push_str(left.as_str());
            out.push(',');
            out.push_str(right.as_str());
            out.push(')');
        },
    }
    if node.index >= lengths.len() {
        return None;
    }
    out.push_str(node.name.as_str());
    out.push(':');
    out.push_str(lengths[node.index].as_str());
    proof {
        assert(out@ =~= newick(*node, lengths@));
    }
    Some(out)
}

/// The length of each node of the arena in ticks, written as `to_string`
/// writes a number: what `node_to_newick` needs to write a tree on the
/// event clock.
pub fn tick_lengths(nodes: &Vec<FlatNode>) -> (lengths: Vec<String>)
    ensures
        lengths@.len() == nodes@.len(),
        forall|i: int|
            0 <= i < nodes@.len() ==> to_string_from_display_ensures::<usize>(
                &nodes@[i].length,
                #[trigger] lengths@[i],
            ),
{
    let mut lengths: Vec<String> = Vec::new();
    let mut i: usize = 0;
    while i < nodes.len()
        invariant
            i <= nodes@.len(),
            lengths@.len() == i,
            forall|k: int|
                0 <= k < i ==> to_string_from_display_ensures::<usize>(
                    &nodes@[k].length,
                    #[trigger] lengths@[k],
                ),
        decreases nodes@.len() - i,
    {
        let text = nodes[i].length.to_string();
        lengths.push(text);
        i = i + 1;
    }
    lengths
}

/// A nested tree made from an arena needs no length beyond the arena's
/// size: with one length for each node of the arena it can be written out.
pub proof fn law_mirror_is_covered(node: Node, nodes: Seq<FlatNode>, i: int)
    requires
        mirrors(node, nodes, i),
    ensures
        covered(node, nodes.len() as int),
    decreases node,
{
    match node.children {
        None => {},
        Some(pair) => {
            law_mirror_is_covered(pair.0, nodes, nodes[i].left_child->0 as int);
            law_mirror_is_covered(pair.1, nodes, nodes[i].right_child->0 as int);
        },
    }
}

} // verus!
