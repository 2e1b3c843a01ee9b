//! The arena read as a graph: which records make a well-formed quadtree, and
//! the tree that a node stands for.

use vstd::prelude::*;
use crate::bits::popcount;
use crate::node::{Node, NodeData, NodeId, QuadChildren, MAX_LEVEL};
use crate::tree::{lemma_population_bound, Tree};
use vstd::arithmetic::power2::{lemma2_to64_rest, lemma_pow2_strictly_increases, pow2};

verus! {

/// The records of the arena by their keys.
pub type Arena = Map<usize, NodeData>;

/// A leaf is always valid; an internal node is valid if the arena holds it.
pub open spec fn node_valid(a: Arena, node: Node) -> bool {
    match node {
        Node::Leaf(_) => true,
        Node::NodeId(id) => a.contains_key(id.0),
    }
}

/// The level of a node: 2 for a leaf, else what its record says.
pub open spec fn node_level(a: Arena, node: Node) -> nat {
    match node {
        Node::Leaf(_) => 2,
        Node::NodeId(id) => a[id.0].level as nat,
    }
}

/// The population of a node: the set bits of a leaf, else what its record
/// says.
pub open spec fn node_population(a: Arena, node: Node) -> nat {
    match node {
        Node::Leaf(leaf) => popcount(leaf),
        Node::NodeId(id) => a[id.0].population as nat,
    }
}

/// `child` can be a child of a node of level `level`.
pub open spec fn child_ok(a: Arena, child: Node, level: u8) -> bool {
    node_valid(a, child) && node_level(a, child) + 1 == level
}

/// The record under `id` is consistent: its children are valid and one level
/// down, and its population is the sum of theirs.
pub open spec fn entry_wf(a: Arena, id: usize) -> bool {
    let d = a[id];
    &&& 3 <= d.level <= MAX_LEVEL
    &&& child_ok(a, d.children.nw(), d.level)
    &&& child_ok(a, d.children.ne(), d.level)
    &&& child_ok(a, d.children.sw(), d.level)
    &&& child_ok(a, d.children.se(), d.level)
    &&& d.population == node_population(a, d.children.nw()) + node_population(a, d.children.ne())
        + node_population(a, d.children.sw()) + node_population(a, d.children.se())
}

/// Every record of the arena is consistent.
pub open spec fn arena_wf(a: Arena) -> bool {
    forall|id: usize| a.contains_key(id) ==> #[trigger] entry_wf(a, id)
}

/// The tree that `node` stands for, read down `level` levels.
pub open spec fn node_tree(a: Arena, node: Node, level: nat) -> Tree
    decreases level,
{
    match node {
        Node::Leaf(leaf) => Tree::Leaf(leaf),
        Node::NodeId(id) => if level <= 2 {
            Tree::Leaf(0)
        } else {
            let c = a[id.0].children;
            let l = (level - 1) as nat;
            Tree::quad(
                node_tree(a, c.nw(), l),
                node_tree(a, c.ne(), l),
                node_tree(a, c.sw(), l),
                node_tree(a, c.se(), l),
            )
        },
    }
}

/// The tree that `node` stands for.
#[verifier::opaque]
pub open spec fn tree_of(a: Arena, node: Node) -> Tree {
    node_tree(a, node, node_level(a, node))
}

/// `b` holds every record of `a`, with the same level, children and
/// population.
pub open spec fn extends(a: Arena, b: Arena) -> bool {
    forall|id: usize| #[trigger]
        a.contains_key(id) ==> b.contains_key(id) && b[id].level == a[id].level && b[id].children
            == a[id].children && b[id].population == a[id].population
}

/// The tree of a valid node is well formed and has the node's level and
/// population; the tree of an internal node is made of its children's trees.
pub proof fn lemma_tree_of(a: Arena, node: Node)
    requires
        arena_wf(a),
        node_valid(a, node),
    ensures
        tree_of(a, node).wf(),
        tree_of(a, node).level() == node_level(a, node),
        tree_of(a, node).population() == node_population(a, node),
        2 <= node_level(a, node) <= MAX_LEVEL,
        node is NodeId <==> node_level(a, node) >= 3,
        node matches Node::NodeId(id) ==> {
            let c = a[id.0].children;
            &&& tree_of(a, node) == Tree::quad(
                tree_of(a, c.nw()),
                tree_of(a, c.ne()),
                tree_of(a, c.sw()),
                tree_of(a, c.se()),
            )
            &&& tree_of(a, node).nw() == tree_of(a, c.nw())
            &&& tree_of(a, node).ne() == tree_of(a, c.ne())
            &&& tree_of(a, node).sw() == tree_of(a, c.sw())
            &&& tree_of(a, node).se() == tree_of(a, c.se())
        },
        node matches Node::Leaf(leaf) ==> tree_of(a, node) == Tree::Leaf(leaf),
    decreases node_level(a, node),
{
    reveal(tree_of);
    match node {
        Node::Leaf(_) => {},
        Node::NodeId(id) => {
            assert(a.contains_key(id.0));
            assert(entry_wf(a, id.0));
            let c = a[id.0].children;
            lemma_tree_of(a, c.nw());
            lemma_tree_of(a, c.ne());
            lemma_tree_of(a, c.sw());
            lemma_tree_of(a, c.se());
        },
    }
}

/// `4^30` and `4^31` as numbers.
pub proof fn lemma_pow2_60()
    ensures
        pow2(60) == 0x1000_0000_0000_0000,
        pow2(62) == 0x4000_0000_0000_0000,
{
    lemma2_to64_rest();
}

/// Powers of two grow with the exponent.
pub proof fn lemma_pow2_mono(a: nat, b: nat)
    requires
        a <= b,
    ensures
        pow2(a) <= pow2(b),
{
    if a < b {
        lemma_pow2_strictly_increases(a, b);
    }
}

/// A node of level `n` holds at most `4^n` live cells: fewer than `2^63`,
/// and fewer than `2^61` if the node is below the top level.
pub proof fn lemma_node_population_bound(a: Arena, node: Node)
    requires
        arena_wf(a),
        node_valid(a, node),
    ensures
        node_population(a, node) <= 0x4000_0000_0000_0000,
        node_level(a, node) < MAX_LEVEL ==> node_population(a, node) <= 0x1000_0000_0000_0000,
{
    lemma_tree_of(a, node);
    let t = tree_of(a, node);
    lemma_population_bound(t);
    lemma_pow2_60();
    lemma_pow2_mono(2 * t.level(), 62);
    if node_level(a, node) < MAX_LEVEL {
        lemma_pow2_mono(2 * t.level(), 60);
    }
}

/// A node of `a` stands for the same tree in every arena that extends `a`.
pub proof fn lemma_frame(a: Arena, b: Arena, node: Node)
    requires
        arena_wf(a),
        extends(a, b),
        node_valid(a, node),
    ensures
        node_valid(b, node),
        node_level(b, node) == node_level(a, node),
        node_population(b, node) == node_population(a, node),
        tree_of(b, node) == tree_of(a, node),
    decreases node_level(a, node),
{
    reveal(tree_of);
    match node {
        Node::Leaf(_) => {},
        Node::NodeId(id) => {
            assert(a.contains_key(id.0));
            assert(entry_wf(a, id.0));
            let c = a[id.0].children;
            lemma_frame(a, b, c.nw());
            lemma_frame(a, b, c.ne());
            lemma_frame(a, b, c.sw());
            lemma_frame(a, b, c.se());
        },
    }
}

/// Every node of `a` stands for the same tree in an arena that extends `a`.
pub proof fn lemma_frame_all(a: Arena, b: Arena)
    requires
        arena_wf(a),
        extends(a, b),
    ensures
        forall|node: Node|
            #![trigger tree_of(b, node)]
            #![trigger node_valid(b, node)]
            #![trigger node_level(b, node)]
            node_valid(a, node) ==> node_valid(b, node) && node_level(b, node) == node_level(
                a,
                node,
            ) && tree_of(b, node) == tree_of(a, node),
{
    assert forall|node: Node|
        #![trigger tree_of(b, node)]
        #![trigger node_valid(b, node)]
        #![trigger node_level(b, node)]
        node_valid(a, node) implies node_valid(b, node) && node_level(b, node) == node_level(
        a,
        node,
    ) && tree_of(b, node) == tree_of(a, node) by {
        lemma_frame(a, b, node);
    }
}

/// The children of a node of a well-formed arena are valid nodes one level
/// down, and their trees are the four parts of the node's tree.
pub proof fn lemma_node_children(a: Arena, id: NodeId)
    requires
        arena_wf(a),
        a.contains_key(id.0),
    ensures
        entry_wf(a, id.0),
        tree_of(a, Node::NodeId(id)).wf(),
        tree_of(a, Node::NodeId(id)).level() == a[id.0].level,
        tree_of(a, Node::NodeId(id)).nw() == tree_of(a, a[id.0].children.nw()),
        tree_of(a, Node::NodeId(id)).ne() == tree_of(a, a[id.0].children.ne()),
        tree_of(a, Node::NodeId(id)).sw() == tree_of(a, a[id.0].children.sw()),
        tree_of(a, Node::NodeId(id)).se() == tree_of(a, a[id.0].children.se()),
        a[id.0].level >= 4 ==> a[id.0].children is NodeId,
        a[id.0].level == 3 ==> a[id.0].children is Leaf,
        tree_of(a, Node::NodeId(id)) == Tree::quad(
            tree_of(a, a[id.0].children.nw()),
            tree_of(a, a[id.0].children.ne()),
            tree_of(a, a[id.0].children.sw()),
            tree_of(a, a[id.0].children.se()),
        ),
        a[id.0].children matches QuadChildren::Leaf { nw, ne, sw, se } ==> tree_of(
            a,
            Node::NodeId(id),
        ) == Tree::quad(Tree::Leaf(nw), Tree::Leaf(ne), Tree::Leaf(sw), Tree::Leaf(se)),
{
    assert(entry_wf(a, id.0));
    lemma_tree_of(a, Node::NodeId(id));
    lemma_tree_of(a, a[id.0].children.nw());
    lemma_tree_of(a, a[id.0].children.ne());
    lemma_tree_of(a, a[id.0].children.sw());
    lemma_tree_of(a, a[id.0].children.se());
}

} // verus!
