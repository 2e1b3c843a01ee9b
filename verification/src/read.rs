//! Building a world from what a pattern reader yields: the live cells of an
//! RLE pattern, or the nodes of a Macrocell pattern.

use vstd::prelude::*;
use crate::bits::bit;
use crate::graph::{lemma_tree_of, node_level, node_valid, tree_of};
use crate::node::{Leaf, Node, NodeId, MAX_LEVEL};
use crate::rule::{rule_sets, Rule};
use crate::tree::{lemma_empty, Tree};
use crate::world::World;

verus! {

/// A node as a Macrocell pattern lists it. A node's number is its place in
/// the list, counted from 1.
#[allow(inconsistent_fields)]
#[derive(Copy, Clone, Debug, PartialEq, Eq)]
pub enum MacrocellNode {
    /// A 2x2 square of a pattern with more than two states.
    Level1 { nw: u8, ne: u8, sw: u8, se: u8 },
    /// An 8x8 square: eight rows of eight cells, the top row first, each row
    /// with its most significant bit first.
    Level3(u64),
    /// A node of level `level` with the numbers of its four children, where
    /// 0 stands for the empty node one level down.
    Node { level: u8, nw: usize, ne: usize, sw: usize, se: usize },
}

/// Why a pattern gives no world.
#[derive(Debug)]
pub enum ReadError<E> {
    /// The reader failed; its error is handed on as it is.
    Reader(E),
    /// The pattern has more than two states.
    UnsupportedMultiState,
}

/// The rule that a pattern names, or Conway's Game of Life if it names
/// none, or none that is supported.
pub fn rule_or_life(rule: Option<&str>) -> (chosen: Rule)
    ensures
        named_rule(rule, chosen),
{
    match rule {
        Some(name) => match Rule::parse_rule(name) {
            Ok(rule) => rule,
            Err(_) => Rule::life(),
        },
        None => Rule::life(),
    }
}

/// Whether `chosen` is the rule for a pattern that names the rule `rule`:
/// that rule if it is a supported rule, else Conway's Game of Life.
pub open spec fn named_rule(rule: Option<&str>, chosen: Rule) -> bool {
    match rule {
        Some(name) => match rule_sets(name@) {
            Some(sets) => if sets.0.contains(0u8) {
                chosen.is_life()
            } else {
                chosen.is_rule(sets.0, sets.1)
            },
            None => chosen.is_life(),
        },
        None => chosen.is_life(),
    }
}

/// Whether the reader yielded the cell at `(x, y)`.
pub open spec fn yields<E>(item: Result<(i64, i64), E>, x: int, y: int) -> bool {
    match item {
        Ok(p) => p.0 == x && p.1 == y,
        Err(_) => false,
    }
}

/// Whether a cell lies where a world can hold it.
pub open spec fn cell_in_range(p: (i64, i64)) -> bool {
    -0x4000_0000 <= p.0 < 0x4000_0000 && -0x4000_0000 <= p.1 < 0x4000_0000
}

/// Whether every cell that the reader yielded lies where a world can hold
/// it.
pub open spec fn cells_in_range<E>(cells: Seq<Result<(i64, i64), E>>) -> bool {
    forall|i: int| 0 <= i < cells.len() ==> (#[trigger] cells[i] matches Ok(p) ==> cell_in_range(p))
}

/// Whether every cell that the reader yielded lies where a world can hold
/// it.
pub fn check_cells<E>(cells: &Vec<Result<(i64, i64), E>>) -> (ok: bool)
    ensures
        ok == cells_in_range(cells@),
{
    let mut i: usize = 0;
    while i < cells.len()
        invariant
            i <= cells.len(),
            forall|j: int| 0 <= j < i ==> (#[trigger] cells@[j] matches Ok(p) ==> cell_in_range(p)),
        decreases cells.len() - i,
    {
        match &cells[i] {
            Ok(p) => {
                if !(-0x4000_0000 <= p.0 && p.0 < 0x4000_0000 && -0x4000_0000 <= p.1 && p.1
                    < 0x4000_0000) {
                    return false;
                }
            },
            Err(_) => {},
        }
        i += 1;
    }
    true
}

impl World {
    /// The world of an RLE pattern: under the rule that the pattern names,
    /// with the cells alive that the reader yielded. The first error of the
    /// reader is handed on.
    pub fn from_rle<E>(rule: Option<&str>, cells: Vec<Result<(i64, i64), E>>) -> (world: Result<
        World,
        E,
    >)
        requires
            cells_in_range(cells@),
        ensures
            world matches Err(e) ==> exists|i: int|
                0 <= i < cells@.len() && cells@[i] == Err::<(i64, i64), E>(e) && forall|j: int|
                    0 <= j < i ==> #[trigger] cells@[j] is Ok,
            world matches Ok(w) ==> {
                &&& forall|j: int| 0 <= j < cells@.len() ==> #[trigger] cells@[j] is Ok
                &&& w.wf()
                &&& named_rule(rule, w.rule)
                &&& w.generation == 0
                &&& w.step == 0
                &&& forall|x: int, y: int| #[trigger]
                    w.alive(x, y) <==> exists|j: int|
                        0 <= j < cells@.len() && #[trigger] yields(cells@[j], x, y)
            },
    {
        let mut cells = cells;
        let ghost all = cells@;
        let mut world = World::new(rule_or_life(rule));
        proof {
            world.lemma_wf();
            lemma_tree_of(world.arena(), world.root);
            lemma_empty(2);
        }
        let mut i: usize = 0;
        let mut failed = false;
        while i < cells.len() && !failed
            invariant
                i <= cells.len(),
                cells@ == all,
                cells_in_range(all),
                world.wf(),
                named_rule(rule, world.rule),
                world.generation == 0,
                world.step == 0,
                failed ==> i < cells.len() && all[i as int] is Err,
                forall|j: int| 0 <= j < i ==> #[trigger] all[j] is Ok,
                forall|x: int, y: int| #[trigger]
                    world.alive(x, y) <==> exists|j: int|
                        0 <= j < i && #[trigger] yields(all[j], x, y),
            decreases cells.len() - i + (if failed { 0int } else { 1int }),
        {
            match &cells[i] {
                Ok(p) => {
                    let (x, y) = *p;
                    let ghost before = world;
                    world.set_cell(x, y, true);
                    proof {
                        assert forall|u: int, v: int| #[trigger]
                            world.alive(u, v) <==> exists|j: int|
                                0 <= j < i + 1 && #[trigger] yields(all[j], u, v) by {
                            if u == x && v == y {
                                assert(yields(all[i as int], u, v));
                            }
                            if before.alive(u, v) {
                                let j = choose|j: int|
                                    0 <= j < i && #[trigger] yields(all[j], u, v);
                                assert(0 <= j < i + 1 && yields(all[j], u, v));
                            }
                        }
                    }
                    i += 1;
                },
                Err(_) => {
                    failed = true;
                },
            }
        }
        if failed {
            match cells.remove(i) {
                Err(e) => Err(e),
                Ok(_) => Ok(world),
            }
        } else {
            Ok(world)
        }
    }
}

/// The north-west leaf of an 8x8 square.
pub open spec fn level3_nw(n: u64) -> u16 {
    (((n & 0xf000_0000_0000_0000) >> 48) | ((n & 0x00f0_0000_0000_0000) >> 44) | ((n
        & 0x0000_f000_0000_0000) >> 40) | ((n & 0x0000_00f0_0000_0000) >> 36)) as u16
}

/// The north-east leaf of an 8x8 square.
pub open spec fn level3_ne(n: u64) -> u16 {
    (((n & 0x0f00_0000_0000_0000) >> 44) | ((n & 0x000f_0000_0000_0000) >> 40) | ((n
        & 0x0000_0f00_0000_0000) >> 36) | ((n & 0x0000_000f_0000_0000) >> 32)) as u16
}

/// The south-west leaf of an 8x8 square.
pub open spec fn level3_sw(n: u64) -> u16 {
    (((n & 0x0000_0000_f000_0000) >> 16) | ((n & 0x0000_0000_00f0_0000) >> 12) | ((n
        & 0x0000_0000_0000_f000) >> 8) | ((n & 0x0000_0000_0000_00f0) >> 4)) as u16
}

/// The south-east leaf of an 8x8 square.
pub open spec fn level3_se(n: u64) -> u16 {
    (((n & 0x0000_0000_0f00_0000) >> 12) | ((n & 0x0000_0000_000f_0000) >> 8) | ((n
        & 0x0000_0000_0000_0f00) >> 4) | (n & 0x0000_0000_0000_000f)) as u16
}

/// The four leaves of an 8x8 square fit 16 bits.
pub proof fn lemma_level3_fits(n: u64)
    ensures
        (((n & 0xf000_0000_0000_0000) >> 48) | ((n & 0x00f0_0000_0000_0000) >> 44) | ((n
            & 0x0000_f000_0000_0000) >> 40) | ((n & 0x0000_00f0_0000_0000) >> 36)) <= 0xffff,
        (((n & 0x0f00_0000_0000_0000) >> 44) | ((n & 0x000f_0000_0000_0000) >> 40) | ((n
            & 0x0000_0f00_0000_0000) >> 36) | ((n & 0x0000_000f_0000_0000) >> 32)) <= 0xffff,
        (((n & 0x0000_0000_f000_0000) >> 16) | ((n & 0x0000_0000_00f0_0000) >> 12) | ((n
            & 0x0000_0000_0000_f000) >> 8) | ((n & 0x0000_0000_0000_00f0) >> 4)) <= 0xffff,
        (((n & 0x0000_0000_0f00_0000) >> 12) | ((n & 0x0000_0000_000f_0000) >> 8) | ((n
            & 0x0000_0000_0000_0f00) >> 4) | (n & 0x0000_0000_0000_000f)) <= 0xffff,
{
    assert((((n & 0xf000_0000_0000_0000) >> 48) | ((n & 0x00f0_0000_0000_0000) >> 44) | ((n
        & 0x0000_f000_0000_0000) >> 40) | ((n & 0x0000_00f0_0000_0000) >> 36)) <= 0xffff && (((n
        & 0x0f00_0000_0000_0000) >> 44) | ((n & 0x000f_0000_0000_0000) >> 40) | ((n
        & 0x0000_0f00_0000_0000) >> 36) | ((n & 0x0000_000f_0000_0000) >> 32)) <= 0xffff && (((n
        & 0x0000_0000_f000_0000) >> 16) | ((n & 0x0000_0000_00f0_0000) >> 12) | ((n
        & 0x0000_0000_0000_f000) >> 8) | ((n & 0x0000_0000_0000_00f0) >> 4)) <= 0xffff && (((n
        & 0x0000_0000_0f00_0000) >> 12) | ((n & 0x0000_0000_000f_0000) >> 8) | ((n
        & 0x0000_0000_0000_0f00) >> 4) | (n & 0x0000_0000_0000_000f)) <= 0xffff) by (bit_vector);
}

/// The cell at `(x, y)` of an 8x8 square, with `x` and `y` from -4 to 3:
/// row `y + 4` from the top, column `x + 4` from the left.
pub open spec fn level3_cell(n: u64, x: int, y: int) -> bool {
    -4 <= x < 4 && -4 <= y < 4 && n & (1u64 << ((63 - ((y + 4) * 8 + (x + 4))) as u64)) != 0
}

/// Where the bits of the four leaves of an 8x8 square come from.
pub proof fn lemma_level3_bits(n: u64, j: u16)
    requires
        j < 16,
    ensures
        bit(level3_nw(n), j) == (n & (1u64 << ((36 + 8 * (j / 4) + j % 4) as u64)) != 0),
        bit(level3_ne(n), j) == (n & (1u64 << ((32 + 8 * (j / 4) + j % 4) as u64)) != 0),
        bit(level3_sw(n), j) == (n & (1u64 << ((4 + 8 * (j / 4) + j % 4) as u64)) != 0),
        bit(level3_se(n), j) == (n & (1u64 << ((8 * (j / 4) + j % 4) as u64)) != 0),
{
    assert(j < 16 ==> (bit(level3_nw(n), j) == (n & (1u64 << ((36 + 8 * (j / 4) + j % 4) as u64))
        != 0)) && (bit(level3_ne(n), j) == (n & (1u64 << ((32 + 8 * (j / 4) + j % 4) as u64))
        != 0)) && (bit(level3_sw(n), j) == (n & (1u64 << ((4 + 8 * (j / 4) + j % 4) as u64)) != 0))
        && (bit(level3_se(n), j) == (n & (1u64 << ((8 * (j / 4) + j % 4) as u64)) != 0)))
        by (bit_vector);
}

/// The tree of an 8x8 square holds the square's cells: eight rows of eight
/// cells, the top row first, each row with its most significant bit first.
pub proof fn lemma_level3_tree(n: u64, x: int, y: int)
    ensures
        Tree::quad(
            Tree::Leaf(level3_nw(n)),
            Tree::Leaf(level3_ne(n)),
            Tree::Leaf(level3_sw(n)),
            Tree::Leaf(level3_se(n)),
        ).cell(x, y) == level3_cell(n, x, y),
{
    let nw = Tree::Leaf(level3_nw(n));
    let ne = Tree::Leaf(level3_ne(n));
    let sw = Tree::Leaf(level3_sw(n));
    let se = Tree::Leaf(level3_se(n));
    crate::bits::lemma_span(2);
    crate::bits::lemma_span(3);
    crate::tree::lemma_quad_cell(nw, ne, sw, se, x, y);
    if -4 <= x < 4 && -4 <= y < 4 {
        let u: int = if x < 0 {
            x + 2
        } else {
            x - 2
        };
        let v: int = if y < 0 {
            y + 2
        } else {
            y - 2
        };
        let j = crate::bits::cell_index(u, v) as u16;
        lemma_level3_bits(n, j);
        assert(j / 4 == 1 - v && j % 4 == 1 - u);
    }
}

/// The level of what the reader yielded: that of the node, or 0 for an
/// error.
pub open spec fn item_level<E>(item: Result<MacrocellNode, E>) -> nat {
    match item {
        Ok(MacrocellNode::Level1 { .. }) => 1,
        Ok(MacrocellNode::Level3(_)) => 3,
        Ok(MacrocellNode::Node { level, .. }) => level as nat,
        Err(_) => 0,
    }
}

/// Whether the loader stops at this item: an error of the reader, or a node
/// of a pattern with more than two states.
pub open spec fn failing<E>(item: Result<MacrocellNode, E>) -> bool {
    item_level(item) <= 1
}

/// Whether the item `i` is the first at which the loader stops.
pub open spec fn first_failing<E>(items: Seq<Result<MacrocellNode, E>>, i: int) -> bool {
    0 <= i < items.len() && failing(items[i]) && forall|j: int|
        0 <= j < i ==> !failing(#[trigger] items[j])
}

/// Whether `child`, in the node at place `i` of level `level`, is 0 or the
/// number of an earlier node one level down.
pub open spec fn ref_ok<E>(
    items: Seq<Result<MacrocellNode, E>>,
    i: int,
    child: usize,
    level: u8,
) -> bool {
    child == 0 || (child <= i && item_level(items[child - 1]) == level - 1)
}

/// Whether the item at place `i` is an error, a leaf, or a node of a level
/// from 4 up whose children are earlier nodes one level down.
pub open spec fn item_ok<E>(items: Seq<Result<MacrocellNode, E>>, i: int) -> bool {
    match items[i] {
        Ok(MacrocellNode::Node { level, nw, ne, sw, se }) => 4 <= level <= MAX_LEVEL && ref_ok(
            items,
            i,
            nw,
            level,
        ) && ref_ok(items, i, ne, level) && ref_ok(items, i, sw, level) && ref_ok(
            items,
            i,
            se,
            level,
        ),
        _ => true,
    }
}

/// Whether the items are a pattern: at least one, and each a proper one.
pub open spec fn well_formed<E>(items: Seq<Result<MacrocellNode, E>>) -> bool {
    items.len() > 0 && forall|i: int| 0 <= i < items.len() ==> #[trigger] item_ok(items, i)
}

/// The tree of the node at place `i`.
pub open spec fn macro_tree<E>(items: Seq<Result<MacrocellNode, E>>, i: int) -> Tree
    decreases i, 1int,
{
    if i < 0 {
        Tree::Leaf(0)
    } else {
        match items[i] {
            Ok(MacrocellNode::Level3(n)) => Tree::quad(
                Tree::Leaf(level3_nw(n)),
                Tree::Leaf(level3_ne(n)),
                Tree::Leaf(level3_sw(n)),
                Tree::Leaf(level3_se(n)),
            ),
            Ok(MacrocellNode::Node { level, nw, ne, sw, se }) => Tree::quad(
                macro_child(items, i, nw, level),
                macro_child(items, i, ne, level),
                macro_child(items, i, sw, level),
                macro_child(items, i, se, level),
            ),
            _ => Tree::Leaf(0),
        }
    }
}

/// The tree of the child with the number `child` of the node at place `i`
/// of level `level`.
pub open spec fn macro_child<E>(
    items: Seq<Result<MacrocellNode, E>>,
    i: int,
    child: usize,
    level: u8,
) -> Tree
    decreases i, 0int,
{
    if child == 0 || child > i || i < 0 {
        Tree::empty((level - 1) as nat)
    } else {
        macro_tree(items, child - 1)
    }
}

/// Whether the items are a pattern, so that `from_macrocell` can load them.
pub fn check_macrocell<E>(items: &Vec<Result<MacrocellNode, E>>) -> (ok: bool)
    ensures
        ok == well_formed(items@),
{
    if items.len() == 0 {
        return false;
    }
    let mut i: usize = 0;
    while i < items.len()
        invariant
            i <= items.len(),
            forall|j: int| 0 <= j < i ==> #[trigger] item_ok(items@, j),
        decreases items.len() - i,
    {
        match &items[i] {
            Ok(MacrocellNode::Node { level, nw, ne, sw, se }) => {
                let ok = 4 <= *level && *level <= MAX_LEVEL && check_ref(items, i, *nw, *level)
                    && check_ref(items, i, *ne, *level) && check_ref(items, i, *sw, *level)
                    && check_ref(items, i, *se, *level);
                if !ok {
                    proof {
                        assert(!item_ok(items@, i as int));
                    }
                    return false;
                }
            },
            _ => {},
        }
        i += 1;
    }
    true
}

fn check_ref<E>(items: &Vec<Result<MacrocellNode, E>>, i: usize, child: usize, level: u8) -> (ok:
    bool)
    requires
        i < items.len(),
        level >= 1,
    ensures
        ok == ref_ok(items@, i as int, child, level),
{
    if child == 0 {
        return true;
    }
    if child > i {
        return false;
    }
    let found: u8 = match &items[child - 1] {
        Ok(MacrocellNode::Level1 { .. }) => 1,
        Ok(MacrocellNode::Level3(_)) => 3,
        Ok(MacrocellNode::Node { level, .. }) => *level,
        Err(_) => 0,
    };
    found == level - 1
}

impl World {
    /// The world of a Macrocell pattern: under the rule that the pattern
    /// names, with the last node as the root. The first error of the reader
    /// is handed on; a pattern with more than two states is refused.
    pub fn from_macrocell<E>(rule: Option<&str>, nodes: Vec<Result<MacrocellNode, E>>) -> (world:
        Result<World, ReadError<E>>)
        requires
            well_formed(nodes@),
        ensures
            world is Ok <==> forall|j: int|
                0 <= j < nodes@.len() ==> !failing(#[trigger] nodes@[j]),
            world matches Ok(w) ==> {
                &&& w.wf()
                &&& named_rule(rule, w.rule)
                &&& w.generation == 0
                &&& w.step == 0
                &&& w.tree() == macro_tree(nodes@, nodes@.len() - 1)
            },
            world matches Err(ReadError::Reader(e)) ==> exists|i: int|
                first_failing(nodes@, i) && nodes@[i] == Err::<MacrocellNode, E>(e),
            world matches Err(ReadError::UnsupportedMultiState) ==> exists|i: int|
                first_failing(nodes@, i) && nodes@[i] is Ok,
    {
        let mut nodes = nodes;
        let ghost all = nodes@;
        let mut world = World::new(rule_or_life(rule));
        let mut ids: Vec<NodeId> = Vec::new();
        let mut i: usize = 0;
        let mut failed = false;
        while i < nodes.len() && !failed
            invariant
                i <= nodes.len(),
                nodes@ == all,
                well_formed(all),
                world.wf(),
                named_rule(rule, world.rule),
                world.generation == 0,
                world.step == 0,
                ids.len() == i,
                failed ==> i < nodes.len() && failing(all[i as int]),
                forall|j: int| 0 <= j < i ==> !failing(#[trigger] all[j]),
                forall|j: int|
                    0 <= j < i ==> world.arena().contains_key((#[trigger] ids@[j]).0)
                        && world.arena()[ids@[j].0].level == item_level(all[j]) && tree_of(
                        world.arena(),
                        Node::NodeId(ids@[j]),
                    ) == macro_tree(all, j),
            decreases nodes.len() - i + (if failed { 0int } else { 1int }),
        {
            proof {
                assert(item_ok(all, i as int));
            }
            match &nodes[i] {
                Err(_) => {
                    failed = true;
                },
                Ok(MacrocellNode::Level1 { .. }) => {
                    failed = true;
                },
                Ok(MacrocellNode::Level3(n)) => {
                    let n = *n;
                    proof {
                        lemma_level3_fits(n);
                    }
                    let nw = Node::Leaf(
                        ((n & 0xf000_0000_0000_0000) >> 48 | (n & 0x00f0_0000_0000_0000) >> 44 | (n
                            & 0x0000_f000_0000_0000) >> 40 | (n & 0x0000_00f0_0000_0000)
                            >> 36) as Leaf,
                    );
                    let ne = Node::Leaf(
                        ((n & 0x0f00_0000_0000_0000) >> 44 | (n & 0x000f_0000_0000_0000) >> 40 | (n
                            & 0x0000_0f00_0000_0000) >> 36 | (n & 0x0000_000f_0000_0000)
                            >> 32) as Leaf,
                    );
                    let sw = Node::Leaf(
                        ((n & 0x0000_0000_f000_0000) >> 16 | (n & 0x0000_0000_00f0_0000) >> 12 | (n
                            & 0x0000_0000_0000_f000) >> 8 | (n & 0x0000_0000_0000_00f0)
                            >> 4) as Leaf,
                    );
                    let se = Node::Leaf(
                        ((n & 0x0000_0000_0f00_0000) >> 12 | (n & 0x0000_0000_000f_0000) >> 8 | (n
                            & 0x0000_0000_0000_0f00) >> 4 | (n & 0x0000_0000_0000_000f)) as Leaf,
                    );
                    proof {
                        world.lemma_wf();
                        lemma_tree_of(world.arena(), nw);
                        lemma_tree_of(world.arena(), ne);
                        lemma_tree_of(world.arena(), sw);
                        lemma_tree_of(world.arena(), se);
                    }
                    let id = world.find_node(nw, ne, sw, se);
                    ids.push(id);
                    i += 1;
                },
                Ok(MacrocellNode::Node { level, nw, ne, sw, se }) => {
                    let level = *level;
                    let nw = world.child_node::<E>(&ids, Ghost(all), *nw, level);
                    let ne = world.child_node::<E>(&ids, Ghost(all), *ne, level);
                    let sw = world.child_node::<E>(&ids, Ghost(all), *sw, level);
                    let se = world.child_node::<E>(&ids, Ghost(all), *se, level);
                    proof {
                        world.lemma_wf();
                        lemma_tree_of(world.arena(), nw);
                        lemma_tree_of(world.arena(), ne);
                        lemma_tree_of(world.arena(), sw);
                        lemma_tree_of(world.arena(), se);
                    }
                    let id = world.find_node(nw, ne, sw, se);
                    ids.push(id);
                    i += 1;
                },
            }
        }
        if failed {
            proof {
                assert(first_failing(all, i as int));
            }
            match nodes.remove(i) {
                Err(e) => Err(ReadError::Reader(e)),
                Ok(_) => Err(ReadError::UnsupportedMultiState),
            }
        } else {
            match ids.pop() {
                Some(id) => {
                    world.set_root(Node::NodeId(id));
                },
                None => {},
            }
            Ok(world)
        }
    }

    /// The node that the number `child` stands for in a node of level
    /// `level`: the empty node one level down for 0, else the node loaded
    /// at that place.
    fn child_node<E>(
        &mut self,
        ids: &Vec<NodeId>,
        Ghost(all): Ghost<Seq<Result<MacrocellNode, E>>>,
        child: usize,
        level: u8,
    ) -> (node: Node)
        requires
            old(self).wf(),
            4 <= level <= MAX_LEVEL,
            ids.len() <= all.len(),
            ref_ok(all, ids.len() as int, child, level),
            forall|j: int|
                0 <= j < ids.len() ==> old(self).arena().contains_key((#[trigger] ids@[j]).0)
                    && old(self).arena()[ids@[j].0].level == item_level(all[j]) && tree_of(
                    old(self).arena(),
                    Node::NodeId(ids@[j]),
                ) == macro_tree(all, j),
        ensures
            final(self).wf(),
            final(self).follows(old(self)),
            final(self).keeps(old(self)),
            node is NodeId,
            node_valid(final(self).arena(), node),
            node_level(final(self).arena(), node) == level - 1,
            tree_of(final(self).arena(), node) == macro_child(
                all,
                ids.len() as int,
                child,
                level,
            ),
    {
        if child == 0 {
            let node = self.empty_node(level - 1);
            proof {
                self.lemma_wf();
                lemma_tree_of(self.arena(), node);
            }
            node
        } else {
            proof {
                self.lemma_wf();
                crate::graph::lemma_frame_all(self.arena(), self.arena());
            }
            Node::NodeId(ids[child - 1])
        }
    }
}

} // verus!
