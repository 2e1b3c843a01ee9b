//! The world: the arena with its canonicalization map, the root, the rule,
//! and the generation counter.

use vstd::prelude::*;
use crate::arena::{
    slab_entries, slab_get, slab_insert, slab_new, slab_replace, table_get, table_insert,
    table_new, NodeTable,
};
use crate::graph::{
    arena_wf, child_ok, entry_wf, extends, lemma_frame, lemma_frame_all,
    lemma_node_population_bound, lemma_tree_of, node_level, node_population, node_valid, tree_of,
    Arena,
};
use crate::node::{ChildKey, Leaf, Node, NodeData, NodeId, QuadChildren, MAX_LEVEL};
use crate::rule::Rule;
use crate::tree::Tree;
use slab::Slab;

verus! {

/// The number of arena entries from which `step` collects garbage.
pub const GC_THRESHOLD: usize = 0x100_0000;

/// An unbounded grid of cells as a hash-consed quadtree, with the rule that
/// evolves it.
#[derive(Debug)]
pub struct World {
    /// The rule, as a table over leaves.
    pub rule: Rule,
    /// The number of the generation that the root holds.
    pub generation: u64,
    /// The logarithm of the stride: `step` advances by `2^step` generations.
    pub step: u8,
    /// From the key of a child tuple to the node with these children.
    pub hash_table: NodeTable,
    /// The arena: the records of the internal nodes by their keys.
    pub node_data: Slab<NodeData>,
    /// Entry `i` is the node of level `i + 2` without a live cell.
    pub empty_nodes: Vec<Node>,
    /// The node that holds the grid, centred on the origin.
    pub root: Node,
    /// The number of arena entries from which `step` collects garbage.
    pub gc_threshold: usize,
}

/// The caches of the record under `id` hold what they are named for.
pub open spec fn cache_wf(a: Arena, table: Seq<u8>, step: nat, id: usize) -> bool {
    let d = a[id];
    let t = tree_of(a, Node::NodeId(NodeId(id)));
    &&& d.cache_step matches Some(r) ==> step + 2 <= d.level && child_ok(a, r, d.level) && tree_of(
        a,
        r,
    ) == t.step(table, step, d.level as nat)
    &&& d.cache_step_max matches Some(r) ==> child_ok(a, r, d.level) && tree_of(a, r) == t.step_max(
        table,
        d.level as nat,
    )
}

/// The record under `id` does not carry the collector's mark.
pub open spec fn unmarked(a: Arena, id: usize) -> bool {
    !a[id].gc_mark
}

/// The canonicalization map and the arena hold the same nodes: each record is
/// found by the key of its children, and each key leads to such a record.
pub open spec fn table_wf(a: Arena, m: Map<ChildKey, usize>) -> bool {
    &&& forall|k: ChildKey| #[trigger]
        m.contains_key(k) ==> a.contains_key(m[k]) && a[m[k]].children.spec_key() == k
    &&& forall|id: usize| #[trigger]
        a.contains_key(id) ==> m.contains_key(a[id].children.spec_key())
            && m[a[id].children.spec_key()] == id
}

/// The cached empty nodes: a zero leaf, then for each level the node whose
/// four children are the empty node one level down.
pub open spec fn empties_wf(a: Arena, e: Seq<Node>) -> bool {
    &&& e.len() <= MAX_LEVEL - 1
    &&& e.len() > 0 ==> e[0] == Node::Leaf(0)
    &&& forall|i: int| 1 <= i < e.len() ==> #[trigger] empty_link(a, e, i)
}

/// Entry `i` of the cached empty nodes is a node of level `i + 2` whose four
/// children are entry `i - 1`.
pub open spec fn empty_link(a: Arena, e: Seq<Node>, i: int) -> bool {
    &&& e[i] is NodeId
    &&& a.contains_key(e[i]->NodeId_0.0)
    &&& a[e[i]->NodeId_0.0].level == i + 2
    &&& a[e[i]->NodeId_0.0].children.spec_nw() == e[i - 1]
    &&& a[e[i]->NodeId_0.0].children.spec_ne() == e[i - 1]
    &&& a[e[i]->NodeId_0.0].children.spec_sw() == e[i - 1]
    &&& a[e[i]->NodeId_0.0].children.spec_se() == e[i - 1]
}

/// What a world's invariant says of the arena, the canonicalization map and
/// the cached empty nodes, but for the collector's marks.
pub open spec fn store_ok(
    a: Arena,
    m: Map<ChildKey, usize>,
    table: Seq<u8>,
    step: nat,
    e: Seq<Node>,
) -> bool {
    &&& arena_wf(a)
    &&& table_wf(a, m)
    &&& forall|id: usize| a.contains_key(id) ==> #[trigger] cache_wf(a, table, step, id)
    &&& empties_wf(a, e)
}

/// What a world's invariant says of the arena, the canonicalization map and
/// the cached empty nodes: the store is consistent and no record is marked.
pub open spec fn store_wf(
    a: Arena,
    m: Map<ChildKey, usize>,
    table: Seq<u8>,
    step: nat,
    e: Seq<Node>,
) -> bool {
    &&& store_ok(a, m, table, step, e)
    &&& forall|id: usize| a.contains_key(id) ==> #[trigger] unmarked(a, id)
}

/// A record whose caches stay as they are keeps them valid when the arena
/// is extended.
pub proof fn lemma_cache_frame(a: Arena, b: Arena, table: Seq<u8>, step: nat, id: usize)
    requires
        arena_wf(a),
        extends(a, b),
        a.contains_key(id),
        cache_wf(a, table, step, id),
        b[id].cache_step == a[id].cache_step,
        b[id].cache_step_max == a[id].cache_step_max,
    ensures
        cache_wf(b, table, step, id),
{
    lemma_frame(a, b, Node::NodeId(NodeId(id)));
    match a[id].cache_step {
        Some(r) => {
            lemma_frame(a, b, r);
        },
        None => {},
    }
    match a[id].cache_step_max {
        Some(r) => {
            lemma_frame(a, b, r);
        },
        None => {},
    }
}

/// Adding a fresh record with valid children, under a key of the
/// canonicalization map that was free, keeps the store well formed.
pub proof fn lemma_insert_node(
    a: Arena,
    m: Map<ChildKey, usize>,
    table: Seq<u8>,
    step: nat,
    e: Seq<Node>,
    key: usize,
    data: NodeData,
)
    requires
        store_wf(a, m, table, step, e),
        !a.contains_key(key),
        !m.contains_key(data.children.spec_key()),
        3 <= data.level <= MAX_LEVEL,
        child_ok(a, data.children.nw(), data.level),
        child_ok(a, data.children.ne(), data.level),
        child_ok(a, data.children.sw(), data.level),
        child_ok(a, data.children.se(), data.level),
        data.population == node_population(a, data.children.nw()) + node_population(
            a,
            data.children.ne(),
        ) + node_population(a, data.children.sw()) + node_population(a, data.children.se()),
        data.cache_step is None,
        data.cache_step_max is None,
        !data.gc_mark,
    ensures
        store_wf(a.insert(key, data), m.insert(data.children.spec_key(), key), table, step, e),
        extends(a, a.insert(key, data)),
{
    let b = a.insert(key, data);
    let n = m.insert(data.children.spec_key(), key);
    assert(extends(a, b));
    assert forall|id: usize| b.contains_key(id) implies #[trigger] entry_wf(b, id) by {
        if id != key {
            assert(a.contains_key(id));
            assert(entry_wf(a, id));
        }
    }
    assert forall|id: usize| b.contains_key(id) implies #[trigger] cache_wf(
        b,
        table,
        step,
        id,
    ) by {
        if id != key {
            assert(cache_wf(a, table, step, id));
            lemma_cache_frame(a, b, table, step, id);
        }
    }
    assert forall|id: usize| b.contains_key(id) implies #[trigger] unmarked(b, id) by {
        if id != key {
            assert(unmarked(a, id));
        }
    }
    assert forall|k: ChildKey| #[trigger] n.contains_key(k) implies b.contains_key(n[k])
        && b[n[k]].children.spec_key() == k by {
        if k != data.children.spec_key() {
            assert(m.contains_key(k));
        }
    }
    assert forall|id: usize| #[trigger] b.contains_key(id) implies n.contains_key(
        b[id].children.spec_key(),
    ) && n[b[id].children.spec_key()] == id by {
        if id != key {
            assert(a.contains_key(id));
        }
    }
    assert forall|i: int| 1 <= i < e.len() implies #[trigger] empty_link(b, e, i) by {
        assert(empty_link(a, e, i));
    }
}

/// Replacing the caches of a record by valid ones keeps the store well
/// formed.
pub proof fn lemma_update_caches(
    a: Arena,
    m: Map<ChildKey, usize>,
    table: Seq<u8>,
    step: nat,
    e: Seq<Node>,
    key: usize,
    data: NodeData,
)
    requires
        store_wf(a, m, table, step, e),
        a.contains_key(key),
        data.level == a[key].level,
        data.children == a[key].children,
        data.population == a[key].population,
        data.cache_step matches Some(r) ==> step + 2 <= data.level && child_ok(a, r, data.level)
            && tree_of(a, r) == tree_of(a, Node::NodeId(NodeId(key))).step(
            table,
            step,
            data.level as nat,
        ),
        data.cache_step_max matches Some(r) ==> child_ok(a, r, data.level) && tree_of(a, r)
            == tree_of(a, Node::NodeId(NodeId(key))).step_max(table, data.level as nat),
        !data.gc_mark,
    ensures
        store_wf(a.insert(key, data), m, table, step, e),
        extends(a, a.insert(key, data)),
{
    let b = a.insert(key, data);
    assert(extends(a, b));
    assert forall|id: usize| b.contains_key(id) implies #[trigger] entry_wf(b, id) by {
        assert(a.contains_key(id));
        assert(entry_wf(a, id));
    }
    assert forall|id: usize| b.contains_key(id) implies #[trigger] cache_wf(
        b,
        table,
        step,
        id,
    ) by {
        if id != key {
            assert(cache_wf(a, table, step, id));
            lemma_cache_frame(a, b, table, step, id);
        } else {
            lemma_frame(a, b, Node::NodeId(NodeId(key)));
            match data.cache_step {
                Some(r) => {
                    lemma_frame(a, b, r);
                },
                None => {},
            }
            match data.cache_step_max {
                Some(r) => {
                    lemma_frame(a, b, r);
                },
                None => {},
            }
        }
    }
    assert forall|id: usize| b.contains_key(id) implies #[trigger] unmarked(b, id) by {
        if id != key {
            assert(unmarked(a, id));
        }
    }
    assert forall|k: ChildKey| #[trigger] m.contains_key(k) implies b.contains_key(m[k])
        && b[m[k]].children.spec_key() == k by {}
    assert forall|id: usize| #[trigger] b.contains_key(id) implies m.contains_key(
        b[id].children.spec_key(),
    ) && m[b[id].children.spec_key()] == id by {
        assert(a.contains_key(id));
    }
    assert forall|i: int| 1 <= i < e.len() implies #[trigger] empty_link(b, e, i) by {
        assert(empty_link(a, e, i));
    }
}

/// Appending the node whose four children are the last cached empty node
/// keeps the store well formed.
pub proof fn lemma_push_empty(
    a: Arena,
    m: Map<ChildKey, usize>,
    table: Seq<u8>,
    step: nat,
    e: Seq<Node>,
    id: NodeId,
)
    requires
        store_wf(a, m, table, step, e),
        0 < e.len() < MAX_LEVEL - 1,
        a.contains_key(id.0),
        a[id.0].level == e.len() + 2,
        a[id.0].children.spec_nw() == e.last(),
        a[id.0].children.spec_ne() == e.last(),
        a[id.0].children.spec_sw() == e.last(),
        a[id.0].children.spec_se() == e.last(),
    ensures
        store_wf(a, m, table, step, e.push(Node::NodeId(id))),
{
    let f = e.push(Node::NodeId(id));
    assert forall|i: int| 1 <= i < f.len() implies #[trigger] empty_link(a, f, i) by {
        if i < e.len() {
            assert(empty_link(a, e, i));
        }
    }
}

/// The cached empty node of each level is valid, has that level and stands
/// for the empty tree.
pub proof fn lemma_empties(a: Arena, e: Seq<Node>, i: int)
    requires
        arena_wf(a),
        empties_wf(a, e),
        0 <= i < e.len(),
    ensures
        node_valid(a, e[i]),
        node_level(a, e[i]) == i + 2,
        tree_of(a, e[i]) == Tree::empty((i + 2) as nat),
    decreases i,
{
    if i > 0 {
        assert(empty_link(a, e, i));
        lemma_empties(a, e, i - 1);
    }
    lemma_tree_of(a, e[i]);
}

impl World {
    /// The records of the arena by their keys.
    pub open spec fn arena(&self) -> Arena {
        slab_entries(self.node_data)
    }

    /// The rule table.
    pub open spec fn table(&self) -> Seq<u8> {
        self.rule.rule_table@
    }

    /// The invariant of a world: the arena is a well-formed quadtree store,
    /// the canonicalization map agrees with it, every cache holds what it is
    /// named for, and the root is a node of the arena.
    #[verifier::opaque]
    pub open spec fn wf(&self) -> bool {
        &&& store_wf(
            self.arena(),
            self.hash_table@,
            self.table(),
            self.step as nat,
            self.empty_nodes@,
        )
        &&& node_valid(self.arena(), self.root)
    }

    /// The tree of the root.
    pub open spec fn tree(&self) -> Tree {
        tree_of(self.arena(), self.root)
    }

    /// `self` comes from `old` by adding nodes and filling caches, with the
    /// same root.
    pub open spec fn follows(&self, old: &World) -> bool {
        self.grows(old) && self.root == old.root
    }

    /// `self` comes from `old` by adding nodes and filling caches, and
    /// perhaps by moving the root: what the nodes of `old` stand for has
    /// not changed, nor the rule, the step or the generation.
    pub open spec fn grows(&self, old: &World) -> bool {
        &&& extends(old.arena(), self.arena())
        &&& self.rule == old.rule
        &&& self.step == old.step
        &&& self.generation == old.generation
        &&& self.gc_threshold == old.gc_threshold
        &&& old.empty_nodes@.len() <= self.empty_nodes@.len()
        &&& forall|i: int|
            0 <= i < old.empty_nodes@.len() ==> self.empty_nodes@[i] == old.empty_nodes@[i]
    }

    /// The node `id` is the only node of the arena with its children.
    #[verifier::opaque]
    pub open spec fn sole(&self, id: NodeId) -> bool {
        forall|other: usize|
            self.arena().contains_key(other) && self.arena()[other].children
                == self.arena()[id.0].children ==> other == id.0
    }

    /// Whether the arena holds a node with the children `children`.
    #[verifier::opaque]
    pub open spec fn holds(&self, children: QuadChildren) -> bool {
        exists|id: usize|
            self.arena().contains_key(id) && self.arena()[id].children == children
    }

    /// What the invariant says of the arena and of the root.
    pub proof fn lemma_wf(&self)
        requires
            self.wf(),
        ensures
            arena_wf(self.arena()),
            node_valid(self.arena(), self.root),
            empties_wf(self.arena(), self.empty_nodes@),
    {
        reveal(World::wf);
    }

    /// What the invariant says of the caches of the node `id`.
    pub proof fn lemma_wf_cache(&self, id: NodeId)
        requires
            self.wf(),
            self.arena().contains_key(id.0),
        ensures
            cache_wf(self.arena(), self.table(), self.step as nat, id.0),
            entry_wf(self.arena(), id.0),
    {
        reveal(World::wf);
        assert(NodeId(id.0) == id);
    }

    /// Every node of `old` is a node of `self`, of the same level, and stands
    /// for the same tree.
    pub open spec fn keeps(&self, old: &World) -> bool {
        forall|node: Node|
            #![trigger tree_of(self.arena(), node)]
            #![trigger node_valid(self.arena(), node)]
            #![trigger node_level(self.arena(), node)]
            node_valid(old.arena(), node) ==> node_valid(self.arena(), node) && node_level(
                self.arena(),
                node,
            ) == node_level(old.arena(), node) && tree_of(self.arena(), node) == tree_of(
                old.arena(),
                node,
            )
    }

    /// A world without live cells under `rule`, at generation 0, that
    /// advances by `2^step` generations.
    pub fn new_with_step(rule: Rule, step: u8) -> (world: World)
        ensures
            world.wf(),
            world.rule == rule,
            world.step == step,
            world.generation == 0,
            world.root == Node::Leaf(0),
            world.gc_threshold == GC_THRESHOLD,
            world.empty_nodes@.len() == 0,
            forall|id: usize| !world.arena().contains_key(id),
    {
        proof {
            reveal(World::wf);
        }
        World {
            rule,
            generation: 0,
            step,
            hash_table: table_new(),
            node_data: slab_new(),
            empty_nodes: Vec::new(),
            root: Node::Leaf(0),
            gc_threshold: GC_THRESHOLD,
        }
    }

    /// A world without live cells under `rule`, at generation 0, that
    /// advances by one generation.
    pub fn new(rule: Rule) -> (world: World)
        ensures
            world.wf(),
            world.rule == rule,
            world.step == 0,
            world.generation == 0,
            world.root == Node::Leaf(0),
            world.gc_threshold == GC_THRESHOLD,
            world.empty_nodes@.len() == 0,
            forall|id: usize| !world.arena().contains_key(id),
    {
        Self::new_with_step(rule, 0)
    }

    /// The record of the node `id`.
    pub fn index(&self, id: NodeId) -> (data: NodeData)
        requires
            self.arena().contains_key(id.0),
        ensures
            data == self.arena()[id.0],
    {
        slab_get(&self.node_data, id.0)
    }

    /// The level of a node: 2 for a leaf.
    pub fn node_level(&self, node: Node) -> (level: u8)
        requires
            node_valid(self.arena(), node),
        ensures
            level == node_level(self.arena(), node),
    {
        match node {
            Node::Leaf(_) => 2,
            Node::NodeId(id) => self.index(id).level,
        }
    }

    /// The level of the children of a node.
    pub fn children_level(&self, children: QuadChildren) -> (level: u8)
        requires
            node_valid(self.arena(), children.nw()),
        ensures
            level == node_level(self.arena(), children.nw()),
    {
        match children {
            QuadChildren::Leaf { .. } => 2,
            QuadChildren::NodeId { nw, .. } => self.index(nw).level,
        }
    }

    /// The number of live cells of a node.
    pub fn node_population(&self, node: Node) -> (population: u64)
        requires
            node_valid(self.arena(), node),
        ensures
            population == node_population(self.arena(), node),
    {
        match node {
            Node::Leaf(leaf) => leaf.count_ones() as u64,
            Node::NodeId(id) => self.index(id).population,
        }
    }

    /// The number of live cells of four children together.
    pub fn children_population(&self, children: QuadChildren) -> (population: u64)
        requires
            arena_wf(self.arena()),
            node_valid(self.arena(), children.nw()),
            node_valid(self.arena(), children.ne()),
            node_valid(self.arena(), children.sw()),
            node_valid(self.arena(), children.se()),
            node_level(self.arena(), children.nw()) < MAX_LEVEL,
            node_level(self.arena(), children.ne()) < MAX_LEVEL,
            node_level(self.arena(), children.sw()) < MAX_LEVEL,
            node_level(self.arena(), children.se()) < MAX_LEVEL,
        ensures
            population == node_population(self.arena(), children.nw()) + node_population(
                self.arena(),
                children.ne(),
            ) + node_population(self.arena(), children.sw()) + node_population(
                self.arena(),
                children.se(),
            ),
    {
        proof {
            lemma_node_population_bound(self.arena(), children.nw());
            lemma_node_population_bound(self.arena(), children.ne());
            lemma_node_population_bound(self.arena(), children.sw());
            lemma_node_population_bound(self.arena(), children.se());
        }
        match children {
            QuadChildren::Leaf { nw, ne, sw, se } => {
                nw.count_ones() as u64 + ne.count_ones() as u64 + sw.count_ones() as u64
                    + se.count_ones() as u64
            },
            QuadChildren::NodeId { nw, ne, sw, se } => {
                self.index(nw).population + self.index(ne).population + self.index(sw).population
                    + self.index(se).population
            },
        }
    }

    /// The node with the children `nw`, `ne`, `sw` and `se`: the one the
    /// arena holds, or else a new one. No other node of the arena has these
    /// children.
    pub fn find_node(&mut self, nw: Node, ne: Node, sw: Node, se: Node) -> (id: NodeId)
        requires
            old(self).wf(),
            QuadChildren::same_kind(nw, ne, sw, se),
            node_valid(old(self).arena(), nw),
            node_valid(old(self).arena(), ne),
            node_valid(old(self).arena(), sw),
            node_valid(old(self).arena(), se),
            node_level(old(self).arena(), ne) == node_level(old(self).arena(), nw),
            node_level(old(self).arena(), sw) == node_level(old(self).arena(), nw),
            node_level(old(self).arena(), se) == node_level(old(self).arena(), nw),
            node_level(old(self).arena(), nw) < MAX_LEVEL,
        ensures
            final(self).wf(),
            final(self).follows(old(self)),
            final(self).keeps(old(self)),
            final(self).arena().contains_key(id.0),
            final(self).arena()[id.0].children.spec_nw() == nw,
            final(self).arena()[id.0].children.spec_ne() == ne,
            final(self).arena()[id.0].children.spec_sw() == sw,
            final(self).arena()[id.0].children.spec_se() == se,
            final(self).arena()[id.0].level == node_level(old(self).arena(), nw) + 1,
            final(self).empty_nodes == old(self).empty_nodes,
            tree_of(final(self).arena(), Node::NodeId(id)) == Tree::quad(
                tree_of(old(self).arena(), nw),
                tree_of(old(self).arena(), ne),
                tree_of(old(self).arena(), sw),
                tree_of(old(self).arena(), se),
            ),
            final(self).sole(id),
            old(self).holds(final(self).arena()[id.0].children) ==> old(self).sole(id)
                && final(self).arena() == old(self).arena(),
    {
        proof {
            reveal(World::wf);
        }
        let children = QuadChildren::new(nw, ne, sw, se);
        let ghost a = self.arena();
        let found = table_get(&self.hash_table, children.key());
        proof {
            lemma_tree_of(a, nw);
            reveal(World::sole);
            reveal(World::holds);
            assert forall|other: usize|
                a.contains_key(other) && a[other].children == children implies found == Some(
                other,
            ) by {}
        }
        let id = match found {
            Some(key) => {
                proof {
                    assert(self.hash_table@.contains_key(children.spec_key()));
                    a[key].children.lemma_key_injective(children);
                    assert(entry_wf(a, key));
                }
                NodeId(key)
            },
            None => {
                let level = self.children_level(children) + 1;
                let population = self.children_population(children);
                let data = NodeData {
                    level,
                    population,
                    children,
                    cache_step: None,
                    cache_step_max: None,
                    gc_mark: false,
                };
                let key = slab_insert(&mut self.node_data, data);
                table_insert(&mut self.hash_table, children.key(), key);
                proof {
                    lemma_insert_node(
                        a,
                        old(self).hash_table@,
                        self.table(),
                        self.step as nat,
                        self.empty_nodes@,
                        key,
                        data,
                    );
                }
                NodeId(key)
            },
        };
        proof {
            let b = self.arena();
            lemma_frame_all(a, b);
            lemma_tree_of(b, Node::NodeId(id));
            assert forall|other: usize|
                b.contains_key(other) && b[other].children == b[id.0].children implies other
                == id.0 by {}
        }
        id
    }

    /// The node of level `level` without a live cell.
    pub fn empty_node(&mut self, level: u8) -> (node: Node)
        requires
            old(self).wf(),
            2 <= level <= MAX_LEVEL,
        ensures
            final(self).wf(),
            final(self).follows(old(self)),
            final(self).keeps(old(self)),
            node_valid(final(self).arena(), node),
            node_level(final(self).arena(), node) == level,
            tree_of(final(self).arena(), node) == Tree::empty(level as nat),
    {
        let ghost start = *self;
        proof {
            reveal(World::wf);
        }
        if self.empty_nodes.len() == 0 {
            self.empty_nodes.push(Node::Leaf(0));
            proof {
                assert(self.empty_nodes@ =~= seq![Node::Leaf(0)]);
            }
        }
        while self.empty_nodes.len() <= (level - 2) as usize
            invariant
                self.wf(),
                self.follows(&start),
                self.keeps(&start),
                self.empty_nodes.len() > 0,
                2 <= level <= MAX_LEVEL,
            decreases level - self.empty_nodes.len(),
        {
            let ghost before = *self;
            let last = self.empty_nodes[self.empty_nodes.len() - 1];
            proof {
                reveal(World::wf);
                lemma_empties(self.arena(), self.empty_nodes@, self.empty_nodes.len() - 1);
            }
            let new = self.find_node(last, last, last, last);
            let ghost found = *self;
            self.empty_nodes.push(Node::NodeId(new));
            proof {
                lemma_push_empty(
                    found.arena(),
                    found.hash_table@,
                    found.table(),
                    found.step as nat,
                    found.empty_nodes@,
                    new,
                );
            }
        }
        proof {
            reveal(World::wf);
            lemma_empties(self.arena(), self.empty_nodes@, level - 2);
        }
        self.empty_nodes[level as usize - 2]
    }

    /// Records `node` as the centre of the node `id` after `2^step`
    /// generations, for the world's current step.
    pub fn set_cache_step(&mut self, id: NodeId, node: Node)
        requires
            old(self).wf(),
            old(self).arena().contains_key(id.0),
            old(self).step + 2 <= old(self).arena()[id.0].level,
            child_ok(old(self).arena(), node, old(self).arena()[id.0].level),
            tree_of(old(self).arena(), node) == tree_of(old(self).arena(), Node::NodeId(id)).step(
                old(self).table(),
                old(self).step as nat,
                old(self).arena()[id.0].level as nat,
            ),
        ensures
            final(self).wf(),
            final(self).follows(old(self)),
            final(self).keeps(old(self)),
            final(self).empty_nodes == old(self).empty_nodes,
            final(self).arena() == old(self).arena().insert(
                id.0,
                (NodeData { cache_step: Some(node), ..old(self).arena()[id.0] }),
            ),
    {
        let mut data = self.index(id);
        data.cache_step = Some(node);
        proof {
            reveal(World::wf);
            assert(NodeId(id.0) == id);
            assert(cache_wf(self.arena(), self.table(), self.step as nat, id.0));
            assert(unmarked(self.arena(), id.0));
            lemma_update_caches(
                self.arena(),
                self.hash_table@,
                self.table(),
                self.step as nat,
                self.empty_nodes@,
                id.0,
                data,
            );
        }
        slab_replace(&mut self.node_data, id.0, data);
        proof {
            lemma_frame_all(old(self).arena(), self.arena());
        }
    }

    /// Records `node` as the centre of the node `id` after `2^(level - 2)`
    /// generations.
    pub fn set_cache_step_max(&mut self, id: NodeId, node: Node)
        requires
            old(self).wf(),
            old(self).arena().contains_key(id.0),
            child_ok(old(self).arena(), node, old(self).arena()[id.0].level),
            tree_of(old(self).arena(), node) == tree_of(
                old(self).arena(),
                Node::NodeId(id),
            ).step_max(old(self).table(), old(self).arena()[id.0].level as nat),
        ensures
            final(self).wf(),
            final(self).follows(old(self)),
            final(self).keeps(old(self)),
            final(self).empty_nodes == old(self).empty_nodes,
            final(self).arena() == old(self).arena().insert(
                id.0,
                (NodeData { cache_step_max: Some(node), ..old(self).arena()[id.0] }),
            ),
    {
        let mut data = self.index(id);
        data.cache_step_max = Some(node);
        proof {
            reveal(World::wf);
            assert(NodeId(id.0) == id);
            assert(cache_wf(self.arena(), self.table(), self.step as nat, id.0));
            assert(unmarked(self.arena(), id.0));
            lemma_update_caches(
                self.arena(),
                self.hash_table@,
                self.table(),
                self.step as nat,
                self.empty_nodes@,
                id.0,
                data,
            );
        }
        slab_replace(&mut self.node_data, id.0, data);
        proof {
            lemma_frame_all(old(self).arena(), self.arena());
        }
    }
}

} // verus!
