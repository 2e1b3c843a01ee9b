//! Reading and writing single cells, and growing the root around the
//! pattern.

use vstd::prelude::*;
use crate::bits::{lemma_span, span};
use crate::graph::{
    extends, lemma_node_children, lemma_tree_of, node_level, node_population, node_valid, tree_of,
};
use crate::node::{Node, NodeId, MAX_LEVEL};
use crate::tree::{
    lemma_cell_covered, lemma_expand, lemma_population_zero, lemma_children, lemma_quad_cell,
    lemma_set, Tree,
};
use crate::arena::{slab_clear, slab_get, slab_keys, slab_replace, table_clear};
use crate::graph::lemma_frame_all;
use crate::node::NodeData;
use crate::rule::Rule;
use crate::world::{cache_wf, lemma_update_caches, unmarked, World};

verus! {

/// Half the side of the children of a node of level `level`.
pub fn node_size(level: u8) -> (size: i64)
    requires
        2 <= level <= MAX_LEVEL,
    ensures
        size == span(level as nat),
        1 <= size <= 0x2000_0000,
{
    proof {
        crate::graph::lemma_pow2_mono((level - 2) as nat, 29);
        vstd::arithmetic::power2::lemma2_to64();
        vstd::arithmetic::power2::lemma_pow2_pos((level - 2) as nat);
        vstd::bits::lemma_u64_shl_is_mul(1, (level - 2) as u64);
    }
    let size: u64 = 1u64 << (level - 2);
    size as i64
}

impl World {
    /// Whether the cell at `(x, y)` is alive.
    pub open spec fn alive(&self, x: int, y: int) -> bool {
        self.tree().cell(x, y)
    }

    /// The level of the root.
    pub open spec fn root_level(&self) -> nat {
        node_level(self.arena(), self.root)
    }

    /// The number of live cells: the sum over the leaves of the root of
    /// their set bits.
    pub fn population(&self) -> (population: u64)
        requires
            self.wf(),
        ensures
            population == self.tree().population(),
            population == self.tree().live().len(),
    {
        proof {
            self.lemma_wf();
            lemma_tree_of(self.arena(), self.root);
            crate::census::lemma_census(self.tree());
        }
        self.node_population(self.root)
    }

    /// Whether the cell at `(x, y)` is alive.
    pub fn get_cell(&mut self, x: i64, y: i64) -> (alive: bool)
        requires
            old(self).wf(),
        ensures
            *final(self) == *old(self),
            alive == old(self).alive(x as int, y as int),
    {
        proof {
            self.lemma_wf();
        }
        self.get_cell_rec(self.root, x, y)
    }

    /// Whether the cell at `(x, y)` of the node `node` is alive, with the
    /// origin at the node's centre.
    pub fn get_cell_rec(&self, node: Node, x: i64, y: i64) -> (alive: bool)
        requires
            self.wf(),
            node_valid(self.arena(), node),
        ensures
            alive == tree_of(self.arena(), node).cell(x as int, y as int),
        decreases node_level(self.arena(), node),
    {
        let ghost t = tree_of(self.arena(), node);
        proof {
            self.lemma_wf();
            lemma_tree_of(self.arena(), node);
            lemma_population_zero(t);
            lemma_span(t.level());
            if t.cell(x as int, y as int) {
                lemma_cell_covered(t, x as int, y as int);
            }
        }
        if self.node_population(node) == 0 {
            return false;
        }
        let node_size = node_size(self.node_level(node));
        if x >= 2 * node_size || x < -2 * node_size || y >= 2 * node_size || y < -2 * node_size {
            return false;
        }
        match node {
            Node::Leaf(leaf) => {
                let index = ((1 - y) * 4 + (1 - x)) as u16;
                leaf & (1u16 << index) != 0
            },
            Node::NodeId(id) => {
                proof {
                    lemma_node_children(self.arena(), id);
                    lemma_quad_cell(t.nw(), t.ne(), t.sw(), t.se(), x as int, y as int);
                }
                let data = self.index(id);
                if x < 0 {
                    if y < 0 {
                        self.get_cell_rec(data.nw(), x + node_size, y + node_size)
                    } else {
                        self.get_cell_rec(data.sw(), x + node_size, y - node_size)
                    }
                } else {
                    if y < 0 {
                        self.get_cell_rec(data.ne(), x - node_size, y + node_size)
                    } else {
                        self.get_cell_rec(data.se(), x - node_size, y - node_size)
                    }
                }
            },
        }
    }

    /// Puts the root in the centre of a new root one level up, with no live
    /// cell around it.
    pub fn expand(&mut self)
        requires
            old(self).wf(),
            old(self).root_level() < MAX_LEVEL,
        ensures
            final(self).wf(),
            final(self).grows(old(self)),
            final(self).keeps(old(self)),
            final(self).tree() == old(self).tree().expand(),
            final(self).root_level() == old(self).root_level() + 1,
            final(self).tree().population() == old(self).tree().population(),
            forall|x: int, y: int| #[trigger] final(self).alive(x, y) == old(self).alive(x, y),
    {
        proof {
            self.lemma_wf();
            lemma_tree_of(self.arena(), self.root);
            lemma_expand(self.tree());
        }
        match self.root {
            Node::Leaf(leaf) => {
                let nw = Node::Leaf((leaf & 0xcc00) >> 10);
                let ne = Node::Leaf((leaf & 0x3300) >> 6);
                let sw = Node::Leaf((leaf & 0x00cc) << 6);
                let se = Node::Leaf((leaf & 0x0033) << 10);
                proof {
                    lemma_tree_of(self.arena(), nw);
                    lemma_tree_of(self.arena(), ne);
                    lemma_tree_of(self.arena(), sw);
                    lemma_tree_of(self.arena(), se);
                }
                let id = self.find_node(nw, ne, sw, se);
                self.set_root(Node::NodeId(id));
            },
            Node::NodeId(id) => {
                proof {
                    lemma_node_children(self.arena(), id);
                }
                let data = self.index(id);
                let empty = self.empty_node(data.level - 1);
                proof {
                    self.lemma_wf();
                    lemma_tree_of(self.arena(), empty);
                }
                let nw = Node::NodeId(self.find_node(empty, empty, empty, data.nw()));
                let ne = Node::NodeId(self.find_node(empty, empty, data.ne(), empty));
                let sw = Node::NodeId(self.find_node(empty, data.sw(), empty, empty));
                let se = Node::NodeId(self.find_node(data.se(), empty, empty, empty));
                let root = self.find_node(nw, ne, sw, se);
                proof {
                    let t = old(self).tree();
                    lemma_children(t);
                }
                self.set_root(Node::NodeId(root));
            },
        }
    }

    /// Makes `node` the root.
    pub fn set_root(&mut self, node: Node)
        requires
            old(self).wf(),
            node_valid(old(self).arena(), node),
        ensures
            final(self).wf(),
            final(self).grows(old(self)),
            final(self).keeps(old(self)),
            final(self).arena() == old(self).arena(),
            final(self).empty_nodes == old(self).empty_nodes,
            final(self).root == node,
    {
        proof {
            reveal(World::wf);
            crate::graph::lemma_frame_all(self.arena(), self.arena());
        }
        self.root = node;
    }

    /// Sets the cell at `(x, y)` to `state`, after growing the root until
    /// its square holds the cell.
    pub fn set_cell(&mut self, x: i64, y: i64, state: bool) -> (world: &mut Self)
        requires
            old(self).wf(),
            -0x4000_0000 <= x < 0x4000_0000,
            -0x4000_0000 <= y < 0x4000_0000,
        ensures
            *final(self) == *final(world),
            world.wf(),
            world.grows(old(self)),
            forall|u: int, v: int| #[trigger]
                world.alive(u, v) == (if u == x && v == y {
                    state
                } else {
                    old(self).alive(u, v)
                }),
    {
        proof {
            self.lemma_wf();
            lemma_tree_of(self.arena(), self.root);
        }
        loop
            invariant
                self.wf(),
                self.grows(old(self)),
                -0x4000_0000 <= x < 0x4000_0000,
                -0x4000_0000 <= y < 0x4000_0000,
                forall|u: int, v: int| #[trigger] self.alive(u, v) == old(self).alive(u, v),
            ensures
                Tree::covers(self.root_level(), x as int, y as int),
            decreases MAX_LEVEL - self.root_level(),
        {
            proof {
                self.lemma_wf();
                lemma_tree_of(self.arena(), self.root);
            }
            let level = self.node_level(self.root);
            let limit = 2 * node_size(level);
            if !(x >= limit || x < -limit || y >= limit || y < -limit) {
                break ;
            }
            let ghost before = *self;
            proof {
                if level == MAX_LEVEL {
                    vstd::arithmetic::power2::lemma2_to64();
                    assert(span(31) == 0x2000_0000);
                }
                lemma_expand(before.tree());
            }
            self.expand();
            proof {
                assert forall|u: int, v: int| #[trigger] self.alive(u, v) == old(self).alive(
                    u,
                    v,
                ) by {
                    assert(before.tree().expand().cell(u, v) == before.tree().cell(u, v));
                    assert(before.alive(u, v) == old(self).alive(u, v));
                }
            }
        }
        let ghost grown = *self;
        proof {
            self.lemma_wf();
            lemma_tree_of(grown.arena(), grown.root);
            lemma_set(grown.tree(), x as int, y as int, state);
        }
        let root = self.set_cell_rec(self.root, x, y, state);
        self.set_root(root);
        proof {
            assert forall|u: int, v: int| #[trigger]
                self.alive(u, v) == (if u == x && v == y {
                    state
                } else {
                    old(self).alive(u, v)
                }) by {
                assert(grown.alive(u, v) == old(self).alive(u, v));
                assert(grown.tree().set(x as int, y as int, state).cell(u, v) == (if u == x && v
                    == y {
                    state
                } else {
                    grown.tree().cell(u, v)
                }));
            }
        }
        self
    }

    /// The node that `node` becomes when the cell at `(x, y)` is set to
    /// `state`, with the origin at the node's centre.
    pub fn set_cell_rec(&mut self, node: Node, x: i64, y: i64, state: bool) -> (new: Node)
        requires
            old(self).wf(),
            node_valid(old(self).arena(), node),
            Tree::covers(node_level(old(self).arena(), node), x as int, y as int),
        ensures
            final(self).wf(),
            final(self).follows(old(self)),
            final(self).keeps(old(self)),
            node_valid(final(self).arena(), new),
            node_level(final(self).arena(), new) == node_level(old(self).arena(), node),
            tree_of(final(self).arena(), new) == tree_of(old(self).arena(), node).set(
                x as int,
                y as int,
                state,
            ),
        decreases node_level(old(self).arena(), node),
    {
        let ghost t = tree_of(self.arena(), node);
        proof {
            self.lemma_wf();
            lemma_tree_of(self.arena(), node);
            lemma_span(t.level());
            crate::graph::lemma_frame_all(self.arena(), self.arena());
        }
        match node {
            Node::Leaf(leaf) => {
                let index = ((1 - y) * 4 + (1 - x)) as u16;
                let new = if state {
                    Node::Leaf(leaf | (1u16 << index))
                } else {
                    Node::Leaf(leaf & !(1u16 << index))
                };
                proof {
                    lemma_tree_of(self.arena(), new);
                }
                new
            },
            Node::NodeId(id) => {
                proof {
                    lemma_node_children(self.arena(), id);
                    lemma_children(t);
                    lemma_span((t.level() - 1) as nat);
                }
                let data = self.index(id);
                let node_size = node_size(data.level);
                let mut nw = data.nw();
                let mut ne = data.ne();
                let mut sw = data.sw();
                let mut se = data.se();
                if x < 0 {
                    if y < 0 {
                        nw = self.set_cell_rec(nw, x + node_size, y + node_size, state);
                    } else {
                        sw = self.set_cell_rec(sw, x + node_size, y - node_size, state);
                    }
                } else {
                    if y < 0 {
                        ne = self.set_cell_rec(ne, x - node_size, y + node_size, state);
                    } else {
                        se = self.set_cell_rec(se, x - node_size, y - node_size, state);
                    }
                }
                proof {
                    self.lemma_wf();
                    lemma_tree_of(self.arena(), nw);
                    lemma_tree_of(self.arena(), ne);
                    lemma_tree_of(self.arena(), sw);
                    lemma_tree_of(self.arena(), se);
                }
                Node::NodeId(self.find_node(nw, ne, sw, se))
            },
        }
    }

    /// The logarithm of the stride.
    pub fn get_step(&self) -> (step: u8)
        ensures
            step == self.step,
    {
        self.step
    }

    /// The number of the current generation.
    pub fn get_generation(&self) -> (generation: u64)
        ensures
            generation == self.generation,
    {
        self.generation
    }

    /// Sets the number of the current generation.
    pub fn set_generation(&mut self, generation: u64) -> (world: &mut Self)
        requires
            old(self).wf(),
        ensures
            *final(self) == *final(world),
            world.wf(),
            world.generation == generation,
            world.tree() == old(self).tree(),
            world.step == old(self).step,
            world.rule == old(self).rule,
            world.arena() == old(self).arena(),
            world.root == old(self).root,
            world.gc_threshold == old(self).gc_threshold,
            world.empty_nodes == old(self).empty_nodes,
    {
        proof {
            reveal(World::wf);
        }
        self.generation = generation;
        self
    }

    /// Whether no node holds a result for the world's step.
    pub open spec fn no_step_cache(&self) -> bool {
        forall|id: usize| #[trigger]
            self.arena().contains_key(id) ==> self.arena()[id].cache_step is None
    }

    /// Forgets, in every node, the result for the world's step. The results
    /// of maximal steps stay.
    pub fn clear_cache(&mut self)
        requires
            old(self).wf(),
        ensures
            final(self).wf(),
            final(self).follows(old(self)),
            final(self).keeps(old(self)),
            final(self).empty_nodes == old(self).empty_nodes,
            final(self).no_step_cache(),
            forall|id: usize| #[trigger]
                final(self).arena().contains_key(id) ==> old(self).arena().contains_key(id)
                    && final(self).arena()[id] == (NodeData {
                    cache_step: None,
                    ..old(self).arena()[id]
                }),
    {
        let keys = slab_keys(&self.node_data);
        let mut i: usize = 0;
        proof {
            self.lemma_wf();
            lemma_frame_all(self.arena(), self.arena());
        }
        while i < keys.len()
            invariant
                i <= keys.len(),
                self.wf(),
                self.follows(old(self)),
                self.keeps(old(self)),
                self.empty_nodes == old(self).empty_nodes,
                keys@.no_duplicates(),
                forall|key: usize| keys@.contains(key) <==> old(self).arena().contains_key(key),
                forall|key: usize| #[trigger]
                    self.arena().contains_key(key) <==> old(self).arena().contains_key(key),
                forall|j: int|
                    0 <= j < i ==> self.arena()[#[trigger] keys@[j]] == (NodeData {
                        cache_step: None,
                        ..old(self).arena()[keys@[j]]
                    }),
                forall|j: int|
                    i <= j < keys.len() ==> self.arena()[#[trigger] keys@[j]] == old(
                        self,
                    ).arena()[keys@[j]],
            decreases keys.len() - i,
        {
            let key = keys[i];
            proof {
                assert(keys@.contains(key));
            }
            let mut data = slab_get(&self.node_data, key);
            data.cache_step = None;
            let ghost before = *self;
            proof {
                reveal(World::wf);
                assert(cache_wf(self.arena(), self.table(), self.step as nat, key));
                assert(unmarked(self.arena(), key));
                lemma_update_caches(
                    self.arena(),
                    self.hash_table@,
                    self.table(),
                    self.step as nat,
                    self.empty_nodes@,
                    key,
                    data,
                );
            }
            slab_replace(&mut self.node_data, key, data);
            proof {
                lemma_frame_all(before.arena(), self.arena());
                assert forall|j: int| 0 <= j < i + 1 implies self.arena()[#[trigger] keys@[j]] == (
                NodeData { cache_step: None, ..old(self).arena()[keys@[j]] }) by {
                    if j < i {
                        assert(keys@[j] != key);
                    }
                }
                let a = self.arena();
                let b = old(self).arena();
                assert forall|j: int| i + 1 <= j < keys.len() implies a[#[trigger] keys@[j]]
                    == b[keys@[j]] by {
                    assert(keys@[j] != key);
                }
            }
            i += 1;
        }
        proof {
            assert forall|id: usize| #[trigger] self.arena().contains_key(id) implies old(
                self,
            ).arena().contains_key(id) && self.arena()[id] == (NodeData {
                cache_step: None,
                ..old(self).arena()[id]
            }) by {
                assert(keys@.contains(id));
                let j = choose|j: int| 0 <= j < keys@.len() && keys@[j] == id;
                assert(keys@[j] == id);
            }
        }
    }

    /// Sets the logarithm of the stride. The nodes forget what they held for
    /// the old step.
    pub fn set_step(&mut self, step: u8) -> (world: &mut Self)
        requires
            old(self).wf(),
        ensures
            *final(self) == *final(world),
            world.wf(),
            world.step == step,
            world.tree() == old(self).tree(),
            world.root == old(self).root,
            world.rule == old(self).rule,
            world.generation == old(self).generation,
            world.gc_threshold == old(self).gc_threshold,
            world.empty_nodes == old(self).empty_nodes,
            world.no_step_cache(),
            extends(old(self).arena(), world.arena()),
            forall|id: usize| #[trigger]
                world.arena().contains_key(id) ==> old(self).arena().contains_key(id)
                    && world.arena()[id] == (NodeData {
                    cache_step: None,
                    ..old(self).arena()[id]
                }),
    {
        proof {
            self.lemma_wf();
        }
        self.clear_cache();
        proof {
            reveal(World::wf);
            let a = self.arena();
            assert forall|id: usize| a.contains_key(id) implies #[trigger] cache_wf(
                a,
                self.table(),
                step as nat,
                id,
            ) by {
                assert(cache_wf(a, self.table(), self.step as nat, id));
            }
        }
        self.step = step;
        self
    }

    /// Empties the world and sets the generation to 0. With `clear_nodes`
    /// the arena is emptied too; without, the nodes stay and forget what
    /// they held for the world's step.
    pub fn clear(&mut self, clear_nodes: bool)
        requires
            old(self).wf(),
        ensures
            final(self).wf(),
            final(self).generation == 0,
            final(self).root == Node::Leaf(0),
            final(self).step == old(self).step,
            final(self).rule == old(self).rule,
            final(self).gc_threshold == old(self).gc_threshold,
            clear_nodes ==> final(self).empty_nodes@.len() == 0 && forall|id: usize|
                !final(self).arena().contains_key(id),
            !clear_nodes ==> extends(old(self).arena(), final(self).arena()),
            !clear_nodes ==> final(self).no_step_cache(),
            !clear_nodes ==> final(self).empty_nodes == old(self).empty_nodes,
            !clear_nodes ==> forall|id: usize| #[trigger]
                final(self).arena().contains_key(id) ==> old(self).arena().contains_key(id)
                    && final(self).arena()[id] == (NodeData {
                    cache_step: None,
                    ..old(self).arena()[id]
                }),
    {
        if clear_nodes {
            table_clear(&mut self.hash_table);
            self.empty_nodes.clear();
            slab_clear(&mut self.node_data);
            proof {
                reveal(World::wf);
            }
        } else {
            self.clear_cache();
        }
        proof {
            reveal(World::wf);
        }
        self.generation = 0;
        self.root = Node::Leaf(0);
    }
}

impl Default for World {
    /// A world without live cells under Conway's Game of Life, at
    /// generation 0, that advances by one generation.
    fn default() -> (world: World)
        ensures
            world.wf(),
            world.rule.is_life(),
            world.step == 0,
            world.generation == 0,
            world.root == Node::Leaf(0),
    {
        World::new(Rule::life())
    }
}

} // verus!
