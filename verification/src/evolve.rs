//! The step algorithm: the centre of a node some generations later, computed
//! by recursion over the quadtree and remembered in the caches of the nodes.

use vstd::prelude::*;
use crate::bits::{step_leaf, step_quad_leaf};
use crate::graph::{
    child_ok, lemma_frame_all, lemma_node_children, lemma_tree_of, node_level, node_valid, tree_of,
};
use crate::node::{Leaf, Node, NodeId, QuadChildren, MAX_LEVEL};
use crate::tree::{lemma_step_max_wf, lemma_step_wf, lemma_windows, Tree};
use crate::evolution::{lemma_advance_evolves, lemma_advance_exact};
use crate::life::evolve;
use crate::world::World;
use vstd::arithmetic::power2::pow2;

verus! {

impl World {
    /// The next state of the inner 2x2 cells of a leaf, in bits 5, 4, 1 and 0.
    pub fn step_leaf(&self, leaf: Leaf) -> (next: Leaf)
        ensures
            next == step_leaf(self.table(), leaf),
    {
        self.rule.rule_table[leaf as usize] as Leaf
    }

    /// The centre leaf of four leaves: after two generations if `max`, else
    /// after one.
    pub fn step_quad_leaf(&self, nw: Leaf, ne: Leaf, sw: Leaf, se: Leaf, max: bool) -> (node: Node)
        ensures
            node == Node::Leaf(step_quad_leaf(self.table(), nw, ne, sw, se, max)),
    {
        let t00 = self.step_leaf(nw);
        let t01 = self.step_leaf((nw & 0x3333) << 2 | (ne & 0xcccc) >> 2);
        let t02 = self.step_leaf(ne);
        let t10 = self.step_leaf((nw & 0x00ff) << 8 | (sw & 0xff00) >> 8);
        let t11 = self.step_leaf(
            (nw & 0x0033) << 10 | (ne & 0x00cc) << 6 | (sw & 0x3300) >> 6 | (se & 0xcc00) >> 10,
        );
        let t12 = self.step_leaf((ne & 0x00ff) << 8 | (se & 0xff00) >> 8);
        let t20 = self.step_leaf(sw);
        let t21 = self.step_leaf((sw & 0x3333) << 2 | (se & 0xcccc) >> 2);
        let t22 = self.step_leaf(se);
        if max {
            let new_nw = self.step_leaf(t00 << 10 | t01 << 8 | t10 << 2 | t11);
            let new_ne = self.step_leaf(t01 << 10 | t02 << 8 | t11 << 2 | t12);
            let new_sw = self.step_leaf(t10 << 10 | t11 << 8 | t20 << 2 | t21);
            let new_se = self.step_leaf(t11 << 10 | t12 << 8 | t21 << 2 | t22);
            Node::Leaf(new_nw << 10 | new_ne << 8 | new_sw << 2 | new_se)
        } else {
            Node::Leaf(
                (t00 & 0x01) << 15 | (t01 & 0x03) << 13 | (t02 & 0x02) << 11 | (t10 & 0x11) << 7 | (
                t11 & 0x33) << 5 | (t12 & 0x22) << 3 | (t20 & 0x10) >> 1 | (t21 & 0x30) >> 3 | (t22
                    & 0x20) >> 5,
            )
        }
    }

    /// The node in the centre of the square made of `nw`, `ne`, `sw` and
    /// `se`, of their level.
    pub fn center_of(&mut self, nw: Node, ne: Node, sw: Node, se: Node) -> (node: Node)
        requires
            old(self).wf(),
            node_valid(old(self).arena(), nw),
            node_valid(old(self).arena(), ne),
            node_valid(old(self).arena(), sw),
            node_valid(old(self).arena(), se),
            node_level(old(self).arena(), ne) == node_level(old(self).arena(), nw),
            node_level(old(self).arena(), sw) == node_level(old(self).arena(), nw),
            node_level(old(self).arena(), se) == node_level(old(self).arena(), nw),
        ensures
            final(self).wf(),
            final(self).follows(old(self)),
            final(self).keeps(old(self)),
            final(self).empty_nodes == old(self).empty_nodes,
            node_valid(final(self).arena(), node),
            node_level(final(self).arena(), node) == node_level(old(self).arena(), nw),
            tree_of(final(self).arena(), node) == Tree::center4(
                tree_of(old(self).arena(), nw),
                tree_of(old(self).arena(), ne),
                tree_of(old(self).arena(), sw),
                tree_of(old(self).arena(), se),
            ),
    {
        proof {
            self.lemma_wf();
            lemma_tree_of(self.arena(), nw);
            lemma_tree_of(self.arena(), ne);
            lemma_tree_of(self.arena(), sw);
            lemma_tree_of(self.arena(), se);
            lemma_frame_all(self.arena(), self.arena());
        }
        match (nw, ne, sw, se) {
            (Node::Leaf(a), Node::Leaf(b), Node::Leaf(c), Node::Leaf(d)) => {
                let leaf = (a & 0x0033) << 10 | (b & 0x00cc) << 6 | (c & 0x3300) >> 6 | (d
                    & 0xcc00) >> 10;
                proof {
                    lemma_tree_of(self.arena(), Node::Leaf(leaf));
                }
                Node::Leaf(leaf)
            },
            (Node::NodeId(a), Node::NodeId(b), Node::NodeId(c), Node::NodeId(d)) => {
                proof {
                    lemma_node_children(self.arena(), a);
                    lemma_node_children(self.arena(), b);
                    lemma_node_children(self.arena(), c);
                    lemma_node_children(self.arena(), d);
                }
                let new_nw = self.index(a).se();
                let new_ne = self.index(b).sw();
                let new_sw = self.index(c).ne();
                let new_se = self.index(d).nw();
                Node::NodeId(self.find_node(new_nw, new_ne, new_sw, new_se))
            },
            _ => {
                proof {
                    assert(false);
                }
                nw
            },
        }
    }

    /// The centre of the node `id`: its inner half, one level down.
    pub fn central_node(&mut self, id: NodeId) -> (node: Node)
        requires
            old(self).wf(),
            old(self).arena().contains_key(id.0),
        ensures
            final(self).wf(),
            final(self).follows(old(self)),
            final(self).keeps(old(self)),
            final(self).empty_nodes == old(self).empty_nodes,
            child_ok(final(self).arena(), node, old(self).arena()[id.0].level),
            tree_of(final(self).arena(), node) == tree_of(
                old(self).arena(),
                Node::NodeId(id),
            ).center(),
    {
        proof {
            self.lemma_wf();
            lemma_node_children(self.arena(), id);
        }
        let data = self.index(id);
        self.center_of(data.nw(), data.ne(), data.sw(), data.se())
    }

    /// The centre of the node `id` after `2^step` generations.
    pub fn step_id(&mut self, id: NodeId, step: u8) -> (node: Node)
        requires
            old(self).wf(),
            old(self).arena().contains_key(id.0),
            step + 2 <= old(self).arena()[id.0].level,
        ensures
            final(self).wf(),
            final(self).follows(old(self)),
            final(self).keeps(old(self)),
            final(self).empty_nodes == old(self).empty_nodes,
            child_ok(final(self).arena(), node, old(self).arena()[id.0].level),
            tree_of(final(self).arena(), node) == tree_of(old(self).arena(), Node::NodeId(id)).step(
                old(self).table(),
                step as nat,
                old(self).arena()[id.0].level as nat,
            ),
            step == old(self).step ==> final(self).arena()[id.0].cache_step == Some(node),
        decreases old(self).arena()[id.0].level, 2int,
    {
        let data = self.index(id);
        proof {
            self.lemma_wf();
            self.lemma_wf_cache(id);
            lemma_node_children(self.arena(), id);
            lemma_frame_all(self.arena(), self.arena());
        }
        if step == self.step {
            if let Some(node) = data.cache_step {
                return node;
            }
        }
        let node = if step + 2 == data.level {
            self.step_max_id(id)
        } else {
            match data.children {
                QuadChildren::Leaf { nw, ne, sw, se } => self.step_quad_leaf(
                    nw,
                    ne,
                    sw,
                    se,
                    false,
                ),
                QuadChildren::NodeId { nw, ne, sw, se } => self.step_quad(nw, ne, sw, se, step),
            }
        };
        proof {
            self.lemma_wf();
            lemma_tree_of(self.arena(), node);
        }
        if step == self.step {
            self.set_cache_step(id, node);
        }
        node
    }

    /// The centre of the node `id` after `2^(level - 2)` generations, the
    /// most that the node determines.
    pub fn step_max_id(&mut self, id: NodeId) -> (node: Node)
        requires
            old(self).wf(),
            old(self).arena().contains_key(id.0),
        ensures
            final(self).wf(),
            final(self).follows(old(self)),
            final(self).keeps(old(self)),
            final(self).empty_nodes == old(self).empty_nodes,
            child_ok(final(self).arena(), node, old(self).arena()[id.0].level),
            tree_of(final(self).arena(), node) == tree_of(
                old(self).arena(),
                Node::NodeId(id),
            ).step_max(old(self).table(), old(self).arena()[id.0].level as nat),
            final(self).arena()[id.0].cache_step_max == Some(node),
        decreases old(self).arena()[id.0].level, 1int,
    {
        let data = self.index(id);
        proof {
            self.lemma_wf();
            self.lemma_wf_cache(id);
            lemma_node_children(self.arena(), id);
            lemma_frame_all(self.arena(), self.arena());
        }
        match data.cache_step_max {
            Some(node) => node,
            None => {
                let node = match data.children {
                    QuadChildren::Leaf { nw, ne, sw, se } => self.step_quad_leaf(
                        nw,
                        ne,
                        sw,
                        se,
                        true,
                    ),
                    QuadChildren::NodeId { nw, ne, sw, se } => self.step_max_quad(nw, ne, sw, se),
                };
                proof {
                    self.lemma_wf();
                    lemma_tree_of(self.arena(), node);
                }
                self.set_cache_step_max(id, node);
                node
            },
        }
    }

    /// The five nodes that straddle the nodes `nw`, `ne`, `sw` and `se`:
    /// north, west, middle, east and south.
    pub fn windows(&mut self, nw: NodeId, ne: NodeId, sw: NodeId, se: NodeId) -> (w: (
        NodeId,
        NodeId,
        NodeId,
        NodeId,
        NodeId,
    ))
        requires
            old(self).wf(),
            old(self).arena().contains_key(nw.0),
            old(self).arena().contains_key(ne.0),
            old(self).arena().contains_key(sw.0),
            old(self).arena().contains_key(se.0),
            old(self).arena()[ne.0].level == old(self).arena()[nw.0].level,
            old(self).arena()[sw.0].level == old(self).arena()[nw.0].level,
            old(self).arena()[se.0].level == old(self).arena()[nw.0].level,
        ensures
            final(self).wf(),
            final(self).follows(old(self)),
            final(self).keeps(old(self)),
            final(self).empty_nodes == old(self).empty_nodes,
            final(self).arena().contains_key(w.0.0) && final(self).arena()[w.0.0].level == old(
                self,
            ).arena()[nw.0].level,
            final(self).arena().contains_key(w.1.0) && final(self).arena()[w.1.0].level == old(
                self,
            ).arena()[nw.0].level,
            final(self).arena().contains_key(w.2.0) && final(self).arena()[w.2.0].level == old(
                self,
            ).arena()[nw.0].level,
            final(self).arena().contains_key(w.3.0) && final(self).arena()[w.3.0].level == old(
                self,
            ).arena()[nw.0].level,
            final(self).arena().contains_key(w.4.0) && final(self).arena()[w.4.0].level == old(
                self,
            ).arena()[nw.0].level,
            ({
                let t = Tree::quad(
                    tree_of(old(self).arena(), Node::NodeId(nw)),
                    tree_of(old(self).arena(), Node::NodeId(ne)),
                    tree_of(old(self).arena(), Node::NodeId(sw)),
                    tree_of(old(self).arena(), Node::NodeId(se)),
                );
                &&& tree_of(final(self).arena(), Node::NodeId(w.0)) == t.north()
                &&& tree_of(final(self).arena(), Node::NodeId(w.1)) == t.west()
                &&& tree_of(final(self).arena(), Node::NodeId(w.2)) == t.middle()
                &&& tree_of(final(self).arena(), Node::NodeId(w.3)) == t.east()
                &&& tree_of(final(self).arena(), Node::NodeId(w.4)) == t.south()
            }),
    {
        proof {
            self.lemma_wf();
            lemma_node_children(self.arena(), nw);
            lemma_node_children(self.arena(), ne);
            lemma_node_children(self.arena(), sw);
            lemma_node_children(self.arena(), se);
        }
        let dnw = self.index(nw);
        let dne = self.index(ne);
        let dsw = self.index(sw);
        let dse = self.index(se);
        let n01 = self.find_node(dnw.ne(), dne.nw(), dnw.se(), dne.sw());
        let n10 = self.find_node(dnw.sw(), dnw.se(), dsw.nw(), dsw.ne());
        let n11 = self.find_node(dnw.se(), dne.sw(), dsw.ne(), dse.nw());
        let n12 = self.find_node(dne.sw(), dne.se(), dse.nw(), dse.ne());
        let n21 = self.find_node(dsw.ne(), dse.nw(), dsw.se(), dse.sw());
        (n01, n10, n11, n12, n21)
    }

    /// The four nodes made of nine nodes of one level that lie in a 3x3
    /// arrangement, each of the four from a 2x2 part of it.
    pub fn join_four(
        &mut self,
        t00: Node,
        t01: Node,
        t02: Node,
        t10: Node,
        t11: Node,
        t12: Node,
        t20: Node,
        t21: Node,
        t22: Node,
    ) -> (q: (NodeId, NodeId, NodeId, NodeId))
        requires
            old(self).wf(),
            node_valid(old(self).arena(), t00),
            node_valid(old(self).arena(), t01),
            node_valid(old(self).arena(), t02),
            node_valid(old(self).arena(), t10),
            node_valid(old(self).arena(), t11),
            node_valid(old(self).arena(), t12),
            node_valid(old(self).arena(), t20),
            node_valid(old(self).arena(), t21),
            node_valid(old(self).arena(), t22),
            node_level(old(self).arena(), t01) == node_level(old(self).arena(), t00),
            node_level(old(self).arena(), t02) == node_level(old(self).arena(), t00),
            node_level(old(self).arena(), t10) == node_level(old(self).arena(), t00),
            node_level(old(self).arena(), t11) == node_level(old(self).arena(), t00),
            node_level(old(self).arena(), t12) == node_level(old(self).arena(), t00),
            node_level(old(self).arena(), t20) == node_level(old(self).arena(), t00),
            node_level(old(self).arena(), t21) == node_level(old(self).arena(), t00),
            node_level(old(self).arena(), t22) == node_level(old(self).arena(), t00),
            node_level(old(self).arena(), t00) < MAX_LEVEL,
        ensures
            final(self).wf(),
            final(self).follows(old(self)),
            final(self).keeps(old(self)),
            final(self).empty_nodes == old(self).empty_nodes,
            final(self).arena().contains_key(q.0.0) && final(self).arena()[q.0.0].level
                == node_level(old(self).arena(), t00) + 1,
            final(self).arena().contains_key(q.1.0) && final(self).arena()[q.1.0].level
                == node_level(old(self).arena(), t00) + 1,
            final(self).arena().contains_key(q.2.0) && final(self).arena()[q.2.0].level
                == node_level(old(self).arena(), t00) + 1,
            final(self).arena().contains_key(q.3.0) && final(self).arena()[q.3.0].level
                == node_level(old(self).arena(), t00) + 1,
            tree_of(final(self).arena(), Node::NodeId(q.0)) == Tree::quad(
                tree_of(old(self).arena(), t00),
                tree_of(old(self).arena(), t01),
                tree_of(old(self).arena(), t10),
                tree_of(old(self).arena(), t11),
            ),
            tree_of(final(self).arena(), Node::NodeId(q.1)) == Tree::quad(
                tree_of(old(self).arena(), t01),
                tree_of(old(self).arena(), t02),
                tree_of(old(self).arena(), t11),
                tree_of(old(self).arena(), t12),
            ),
            tree_of(final(self).arena(), Node::NodeId(q.2)) == Tree::quad(
                tree_of(old(self).arena(), t10),
                tree_of(old(self).arena(), t11),
                tree_of(old(self).arena(), t20),
                tree_of(old(self).arena(), t21),
            ),
            tree_of(final(self).arena(), Node::NodeId(q.3)) == Tree::quad(
                tree_of(old(self).arena(), t11),
                tree_of(old(self).arena(), t12),
                tree_of(old(self).arena(), t21),
                tree_of(old(self).arena(), t22),
            ),
    {
        proof {
            self.lemma_wf();
            lemma_tree_of(self.arena(), t00);
            lemma_tree_of(self.arena(), t01);
            lemma_tree_of(self.arena(), t02);
            lemma_tree_of(self.arena(), t10);
            lemma_tree_of(self.arena(), t11);
            lemma_tree_of(self.arena(), t12);
            lemma_tree_of(self.arena(), t20);
            lemma_tree_of(self.arena(), t21);
            lemma_tree_of(self.arena(), t22);
        }
        let a = self.find_node(t00, t01, t10, t11);
        let b = self.find_node(t01, t02, t11, t12);
        let c = self.find_node(t10, t11, t20, t21);
        let d = self.find_node(t11, t12, t21, t22);
        (a, b, c, d)
    }

    /// The node made of the centres of the four 2x2 parts of nine nodes of
    /// one level that lie in a 3x3 arrangement.
    pub fn center_four(
        &mut self,
        t00: Node,
        t01: Node,
        t02: Node,
        t10: Node,
        t11: Node,
        t12: Node,
        t20: Node,
        t21: Node,
        t22: Node,
    ) -> (id: NodeId)
        requires
            old(self).wf(),
            node_valid(old(self).arena(), t00),
            node_valid(old(self).arena(), t01),
            node_valid(old(self).arena(), t02),
            node_valid(old(self).arena(), t10),
            node_valid(old(self).arena(), t11),
            node_valid(old(self).arena(), t12),
            node_valid(old(self).arena(), t20),
            node_valid(old(self).arena(), t21),
            node_valid(old(self).arena(), t22),
            node_level(old(self).arena(), t01) == node_level(old(self).arena(), t00),
            node_level(old(self).arena(), t02) == node_level(old(self).arena(), t00),
            node_level(old(self).arena(), t10) == node_level(old(self).arena(), t00),
            node_level(old(self).arena(), t11) == node_level(old(self).arena(), t00),
            node_level(old(self).arena(), t12) == node_level(old(self).arena(), t00),
            node_level(old(self).arena(), t20) == node_level(old(self).arena(), t00),
            node_level(old(self).arena(), t21) == node_level(old(self).arena(), t00),
            node_level(old(self).arena(), t22) == node_level(old(self).arena(), t00),
            node_level(old(self).arena(), t00) < MAX_LEVEL,
        ensures
            final(self).wf(),
            final(self).follows(old(self)),
            final(self).keeps(old(self)),
            final(self).empty_nodes == old(self).empty_nodes,
            final(self).arena().contains_key(id.0),
            final(self).arena()[id.0].level == node_level(old(self).arena(), t00) + 1,
            tree_of(final(self).arena(), Node::NodeId(id)) == Tree::quad(
                Tree::center4(
                    tree_of(old(self).arena(), t00),
                    tree_of(old(self).arena(), t01),
                    tree_of(old(self).arena(), t10),
                    tree_of(old(self).arena(), t11),
                ),
                Tree::center4(
                    tree_of(old(self).arena(), t01),
                    tree_of(old(self).arena(), t02),
                    tree_of(old(self).arena(), t11),
                    tree_of(old(self).arena(), t12),
                ),
                Tree::center4(
                    tree_of(old(self).arena(), t10),
                    tree_of(old(self).arena(), t11),
                    tree_of(old(self).arena(), t20),
                    tree_of(old(self).arena(), t21),
                ),
                Tree::center4(
                    tree_of(old(self).arena(), t11),
                    tree_of(old(self).arena(), t12),
                    tree_of(old(self).arena(), t21),
                    tree_of(old(self).arena(), t22),
                ),
            ),
    {
        let new_nw = self.center_of(t00, t01, t10, t11);
        let new_ne = self.center_of(t01, t02, t11, t12);
        let new_sw = self.center_of(t10, t11, t20, t21);
        let new_se = self.center_of(t11, t12, t21, t22);
        proof {
            self.lemma_wf();
            lemma_tree_of(self.arena(), new_nw);
            lemma_tree_of(self.arena(), new_ne);
            lemma_tree_of(self.arena(), new_sw);
            lemma_tree_of(self.arena(), new_se);
        }
        self.find_node(new_nw, new_ne, new_sw, new_se)
    }

    /// The centre, after `2^step` generations, of the square made of the
    /// nodes `nw`, `ne`, `sw` and `se`, where `step` is less than the most
    /// that the square determines.
    pub fn step_quad(&mut self, nw: NodeId, ne: NodeId, sw: NodeId, se: NodeId, step: u8) -> (node:
        Node)
        requires
            old(self).wf(),
            old(self).arena().contains_key(nw.0),
            old(self).arena().contains_key(ne.0),
            old(self).arena().contains_key(sw.0),
            old(self).arena().contains_key(se.0),
            old(self).arena()[ne.0].level == old(self).arena()[nw.0].level,
            old(self).arena()[sw.0].level == old(self).arena()[nw.0].level,
            old(self).arena()[se.0].level == old(self).arena()[nw.0].level,
            old(self).arena()[nw.0].level < MAX_LEVEL,
            step + 2 <= old(self).arena()[nw.0].level,
        ensures
            final(self).wf(),
            final(self).follows(old(self)),
            final(self).keeps(old(self)),
            final(self).empty_nodes == old(self).empty_nodes,
            node_valid(final(self).arena(), node),
            node_level(final(self).arena(), node) == old(self).arena()[nw.0].level,
            tree_of(final(self).arena(), node) == Tree::quad(
                tree_of(old(self).arena(), Node::NodeId(nw)),
                tree_of(old(self).arena(), Node::NodeId(ne)),
                tree_of(old(self).arena(), Node::NodeId(sw)),
                tree_of(old(self).arena(), Node::NodeId(se)),
            ).step(old(self).table(), step as nat, (old(self).arena()[nw.0].level + 1) as nat),
        decreases old(self).arena()[nw.0].level, 3int,
    {
        let ghost tnw = tree_of(self.arena(), Node::NodeId(nw));
        let ghost tne = tree_of(self.arena(), Node::NodeId(ne));
        let ghost tsw = tree_of(self.arena(), Node::NodeId(sw));
        let ghost tse = tree_of(self.arena(), Node::NodeId(se));
        let ghost t = Tree::quad(tnw, tne, tsw, tse);
        let ghost table = self.table();
        let ghost l = self.arena()[nw.0].level as nat;
        let ghost k = step as nat;
        proof {
            self.lemma_wf();
            lemma_node_children(self.arena(), nw);
            lemma_node_children(self.arena(), ne);
            lemma_node_children(self.arena(), sw);
            lemma_node_children(self.arena(), se);
            lemma_windows(t);
            lemma_step_wf(tnw, table, k, l);
            lemma_step_wf(t.north(), table, k, l);
            lemma_step_wf(tne, table, k, l);
            lemma_step_wf(t.west(), table, k, l);
            lemma_step_wf(t.middle(), table, k, l);
            lemma_step_wf(t.east(), table, k, l);
            lemma_step_wf(tsw, table, k, l);
            lemma_step_wf(t.south(), table, k, l);
            lemma_step_wf(tse, table, k, l);
        }
        let (n01, n10, n11, n12, n21) = self.windows(nw, ne, sw, se);
        let t00 = self.step_id(nw, step);
        let t01 = self.step_id(n01, step);
        let t02 = self.step_id(ne, step);
        let t10 = self.step_id(n10, step);
        let t11 = self.step_id(n11, step);
        let t12 = self.step_id(n12, step);
        let t20 = self.step_id(sw, step);
        let t21 = self.step_id(n21, step);
        let t22 = self.step_id(se, step);
        Node::NodeId(self.center_four(t00, t01, t02, t10, t11, t12, t20, t21, t22))
    }

    /// The centre, after the most generations that it determines, of the
    /// square made of the nodes `nw`, `ne`, `sw` and `se`.
    pub fn step_max_quad(&mut self, nw: NodeId, ne: NodeId, sw: NodeId, se: NodeId) -> (node: Node)
        requires
            old(self).wf(),
            old(self).arena().contains_key(nw.0),
            old(self).arena().contains_key(ne.0),
            old(self).arena().contains_key(sw.0),
            old(self).arena().contains_key(se.0),
            old(self).arena()[ne.0].level == old(self).arena()[nw.0].level,
            old(self).arena()[sw.0].level == old(self).arena()[nw.0].level,
            old(self).arena()[se.0].level == old(self).arena()[nw.0].level,
            old(self).arena()[nw.0].level < MAX_LEVEL,
        ensures
            final(self).wf(),
            final(self).follows(old(self)),
            final(self).keeps(old(self)),
            final(self).empty_nodes == old(self).empty_nodes,
            node_valid(final(self).arena(), node),
            node_level(final(self).arena(), node) == old(self).arena()[nw.0].level,
            tree_of(final(self).arena(), node) == Tree::quad(
                tree_of(old(self).arena(), Node::NodeId(nw)),
                tree_of(old(self).arena(), Node::NodeId(ne)),
                tree_of(old(self).arena(), Node::NodeId(sw)),
                tree_of(old(self).arena(), Node::NodeId(se)),
            ).step_max(old(self).table(), (old(self).arena()[nw.0].level + 1) as nat),
        decreases old(self).arena()[nw.0].level, 3int,
    {
        let ghost tnw = tree_of(self.arena(), Node::NodeId(nw));
        let ghost tne = tree_of(self.arena(), Node::NodeId(ne));
        let ghost tsw = tree_of(self.arena(), Node::NodeId(sw));
        let ghost tse = tree_of(self.arena(), Node::NodeId(se));
        let ghost t = Tree::quad(tnw, tne, tsw, tse);
        let ghost table = self.table();
        let ghost l = self.arena()[nw.0].level as nat;
        proof {
            self.lemma_wf();
            lemma_node_children(self.arena(), nw);
            lemma_node_children(self.arena(), ne);
            lemma_node_children(self.arena(), sw);
            lemma_node_children(self.arena(), se);
            lemma_windows(t);
            lemma_step_max_wf(tnw, table, l);
            lemma_step_max_wf(t.north(), table, l);
            lemma_step_max_wf(tne, table, l);
            lemma_step_max_wf(t.west(), table, l);
            lemma_step_max_wf(t.middle(), table, l);
            lemma_step_max_wf(t.east(), table, l);
            lemma_step_max_wf(tsw, table, l);
            lemma_step_max_wf(t.south(), table, l);
            lemma_step_max_wf(tse, table, l);
        }
        let (n01, n10, n11, n12, n21) = self.windows(nw, ne, sw, se);
        let t00 = self.step_max_id(nw);
        let t01 = self.step_max_id(n01);
        let t02 = self.step_max_id(ne);
        let t10 = self.step_max_id(n10);
        let t11 = self.step_max_id(n11);
        let t12 = self.step_max_id(n12);
        let t20 = self.step_max_id(sw);
        let t21 = self.step_max_id(n21);
        let t22 = self.step_max_id(se);
        let (pre_nw, pre_ne, pre_sw, pre_se) = self.join_four(
            t00,
            t01,
            t02,
            t10,
            t11,
            t12,
            t20,
            t21,
            t22,
        );
        let new_nw = self.step_max_id(pre_nw);
        let new_ne = self.step_max_id(pre_ne);
        let new_sw = self.step_max_id(pre_sw);
        let new_se = self.step_max_id(pre_se);
        proof {
            self.lemma_wf();
            lemma_tree_of(self.arena(), new_nw);
            lemma_tree_of(self.arena(), new_ne);
            lemma_tree_of(self.arena(), new_sw);
            lemma_tree_of(self.arena(), new_se);
        }
        Node::NodeId(self.find_node(new_nw, new_ne, new_sw, new_se))
    }

    /// The centre of the node `node`, which is no leaf, after `2^step`
    /// generations for the world's step.
    pub fn step_node(&mut self, node: Node) -> (next: Node)
        requires
            old(self).wf(),
            node is NodeId,
            node_valid(old(self).arena(), node),
            old(self).step + 2 <= node_level(old(self).arena(), node),
        ensures
            final(self).wf(),
            final(self).follows(old(self)),
            final(self).keeps(old(self)),
            node_valid(final(self).arena(), next),
            node_level(final(self).arena(), next) + 1 == node_level(old(self).arena(), node),
            tree_of(final(self).arena(), next) == tree_of(old(self).arena(), node).step(
                old(self).table(),
                old(self).step as nat,
                node_level(old(self).arena(), node),
            ),
    {
        match node {
            Node::Leaf(_) => node,
            Node::NodeId(id) => self.step_id(id, self.step),
        }
    }

    /// Whether `step` can run: the root has room to grow by two levels, the
    /// step is within what a root can determine, and the generation counter
    /// will not overflow.
    pub open spec fn can_step(&self) -> bool {
        self.has_room() && self.generation + pow2(self.step as nat) <= u64::MAX
    }

    /// Whether `step` can run.
    pub fn check_step(&self) -> (ok: bool)
        requires
            self.wf(),
        ensures
            ok == self.can_step(),
    {
        proof {
            self.lemma_wf();
            lemma_tree_of(self.arena(), self.root);
        }
        if self.node_level(self.root) + 2 <= MAX_LEVEL && self.step <= MAX_LEVEL - 2 {
            proof {
                crate::graph::lemma_pow2_mono(self.step as nat, 29);
                vstd::arithmetic::power2::lemma2_to64();
                vstd::arithmetic::power2::lemma_pow2_pos(self.step as nat);
                vstd::bits::lemma_u64_shl_is_mul(1, self.step as u64);
            }
            let stride: u64 = 1u64 << self.step;
            self.generation <= u64::MAX - stride
        } else {
            false
        }
    }

    /// Advances the world by `2^step` generations: grows the root until it
    /// has margin, replaces it by its centre that many generations later,
    /// and collects garbage if the arena has reached its threshold.
    pub fn step(&mut self)
        requires
            old(self).wf(),
            old(self).can_step(),
        ensures
            final(self).wf(),
            final(self).rule == old(self).rule,
            final(self).step == old(self).step,
            final(self).gc_threshold == old(self).gc_threshold,
            final(self).generation == old(self).generation + pow2(old(self).step as nat),
            final(self).tree() == old(self).tree().advance(
                old(self).table(),
                old(self).step as nat,
            ),
            forall|r: Seq<bool>|
                old(self).rule.compiles(r) ==> #[trigger] final(self).tree().shows(
                    evolve(r, old(self).tree().grid(), pow2(old(self).step as nat)),
                    0,
                    0,
                ),
            forall|r: Seq<bool>|
                old(self).rule.compiles(r) && !r[0] && old(self).tree().keeps_all(
                    old(self).step as nat,
                ) ==> #[trigger] final(self).tree().is_grid(
                    evolve(r, old(self).tree().grid(), pow2(old(self).step as nat)),
                ),
    {
        proof {
            self.lemma_wf();
            lemma_tree_of(self.arena(), self.root);
            assert forall|r: Seq<bool>| old(self).rule.compiles(r) implies #[trigger] old(
                self,
            ).tree().advance(old(self).table(), old(self).step as nat).shows(
                evolve(r, old(self).tree().grid(), pow2(old(self).step as nat)),
                0,
                0,
            ) by {
                lemma_advance_evolves(
                    old(self).tree(),
                    old(self).table(),
                    r,
                    old(self).step as nat,
                );
            }
            assert forall|r: Seq<bool>|
                old(self).rule.compiles(r) && !r[0] && old(self).tree().keeps_all(
                    old(self).step as nat,
                ) implies #[trigger] old(self).tree().advance(
                old(self).table(),
                old(self).step as nat,
            ).is_grid(evolve(r, old(self).tree().grid(), pow2(old(self).step as nat))) by {
                lemma_advance_exact(
                    old(self).tree(),
                    old(self).table(),
                    r,
                    old(self).step as nat,
                );
            }
        }
        self.fit_root();
        proof {
            self.lemma_wf();
            lemma_tree_of(self.arena(), self.root);
            crate::tree::lemma_level(self.tree());
            crate::graph::lemma_pow2_mono(self.step as nat, 29);
            vstd::arithmetic::power2::lemma2_to64();
            vstd::arithmetic::power2::lemma_pow2_pos(self.step as nat);
            vstd::bits::lemma_u64_shl_is_mul(1, self.step as u64);
        }
        let root = self.step_node(self.root);
        self.set_root(root);
        let stride: u64 = 1u64 << self.step;
        self.set_generation(self.generation + stride);
        self.check_gc();
    }
}

} // verus!
