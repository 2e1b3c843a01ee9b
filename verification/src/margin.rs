//! The margin that a step needs: when the live cells lie in the inner
//! quarter of the root, and how the root grows until they do.

use vstd::prelude::*;
use crate::bits::{
    in_quarter, leaf_cell, lemma_leaf_corner, lemma_leaf_quarter, lemma_span, popcount,
    quarter_mask, span,
};
use crate::graph::{lemma_node_children, lemma_tree_of, node_level, tree_of};
use crate::node::{Node, NodeId, QuadChildren, MAX_LEVEL};
use crate::tree::{
    lemma_cell_covered, lemma_children, lemma_expand, lemma_level, lemma_population_zero,
    lemma_quad_cell, Tree,
};
use crate::world::World;

verus! {

/// The direction of the quarter `i` along the x axis: west is -1, east is 1.
pub open spec fn quarter_dx(i: int) -> int {
    if i == 0 || i == 2 {
        -1
    } else {
        1
    }
}

/// The direction of the quarter `i` along the y axis: north is -1, south is
/// 1.
pub open spec fn quarter_dy(i: int) -> int {
    if i == 0 || i == 1 {
        -1
    } else {
        1
    }
}

impl Tree {
    /// The child in the quarter `i`: 0 is north-west, 1 north-east, 2
    /// south-west, 3 south-east.
    pub open spec fn child(self, i: int) -> Tree {
        if i == 0 {
            self.nw()
        } else if i == 1 {
            self.ne()
        } else if i == 2 {
            self.sw()
        } else {
            self.se()
        }
    }

    /// Of the child of a root in the quarter `i`, the population of the
    /// grandchild next to the root's centre.
    pub open spec fn inner_population(self, i: int) -> nat {
        let g = self.child(3 - i);
        if g is Leaf {
            popcount(g.leaf() & quarter_mask(3 - i))
        } else {
            g.child(3 - i).population()
        }
    }

    /// The tree grown until it is fit for a step of `2^step` generations:
    /// expanded, as long as a level is left, while its level is below
    /// `step + 2` or a live cell lies outside its inner quarter.
    pub open spec fn fitted(self, step: nat) -> Tree
        decreases MAX_LEVEL + 1 - self.level(),
    {
        if (self.level() <= step + 1 || !self.centered()) && self.level() < MAX_LEVEL {
            proof {
                lemma_expand_level(self);
            }
            self.expand().fitted(step)
        } else {
            self
        }
    }

    /// Whether `(x, y)` lies in the quarter `i` of the quarter `i` of this
    /// tree's square.
    pub open spec fn in_corner(self, i: int, x: int, y: int) -> bool {
        in_quarter(i, x, y) && in_quarter(
            i,
            x - quarter_dx(i) * span(self.level()),
            y - quarter_dy(i) * span(self.level()),
        )
    }
}

/// Expanding adds one level.
pub proof fn lemma_expand_level(t: Tree)
    ensures
        t.expand().level() == t.level() + 1,
{
    reveal_with_fuel(Tree::level, 3);
    match t {
        Tree::Leaf(_) => {},
        Tree::Quad(a, _, _, _) => {
            lemma_level(*a);
            crate::tree::lemma_empty(a.level());
            let e = Tree::empty(a.level());
            assert(Tree::quad(e, e, e, *a).level() == a.level() + 1);
        },
    }
}

/// A tree whose live cells all lie in a square two levels down is centred.
pub proof fn lemma_small_is_centered(t: Tree, level: nat)
    requires
        t.wf(),
        level >= 2,
        t.level() >= level + 2,
        forall|x: int, y: int| #[trigger] t.cell(x, y) ==> Tree::covers(level, x, y),
    ensures
        t.centered(),
{
    lemma_span(level);
    crate::graph::lemma_pow2_mono(((level + 1) - 2) as nat, ((t.level() - 1) - 2) as nat);
}

/// What growing a tree until it is fit for a step gives: a tree with the
/// same cells and the same population, of a level of at least `step + 2`,
/// with all live cells in its inner quarter.
pub proof fn lemma_fitted(t: Tree, step: nat)
    requires
        t.wf(),
        t.level() + 2 <= MAX_LEVEL,
        step + 2 <= MAX_LEVEL,
    ensures
        t.fitted(step).wf(),
        t.level() <= t.fitted(step).level() <= MAX_LEVEL,
        t.fitted(step).level() >= step + 2,
        t.fitted(step).level() >= 3,
        t.fitted(step).centered(),
        t.fitted(step).population() == t.population(),
        forall|x: int, y: int| #[trigger] t.fitted(step).cell(x, y) == t.cell(x, y),
{
    lemma_fitted_from(t, t, step);
}

/// The same of a tree `t` that was grown from a tree `first`.
pub proof fn lemma_fitted_from(first: Tree, t: Tree, step: nat)
    requires
        first.wf(),
        t.wf(),
        first.level() + 2 <= MAX_LEVEL,
        step + 2 <= MAX_LEVEL,
        first.level() <= t.level() <= MAX_LEVEL,
        t.level() <= first.level() + 2 || t.level() <= step + 2,
        forall|x: int, y: int| #[trigger] t.cell(x, y) == first.cell(x, y),
    ensures
        t.fitted(step).wf(),
        t.level() <= t.fitted(step).level() <= MAX_LEVEL,
        t.fitted(step).level() >= step + 2,
        t.fitted(step).level() >= 3,
        t.fitted(step).centered(),
        t.fitted(step).population() == t.population(),
        forall|x: int, y: int| #[trigger] t.fitted(step).cell(x, y) == first.cell(x, y),
    decreases MAX_LEVEL + 1 - t.level(),
{
    if t.level() > step + 1 && t.level() >= first.level() + 2 {
        assert forall|x: int, y: int| #[trigger] t.cell(x, y) implies Tree::covers(
            first.level(),
            x,
            y,
        ) by {
            lemma_cell_covered(first, x, y);
        }
        lemma_small_is_centered(t, first.level());
    }
    if (t.level() <= step + 1 || !t.centered()) && t.level() < MAX_LEVEL {
        lemma_expand(t);
        let e = t.expand();
        assert forall|x: int, y: int| #[trigger] e.cell(x, y) == first.cell(x, y) by {
            assert(t.expand().cell(x, y) == t.cell(x, y));
        }
        lemma_fitted_from(first, e, step);
    }
}

/// A cell of a tree is the cell of the child in its quarter, seen from that
/// child's centre.
pub proof fn lemma_child_cell(t: Tree, i: int, x: int, y: int)
    requires
        t.wf(),
        t.level() >= 3,
        0 <= i < 4,
    ensures
        t.child(i).wf(),
        t.child(i).level() == t.level() - 1,
        in_quarter(i, x, y) ==> t.cell(x, y) == t.child(i).cell(
            x - quarter_dx(i) * span(t.level()),
            y - quarter_dy(i) * span(t.level()),
        ),
        t.child(i).cell(x, y) ==> in_quarter(
            i,
            x + quarter_dx(i) * span(t.level()),
            y + quarter_dy(i) * span(t.level()),
        ) && t.cell(x + quarter_dx(i) * span(t.level()), y + quarter_dy(i) * span(t.level())),
{
    lemma_children(t);
    lemma_quad_cell(t.nw(), t.ne(), t.sw(), t.se(), x, y);
    let q = span(t.level());
    lemma_span(t.level());
    lemma_span((t.level() - 1) as nat);
    if t.child(i).cell(x, y) {
        lemma_cell_covered(t.child(i), x, y);
        lemma_quad_cell(
            t.nw(),
            t.ne(),
            t.sw(),
            t.se(),
            x + quarter_dx(i) * q,
            y + quarter_dy(i) * q,
        );
    }
}

/// The population of a tree is that of one child exactly when all live
/// cells lie in that child's quarter.
pub proof fn lemma_quarter(t: Tree, i: int)
    requires
        t.wf(),
        t.level() >= 3,
        0 <= i < 4,
    ensures
        t.child(i).population() <= t.population(),
        t.population() == t.child(i).population() <==> forall|x: int, y: int| #[trigger]
            t.cell(x, y) ==> in_quarter(i, x, y),
{
    lemma_children(t);
    let q = span(t.level());
    lemma_population_zero(t.child(0));
    lemma_population_zero(t.child(1));
    lemma_population_zero(t.child(2));
    lemma_population_zero(t.child(3));
    if t.population() == t.child(i).population() {
        assert forall|x: int, y: int| #[trigger] t.cell(x, y) implies in_quarter(i, x, y) by {
            let j: int = if x < 0 {
                if y < 0 {
                    0
                } else {
                    2
                }
            } else {
                if y < 0 {
                    1
                } else {
                    3
                }
            };
            lemma_child_cell(t, j, x, y);
            if j != i {
                assert(t.child(j).population() == 0);
                assert(!t.child(j).cell(x - quarter_dx(j) * q, y - quarter_dy(j) * q));
            }
        }
    } else {
        let j: int = if i != 0 && t.child(0).population() != 0 {
            0
        } else if i != 1 && t.child(1).population() != 0 {
            1
        } else if i != 2 && t.child(2).population() != 0 {
            2
        } else {
            3
        };
        assert(j != i && t.child(j).population() != 0);
        let c = t.child(j);
        let (u, v) = choose|u: int, v: int| c.cell(u, v);
        lemma_child_cell(t, j, u, v);
        assert(t.cell(u + quarter_dx(j) * q, v + quarter_dy(j) * q));
        assert(!in_quarter(i, u + quarter_dx(j) * q, v + quarter_dy(j) * q));
    }
}

/// The population of a tree is that of the quarter `k` of its child `k`
/// exactly when all live cells lie in that corner.
pub proof fn lemma_corner(t: Tree, k: int)
    requires
        t.wf(),
        t.level() >= 3,
        0 <= k < 4,
    ensures
        t.inner_population(3 - k) <= t.population(),
        t.population() == t.inner_population(3 - k) <==> forall|x: int, y: int| #[trigger]
            t.cell(x, y) ==> t.in_corner(k, x, y),
{
    let q = span(t.level());
    let g = t.child(k);
    lemma_children(t);
    lemma_quarter(t, k);
    lemma_level(g);
    let inner = t.inner_population(3 - k);
    if g is Leaf {
        lemma_leaf_quarter(g.leaf(), k);
        assert(inner <= g.population());
        if t.population() == inner {
            assert forall|x: int, y: int| #[trigger] t.cell(x, y) implies t.in_corner(k, x, y) by {
                lemma_child_cell(t, k, x, y);
                assert(leaf_cell(g.leaf(), x - quarter_dx(k) * q, y - quarter_dy(k) * q));
            }
        } else if t.population() == g.population() {
            let (u, v) = choose|u: int, v: int| #[trigger]
                leaf_cell(g.leaf(), u, v) && !in_quarter(k, u, v);
            assert(g.cell(u, v));
            lemma_child_cell(t, k, u, v);
            assert(!t.in_corner(k, u + quarter_dx(k) * q, v + quarter_dy(k) * q));
        }
    } else {
        lemma_quarter(g, k);
        let r = span(g.level());
        assert(inner <= g.population());
        if t.population() == inner {
            assert forall|x: int, y: int| #[trigger] t.cell(x, y) implies t.in_corner(k, x, y) by {
                lemma_child_cell(t, k, x, y);
                assert(g.cell(x - quarter_dx(k) * q, y - quarter_dy(k) * q));
            }
        } else if t.population() == g.population() {
            let (u, v) = choose|u: int, v: int| #[trigger] g.cell(u, v) && !in_quarter(k, u, v);
            lemma_child_cell(t, k, u, v);
            assert(!t.in_corner(k, u + quarter_dx(k) * q, v + quarter_dy(k) * q));
        }
    }
}

/// The offsets of the quarter `i` at the distance `q`.
pub proof fn lemma_offsets(i: int, q: int)
    ensures
        quarter_dx(i) * q == (if i == 0 || i == 2 {
            -q
        } else {
            q
        }),
        quarter_dy(i) * q == (if i == 0 || i == 1 {
            -q
        } else {
            q
        }),
{
}

/// The live cells of a tree that lie in the quarter `i` lie in the tree's
/// inner quarter exactly when the child `i` has its population in the
/// corner next to the centre.
pub proof fn lemma_child_centered(t: Tree, i: int)
    requires
        t.wf(),
        t.level() >= 4,
        0 <= i < 4,
    ensures
        t.child(i).population() == t.child(i).inner_population(i) <==> forall|x: int, y: int|
            #[trigger] t.cell(x, y) && in_quarter(i, x, y) ==> -span((t.level() - 1) as nat) <= x
                < span((t.level() - 1) as nat) && -span((t.level() - 1) as nat) <= y < span(
                (t.level() - 1) as nat,
            ),
{
    let q = span(t.level());
    let h = span((t.level() - 1) as nat);
    lemma_span((t.level() - 1) as nat);
    lemma_children(t);
    let c = t.child(i);
    lemma_corner(c, 3 - i);
    lemma_offsets(i, q);
    lemma_offsets(3 - i, h);
    if c.population() == c.inner_population(i) {
        assert forall|x: int, y: int| #[trigger] t.cell(x, y) && in_quarter(i, x, y) implies -h
            <= x < h && -h <= y < h by {
            lemma_child_cell(t, i, x, y);
            assert(c.cell(x - quarter_dx(i) * q, y - quarter_dy(i) * q));
            assert(c.in_corner(3 - i, x - quarter_dx(i) * q, y - quarter_dy(i) * q));
        }
    } else {
        let (u, v) = choose|u: int, v: int| #[trigger] c.cell(u, v) && !c.in_corner(3 - i, u, v);
        lemma_child_cell(t, i, u, v);
        let x = u + quarter_dx(i) * q;
        let y = v + quarter_dy(i) * q;
        assert(t.cell(x, y) && in_quarter(i, x, y));
        assert(!(-h <= x < h && -h <= y < h));
    }
}

/// The live cells of a tree of level 4 and up lie in its inner quarter
/// exactly when, in each child, they lie in the corner next to the centre.
pub proof fn lemma_centered(t: Tree)
    requires
        t.wf(),
        t.level() >= 4,
    ensures
        t.centered() <==> t.child(0).population() == t.child(0).inner_population(0) && t.child(
            1,
        ).population() == t.child(1).inner_population(1) && t.child(2).population() == t.child(
            2,
        ).inner_population(2) && t.child(3).population() == t.child(3).inner_population(3),
{
    let h = span((t.level() - 1) as nat);
    lemma_child_centered(t, 0);
    lemma_child_centered(t, 1);
    lemma_child_centered(t, 2);
    lemma_child_centered(t, 3);
    if t.centered() {
        assert forall|x: int, y: int| #[trigger] t.cell(x, y) && in_quarter(0, x, y) implies -h
            <= x < h && -h <= y < h by {}
        assert forall|x: int, y: int| #[trigger] t.cell(x, y) && in_quarter(1, x, y) implies -h
            <= x < h && -h <= y < h by {}
        assert forall|x: int, y: int| #[trigger] t.cell(x, y) && in_quarter(2, x, y) implies -h
            <= x < h && -h <= y < h by {}
        assert forall|x: int, y: int| #[trigger] t.cell(x, y) && in_quarter(3, x, y) implies -h
            <= x < h && -h <= y < h by {}
    }
    if t.child(0).population() == t.child(0).inner_population(0) && t.child(1).population()
        == t.child(1).inner_population(1) && t.child(2).population() == t.child(
        2,
    ).inner_population(2) && t.child(3).population() == t.child(3).inner_population(3) {
        assert forall|x: int, y: int| #[trigger] t.cell(x, y) implies -h <= x < h && -h <= y
            < h by {
            assert(in_quarter(0, x, y) || in_quarter(1, x, y) || in_quarter(2, x, y) || in_quarter(
                3,
                x,
                y,
            ));
        }
    }
}

/// The live cells of a tree of level 3 lie in its inner quarter exactly
/// when each of its four leaves has at most the cell next to the centre.
pub proof fn lemma_centered_leaves(t: Tree)
    requires
        t.wf(),
        t.level() == 3,
    ensures
        t.centered() <==> t.nw().leaf() & 0xfffe == 0 && t.ne().leaf() & 0xfff7 == 0
            && t.sw().leaf() & 0xefff == 0 && t.se().leaf() & 0x7fff == 0,
{
    lemma_children(t);
    lemma_level(t.nw());
    lemma_level(t.ne());
    lemma_level(t.sw());
    lemma_level(t.se());
    lemma_span(2);
    lemma_span(3);
    lemma_leaf_corner(t.nw().leaf());
    lemma_leaf_corner(t.ne().leaf());
    lemma_leaf_corner(t.sw().leaf());
    lemma_leaf_corner(t.se().leaf());
    let a = t.nw().leaf();
    let b = t.ne().leaf();
    let c = t.sw().leaf();
    let d = t.se().leaf();
    if t.centered() {
        assert forall|x: int, y: int| #[trigger] leaf_cell(a, x, y) implies x == 1 && y == 1 by {
            lemma_child_cell(t, 0, x, y);
            assert(t.nw().cell(x, y));
        }
        assert forall|x: int, y: int| #[trigger] leaf_cell(b, x, y) implies x == -2 && y == 1 by {
            lemma_child_cell(t, 1, x, y);
            assert(t.ne().cell(x, y));
        }
        assert forall|x: int, y: int| #[trigger] leaf_cell(c, x, y) implies x == 1 && y == -2 by {
            lemma_child_cell(t, 2, x, y);
            assert(t.sw().cell(x, y));
        }
        assert forall|x: int, y: int| #[trigger] leaf_cell(d, x, y) implies x == -2 && y
            == -2 by {
            lemma_child_cell(t, 3, x, y);
            assert(t.se().cell(x, y));
        }
    }
    if a & 0xfffe == 0 && b & 0xfff7 == 0 && c & 0xefff == 0 && d & 0x7fff == 0 {
        assert forall|x: int, y: int| #[trigger] t.cell(x, y) implies -1 <= x < 1 && -1 <= y
            < 1 by {
            lemma_quad_cell(t.nw(), t.ne(), t.sw(), t.se(), x, y);
            if x < 0 {
                if y < 0 {
                    assert(leaf_cell(a, x + 2, y + 2));
                } else {
                    assert(leaf_cell(c, x + 2, y - 2));
                }
            } else {
                if y < 0 {
                    assert(leaf_cell(b, x - 2, y + 2));
                } else {
                    assert(leaf_cell(d, x - 2, y - 2));
                }
            }
        }
    }
}

impl World {
    /// Of the node `id`, the population of the grandchild in the quarter
    /// `corner` of the child in the quarter `corner`.
    pub fn corner_population(&self, id: NodeId, corner: u8) -> (population: u64)
        requires
            self.wf(),
            self.arena().contains_key(id.0),
            corner < 4,
        ensures
            population == tree_of(self.arena(), Node::NodeId(id)).inner_population(3 - corner),
    {
        proof {
            self.lemma_wf();
            lemma_node_children(self.arena(), id);
        }
        let data = self.index(id);
        let child = if corner == 0 {
            data.nw()
        } else if corner == 1 {
            data.ne()
        } else if corner == 2 {
            data.sw()
        } else {
            data.se()
        };
        proof {
            lemma_tree_of(self.arena(), child);
        }
        match child {
            Node::Leaf(leaf) => {
                let mask: u16 = if corner == 0 {
                    0xcc00
                } else if corner == 1 {
                    0x3300
                } else if corner == 2 {
                    0x00cc
                } else {
                    0x0033
                };
                (leaf & mask).count_ones() as u64
            },
            Node::NodeId(inner) => {
                proof {
                    lemma_node_children(self.arena(), inner);
                }
                let inner_data = self.index(inner);
                let grandchild = if corner == 0 {
                    inner_data.nw()
                } else if corner == 1 {
                    inner_data.ne()
                } else if corner == 2 {
                    inner_data.sw()
                } else {
                    inner_data.se()
                };
                proof {
                    lemma_tree_of(self.arena(), grandchild);
                }
                self.node_population(grandchild)
            },
        }
    }

    /// Whether the root lacks margin: whether it is a leaf, or a live cell
    /// lies outside its inner quarter.
    pub fn should_expand(&self) -> (expand: bool)
        requires
            self.wf(),
        ensures
            expand == !self.tree().centered(),
    {
        proof {
            self.lemma_wf();
            lemma_tree_of(self.arena(), self.root);
        }
        match self.root {
            Node::Leaf(_) => true,
            Node::NodeId(id) => {
                proof {
                    lemma_node_children(self.arena(), id);
                }
                match self.index(id).children {
                    QuadChildren::Leaf { nw, ne, sw, se } => {
                        proof {
                            lemma_centered_leaves(self.tree());
                        }
                        nw & 0xfffe != 0 || ne & 0xfff7 != 0 || sw & 0xefff != 0 || se & 0x7fff
                            != 0
                    },
                    QuadChildren::NodeId { nw, ne, sw, se } => {
                        proof {
                            lemma_centered(self.tree());
                            lemma_tree_of(self.arena(), Node::NodeId(nw));
                            lemma_tree_of(self.arena(), Node::NodeId(ne));
                            lemma_tree_of(self.arena(), Node::NodeId(sw));
                            lemma_tree_of(self.arena(), Node::NodeId(se));
                        }
                        let nw_se_se = self.corner_population(nw, 3);
                        let ne_sw_sw = self.corner_population(ne, 2);
                        let sw_ne_ne = self.corner_population(sw, 1);
                        let se_nw_nw = self.corner_population(se, 0);
                        self.index(nw).population != nw_se_se || self.index(ne).population
                            != ne_sw_sw || self.index(sw).population != sw_ne_ne || self.index(
                            se,
                        ).population != se_nw_nw
                    },
                }
            },
        }
    }

    /// Whether the root can grow by the two levels that a step may need, and
    /// the step is within what a root can determine.
    pub open spec fn has_room(&self) -> bool {
        self.root_level() + 2 <= MAX_LEVEL && self.step + 2 <= MAX_LEVEL
    }

    /// Grows the root until its level is at least `step + 2` and every live
    /// cell lies in its inner quarter. No cell changes.
    pub fn fit_root(&mut self)
        requires
            old(self).wf(),
            old(self).has_room(),
        ensures
            final(self).wf(),
            final(self).grows(old(self)),
            final(self).keeps(old(self)),
            final(self).tree() == old(self).tree().fitted(old(self).step as nat),
            final(self).root_level() >= final(self).step + 2,
            final(self).root_level() <= MAX_LEVEL,
            final(self).tree().centered(),
            forall|x: int, y: int| #[trigger] final(self).alive(x, y) == old(self).alive(x, y),
    {
        let ghost first = old(self).tree();
        proof {
            self.lemma_wf();
            lemma_tree_of(self.arena(), self.root);
        }
        loop
            invariant
                self.wf(),
                old(self).wf(),
                old(self).has_room(),
                first == old(self).tree(),
                first.wf(),
                first.level() == old(self).root_level(),
                self.grows(old(self)),
                self.keeps(old(self)),
                self.tree().fitted(self.step as nat) == first.fitted(self.step as nat),
                old(self).root_level() <= self.root_level() <= MAX_LEVEL,
                self.root_level() <= old(self).root_level() + 2 || self.root_level() <= self.step
                    + 2,
                forall|x: int, y: int| #[trigger] self.alive(x, y) == old(self).alive(x, y),
            ensures
                self.tree() == first.fitted(self.step as nat),
                self.root_level() >= self.step + 2,
                self.tree().centered(),
            decreases MAX_LEVEL - self.root_level(),
        {
            proof {
                self.lemma_wf();
                lemma_tree_of(self.arena(), self.root);
            }
            let level = self.node_level(self.root);
            let short = level <= self.step + 1;
            let expand = short || self.should_expand();
            if !expand {
                break ;
            }
            let ghost before = *self;
            proof {
                let t = before.tree();
                if !short && level >= old(self).root_level() + 2 {
                    assert forall|x: int, y: int| #[trigger] t.cell(x, y) implies Tree::covers(
                        first.level(),
                        x,
                        y,
                    ) by {
                        assert(before.alive(x, y) == old(self).alive(x, y));
                        lemma_cell_covered(first, x, y);
                    }
                    lemma_small_is_centered(t, first.level());
                }
                lemma_expand(t);
            }
            self.expand();
            proof {
                assert forall|x: int, y: int| #[trigger] self.alive(x, y) == old(self).alive(
                    x,
                    y,
                ) by {
                    assert(before.tree().expand().cell(x, y) == before.tree().cell(x, y));
                    assert(before.alive(x, y) == old(self).alive(x, y));
                }
            }
        }
    }
}

} // verus!
