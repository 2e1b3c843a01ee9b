//! The mathematical model of a quadtree node: what it holds, apart from how
//! the arena shares and stores it.

use vstd::prelude::*;
use crate::bits::{
    cell_index, center_leaf, leaf_cell, lemma_leaf_cells, lemma_leaf_zero, lemma_set_cell,
    lemma_span, lemma_spread_cells, lemma_spread_population, popcount, span, step_quad_leaf,
};
use vstd::arithmetic::power2::{pow2, lemma_pow2_adds};

verus! {

/// The content of a node: a leaf, or four subtrees of one level, north-west,
/// north-east, south-west, south-east.
pub enum Tree {
    Leaf(u16),
    Quad(Box<Tree>, Box<Tree>, Box<Tree>, Box<Tree>),
}

impl Tree {
    /// The tree made of four trees.
    pub open spec fn quad(nw: Tree, ne: Tree, sw: Tree, se: Tree) -> Tree {
        Tree::Quad(Box::new(nw), Box::new(ne), Box::new(sw), Box::new(se))
    }

    /// The north-west subtree; of a leaf, the leaf.
    pub open spec fn nw(self) -> Tree {
        match self {
            Tree::Quad(a, _, _, _) => *a,
            Tree::Leaf(_) => self,
        }
    }

    /// The north-east subtree; of a leaf, the leaf.
    pub open spec fn ne(self) -> Tree {
        match self {
            Tree::Quad(_, b, _, _) => *b,
            Tree::Leaf(_) => self,
        }
    }

    /// The south-west subtree; of a leaf, the leaf.
    pub open spec fn sw(self) -> Tree {
        match self {
            Tree::Quad(_, _, c, _) => *c,
            Tree::Leaf(_) => self,
        }
    }

    /// The south-east subtree; of a leaf, the leaf.
    pub open spec fn se(self) -> Tree {
        match self {
            Tree::Quad(_, _, _, d) => *d,
            Tree::Leaf(_) => self,
        }
    }

    /// The tree covers a square of side `2^level`, centred on the origin.
    pub open spec fn level(self) -> nat
        decreases self,
    {
        match self {
            Tree::Leaf(_) => 2,
            Tree::Quad(a, _, _, _) => a.level() + 1,
        }
    }

    /// The four subtrees of every node have one level.
    pub open spec fn wf(self) -> bool
        decreases self,
    {
        match self {
            Tree::Leaf(_) => true,
            Tree::Quad(a, b, c, d) => a.wf() && b.wf() && c.wf() && d.wf() && b.level()
                == a.level() && c.level() == a.level() && d.level() == a.level(),
        }
    }

    /// The sum over the leaves of the number of their set bits.
    pub open spec fn population(self) -> nat
        decreases self,
    {
        match self {
            Tree::Leaf(leaf) => popcount(leaf),
            Tree::Quad(a, b, c, d) => a.population() + b.population() + c.population()
                + d.population(),
        }
    }

    /// Whether the cell at `(x, y)` is alive, with the origin at the centre
    /// of the tree's square, `x` growing to the east and `y` to the south.
    pub open spec fn cell(self, x: int, y: int) -> bool
        decreases self,
    {
        match self {
            Tree::Leaf(leaf) => leaf_cell(leaf, x, y),
            Tree::Quad(a, b, c, d) => {
                let q = span(self.level());
                if x < 0 {
                    if y < 0 {
                        a.cell(x + q, y + q)
                    } else {
                        c.cell(x + q, y - q)
                    }
                } else {
                    if y < 0 {
                        b.cell(x - q, y + q)
                    } else {
                        d.cell(x - q, y - q)
                    }
                }
            },
        }
    }

    /// Whether `(x, y)` lies in the square of a tree of level `level`.
    pub open spec fn covers(level: nat, x: int, y: int) -> bool {
        -2 * span(level) <= x < 2 * span(level) && -2 * span(level) <= y < 2 * span(level)
    }

    /// The bits of a leaf; zero for a tree that is no leaf.
    pub open spec fn leaf(self) -> u16 {
        match self {
            Tree::Leaf(leaf) => leaf,
            Tree::Quad(_, _, _, _) => 0,
        }
    }

    /// The tree in the centre of the square made of `nw`, `ne`, `sw` and
    /// `se`, of their level.
    pub open spec fn center4(nw: Tree, ne: Tree, sw: Tree, se: Tree) -> Tree {
        match nw {
            Tree::Leaf(_) => Tree::Leaf(center_leaf(nw.leaf(), ne.leaf(), sw.leaf(), se.leaf())),
            Tree::Quad(_, _, _, _) => Tree::quad(nw.se(), ne.sw(), sw.ne(), se.nw()),
        }
    }

    /// The centre of the tree: the inner half, one level down.
    pub open spec fn center(self) -> Tree {
        Tree::center4(self.nw(), self.ne(), self.sw(), self.se())
    }

    /// The tree, one level down, that straddles the two northern children.
    pub open spec fn north(self) -> Tree {
        Tree::quad(self.nw().ne(), self.ne().nw(), self.nw().se(), self.ne().sw())
    }

    /// The tree, one level down, that straddles the two western children.
    pub open spec fn west(self) -> Tree {
        Tree::quad(self.nw().sw(), self.nw().se(), self.sw().nw(), self.sw().ne())
    }

    /// The tree, one level down, in the middle of the four children.
    pub open spec fn middle(self) -> Tree {
        Tree::quad(self.nw().se(), self.ne().sw(), self.sw().ne(), self.se().nw())
    }

    /// The tree, one level down, that straddles the two eastern children.
    pub open spec fn east(self) -> Tree {
        Tree::quad(self.ne().sw(), self.ne().se(), self.se().nw(), self.se().ne())
    }

    /// The tree, one level down, that straddles the two southern children.
    pub open spec fn south(self) -> Tree {
        Tree::quad(self.sw().ne(), self.se().nw(), self.sw().se(), self.se().sw())
    }

    /// The centre of a tree of level `level`, one level down, after
    /// `2^(level - 2)` generations under the rule table `table`.
    pub open spec fn step_max(self, table: Seq<u8>, level: nat) -> Tree
        decreases level,
    {
        if level <= 3 {
            Tree::Leaf(
                step_quad_leaf(
                    table,
                    self.nw().leaf(),
                    self.ne().leaf(),
                    self.sw().leaf(),
                    self.se().leaf(),
                    true,
                ),
            )
        } else {
            let l = (level - 1) as nat;
            let t00 = self.nw().step_max(table, l);
            let t01 = self.north().step_max(table, l);
            let t02 = self.ne().step_max(table, l);
            let t10 = self.west().step_max(table, l);
            let t11 = self.middle().step_max(table, l);
            let t12 = self.east().step_max(table, l);
            let t20 = self.sw().step_max(table, l);
            let t21 = self.south().step_max(table, l);
            let t22 = self.se().step_max(table, l);
            Tree::quad(
                Tree::quad(t00, t01, t10, t11).step_max(table, l),
                Tree::quad(t01, t02, t11, t12).step_max(table, l),
                Tree::quad(t10, t11, t20, t21).step_max(table, l),
                Tree::quad(t11, t12, t21, t22).step_max(table, l),
            )
        }
    }

    /// The centre of a tree of level `level`, one level down, after `2^k`
    /// generations under the rule table `table`, for `k + 2 <= level`.
    pub open spec fn step(self, table: Seq<u8>, k: nat, level: nat) -> Tree
        decreases level,
    {
        if k + 2 >= level {
            self.step_max(table, level)
        } else if level <= 3 {
            Tree::Leaf(
                step_quad_leaf(
                    table,
                    self.nw().leaf(),
                    self.ne().leaf(),
                    self.sw().leaf(),
                    self.se().leaf(),
                    false,
                ),
            )
        } else {
            let l = (level - 1) as nat;
            let t00 = self.nw().step(table, k, l);
            let t01 = self.north().step(table, k, l);
            let t02 = self.ne().step(table, k, l);
            let t10 = self.west().step(table, k, l);
            let t11 = self.middle().step(table, k, l);
            let t12 = self.east().step(table, k, l);
            let t20 = self.sw().step(table, k, l);
            let t21 = self.south().step(table, k, l);
            let t22 = self.se().step(table, k, l);
            Tree::quad(
                Tree::center4(t00, t01, t10, t11),
                Tree::center4(t01, t02, t11, t12),
                Tree::center4(t10, t11, t20, t21),
                Tree::center4(t11, t12, t21, t22),
            )
        }
    }

    /// The tree one level up with this tree as its inner half and no live
    /// cell around it.
    pub open spec fn expand(self) -> Tree {
        match self {
            Tree::Leaf(leaf) => Tree::quad(
                Tree::Leaf((leaf & 0xcc00) >> 10),
                Tree::Leaf((leaf & 0x3300) >> 6),
                Tree::Leaf((leaf & 0x00cc) << 6),
                Tree::Leaf((leaf & 0x0033) << 10),
            ),
            Tree::Quad(a, b, c, d) => {
                let e = Tree::empty(a.level());
                Tree::quad(
                    Tree::quad(e, e, e, *a),
                    Tree::quad(e, e, *b, e),
                    Tree::quad(e, *c, e, e),
                    Tree::quad(*d, e, e, e),
                )
            },
        }
    }

    /// Whether every live cell lies in the inner quarter of the tree's
    /// square, so that half the side is empty margin all around.
    pub open spec fn centered(self) -> bool {
        self.level() >= 3 && forall|x: int, y: int| #[trigger]
            self.cell(x, y) ==> -span((self.level() - 1) as nat) <= x < span(
                (self.level() - 1) as nat,
            ) && -span((self.level() - 1) as nat) <= y < span((self.level() - 1) as nat)
    }

    /// The tree with the cell at `(x, y)` set to `state`.
    pub open spec fn set(self, x: int, y: int, state: bool) -> Tree
        decreases self,
    {
        match self {
            Tree::Leaf(leaf) => if state {
                Tree::Leaf(leaf | (1u16 << (cell_index(x, y) as u16)))
            } else {
                Tree::Leaf(leaf & !(1u16 << (cell_index(x, y) as u16)))
            },
            Tree::Quad(a, b, c, d) => {
                let q = span(self.level());
                if x < 0 {
                    if y < 0 {
                        Tree::quad(a.set(x + q, y + q, state), *b, *c, *d)
                    } else {
                        Tree::quad(*a, *b, c.set(x + q, y - q, state), *d)
                    }
                } else {
                    if y < 0 {
                        Tree::quad(*a, b.set(x - q, y + q, state), *c, *d)
                    } else {
                        Tree::quad(*a, *b, *c, d.set(x - q, y - q, state))
                    }
                }
            },
        }
    }

    /// The tree of level `level` without a live cell.
    pub open spec fn empty(level: nat) -> Tree
        decreases level,
    {
        if level <= 2 {
            Tree::Leaf(0)
        } else {
            let e = Tree::empty((level - 1) as nat);
            Tree::quad(e, e, e, e)
        }
    }
}

/// A tree has level 2 exactly when it is a leaf.
pub proof fn lemma_level(t: Tree)
    ensures
        t.level() >= 2,
        t is Leaf <==> t.level() == 2,
    decreases t,
{
    match t {
        Tree::Leaf(_) => {},
        Tree::Quad(a, _, _, _) => {
            lemma_level(*a);
        },
    }
}

/// A live cell lies in the tree's square.
pub proof fn lemma_cell_covered(t: Tree, x: int, y: int)
    requires
        t.wf(),
        t.cell(x, y),
    ensures
        Tree::covers(t.level(), x, y),
    decreases t,
{
    lemma_level(t);
    lemma_span(t.level());
    match t {
        Tree::Leaf(_) => {},
        Tree::Quad(a, b, c, d) => {
            let q = span(t.level());
            lemma_level(*a);
            lemma_span(a.level());
            if x < 0 {
                if y < 0 {
                    lemma_cell_covered(*a, x + q, y + q);
                } else {
                    lemma_cell_covered(*c, x + q, y - q);
                }
            } else {
                if y < 0 {
                    lemma_cell_covered(*b, x - q, y + q);
                } else {
                    lemma_cell_covered(*d, x - q, y - q);
                }
            }
        },
    }
}

/// A tree's population is zero exactly when none of its cells is alive.
pub proof fn lemma_population_zero(t: Tree)
    requires
        t.wf(),
    ensures
        t.population() == 0 <==> forall|x: int, y: int| !t.cell(x, y),
    decreases t,
{
    match t {
        Tree::Leaf(leaf) => {
            lemma_leaf_zero(leaf);
            lemma_leaf_cells(leaf);
            assert forall|x: int, y: int| t.cell(x, y) == leaf_cell(leaf, x, y) by {}
        },
        Tree::Quad(a, b, c, d) => {
            let q = span(t.level());
            lemma_level(*a);
            lemma_span(a.level());
            lemma_population_zero(*a);
            lemma_population_zero(*b);
            lemma_population_zero(*c);
            lemma_population_zero(*d);
            if t.population() == 0 {
                assert forall|x: int, y: int| !t.cell(x, y) by {
                    assert(!a.cell(x + q, y + q));
                    assert(!b.cell(x - q, y + q));
                    assert(!c.cell(x + q, y - q));
                    assert(!d.cell(x - q, y - q));
                }
            } else {
                if a.population() != 0 {
                    let (x, y) = choose|x: int, y: int| a.cell(x, y);
                    lemma_cell_covered(*a, x, y);
                    assert(t.cell(x - q, y - q));
                } else if b.population() != 0 {
                    let (x, y) = choose|x: int, y: int| b.cell(x, y);
                    lemma_cell_covered(*b, x, y);
                    assert(t.cell(x + q, y - q));
                } else if c.population() != 0 {
                    let (x, y) = choose|x: int, y: int| c.cell(x, y);
                    lemma_cell_covered(*c, x, y);
                    assert(t.cell(x - q, y + q));
                } else {
                    let (x, y) = choose|x: int, y: int| d.cell(x, y);
                    lemma_cell_covered(*d, x, y);
                    assert(t.cell(x + q, y + q));
                }
            }
        },
    }
}

/// The empty tree is well formed, has the level asked for, and no live cell.
pub proof fn lemma_empty(level: nat)
    requires
        level >= 2,
    ensures
        Tree::empty(level).wf(),
        Tree::empty(level).level() == level,
        Tree::empty(level).population() == 0,
        forall|x: int, y: int| !Tree::empty(level).cell(x, y),
    decreases level,
{
    if level <= 2 {
        lemma_leaf_zero(0);
        lemma_leaf_cells(0);
    } else {
        lemma_empty((level - 1) as nat);
        lemma_population_zero(Tree::empty(level));
    }
}

/// A tree of level 3 and up is made of four trees one level down.
pub proof fn lemma_children(t: Tree)
    requires
        t.wf(),
        t.level() >= 3,
    ensures
        t == Tree::quad(t.nw(), t.ne(), t.sw(), t.se()),
        t.nw().wf() && t.ne().wf() && t.sw().wf() && t.se().wf(),
        t.nw().level() == t.level() - 1,
        t.ne().level() == t.level() - 1,
        t.sw().level() == t.level() - 1,
        t.se().level() == t.level() - 1,
        t.population() == t.nw().population() + t.ne().population() + t.sw().population()
            + t.se().population(),
{
    lemma_level(t);
}

/// Four trees of one level make a tree of the next.
pub proof fn lemma_quad(nw: Tree, ne: Tree, sw: Tree, se: Tree)
    requires
        nw.wf() && ne.wf() && sw.wf() && se.wf(),
        ne.level() == nw.level(),
        sw.level() == nw.level(),
        se.level() == nw.level(),
    ensures
        Tree::quad(nw, ne, sw, se).wf(),
        Tree::quad(nw, ne, sw, se).level() == nw.level() + 1,
        Tree::quad(nw, ne, sw, se).nw() == nw,
        Tree::quad(nw, ne, sw, se).ne() == ne,
        Tree::quad(nw, ne, sw, se).sw() == sw,
        Tree::quad(nw, ne, sw, se).se() == se,
{
}

/// The centre of four trees of one level is a tree of that level.
pub proof fn lemma_center4(nw: Tree, ne: Tree, sw: Tree, se: Tree)
    requires
        nw.wf() && ne.wf() && sw.wf() && se.wf(),
        ne.level() == nw.level(),
        sw.level() == nw.level(),
        se.level() == nw.level(),
    ensures
        Tree::center4(nw, ne, sw, se).wf(),
        Tree::center4(nw, ne, sw, se).level() == nw.level(),
{
    lemma_level(nw);
    lemma_level(ne);
    lemma_level(sw);
    lemma_level(se);
    if nw.level() >= 3 {
        lemma_children(nw);
        lemma_children(ne);
        lemma_children(sw);
        lemma_children(se);
    }
}

/// The five trees that straddle the children of a tree of level 4 and up are
/// trees one level down.
pub proof fn lemma_windows(t: Tree)
    requires
        t.wf(),
        t.level() >= 4,
    ensures
        t.north().wf() && t.north().level() == t.level() - 1,
        t.west().wf() && t.west().level() == t.level() - 1,
        t.middle().wf() && t.middle().level() == t.level() - 1,
        t.east().wf() && t.east().level() == t.level() - 1,
        t.south().wf() && t.south().level() == t.level() - 1,
{
    lemma_children(t);
    lemma_children(t.nw());
    lemma_children(t.ne());
    lemma_children(t.sw());
    lemma_children(t.se());
}

/// The result of a maximal step is a tree one level down.
pub proof fn lemma_step_max_wf(t: Tree, table: Seq<u8>, level: nat)
    requires
        t.wf(),
        t.level() == level,
        level >= 3,
    ensures
        t.step_max(table, level).wf(),
        t.step_max(table, level).level() == level - 1,
    decreases level,
{
    if level > 3 {
        let l = (level - 1) as nat;
        lemma_children(t);
        lemma_windows(t);
        lemma_step_max_wf(t.nw(), table, l);
        lemma_step_max_wf(t.north(), table, l);
        lemma_step_max_wf(t.ne(), table, l);
        lemma_step_max_wf(t.west(), table, l);
        lemma_step_max_wf(t.middle(), table, l);
        lemma_step_max_wf(t.east(), table, l);
        lemma_step_max_wf(t.sw(), table, l);
        lemma_step_max_wf(t.south(), table, l);
        lemma_step_max_wf(t.se(), table, l);
        let t00 = t.nw().step_max(table, l);
        let t01 = t.north().step_max(table, l);
        let t02 = t.ne().step_max(table, l);
        let t10 = t.west().step_max(table, l);
        let t11 = t.middle().step_max(table, l);
        let t12 = t.east().step_max(table, l);
        let t20 = t.sw().step_max(table, l);
        let t21 = t.south().step_max(table, l);
        let t22 = t.se().step_max(table, l);
        lemma_step_max_wf(Tree::quad(t00, t01, t10, t11), table, l);
        lemma_step_max_wf(Tree::quad(t01, t02, t11, t12), table, l);
        lemma_step_max_wf(Tree::quad(t10, t11, t20, t21), table, l);
        lemma_step_max_wf(Tree::quad(t11, t12, t21, t22), table, l);
    }
}

/// The result of a step is a tree one level down.
pub proof fn lemma_step_wf(t: Tree, table: Seq<u8>, k: nat, level: nat)
    requires
        t.wf(),
        t.level() == level,
        level >= 3,
    ensures
        t.step(table, k, level).wf(),
        t.step(table, k, level).level() == level - 1,
    decreases level,
{
    if k + 2 >= level {
        lemma_step_max_wf(t, table, level);
    } else if level > 3 {
        let l = (level - 1) as nat;
        lemma_children(t);
        lemma_windows(t);
        lemma_step_wf(t.nw(), table, k, l);
        lemma_step_wf(t.north(), table, k, l);
        lemma_step_wf(t.ne(), table, k, l);
        lemma_step_wf(t.west(), table, k, l);
        lemma_step_wf(t.middle(), table, k, l);
        lemma_step_wf(t.east(), table, k, l);
        lemma_step_wf(t.sw(), table, k, l);
        lemma_step_wf(t.south(), table, k, l);
        lemma_step_wf(t.se(), table, k, l);
        let t00 = t.nw().step(table, k, l);
        let t01 = t.north().step(table, k, l);
        let t02 = t.ne().step(table, k, l);
        let t10 = t.west().step(table, k, l);
        let t11 = t.middle().step(table, k, l);
        let t12 = t.east().step(table, k, l);
        let t20 = t.sw().step(table, k, l);
        let t21 = t.south().step(table, k, l);
        let t22 = t.se().step(table, k, l);
        lemma_center4(t00, t01, t10, t11);
        lemma_center4(t01, t02, t11, t12);
        lemma_center4(t10, t11, t20, t21);
        lemma_center4(t11, t12, t21, t22);
    }
}

/// A tree of level `n` holds at most `4^n` live cells.
pub proof fn lemma_population_bound(t: Tree)
    requires
        t.wf(),
    ensures
        t.population() <= pow2(2 * t.level()),
    decreases t,
{
    match t {
        Tree::Leaf(leaf) => {
            lemma_leaf_zero(leaf);
            vstd::arithmetic::power2::lemma2_to64();
        },
        Tree::Quad(a, b, c, d) => {
            lemma_population_bound(*a);
            lemma_population_bound(*b);
            lemma_population_bound(*c);
            lemma_population_bound(*d);
            lemma_pow2_adds(2 * a.level(), 2);
            vstd::arithmetic::power2::lemma2_to64();
            assert(pow2(2 * t.level()) == pow2(2 * a.level()) * 4);
        },
    }
}

/// The cells and the population of a tree made of four trees.
pub proof fn lemma_quad_cell(nw: Tree, ne: Tree, sw: Tree, se: Tree, x: int, y: int)
    ensures
        Tree::quad(nw, ne, sw, se).population() == nw.population() + ne.population()
            + sw.population() + se.population(),
        Tree::quad(nw, ne, sw, se).cell(x, y) == ({
            let q = span(nw.level() + 1);
            if x < 0 {
                if y < 0 {
                    nw.cell(x + q, y + q)
                } else {
                    sw.cell(x + q, y - q)
                }
            } else {
                if y < 0 {
                    ne.cell(x - q, y + q)
                } else {
                    se.cell(x - q, y - q)
                }
            }
        }),
{
}

/// Expanding a tree gives a tree one level up with the same live cells and
/// the same population.
pub proof fn lemma_expand(t: Tree)
    requires
        t.wf(),
    ensures
        t.expand().wf(),
        t.expand().level() == t.level() + 1,
        t.expand().population() == t.population(),
        forall|x: int, y: int| #[trigger] t.expand().cell(x, y) == t.cell(x, y),
{
    lemma_level(t);
    lemma_span(t.level());
    lemma_span(t.level() + 1);
    match t {
        Tree::Leaf(leaf) => {
            lemma_spread_population(leaf);
            let nw = Tree::Leaf((leaf & 0xcc00) >> 10);
            let ne = Tree::Leaf((leaf & 0x3300) >> 6);
            let sw = Tree::Leaf((leaf & 0x00cc) << 6);
            let se = Tree::Leaf((leaf & 0x0033) << 10);
            lemma_quad(nw, ne, sw, se);
            lemma_quad_cell(nw, ne, sw, se, 0, 0);
            assert forall|x: int, y: int| #[trigger] t.expand().cell(x, y) == t.cell(x, y) by {
                lemma_spread_cells(leaf, x, y);
                lemma_quad_cell(nw, ne, sw, se, x, y);
            }
        },
        Tree::Quad(a, b, c, d) => {
            let e = Tree::empty(a.level());
            lemma_level(*a);
            lemma_empty(a.level());
            lemma_span(a.level());
            let q = span(t.level());
            let n = Tree::quad(e, e, e, *a);
            let o = Tree::quad(e, e, *b, e);
            let p = Tree::quad(e, *c, e, e);
            let r = Tree::quad(*d, e, e, e);
            lemma_quad(e, e, e, *a);
            lemma_quad(e, e, *b, e);
            lemma_quad(e, *c, e, e);
            lemma_quad(*d, e, e, e);
            lemma_quad(n, o, p, r);
            lemma_quad_cell(n, o, p, r, 0, 0);
            lemma_quad_cell(e, e, e, *a, 0, 0);
            lemma_quad_cell(e, e, *b, e, 0, 0);
            lemma_quad_cell(e, *c, e, e, 0, 0);
            lemma_quad_cell(*d, e, e, e, 0, 0);
            assert forall|x: int, y: int| #[trigger] t.expand().cell(x, y) == t.cell(x, y) by {
                lemma_quad_cell(n, o, p, r, x, y);
                if x < 0 {
                    if y < 0 {
                        lemma_quad_cell(e, e, e, *a, x + 2 * q, y + 2 * q);
                        if a.cell(x + q, y + q) {
                            lemma_cell_covered(*a, x + q, y + q);
                        }
                    } else {
                        lemma_quad_cell(e, *c, e, e, x + 2 * q, y - 2 * q);
                        if c.cell(x + q, y - q) {
                            lemma_cell_covered(*c, x + q, y - q);
                        }
                    }
                } else {
                    if y < 0 {
                        lemma_quad_cell(e, e, *b, e, x - 2 * q, y + 2 * q);
                        if b.cell(x - q, y + q) {
                            lemma_cell_covered(*b, x - q, y + q);
                        }
                    } else {
                        lemma_quad_cell(*d, e, e, e, x - 2 * q, y - 2 * q);
                        if d.cell(x - q, y - q) {
                            lemma_cell_covered(*d, x - q, y - q);
                        }
                    }
                }
            }
        },
    }
}

/// Setting a cell inside the tree's square changes that cell and no other,
/// and keeps the level.
pub proof fn lemma_set(t: Tree, cx: int, cy: int, state: bool)
    requires
        t.wf(),
        Tree::covers(t.level(), cx, cy),
    ensures
        t.set(cx, cy, state).wf(),
        t.set(cx, cy, state).level() == t.level(),
        forall|x: int, y: int| #[trigger]
            t.set(cx, cy, state).cell(x, y) == (if x == cx && y == cy {
                state
            } else {
                t.cell(x, y)
            }),
    decreases t,
{
    lemma_level(t);
    lemma_span(t.level());
    match t {
        Tree::Leaf(leaf) => {
            assert forall|x: int, y: int| #[trigger]
                t.set(cx, cy, state).cell(x, y) == (if x == cx && y == cy {
                    state
                } else {
                    t.cell(x, y)
                }) by {
                lemma_set_cell(leaf, cx, cy, x, y);
            }
        },
        Tree::Quad(a, b, c, d) => {
            let q = span(t.level());
            lemma_level(*a);
            lemma_span(a.level());
            let u = t.set(cx, cy, state);
            if cx < 0 {
                if cy < 0 {
                    lemma_set(*a, cx + q, cy + q, state);
                } else {
                    lemma_set(*c, cx + q, cy - q, state);
                }
            } else {
                if cy < 0 {
                    lemma_set(*b, cx - q, cy + q, state);
                } else {
                    lemma_set(*d, cx - q, cy - q, state);
                }
            }
            lemma_quad(u.nw(), u.ne(), u.sw(), u.se());
            assert forall|x: int, y: int| #[trigger] u.cell(x, y) == (if x == cx && y == cy {
                state
            } else {
                t.cell(x, y)
            }) by {
                lemma_quad_cell(u.nw(), u.ne(), u.sw(), u.se(), x, y);
            }
        },
    }
}

} // verus!
