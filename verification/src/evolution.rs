//! The step computes the evolution of the grid: the tree that it yields
//! holds, on its square, what the rule makes of the stepped tree's cells
//! after `2^k` generations.

use vstd::prelude::*;
use crate::bits::{lemma_span, span};
use crate::leafstep::{
    compiled, lemma_one_generation, lemma_two_generations, lemma_window_cell, quad_grid,
};
use crate::life::{
    dead_outside, evolve, lemma_dead_zone, lemma_evolve_add, lemma_evolve_alike, lemma_evolve_same,
    next, Grid,
};
use crate::margin::lemma_fitted;
use crate::node::MAX_LEVEL;
use crate::tree::lemma_cell_covered;
use crate::tree::{
    lemma_center4, lemma_children, lemma_level, lemma_quad, lemma_quad_cell, lemma_step_max_wf,
    lemma_step_wf, lemma_windows, Tree,
};
use vstd::arithmetic::power2::pow2;

verus! {

impl Tree {
    /// The cells of the tree as a grid; no cell is alive outside the tree's
    /// square.
    pub open spec fn grid(self) -> Grid {
        |x: int, y: int| self.cell(x, y)
    }

    /// The tree, one level down, in row `i` and column `j` of the nine that
    /// cover this tree, half their side apart.
    pub open spec fn sub(self, i: int, j: int) -> Tree {
        if i == 0 {
            if j == 0 {
                self.nw()
            } else if j == 1 {
                self.north()
            } else {
                self.ne()
            }
        } else if i == 1 {
            if j == 0 {
                self.west()
            } else if j == 1 {
                self.middle()
            } else {
                self.east()
            }
        } else {
            if j == 0 {
                self.sw()
            } else if j == 1 {
                self.south()
            } else {
                self.se()
            }
        }
    }

    /// Whether the live cells of the tree are those of the grid `g`, on the
    /// whole grid.
    pub open spec fn is_grid(self, g: Grid) -> bool {
        forall|x: int, y: int| #[trigger] self.cell(x, y) == g(x, y)
    }

    /// Whether the tree holds, on its square, the cells of the grid `g`
    /// around `(dx, dy)`.
    #[verifier::opaque]
    pub open spec fn shows(self, g: Grid, dx: int, dy: int) -> bool {
        forall|x: int, y: int|
            Tree::covers(self.level(), x, y) ==> #[trigger] self.cell(x, y) == g(x + dx, y + dy)
    }
}

/// Four trees that hold the four quarters of a part of a grid make the tree
/// that holds the part.
pub proof fn lemma_quad_shows(a: Tree, b: Tree, c: Tree, d: Tree, g: Grid, dx: int, dy: int)
    requires
        a.wf() && b.wf() && c.wf() && d.wf(),
        b.level() == a.level(),
        c.level() == a.level(),
        d.level() == a.level(),
        a.shows(g, dx - span(a.level() + 1), dy - span(a.level() + 1)),
        b.shows(g, dx + span(a.level() + 1), dy - span(a.level() + 1)),
        c.shows(g, dx - span(a.level() + 1), dy + span(a.level() + 1)),
        d.shows(g, dx + span(a.level() + 1), dy + span(a.level() + 1)),
    ensures
        Tree::quad(a, b, c, d).shows(g, dx, dy),
{
    reveal(Tree::shows);
    let t = Tree::quad(a, b, c, d);
    let q = span(a.level() + 1);
    lemma_level(a);
    lemma_span(a.level());
    lemma_quad(a, b, c, d);
    assert forall|x: int, y: int| Tree::covers(t.level(), x, y) implies #[trigger] t.cell(x, y)
        == g(x + dx, y + dy) by {
        lemma_quad_cell(a, b, c, d, x, y);
        lemma_span(a.level() + 1);
        if x < 0 {
            if y < 0 {
                assert(a.cell(x + q, y + q) == g(x + q + (dx - q), y + q + (dy - q)));
            } else {
                assert(c.cell(x + q, y - q) == g(x + q + (dx - q), y - q + (dy + q)));
            }
        } else {
            if y < 0 {
                assert(b.cell(x - q, y + q) == g(x - q + (dx + q), y + q + (dy - q)));
            } else {
                assert(d.cell(x - q, y - q) == g(x - q + (dx + q), y - q + (dy + q)));
            }
        }
    }
}

/// The centre of four trees holds what the tree made of them holds in its
/// inner half.
pub proof fn lemma_center4_cell(a: Tree, b: Tree, c: Tree, d: Tree, x: int, y: int)
    requires
        a.wf() && b.wf() && c.wf() && d.wf(),
        b.level() == a.level(),
        c.level() == a.level(),
        d.level() == a.level(),
        Tree::covers(a.level(), x, y),
    ensures
        Tree::center4(a, b, c, d).cell(x, y) == Tree::quad(a, b, c, d).cell(x, y),
{
    lemma_level(a);
    lemma_level(b);
    lemma_level(c);
    lemma_level(d);
    lemma_span(a.level());
    lemma_quad_cell(a, b, c, d, x, y);
    if a.level() == 2 {
        lemma_span(2);
        lemma_window_cell(a.leaf(), b.leaf(), c.leaf(), d.leaf(), 1, 1, x, y);
    } else {
        let r = span(a.level());
        lemma_children(a);
        lemma_children(b);
        lemma_children(c);
        lemma_children(d);
        lemma_quad_cell(a.se(), b.sw(), c.ne(), d.nw(), x, y);
        lemma_quad_cell(a.nw(), a.ne(), a.sw(), a.se(), x + 2 * r, y + 2 * r);
        lemma_quad_cell(b.nw(), b.ne(), b.sw(), b.se(), x - 2 * r, y + 2 * r);
        lemma_quad_cell(c.nw(), c.ne(), c.sw(), c.se(), x + 2 * r, y - 2 * r);
        lemma_quad_cell(d.nw(), d.ne(), d.sw(), d.se(), x - 2 * r, y - 2 * r);
    }
}

/// The place of the row or column `i` of three that lie `q` apart.
pub proof fn lemma_place(i: int, q: int)
    requires
        0 <= i < 3,
    ensures
        (i - 1) * q == (if i == 0 {
            -q
        } else if i == 1 {
            0
        } else {
            q
        }),
{
    if i == 0 {
        assert((0 - 1) * q == -q);
    } else if i == 1 {
        assert((1 - 1) * q == 0);
    } else {
        assert((2 - 1) * q == q);
    }
}

/// Each of the nine trees that cover a tree holds the tree's cells around
/// its place.
pub proof fn lemma_sub_shows(t: Tree, i: int, j: int)
    requires
        t.wf(),
        t.level() >= 4,
        0 <= i < 3,
        0 <= j < 3,
    ensures
        t.sub(i, j).wf(),
        t.sub(i, j).level() == t.level() - 1,
        t.sub(i, j).shows(t.grid(), (j - 1) * span(t.level()), (i - 1) * span(t.level())),
{
    reveal(Tree::shows);
    let q = span(t.level());
    let w = t.sub(i, j);
    lemma_children(t);
    lemma_windows(t);
    lemma_span((t.level() - 1) as nat);
    let dx = (j - 1) * q;
    let dy = (i - 1) * q;
    lemma_place(j, q);
    lemma_place(i, q);
    assert forall|x: int, y: int| Tree::covers(w.level(), x, y) implies #[trigger] w.cell(x, y)
        == t.grid()(x + dx, y + dy) by {
        lemma_sub_cell(t, i, j, x, y);
    }
}

/// A cell of one of the nine trees that cover a tree is the tree's cell
/// around its place.
pub proof fn lemma_sub_cell(t: Tree, i: int, j: int, x: int, y: int)
    requires
        t.wf(),
        t.level() >= 4,
        0 <= i < 3,
        0 <= j < 3,
        Tree::covers((t.level() - 1) as nat, x, y),
    ensures
        t.sub(i, j).cell(x, y) == t.cell(
            x + (if j == 0 {
                -span(t.level())
            } else if j == 1 {
                0
            } else {
                span(t.level())
            }),
            y + (if i == 0 {
                -span(t.level())
            } else if i == 1 {
                0
            } else {
                span(t.level())
            }),
        ),
{
    let q = span(t.level());
    lemma_children(t);
    lemma_span((t.level() - 1) as nat);
    lemma_span((t.level() - 2) as nat);
    let bx = x + (if j == 0 {
        -q
    } else if j == 1 {
        0
    } else {
        q
    });
    let by = y + (if i == 0 {
        -q
    } else if i == 1 {
        0
    } else {
        q
    });
    lemma_quad_cell(t.nw(), t.ne(), t.sw(), t.se(), bx, by);
    if i != 1 && j != 1 {
    } else {
        let w = t.sub(i, j);
        lemma_windows(t);
        lemma_children(w);
        lemma_quad_cell(w.nw(), w.ne(), w.sw(), w.se(), x, y);
        if bx < 0 {
            if by < 0 {
                lemma_children(t.nw());
                lemma_quad_cell(
                    t.nw().nw(),
                    t.nw().ne(),
                    t.nw().sw(),
                    t.nw().se(),
                    bx + q,
                    by + q,
                );
            } else {
                lemma_children(t.sw());
                lemma_quad_cell(
                    t.sw().nw(),
                    t.sw().ne(),
                    t.sw().sw(),
                    t.sw().se(),
                    bx + q,
                    by - q,
                );
            }
        } else {
            if by < 0 {
                lemma_children(t.ne());
                lemma_quad_cell(
                    t.ne().nw(),
                    t.ne().ne(),
                    t.ne().sw(),
                    t.ne().se(),
                    bx - q,
                    by + q,
                );
            } else {
                lemma_children(t.se());
                lemma_quad_cell(
                    t.se().nw(),
                    t.se().ne(),
                    t.se().sw(),
                    t.se().se(),
                    bx - q,
                    by - q,
                );
            }
        }
    }
}

/// What a tree's step holds of the tree's own evolution, it holds of the
/// evolution of any grid that the tree holds a part of: the step reaches no
/// further than the tree's square.
pub proof fn lemma_transfer(
    w: Tree,
    s: Tree,
    r: Seq<bool>,
    g: Grid,
    n: nat,
    dx: int,
    dy: int,
)
    requires
        w.wf(),
        w.level() >= 3,
        s.level() + 1 == w.level(),
        n <= span(w.level()),
        w.shows(g, dx, dy),
        s.shows(evolve(r, w.grid(), n), 0, 0),
    ensures
        s.shows(evolve(r, g, n), dx, dy),
{
    reveal(Tree::shows);
    lemma_span((w.level() - 1) as nat);
    assert forall|x: int, y: int| Tree::covers(s.level(), x, y) implies #[trigger] s.cell(x, y)
        == evolve(r, g, n)(x + dx, y + dy) by {
        assert forall|u: int, v: int|
            x - n <= u <= x + n && y - n <= v <= y + n implies #[trigger] w.grid()(u, v) == g(
            u + dx,
            v + dy,
        ) by {
            assert(Tree::covers(w.level(), u, v));
            assert(w.cell(u, v) == g(u + dx, v + dy));
        }
        lemma_evolve_alike(r, w.grid(), g, n, x, y, dx, dy);
        assert(s.cell(x, y) == evolve(r, w.grid(), n)(x + 0, y + 0));
    }
}

/// What the step of one of the nine trees that cover a tree holds of that
/// tree's evolution, it holds of the whole tree's evolution around its
/// place.
pub proof fn lemma_sub_step(t: Tree, s: Tree, r: Seq<bool>, n: nat, i: int, j: int)
    requires
        t.wf(),
        t.level() >= 4,
        0 <= i < 3,
        0 <= j < 3,
        s.level() + 2 == t.level(),
        n <= span((t.level() - 1) as nat),
        s.shows(evolve(r, t.sub(i, j).grid(), n), 0, 0),
    ensures
        s.shows(evolve(r, t.grid(), n), (j - 1) * span(t.level()), (i - 1) * span(t.level())),
{
    lemma_sub_shows(t, i, j);
    lemma_transfer(
        t.sub(i, j),
        s,
        r,
        t.grid(),
        n,
        (j - 1) * span(t.level()),
        (i - 1) * span(t.level()),
    );
}

/// A tree of level 3 holds the grid of its four leaves.
pub proof fn lemma_leaves_grid(t: Tree, x: int, y: int)
    requires
        t.wf(),
        t.level() == 3,
    ensures
        t.grid()(x, y) == quad_grid(t.nw().leaf(), t.ne().leaf(), t.sw().leaf(), t.se().leaf())(
            x,
            y,
        ),
{
    lemma_children(t);
    lemma_level(t.nw());
    lemma_level(t.ne());
    lemma_level(t.sw());
    lemma_level(t.se());
    lemma_span(2);
    lemma_span(3);
    lemma_quad_cell(t.nw(), t.ne(), t.sw(), t.se(), x, y);
}

/// The maximal step of a tree of level 3 yields the leaf that holds the
/// centre of the tree two generations later.
pub proof fn lemma_step_max_leaves(t: Tree, table: Seq<u8>, r: Seq<bool>)
    requires
        t.wf(),
        t.level() == 3,
        compiled(table, r),
    ensures
        t.step_max(table, 3).shows(evolve(r, t.grid(), 2), 0, 0),
{
    reveal(Tree::shows);
    let g = t.grid();
    let s = t.step_max(table, 3);
    let a = t.nw().leaf();
    let b = t.ne().leaf();
    let c = t.sw().leaf();
    let d = t.se().leaf();
    let q = quad_grid(a, b, c, d);
    lemma_span(2);
    assert forall|x: int, y: int| Tree::covers(s.level(), x, y) implies #[trigger] s.cell(x, y)
        == evolve(r, g, 2)(x + 0, y + 0) by {
        lemma_two_generations(table, r, a, b, c, d, x, y);
        assert forall|u: int, v: int|
            x - 2 <= u <= x + 2 && y - 2 <= v <= y + 2 implies #[trigger] g(u, v) == q(
            u + 0,
            v + 0,
        ) by {
            lemma_leaves_grid(t, u, v);
        }
        lemma_evolve_alike(r, g, q, 2, x, y, 0, 0);
        reveal_with_fuel(evolve, 3);
        assert(evolve(r, q, 2)(x, y) == next(r, next(r, q))(x, y));
    }
}

/// The step of a tree of level 3 by one generation yields the leaf that
/// holds the centre of the tree in the next generation.
pub proof fn lemma_step_leaves(t: Tree, table: Seq<u8>, r: Seq<bool>)
    requires
        t.wf(),
        t.level() == 3,
        compiled(table, r),
    ensures
        t.step(table, 0, 3).shows(evolve(r, t.grid(), 1), 0, 0),
{
    reveal(Tree::shows);
    let g = t.grid();
    let s = t.step(table, 0, 3);
    let a = t.nw().leaf();
    let b = t.ne().leaf();
    let c = t.sw().leaf();
    let d = t.se().leaf();
    let q = quad_grid(a, b, c, d);
    lemma_span(2);
    assert forall|x: int, y: int| Tree::covers(s.level(), x, y) implies #[trigger] s.cell(x, y)
        == evolve(r, g, 1)(x + 0, y + 0) by {
        lemma_one_generation(table, r, a, b, c, d, x, y);
        assert forall|u: int, v: int|
            x - 1 <= u <= x + 1 && y - 1 <= v <= y + 1 implies #[trigger] g(u, v) == q(
            u + 0,
            v + 0,
        ) by {
            lemma_leaves_grid(t, u, v);
        }
        lemma_evolve_alike(r, g, q, 1, x, y, 0, 0);
        reveal_with_fuel(evolve, 2);
        assert(evolve(r, q, 1)(x, y) == next(r, q)(x, y));
    }
}

/// A tree that holds a grid after `n` and then `m` generations holds it
/// after `n + m`.
pub proof fn lemma_shows_add(s: Tree, r: Seq<bool>, g: Grid, n: nat, m: nat)
    requires
        s.shows(evolve(r, evolve(r, g, n), m), 0, 0),
    ensures
        s.shows(evolve(r, g, n + m), 0, 0),
{
    reveal(Tree::shows);
    assert forall|x: int, y: int| Tree::covers(s.level(), x, y) implies #[trigger] s.cell(x, y)
        == evolve(r, g, n + m)(x + 0, y + 0) by {
        lemma_evolve_add(r, g, n, m, x, y);
    }
}

/// The maximal step of a tree of level `n` yields the tree that holds, on
/// the inner half of the tree's square, what the rule makes of the tree's
/// cells after `2^(n - 2)` generations.
pub proof fn lemma_step_max_evolves(t: Tree, table: Seq<u8>, r: Seq<bool>)
    requires
        t.wf(),
        t.level() >= 3,
        compiled(table, r),
    ensures
        t.step_max(table, t.level()).shows(
            evolve(r, t.grid(), pow2((t.level() - 2) as nat)),
            0,
            0,
        ),
    decreases t.level(), 1int,
{
    let level = t.level();
    let g = t.grid();
    let s = t.step_max(table, level);
    lemma_step_max_wf(t, table, level);
    if level == 3 {
        assert(pow2(1) == 2) by {
            vstd::arithmetic::power2::lemma2_to64();
        }
        lemma_step_max_leaves(t, table, r);
    } else {
        let l = (level - 1) as nat;
        let h = span(l);
        lemma_span(l);
        lemma_span((l - 1) as nat);
        let n = pow2((l - 2) as nat);
        assert(n == h);
        assert(pow2((level - 2) as nat) == n + n);
        let g1 = evolve(r, g, n);
        let t00 = t.sub(0, 0).step_max(table, l);
        let t01 = t.sub(0, 1).step_max(table, l);
        let t02 = t.sub(0, 2).step_max(table, l);
        let t10 = t.sub(1, 0).step_max(table, l);
        let t11 = t.sub(1, 1).step_max(table, l);
        let t12 = t.sub(1, 2).step_max(table, l);
        let t20 = t.sub(2, 0).step_max(table, l);
        let t21 = t.sub(2, 1).step_max(table, l);
        let t22 = t.sub(2, 2).step_max(table, l);
        lemma_nine_max(t, table, r, 0, 0);
        lemma_nine_max(t, table, r, 0, 1);
        lemma_nine_max(t, table, r, 0, 2);
        lemma_nine_max(t, table, r, 1, 0);
        lemma_nine_max(t, table, r, 1, 1);
        lemma_nine_max(t, table, r, 1, 2);
        lemma_nine_max(t, table, r, 2, 0);
        lemma_nine_max(t, table, r, 2, 1);
        lemma_nine_max(t, table, r, 2, 2);
        let u00 = Tree::quad(t00, t01, t10, t11);
        let u01 = Tree::quad(t01, t02, t11, t12);
        let u10 = Tree::quad(t10, t11, t20, t21);
        let u11 = Tree::quad(t11, t12, t21, t22);
        lemma_quad(t00, t01, t10, t11);
        lemma_quad(t01, t02, t11, t12);
        lemma_quad(t10, t11, t20, t21);
        lemma_quad(t11, t12, t21, t22);
        lemma_quad_shows(t00, t01, t10, t11, g1, -h, -h);
        lemma_quad_shows(t01, t02, t11, t12, g1, h, -h);
        lemma_quad_shows(t10, t11, t20, t21, g1, -h, h);
        lemma_quad_shows(t11, t12, t21, t22, g1, h, h);
        let g2 = evolve(r, g1, n);
        lemma_four_max(u00, table, r, g1, -h, -h);
        lemma_four_max(u01, table, r, g1, h, -h);
        lemma_four_max(u10, table, r, g1, -h, h);
        lemma_four_max(u11, table, r, g1, h, h);
        let n00 = u00.step_max(table, l);
        let n01 = u01.step_max(table, l);
        let n10 = u10.step_max(table, l);
        let n11 = u11.step_max(table, l);
        assert(s == Tree::quad(n00, n01, n10, n11));
        lemma_quad_shows(n00, n01, n10, n11, g2, 0, 0);
        lemma_shows_add(s, r, g, n, n);
    }
}

/// One of the nine trees of a maximal step: its maximal step holds the
/// whole tree's evolution around its place.
pub proof fn lemma_nine_max(t: Tree, table: Seq<u8>, r: Seq<bool>, i: int, j: int)
    requires
        t.wf(),
        t.level() >= 4,
        compiled(table, r),
        0 <= i < 3,
        0 <= j < 3,
    ensures
        t.sub(i, j).step_max(table, (t.level() - 1) as nat).wf(),
        t.sub(i, j).step_max(table, (t.level() - 1) as nat).level() == t.level() - 2,
        t.sub(i, j).step_max(table, (t.level() - 1) as nat).shows(
            evolve(r, t.grid(), pow2((t.level() - 3) as nat)),
            (j - 1) * (2 * span((t.level() - 1) as nat)),
            (i - 1) * (2 * span((t.level() - 1) as nat)),
        ),
    decreases t.level(), 0int,
{
    let w = t.sub(i, j);
    let l = (t.level() - 1) as nat;
    lemma_span(l);
    lemma_sub_shows(t, i, j);
    lemma_step_max_wf(w, table, l);
    lemma_step_max_evolves(w, table, r);
    lemma_sub_step(t, w.step_max(table, l), r, pow2((l - 2) as nat), i, j);
}

/// One of the four trees of the second half of a maximal step: its maximal
/// step holds the evolution of the grid that it holds a part of.
pub proof fn lemma_four_max(p: Tree, table: Seq<u8>, r: Seq<bool>, g: Grid, dx: int, dy: int)
    requires
        p.wf(),
        p.level() >= 3,
        compiled(table, r),
        p.shows(g, dx, dy),
    ensures
        p.step_max(table, p.level()).wf(),
        p.step_max(table, p.level()).level() == p.level() - 1,
        p.step_max(table, p.level()).shows(
            evolve(r, g, pow2((p.level() - 2) as nat)),
            dx,
            dy,
        ),
    decreases p.level(), 2int,
{
    lemma_step_max_wf(p, table, p.level());
    lemma_step_max_evolves(p, table, r);
    lemma_transfer(
        p,
        p.step_max(table, p.level()),
        r,
        g,
        pow2((p.level() - 2) as nat),
        dx,
        dy,
    );
}

/// The centre of four trees that hold the four quarters of a part of a
/// grid holds the middle of the part.
pub proof fn lemma_center_shows(a: Tree, b: Tree, c: Tree, d: Tree, g: Grid, dx: int, dy: int)
    requires
        a.wf() && b.wf() && c.wf() && d.wf(),
        b.level() == a.level(),
        c.level() == a.level(),
        d.level() == a.level(),
        Tree::quad(a, b, c, d).shows(g, dx, dy),
    ensures
        Tree::center4(a, b, c, d).wf(),
        Tree::center4(a, b, c, d).level() == a.level(),
        Tree::center4(a, b, c, d).shows(g, dx, dy),
{
    reveal(Tree::shows);
    let m = Tree::center4(a, b, c, d);
    let t = Tree::quad(a, b, c, d);
    lemma_center4(a, b, c, d);
    lemma_quad(a, b, c, d);
    lemma_level(a);
    lemma_span(a.level());
    assert forall|x: int, y: int| Tree::covers(m.level(), x, y) implies #[trigger] m.cell(x, y)
        == g(x + dx, y + dy) by {
        lemma_center4_cell(a, b, c, d, x, y);
        assert(Tree::covers(t.level(), x, y));
        assert(t.cell(x, y) == g(x + dx, y + dy));
    }
}

/// One of the nine trees of a step: its step holds the whole tree's
/// evolution around its place.
pub proof fn lemma_nine(t: Tree, table: Seq<u8>, r: Seq<bool>, k: nat, i: int, j: int)
    requires
        t.wf(),
        t.level() >= 4,
        k + 3 <= t.level(),
        compiled(table, r),
        0 <= i < 3,
        0 <= j < 3,
    ensures
        t.sub(i, j).step(table, k, (t.level() - 1) as nat).wf(),
        t.sub(i, j).step(table, k, (t.level() - 1) as nat).level() == t.level() - 2,
        t.sub(i, j).step(table, k, (t.level() - 1) as nat).shows(
            evolve(r, t.grid(), pow2(k)),
            (j - 1) * (2 * span((t.level() - 1) as nat)),
            (i - 1) * (2 * span((t.level() - 1) as nat)),
        ),
    decreases t.level(), 0int,
{
    let w = t.sub(i, j);
    let l = (t.level() - 1) as nat;
    lemma_span(l);
    lemma_sub_shows(t, i, j);
    lemma_step_wf(w, table, k, l);
    lemma_step_evolves(w, table, r, k);
    crate::graph::lemma_pow2_mono(k, (l - 2) as nat);
    lemma_sub_step(t, w.step(table, k, l), r, pow2(k), i, j);
}

/// The step of a tree of level `n` by `2^k` generations, for `k + 2 <= n`,
/// yields the tree that holds, on the inner half of the tree's square, what
/// the rule makes of the tree's cells after `2^k` generations.
pub proof fn lemma_step_evolves(t: Tree, table: Seq<u8>, r: Seq<bool>, k: nat)
    requires
        t.wf(),
        t.level() >= 3,
        k + 2 <= t.level(),
        compiled(table, r),
    ensures
        t.step(table, k, t.level()).shows(evolve(r, t.grid(), pow2(k)), 0, 0),
    decreases t.level(), 1int,
{
    let level = t.level();
    let g = t.grid();
    let s = t.step(table, k, level);
    lemma_step_wf(t, table, k, level);
    if k + 2 >= level {
        lemma_step_max_evolves(t, table, r);
    } else if level == 3 {
        assert(pow2(0) == 1) by {
            vstd::arithmetic::power2::lemma2_to64();
        }
        lemma_step_leaves(t, table, r);
    } else {
        let l = (level - 1) as nat;
        let h = span(l);
        lemma_span(l);
        lemma_span((l - 1) as nat);
        let gn = evolve(r, g, pow2(k));
        let t00 = t.sub(0, 0).step(table, k, l);
        let t01 = t.sub(0, 1).step(table, k, l);
        let t02 = t.sub(0, 2).step(table, k, l);
        let t10 = t.sub(1, 0).step(table, k, l);
        let t11 = t.sub(1, 1).step(table, k, l);
        let t12 = t.sub(1, 2).step(table, k, l);
        let t20 = t.sub(2, 0).step(table, k, l);
        let t21 = t.sub(2, 1).step(table, k, l);
        let t22 = t.sub(2, 2).step(table, k, l);
        lemma_nine(t, table, r, k, 0, 0);
        lemma_nine(t, table, r, k, 0, 1);
        lemma_nine(t, table, r, k, 0, 2);
        lemma_nine(t, table, r, k, 1, 0);
        lemma_nine(t, table, r, k, 1, 1);
        lemma_nine(t, table, r, k, 1, 2);
        lemma_nine(t, table, r, k, 2, 0);
        lemma_nine(t, table, r, k, 2, 1);
        lemma_nine(t, table, r, k, 2, 2);
        lemma_quad_shows(t00, t01, t10, t11, gn, -h, -h);
        lemma_quad_shows(t01, t02, t11, t12, gn, h, -h);
        lemma_quad_shows(t10, t11, t20, t21, gn, -h, h);
        lemma_quad_shows(t11, t12, t21, t22, gn, h, h);
        lemma_center_shows(t00, t01, t10, t11, gn, -h, -h);
        lemma_center_shows(t01, t02, t11, t12, gn, h, -h);
        lemma_center_shows(t10, t11, t20, t21, gn, -h, h);
        lemma_center_shows(t11, t12, t21, t22, gn, h, h);
        let c00 = Tree::center4(t00, t01, t10, t11);
        let c01 = Tree::center4(t01, t02, t11, t12);
        let c10 = Tree::center4(t10, t11, t20, t21);
        let c11 = Tree::center4(t11, t12, t21, t22);
        assert(s == Tree::quad(c00, c01, c10, c11));
        lemma_quad_shows(c00, c01, c10, c11, gn, 0, 0);
    }
}

impl Tree {
    /// What a step of `2^k` generations makes of the tree: grown until it
    /// is fit for the step, then stepped.
    pub open spec fn advance(self, table: Seq<u8>, k: nat) -> Tree {
        self.fitted(k).step(table, k, self.fitted(k).level())
    }

    /// Whether a step of `2^k` generations keeps every cell: whether the
    /// tree, grown until it is fit for the step, is more than large enough
    /// for it.
    pub open spec fn keeps_all(self, k: nat) -> bool {
        k + 3 <= self.fitted(k).level()
    }
}

/// The tree after a step of `2^k` generations holds, on its square, what
/// the rule makes of the tree's cells after `2^k` generations.
pub proof fn lemma_advance_evolves(t: Tree, table: Seq<u8>, r: Seq<bool>, k: nat)
    requires
        t.wf(),
        t.level() + 2 <= MAX_LEVEL,
        k + 2 <= MAX_LEVEL,
        compiled(table, r),
    ensures
        t.advance(table, k).wf(),
        t.advance(table, k).level() + 1 == t.fitted(k).level(),
        t.advance(table, k).shows(evolve(r, t.grid(), pow2(k)), 0, 0),
{
    reveal(Tree::shows);
    let f = t.fitted(k);
    let s = t.advance(table, k);
    lemma_fitted(t, k);
    lemma_step_wf(f, table, k, f.level());
    lemma_step_evolves(f, table, r, k);
    assert forall|x: int, y: int| Tree::covers(s.level(), x, y) implies #[trigger] s.cell(x, y)
        == evolve(r, t.grid(), pow2(k))(x + 0, y + 0) by {
        assert(s.cell(x, y) == evolve(r, f.grid(), pow2(k))(x + 0, y + 0));
        assert forall|u: int, v: int| #[trigger] f.grid()(u, v) == t.grid()(u, v) by {
            assert(f.cell(u, v) == t.cell(u, v));
        }
        lemma_evolve_same(r, f.grid(), t.grid(), pow2(k), x, y);
    }
}

/// Under a rule without birth in an empty neighbourhood, a step of `2^k`
/// generations that keeps every cell gives exactly what the rule makes of
/// the tree's cells after `2^k` generations, on the whole grid.
pub proof fn lemma_advance_exact(t: Tree, table: Seq<u8>, r: Seq<bool>, k: nat)
    requires
        t.wf(),
        t.level() + 2 <= MAX_LEVEL,
        k + 2 <= MAX_LEVEL,
        compiled(table, r),
        !r[0],
        t.keeps_all(k),
    ensures
        t.advance(table, k).is_grid(evolve(r, t.grid(), pow2(k))),
{
    reveal(Tree::shows);
    let f = t.fitted(k);
    let s = t.advance(table, k);
    let h = span((f.level() - 1) as nat);
    lemma_fitted(t, k);
    lemma_advance_evolves(t, table, r, k);
    lemma_span((f.level() - 1) as nat);
    crate::graph::lemma_pow2_mono(k, (f.level() - 3) as nat);
    assert(pow2(k) <= h);
    assert(dead_outside(t.grid(), h)) by {
        assert forall|x: int, y: int| #[trigger] t.grid()(x, y) implies -h <= x < h && -h <= y
            < h by {
            assert(f.cell(x, y));
        }
    }
    lemma_dead_zone(r, t.grid(), h, pow2(k));
    assert forall|x: int, y: int| #[trigger]
        s.cell(x, y) == evolve(r, t.grid(), pow2(k))(x, y) by {
        if Tree::covers(s.level(), x, y) {
            assert(s.cell(x, y) == evolve(r, t.grid(), pow2(k))(x + 0, y + 0));
        } else {
            if s.cell(x, y) {
                lemma_cell_covered(s, x, y);
            }
            if evolve(r, t.grid(), pow2(k))(x, y) {
                assert(-(h + pow2(k)) <= x < h + pow2(k));
            }
        }
    }
}

} // verus!
