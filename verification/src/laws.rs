//! What holds of the library as a whole: of the arena, of the population,
//! and of steps of different strides.

use vstd::prelude::*;
use crate::bits::{lemma_leaf_ext, span};
use crate::evolution::lemma_advance_exact;
use crate::graph::{entry_wf, node_level, node_population};
use crate::leafstep::compiled;
use crate::life::{evolve, lemma_evolve_add, lemma_evolve_same};
use crate::margin::{lemma_child_cell, lemma_offsets, quarter_dx, quarter_dy};
use crate::node::{NodeId, MAX_LEVEL};
use crate::tree::{lemma_children, lemma_expand, lemma_level, Tree};
use crate::world::{table_wf, World};
use vstd::arithmetic::power2::{lemma_pow2_adds, pow2};

verus! {

/// Hash-consing: two nodes of a world with the same children are one node.
pub proof fn lemma_hash_consing(world: World, a: NodeId, b: NodeId)
    requires
        world.wf(),
        world.arena().contains_key(a.0),
        world.arena().contains_key(b.0),
        world.arena()[a.0].children == world.arena()[b.0].children,
    ensures
        a == b,
{
    reveal(World::wf);
    assert(table_wf(world.arena(), world.hash_table@));
}

/// Every node of a world is one level above its children, and its
/// population is the sum of theirs.
pub proof fn lemma_node_consistent(world: World, id: NodeId)
    requires
        world.wf(),
        world.arena().contains_key(id.0),
    ensures
        ({
            let a = world.arena();
            let d = a[id.0];
            &&& d.level == node_level(a, d.children.nw()) + 1
            &&& d.level == node_level(a, d.children.ne()) + 1
            &&& d.level == node_level(a, d.children.sw()) + 1
            &&& d.level == node_level(a, d.children.se()) + 1
            &&& d.population == node_population(a, d.children.nw()) + node_population(
                a,
                d.children.ne(),
            ) + node_population(a, d.children.sw()) + node_population(a, d.children.se())
        }),
{
    world.lemma_wf();
    assert(entry_wf(world.arena(), id.0));
}

/// Two trees of one level with the same live cells are equal.
pub proof fn lemma_tree_ext(a: Tree, b: Tree)
    requires
        a.wf(),
        b.wf(),
        a.level() == b.level(),
        forall|x: int, y: int| #[trigger] a.cell(x, y) == b.cell(x, y),
    ensures
        a == b,
    decreases a,
{
    lemma_level(a);
    lemma_level(b);
    match a {
        Tree::Leaf(la) => {
            assert forall|x: int, y: int| #[trigger]
                crate::bits::leaf_cell(la, x, y) == crate::bits::leaf_cell(b.leaf(), x, y) by {
                assert(a.cell(x, y) == b.cell(x, y));
            }
            lemma_leaf_ext(la, b.leaf());
        },
        Tree::Quad(a0, a1, a2, a3) => {
            lemma_children(a);
            lemma_children(b);
            lemma_same_child(a, b, 0);
            lemma_same_child(a, b, 1);
            lemma_same_child(a, b, 2);
            lemma_same_child(a, b, 3);
            lemma_tree_ext(*a0, b.nw());
            lemma_tree_ext(*a1, b.ne());
            lemma_tree_ext(*a2, b.sw());
            lemma_tree_ext(*a3, b.se());
        },
    }
}

/// Two trees of one level with the same live cells have children with the
/// same live cells.
pub proof fn lemma_same_child(a: Tree, b: Tree, i: int)
    requires
        a.wf(),
        b.wf(),
        a.level() == b.level(),
        a.level() >= 3,
        0 <= i < 4,
        forall|x: int, y: int| #[trigger] a.cell(x, y) == b.cell(x, y),
    ensures
        forall|x: int, y: int| #[trigger] a.child(i).cell(x, y) == b.child(i).cell(x, y),
{
    let q = span(a.level());
    lemma_offsets(i, q);
    assert forall|x: int, y: int| #[trigger] a.child(i).cell(x, y) == b.child(i).cell(x, y) by {
        lemma_child_cell(a, i, x, y);
        lemma_child_cell(b, i, x, y);
        lemma_child_cell(a, i, x + quarter_dx(i) * q, y + quarter_dy(i) * q);
        lemma_child_cell(b, i, x + quarter_dx(i) * q, y + quarter_dy(i) * q);
        assert(a.cell(x + quarter_dx(i) * q, y + quarter_dy(i) * q) == b.cell(
            x + quarter_dx(i) * q,
            y + quarter_dy(i) * q,
        ));
    }
}

/// The population is a matter of the live cells alone: two trees with the
/// same live cells have the same population, whatever their levels.
pub proof fn lemma_same_cells_population(a: Tree, b: Tree)
    requires
        a.wf(),
        b.wf(),
        forall|x: int, y: int| #[trigger] a.cell(x, y) == b.cell(x, y),
    ensures
        a.population() == b.population(),
    decreases
            (if a.level() >= b.level() {
                a.level() - b.level()
            } else {
                b.level() - a.level()
            }),
{
    if a.level() == b.level() {
        lemma_tree_ext(a, b);
    } else if a.level() < b.level() {
        lemma_expand(a);
        assert forall|x: int, y: int| #[trigger] a.expand().cell(x, y) == b.cell(x, y) by {
            assert(a.expand().cell(x, y) == a.cell(x, y));
        }
        lemma_same_cells_population(a.expand(), b);
    } else {
        lemma_expand(b);
        assert forall|x: int, y: int| #[trigger] a.cell(x, y) == b.expand().cell(x, y) by {
            assert(b.expand().cell(x, y) == b.cell(x, y));
        }
        lemma_same_cells_population(a, b.expand());
    }
}

impl Tree {
    /// The tree after `m` steps of `2^k` generations each.
    pub open spec fn walk(self, table: Seq<u8>, k: nat, m: nat) -> Tree
        decreases m,
    {
        if m == 0 {
            self
        } else {
            self.walk(table, k, (m - 1) as nat).advance(table, k)
        }
    }

    /// Whether each of `m` steps of `2^k` generations can be made and keeps
    /// every cell.
    pub open spec fn walk_keeps_all(self, table: Seq<u8>, k: nat, m: nat) -> bool
        decreases m,
    {
        m == 0 || (self.walk_keeps_all(table, k, (m - 1) as nat) && self.walk(
            table,
            k,
            (m - 1) as nat,
        ).level() + 2 <= MAX_LEVEL && self.walk(table, k, (m - 1) as nat).keeps_all(k))
    }
}

/// Under a rule without birth in an empty neighbourhood, `m` steps of `2^k`
/// generations that keep every cell give what the rule makes of the tree's
/// cells after `m * 2^k` generations.
pub proof fn lemma_walk_evolves(t: Tree, table: Seq<u8>, r: Seq<bool>, k: nat, m: nat)
    requires
        t.wf(),
        k + 2 <= MAX_LEVEL,
        compiled(table, r),
        !r[0],
        t.walk_keeps_all(table, k, m),
    ensures
        t.walk(table, k, m).wf(),
        forall|x: int, y: int| #[trigger]
            t.walk(table, k, m).cell(x, y) == evolve(r, t.grid(), m * pow2(k))(x, y),
    decreases m,
{
    if m == 0 {
        assert(0 * pow2(k) == 0);
    } else {
        let before = (m - 1) as nat;
        let p = t.walk(table, k, before);
        let w = t.walk(table, k, m);
        let n = pow2(k);
        lemma_walk_evolves(t, table, r, k, before);
        crate::evolution::lemma_advance_evolves(p, table, r, k);
        lemma_advance_exact(p, table, r, k);
        assert(m * n == before * n + n) by (nonlinear_arith)
            requires
                before == m - 1,
        ;
        assert forall|x: int, y: int| #[trigger]
            w.cell(x, y) == evolve(r, t.grid(), m * pow2(k))(x, y) by {
            assert(w.cell(x, y) == evolve(r, p.grid(), n)(x, y));
            assert forall|u: int, v: int| #[trigger]
                p.grid()(u, v) == evolve(r, t.grid(), before * n)(u, v) by {
                assert(p.cell(u, v) == evolve(r, t.grid(), before * pow2(k))(u, v));
            }
            lemma_evolve_same(r, p.grid(), evolve(r, t.grid(), before * n), n, x, y);
            lemma_evolve_add(r, t.grid(), before * n, n, x, y);
        }
    }
}

/// Small steps and one large step that land at the same generation give the
/// same cells and the same population: `2^j` steps of `2^k` generations
/// against one step of `2^(k + j)`, under a rule without birth in an empty
/// neighbourhood, where every step keeps every cell.
pub proof fn lemma_small_steps_agree(t: Tree, table: Seq<u8>, r: Seq<bool>, k: nat, j: nat)
    requires
        t.wf(),
        t.level() + 2 <= MAX_LEVEL,
        k + j + 2 <= MAX_LEVEL,
        compiled(table, r),
        !r[0],
        t.walk_keeps_all(table, k, pow2(j)),
        t.keeps_all(k + j),
    ensures
        forall|x: int, y: int| #[trigger]
            t.walk(table, k, pow2(j)).cell(x, y) == t.advance(table, k + j).cell(x, y),
        t.walk(table, k, pow2(j)).population() == t.advance(table, k + j).population(),
{
    let small = t.walk(table, k, pow2(j));
    let large = t.advance(table, k + j);
    lemma_walk_evolves(t, table, r, k, pow2(j));
    crate::evolution::lemma_advance_evolves(t, table, r, k + j);
    lemma_advance_exact(t, table, r, k + j);
    lemma_pow2_adds(j, k);
    assert(pow2(j) * pow2(k) == pow2(k + j));
    lemma_same_cells_population(small, large);
}

} // verus!
