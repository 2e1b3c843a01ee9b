//! The population counts the live cells: the sum over the leaves of their
//! set bits is the number of cells that are alive.

use vstd::prelude::*;
use crate::bits::{
    bit, bit_value, cell_index, in_leaf, in_quarter, index_x, index_y, leaf_cell, popcount, span,
};
use crate::margin::{lemma_child_cell, lemma_offsets, quarter_dx, quarter_dy};
use crate::tree::{lemma_cell_covered, lemma_children, lemma_level, Tree};
use vstd::relations::injective_on;
use vstd::set_lib::{lemma_map_size, lemma_set_disjoint_lens};

verus! {

impl Tree {
    /// The live cells of the tree.
    pub open spec fn live(self) -> Set<(int, int)> {
        Set::new(|p: (int, int)| self.cell(p.0, p.1))
    }
}

/// The number of set bits of a leaf below the bit `j`.
pub open spec fn count_below(leaf: u16, j: nat) -> nat
    decreases j,
{
    if j == 0 {
        0
    } else {
        count_below(leaf, (j - 1) as nat) + bit_value(leaf, (j - 1) as u16)
    }
}

/// The live cells of a leaf whose bits lie below the bit `j`.
pub open spec fn cells_below(leaf: u16, j: nat) -> Set<(int, int)> {
    Set::new(
        |p: (int, int)|
            in_leaf(p.0, p.1) && cell_index(p.0, p.1) < j && bit(leaf, cell_index(p.0, p.1) as u16),
    )
}

/// The live cells of a leaf below a bit are as many as the set bits below
/// it.
pub proof fn lemma_cells_below(leaf: u16, j: nat)
    requires
        j <= 16,
    ensures
        cells_below(leaf, j).finite(),
        cells_below(leaf, j).len() == count_below(leaf, j),
    decreases j,
{
    broadcast use vstd::set::group_set_axioms;

    if j == 0 {
        assert(cells_below(leaf, 0) =~= Set::<(int, int)>::empty());
    } else {
        let k = (j - 1) as u16;
        lemma_cells_below(leaf, (j - 1) as nat);
        let before = cells_below(leaf, (j - 1) as nat);
        let c = (index_x(k), index_y(k));
        assert(cell_index(c.0, c.1) == k);
        assert(k < 16 ==> (bit(leaf, k) <==> (leaf >> k) & 1 == 1)) by (bit_vector);
        if bit(leaf, k) {
            assert(cells_below(leaf, j) =~= before.insert(c)) by {
                assert forall|p: (int, int)|
                    cells_below(leaf, j).contains(p) == before.insert(c).contains(p) by {
                    if in_leaf(p.0, p.1) && cell_index(p.0, p.1) == k {
                        assert(p.0 == c.0 && p.1 == c.1);
                    }
                }
            }
            assert(!before.contains(c));
        } else {
            assert(cells_below(leaf, j) =~= before);
        }
    }
}

/// A leaf has as many live cells as set bits.
pub proof fn lemma_leaf_census(leaf: u16)
    ensures
        Tree::Leaf(leaf).live().finite(),
        Tree::Leaf(leaf).live().len() == popcount(leaf),
{
    lemma_cells_below(leaf, 16);
    assert(Tree::Leaf(leaf).live() =~= cells_below(leaf, 16));
    assert(count_below(leaf, 16) == popcount(leaf)) by {
        reveal_with_fuel(count_below, 17);
    }
}

/// The live cells of the child `i`, seen from the centre of the tree.
pub open spec fn moved(t: Tree, i: int) -> Set<(int, int)> {
    t.child(i).live().map(
        |p: (int, int)|
            (p.0 + quarter_dx(i) * span(t.level()), p.1 + quarter_dy(i) * span(t.level())),
    )
}

/// The live cells of a child, seen from the centre of the tree, are the
/// live cells of the tree in the child's quarter, and as many as the
/// child's.
pub proof fn lemma_moved(t: Tree, i: int)
    requires
        t.wf(),
        t.level() >= 3,
        0 <= i < 4,
        t.child(i).live().finite(),
    ensures
        moved(t, i).finite(),
        moved(t, i).len() == t.child(i).live().len(),
        forall|p: (int, int)|
            moved(t, i).contains(p) <==> t.cell(p.0, p.1) && in_quarter(i, p.0, p.1),
{
    let q = span(t.level());
    let c = t.child(i);
    let f = |p: (int, int)| (p.0 + quarter_dx(i) * q, p.1 + quarter_dy(i) * q);
    lemma_offsets(i, q);
    assert(injective_on(f, c.live()));
    lemma_map_size(c.live(), moved(t, i), f);
    assert forall|p: (int, int)|
        moved(t, i).contains(p) <==> t.cell(p.0, p.1) && in_quarter(i, p.0, p.1) by {
        if moved(t, i).contains(p) {
            let a = choose|a: (int, int)| c.live().contains(a) && p == f(a);
            lemma_child_cell(t, i, a.0, a.1);
        }
        if t.cell(p.0, p.1) && in_quarter(i, p.0, p.1) {
            lemma_child_cell(t, i, p.0, p.1);
            let a = (p.0 - quarter_dx(i) * q, p.1 - quarter_dy(i) * q);
            assert(c.live().contains(a) && p == f(a));
        }
    }
}

/// The population of a tree is the number of its live cells.
pub proof fn lemma_census(t: Tree)
    requires
        t.wf(),
    ensures
        t.live().finite(),
        t.live().len() == t.population(),
    decreases t,
{
    broadcast use vstd::set::group_set_axioms;

    match t {
        Tree::Leaf(leaf) => {
            lemma_leaf_census(leaf);
        },
        Tree::Quad(a, b, c, d) => {
            lemma_level(t);
            lemma_children(t);
            lemma_census(*a);
            lemma_census(*b);
            lemma_census(*c);
            lemma_census(*d);
            lemma_moved(t, 0);
            lemma_moved(t, 1);
            lemma_moved(t, 2);
            lemma_moved(t, 3);
            let m0 = moved(t, 0);
            let m1 = moved(t, 1);
            let m2 = moved(t, 2);
            let m3 = moved(t, 3);
            assert(t.live() =~= m0 + m1 + m2 + m3) by {
                assert forall|p: (int, int)|
                    t.live().contains(p) == (m0 + m1 + m2 + m3).contains(p) by {
                    assert(in_quarter(0, p.0, p.1) || in_quarter(1, p.0, p.1) || in_quarter(
                        2,
                        p.0,
                        p.1,
                    ) || in_quarter(3, p.0, p.1));
                }
            }
            assert(m0.disjoint(m1));
            assert((m0 + m1).disjoint(m2));
            assert((m0 + m1 + m2).disjoint(m3));
            lemma_set_disjoint_lens(m0, m1);
            lemma_set_disjoint_lens(m0 + m1, m2);
            lemma_set_disjoint_lens(m0 + m1 + m2, m3);
        },
    }
}

} // verus!
