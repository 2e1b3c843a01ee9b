//! What the step of a level-3 node computes: that the leaf it yields holds
//! the centre of the node one or two generations later.

use vstd::prelude::*;
use crate::bits::{
    bit, cell_index, center_leaf, in_leaf, join_blocks, join_ns, join_we, leaf_cell, pick_blocks,
    step_leaf, step_quad_leaf,
};
use crate::life::{lemma_next_alike, neighborhood, next, one, Grid};
use crate::rule::{flag, leaf_successor, window_ne, window_nw, window_se, window_sw};

verus! {

/// The cells of a leaf as a grid.
pub open spec fn leaf_grid(leaf: u16) -> Grid {
    |x: int, y: int| leaf_cell(leaf, x, y)
}

/// Whether the cell at `(u, v)` of a 2x2 block in bits 5, 4, 1 and 0 is
/// alive, with `u` and `v` from -1 to 0.
pub open spec fn block_cell(block: u16, u: int, v: int) -> bool {
    -1 <= u <= 0 && -1 <= v <= 0 && bit(block, (-4 * v - u) as u16)
}

/// One if bit `j` of `leaf` is set, else zero.
pub open spec fn bit_num(leaf: u16, j: u16) -> u16 {
    if leaf & (1u16 << j) != 0 {
        1
    } else {
        0
    }
}

/// The four 3x3 neighbourhoods in a leaf, each as the sum of its nine bits.
pub proof fn lemma_window_sums(leaf: u16)
    ensures
        window_nw(leaf) == 256 * bit_num(leaf, 15) + 128 * bit_num(leaf, 14) + 64 * bit_num(
            leaf,
            13,
        ) + 32 * bit_num(leaf, 11) + 16 * bit_num(leaf, 10) + 8 * bit_num(leaf, 9) + 4 * bit_num(
            leaf,
            7,
        ) + 2 * bit_num(leaf, 6) + bit_num(leaf, 5),
        window_ne(leaf) == 256 * bit_num(leaf, 14) + 128 * bit_num(leaf, 13) + 64 * bit_num(
            leaf,
            12,
        ) + 32 * bit_num(leaf, 10) + 16 * bit_num(leaf, 9) + 8 * bit_num(leaf, 8) + 4 * bit_num(
            leaf,
            6,
        ) + 2 * bit_num(leaf, 5) + bit_num(leaf, 4),
        window_sw(leaf) == 256 * bit_num(leaf, 11) + 128 * bit_num(leaf, 10) + 64 * bit_num(
            leaf,
            9,
        ) + 32 * bit_num(leaf, 7) + 16 * bit_num(leaf, 6) + 8 * bit_num(leaf, 5) + 4 * bit_num(
            leaf,
            3,
        ) + 2 * bit_num(leaf, 2) + bit_num(leaf, 1),
        window_se(leaf) == 256 * bit_num(leaf, 10) + 128 * bit_num(leaf, 9) + 64 * bit_num(
            leaf,
            8,
        ) + 32 * bit_num(leaf, 6) + 16 * bit_num(leaf, 5) + 8 * bit_num(leaf, 4) + 4 * bit_num(
            leaf,
            2,
        ) + 2 * bit_num(leaf, 1) + bit_num(leaf, 0),
{
    assert(window_nw(leaf) == 256 * bit_num(leaf, 15) + 128 * bit_num(leaf, 14) + 64 * bit_num(
        leaf,
        13,
    ) + 32 * bit_num(leaf, 11) + 16 * bit_num(leaf, 10) + 8 * bit_num(leaf, 9) + 4 * bit_num(
        leaf,
        7,
    ) + 2 * bit_num(leaf, 6) + bit_num(leaf, 5) && window_ne(leaf) == 256 * bit_num(leaf, 14) + 128
        * bit_num(leaf, 13) + 64 * bit_num(leaf, 12) + 32 * bit_num(leaf, 10) + 16 * bit_num(
        leaf,
        9,
    ) + 8 * bit_num(leaf, 8) + 4 * bit_num(leaf, 6) + 2 * bit_num(leaf, 5) + bit_num(leaf, 4)
        && window_sw(leaf) == 256 * bit_num(leaf, 11) + 128 * bit_num(leaf, 10) + 64 * bit_num(
        leaf,
        9,
    ) + 32 * bit_num(leaf, 7) + 16 * bit_num(leaf, 6) + 8 * bit_num(leaf, 5) + 4 * bit_num(
        leaf,
        3,
    ) + 2 * bit_num(leaf, 2) + bit_num(leaf, 1) && window_se(leaf) == 256 * bit_num(leaf, 10) + 128
        * bit_num(leaf, 9) + 64 * bit_num(leaf, 8) + 32 * bit_num(leaf, 6) + 16 * bit_num(leaf, 5)
        + 8 * bit_num(leaf, 4) + 4 * bit_num(leaf, 2) + 2 * bit_num(leaf, 1) + bit_num(leaf, 0))
        by (bit_vector);
}

/// The bits of four flags packed as the table packs them.
pub proof fn lemma_packed(a: u8, b: u8, c: u8, d: u8, j: u16)
    requires
        a <= 1 && b <= 1 && c <= 1 && d <= 1,
        j < 16,
    ensures
        bit(((a << 5) | (b << 4) | (c << 1) | d) as u16, j) == ((j == 5 && a == 1) || (j == 4 && b
            == 1) || (j == 1 && c == 1) || (j == 0 && d == 1)),
{
    assert(a <= 1 && b <= 1 && c <= 1 && d <= 1 && j < 16 ==> (((((a << 5) | (b << 4) | (c << 1)
        | d) as u16) & (1u16 << j) != 0) == ((j == 5 && a == 1) || (j == 4 && b == 1) || (j == 1
        && c == 1) || (j == 0 && d == 1)))) by (bit_vector);
}

/// The four 3x3 neighbourhoods in a leaf are the neighbourhoods of its four
/// inner cells in the leaf's grid.
pub proof fn lemma_windows(leaf: u16)
    ensures
        window_nw(leaf) == neighborhood(leaf_grid(leaf), -1, -1),
        window_ne(leaf) == neighborhood(leaf_grid(leaf), 0, -1),
        window_sw(leaf) == neighborhood(leaf_grid(leaf), -1, 0),
        window_se(leaf) == neighborhood(leaf_grid(leaf), 0, 0),
{
    lemma_window_sums(leaf);
    let g = leaf_grid(leaf);
    assert forall|x: int, y: int| in_leaf(x, y) implies one(#[trigger] g(x, y)) == bit_num(
        leaf,
        cell_index(x, y) as u16,
    ) by {}
    assert(one(g(-2, -2)) == bit_num(leaf, 15));
    assert(one(g(-1, -2)) == bit_num(leaf, 14));
    assert(one(g(0, -2)) == bit_num(leaf, 13));
    assert(one(g(1, -2)) == bit_num(leaf, 12));
    assert(one(g(-2, -1)) == bit_num(leaf, 11));
    assert(one(g(-1, -1)) == bit_num(leaf, 10));
    assert(one(g(0, -1)) == bit_num(leaf, 9));
    assert(one(g(1, -1)) == bit_num(leaf, 8));
    assert(one(g(-2, 0)) == bit_num(leaf, 7));
    assert(one(g(-1, 0)) == bit_num(leaf, 6));
    assert(one(g(0, 0)) == bit_num(leaf, 5));
    assert(one(g(1, 0)) == bit_num(leaf, 4));
    assert(one(g(-2, 1)) == bit_num(leaf, 3));
    assert(one(g(-1, 1)) == bit_num(leaf, 2));
    assert(one(g(0, 1)) == bit_num(leaf, 1));
    assert(one(g(1, 1)) == bit_num(leaf, 0));
}

/// Under a table compiled from the 3x3 table `r`, the step of a leaf gives
/// the next state of its four inner cells, as a block.
pub proof fn lemma_step_leaf(table: Seq<u8>, r: Seq<bool>, leaf: u16, u: int, v: int)
    requires
        table[leaf as int] == leaf_successor(r, leaf),
    ensures
        block_cell(step_leaf(table, leaf), u, v) == (-1 <= u <= 0 && -1 <= v <= 0 && next(
            r,
            leaf_grid(leaf),
        )(u, v)),
        step_leaf(table, leaf) & !0x33u16 == 0,
{
    lemma_windows(leaf);
    let a = flag(r[window_nw(leaf) as int]);
    let b = flag(r[window_ne(leaf) as int]);
    let c = flag(r[window_sw(leaf) as int]);
    let d = flag(r[window_se(leaf) as int]);
    let s = step_leaf(table, leaf);
    assert(s == ((a << 5) | (b << 4) | (c << 1) | d) as u16);
    lemma_packed(a, b, c, d, 5);
    lemma_packed(a, b, c, d, 4);
    lemma_packed(a, b, c, d, 1);
    lemma_packed(a, b, c, d, 0);
    assert(a <= 1 && b <= 1 && c <= 1 && d <= 1 ==> (((a << 5) | (b << 4) | (c << 1) | d) as u16)
        & !0x33u16 == 0) by (bit_vector);
}

/// The bits of the leaves that straddle two or four leaves.
pub proof fn lemma_join_bits(a: u16, b: u16, c: u16, d: u16, j: u16)
    requires
        j < 16,
    ensures
        bit(join_we(a, b), j) == (if j % 4 >= 2 {
            bit(a, (j - 2) as u16)
        } else {
            bit(b, (j + 2) as u16)
        }),
        bit(join_ns(a, b), j) == (if j >= 8 {
            bit(a, (j - 8) as u16)
        } else {
            bit(b, (j + 8) as u16)
        }),
        bit(center_leaf(a, b, c, d), j) == (if j >= 8 {
            if j % 4 >= 2 {
                bit(a, (j - 10) as u16)
            } else {
                bit(b, (j - 6) as u16)
            }
        } else {
            if j % 4 >= 2 {
                bit(c, (j + 6) as u16)
            } else {
                bit(d, (j + 10) as u16)
            }
        }),
{
    assert(j < 16 ==> (bit(join_we(a, b), j) == (if j % 4 >= 2 {
        bit(a, (j - 2) as u16)
    } else {
        bit(b, (j + 2) as u16)
    })) && (bit(join_ns(a, b), j) == (if j >= 8 {
        bit(a, (j - 8) as u16)
    } else {
        bit(b, (j + 8) as u16)
    })) && (bit(center_leaf(a, b, c, d), j) == (if j >= 8 {
        if j % 4 >= 2 {
            bit(a, (j - 10) as u16)
        } else {
            bit(b, (j - 6) as u16)
        }
    } else {
        if j % 4 >= 2 {
            bit(c, (j + 6) as u16)
        } else {
            bit(d, (j + 10) as u16)
        }
    }))) by (bit_vector);
}

/// The bits of a leaf joined from four clean blocks.
pub proof fn lemma_join_blocks_bits(a: u16, b: u16, c: u16, d: u16, j: u16)
    requires
        j < 16,
        a & !0x33u16 == 0,
        b & !0x33u16 == 0,
        c & !0x33u16 == 0,
        d & !0x33u16 == 0,
    ensures
        bit(join_blocks(a, b, c, d), j) == (if j >= 8 {
            if j % 4 >= 2 {
                bit(a, (j - 10) as u16)
            } else {
                bit(b, (j - 8) as u16)
            }
        } else {
            if j % 4 >= 2 {
                bit(c, (j - 2) as u16)
            } else {
                bit(d, j)
            }
        }),
{
    assert(j < 16 && a & !0x33u16 == 0 && b & !0x33u16 == 0 && c & !0x33u16 == 0 && d & !0x33u16
        == 0 ==> (bit(join_blocks(a, b, c, d), j) == (if j >= 8 {
        if j % 4 >= 2 {
            bit(a, (j - 10) as u16)
        } else {
            bit(b, (j - 8) as u16)
        }
    } else {
        if j % 4 >= 2 {
            bit(c, (j - 2) as u16)
        } else {
            bit(d, j)
        }
    }))) by (bit_vector);
}

/// The bits of the leaf picked from nine blocks.
pub proof fn lemma_pick_bits(
    t00: u16,
    t01: u16,
    t02: u16,
    t10: u16,
    t11: u16,
    t12: u16,
    t20: u16,
    t21: u16,
    t22: u16,
)
    ensures
        ({
            let p = pick_blocks(t00, t01, t02, t10, t11, t12, t20, t21, t22);
            &&& bit(p, 15) == bit(t00, 0)
            &&& bit(p, 14) == bit(t01, 1)
            &&& bit(p, 13) == bit(t01, 0)
            &&& bit(p, 12) == bit(t02, 1)
            &&& bit(p, 11) == bit(t10, 4)
            &&& bit(p, 10) == bit(t11, 5)
            &&& bit(p, 9) == bit(t11, 4)
            &&& bit(p, 8) == bit(t12, 5)
            &&& bit(p, 7) == bit(t10, 0)
            &&& bit(p, 6) == bit(t11, 1)
            &&& bit(p, 5) == bit(t11, 0)
            &&& bit(p, 4) == bit(t12, 1)
            &&& bit(p, 3) == bit(t20, 4)
            &&& bit(p, 2) == bit(t21, 5)
            &&& bit(p, 1) == bit(t21, 4)
            &&& bit(p, 0) == bit(t22, 5)
        }),
{
    let p = pick_blocks(t00, t01, t02, t10, t11, t12, t20, t21, t22);
    assert(bit(pick_blocks(t00, t01, t02, t10, t11, t12, t20, t21, t22), 15) == bit(t00, 0) && bit(
        pick_blocks(t00, t01, t02, t10, t11, t12, t20, t21, t22),
        14,
    ) == bit(t01, 1) && bit(pick_blocks(t00, t01, t02, t10, t11, t12, t20, t21, t22), 13) == bit(
        t01,
        0,
    ) && bit(pick_blocks(t00, t01, t02, t10, t11, t12, t20, t21, t22), 12) == bit(t02, 1) && bit(
        pick_blocks(t00, t01, t02, t10, t11, t12, t20, t21, t22),
        11,
    ) == bit(t10, 4) && bit(pick_blocks(t00, t01, t02, t10, t11, t12, t20, t21, t22), 10) == bit(
        t11,
        5,
    ) && bit(pick_blocks(t00, t01, t02, t10, t11, t12, t20, t21, t22), 9) == bit(t11, 4) && bit(
        pick_blocks(t00, t01, t02, t10, t11, t12, t20, t21, t22),
        8,
    ) == bit(t12, 5)) by (bit_vector);
    assert(bit(pick_blocks(t00, t01, t02, t10, t11, t12, t20, t21, t22), 7) == bit(t10, 0) && bit(
        pick_blocks(t00, t01, t02, t10, t11, t12, t20, t21, t22),
        6,
    ) == bit(t11, 1) && bit(pick_blocks(t00, t01, t02, t10, t11, t12, t20, t21, t22), 5) == bit(
        t11,
        0,
    ) && bit(pick_blocks(t00, t01, t02, t10, t11, t12, t20, t21, t22), 4) == bit(t12, 1) && bit(
        pick_blocks(t00, t01, t02, t10, t11, t12, t20, t21, t22),
        3,
    ) == bit(t20, 4) && bit(pick_blocks(t00, t01, t02, t10, t11, t12, t20, t21, t22), 2) == bit(
        t21,
        5,
    ) && bit(pick_blocks(t00, t01, t02, t10, t11, t12, t20, t21, t22), 1) == bit(t21, 4) && bit(
        pick_blocks(t00, t01, t02, t10, t11, t12, t20, t21, t22),
        0,
    ) == bit(t22, 5)) by (bit_vector);
}

/// The cells of four leaves as the grid of the level-3 node that they make.
pub open spec fn quad_grid(nw: u16, ne: u16, sw: u16, se: u16) -> Grid {
    |x: int, y: int|
        if x < 0 {
            if y < 0 {
                leaf_cell(nw, x + 2, y + 2)
            } else {
                leaf_cell(sw, x + 2, y - 2)
            }
        } else {
            if y < 0 {
                leaf_cell(ne, x - 2, y + 2)
            } else {
                leaf_cell(se, x - 2, y - 2)
            }
        }
}

/// The leaf in row `i` and column `j` of the nine leaves, two cells apart,
/// that cover a level-3 node.
pub open spec fn window_leaf(nw: u16, ne: u16, sw: u16, se: u16, i: int, j: int) -> u16 {
    if i == 0 {
        if j == 0 {
            nw
        } else if j == 1 {
            join_we(nw, ne)
        } else {
            ne
        }
    } else if i == 1 {
        if j == 0 {
            join_ns(nw, sw)
        } else if j == 1 {
            center_leaf(nw, ne, sw, se)
        } else {
            join_ns(ne, se)
        }
    } else {
        if j == 0 {
            sw
        } else if j == 1 {
            join_we(sw, se)
        } else {
            se
        }
    }
}

/// Each of the nine leaves holds the cells of the node around its place.
pub proof fn lemma_window_cell(
    nw: u16,
    ne: u16,
    sw: u16,
    se: u16,
    i: int,
    j: int,
    x: int,
    y: int,
)
    requires
        0 <= i < 3,
        0 <= j < 3,
        in_leaf(x, y),
    ensures
        leaf_cell(window_leaf(nw, ne, sw, se, i, j), x, y) == quad_grid(nw, ne, sw, se)(
            x + 2 * (j - 1),
            y + 2 * (i - 1),
        ),
{
    let k = cell_index(x, y) as u16;
    lemma_join_bits(nw, ne, sw, se, k);
    lemma_join_bits(sw, se, sw, se, k);
    lemma_join_bits(nw, sw, sw, se, k);
    lemma_join_bits(ne, se, sw, se, k);
}

/// The block in row `i` and column `j` of nine blocks.
pub open spec fn block_at(
    t00: u16,
    t01: u16,
    t02: u16,
    t10: u16,
    t11: u16,
    t12: u16,
    t20: u16,
    t21: u16,
    t22: u16,
    i: int,
    j: int,
) -> u16 {
    if i == 0 {
        if j == 0 {
            t00
        } else if j == 1 {
            t01
        } else {
            t02
        }
    } else if i == 1 {
        if j == 0 {
            t10
        } else if j == 1 {
            t11
        } else {
            t12
        }
    } else {
        if j == 0 {
            t20
        } else if j == 1 {
            t21
        } else {
            t22
        }
    }
}

/// The row or column, of three that lie two cells apart, whose inner two
/// cells hold the coordinate `c`, which runs from -2 to 1.
pub open spec fn band(c: int) -> int {
    if c <= -2 {
        0
    } else if c <= 0 {
        1
    } else {
        2
    }
}

/// A cell of the leaf picked from nine blocks is the cell of the block that
/// holds it.
pub proof fn lemma_pick_cell(
    t00: u16,
    t01: u16,
    t02: u16,
    t10: u16,
    t11: u16,
    t12: u16,
    t20: u16,
    t21: u16,
    t22: u16,
    x: int,
    y: int,
)
    requires
        in_leaf(x, y),
    ensures
        leaf_cell(pick_blocks(t00, t01, t02, t10, t11, t12, t20, t21, t22), x, y) == block_cell(
            block_at(t00, t01, t02, t10, t11, t12, t20, t21, t22, band(y), band(x)),
            x - 2 * (band(x) - 1),
            y - 2 * (band(y) - 1),
        ),
{
    lemma_pick_bits(t00, t01, t02, t10, t11, t12, t20, t21, t22);
}

/// A cell of a leaf joined from four clean blocks is the cell of the block
/// in its quarter.
pub proof fn lemma_join_cell(a: u16, b: u16, c: u16, d: u16, x: int, y: int)
    requires
        in_leaf(x, y),
        a & !0x33u16 == 0,
        b & !0x33u16 == 0,
        c & !0x33u16 == 0,
        d & !0x33u16 == 0,
    ensures
        leaf_cell(join_blocks(a, b, c, d), x, y) == (if x < 0 {
            if y < 0 {
                block_cell(a, x + 1, y + 1)
            } else {
                block_cell(c, x + 1, y - 1)
            }
        } else {
            if y < 0 {
                block_cell(b, x - 1, y + 1)
            } else {
                block_cell(d, x - 1, y - 1)
            }
        }),
{
    lemma_join_blocks_bits(a, b, c, d, cell_index(x, y) as u16);
}

/// The table over leaves is compiled from the table `r` over 3x3
/// neighbourhoods.
pub open spec fn compiled(table: Seq<u8>, r: Seq<bool>) -> bool {
    forall|leaf: u16| #[trigger] table[leaf as int] == leaf_successor(r, leaf)
}

/// The block that the step of the leaf in row `i` and column `j` gives
/// holds the next generation of the node around its place.
pub proof fn lemma_block_next(
    table: Seq<u8>,
    r: Seq<bool>,
    nw: u16,
    ne: u16,
    sw: u16,
    se: u16,
    i: int,
    j: int,
    u: int,
    v: int,
)
    requires
        compiled(table, r),
        0 <= i < 3,
        0 <= j < 3,
        -1 <= u <= 0,
        -1 <= v <= 0,
    ensures
        block_cell(step_leaf(table, window_leaf(nw, ne, sw, se, i, j)), u, v) == next(
            r,
            quad_grid(nw, ne, sw, se),
        )(u + 2 * (j - 1), v + 2 * (i - 1)),
        step_leaf(table, window_leaf(nw, ne, sw, se, i, j)) & !0x33u16 == 0,
{
    let w = window_leaf(nw, ne, sw, se, i, j);
    let g = quad_grid(nw, ne, sw, se);
    lemma_step_leaf(table, r, w, u, v);
    assert forall|a: int, b: int|
        u - 1 <= a <= u + 1 && v - 1 <= b <= v + 1 implies #[trigger] leaf_grid(w)(a, b) == g(
        a + 2 * (j - 1),
        b + 2 * (i - 1),
    ) by {
        lemma_window_cell(nw, ne, sw, se, i, j, a, b);
    }
    lemma_next_alike(r, leaf_grid(w), g, u, v, 2 * (j - 1), 2 * (i - 1));
}

/// The step of a level-3 node by one generation gives the leaf that holds
/// the centre of the node in the next generation.
pub proof fn lemma_one_generation(
    table: Seq<u8>,
    r: Seq<bool>,
    nw: u16,
    ne: u16,
    sw: u16,
    se: u16,
    x: int,
    y: int,
)
    requires
        compiled(table, r),
        in_leaf(x, y),
    ensures
        leaf_cell(step_quad_leaf(table, nw, ne, sw, se, false), x, y) == next(
            r,
            quad_grid(nw, ne, sw, se),
        )(x, y),
{
    let t00 = step_leaf(table, window_leaf(nw, ne, sw, se, 0, 0));
    let t01 = step_leaf(table, window_leaf(nw, ne, sw, se, 0, 1));
    let t02 = step_leaf(table, window_leaf(nw, ne, sw, se, 0, 2));
    let t10 = step_leaf(table, window_leaf(nw, ne, sw, se, 1, 0));
    let t11 = step_leaf(table, window_leaf(nw, ne, sw, se, 1, 1));
    let t12 = step_leaf(table, window_leaf(nw, ne, sw, se, 1, 2));
    let t20 = step_leaf(table, window_leaf(nw, ne, sw, se, 2, 0));
    let t21 = step_leaf(table, window_leaf(nw, ne, sw, se, 2, 1));
    let t22 = step_leaf(table, window_leaf(nw, ne, sw, se, 2, 2));
    assert(step_quad_leaf(table, nw, ne, sw, se, false) == pick_blocks(
        t00,
        t01,
        t02,
        t10,
        t11,
        t12,
        t20,
        t21,
        t22,
    ));
    let i = band(y);
    let j = band(x);
    lemma_pick_cell(t00, t01, t02, t10, t11, t12, t20, t21, t22, x, y);
    assert(block_at(t00, t01, t02, t10, t11, t12, t20, t21, t22, i, j) == step_leaf(
        table,
        window_leaf(nw, ne, sw, se, i, j),
    ));
    lemma_block_next(table, r, nw, ne, sw, se, i, j, x - 2 * (j - 1), y - 2 * (i - 1));
}

/// The leaf joined from the four blocks in rows `a` and `a + 1` and columns
/// `b` and `b + 1`.
pub open spec fn mid_leaf(
    table: Seq<u8>,
    nw: u16,
    ne: u16,
    sw: u16,
    se: u16,
    a: int,
    b: int,
) -> u16 {
    join_blocks(
        step_leaf(table, window_leaf(nw, ne, sw, se, a, b)),
        step_leaf(table, window_leaf(nw, ne, sw, se, a, b + 1)),
        step_leaf(table, window_leaf(nw, ne, sw, se, a + 1, b)),
        step_leaf(table, window_leaf(nw, ne, sw, se, a + 1, b + 1)),
    )
}

/// A leaf joined from four of the nine blocks holds the next generation of
/// the node around its place.
pub proof fn lemma_mid_cell(
    table: Seq<u8>,
    r: Seq<bool>,
    nw: u16,
    ne: u16,
    sw: u16,
    se: u16,
    a: int,
    b: int,
    u: int,
    v: int,
)
    requires
        compiled(table, r),
        0 <= a < 2,
        0 <= b < 2,
        in_leaf(u, v),
    ensures
        leaf_cell(mid_leaf(table, nw, ne, sw, se, a, b), u, v) == next(
            r,
            quad_grid(nw, ne, sw, se),
        )(u + 2 * b - 1, v + 2 * a - 1),
{
    let i: int = if v < 0 {
        a
    } else {
        a + 1
    };
    let j: int = if u < 0 {
        b
    } else {
        b + 1
    };
    let bu: int = if u < 0 {
        u + 1
    } else {
        u - 1
    };
    let bv: int = if v < 0 {
        v + 1
    } else {
        v - 1
    };
    lemma_block_next(table, r, nw, ne, sw, se, a, b, -1, -1);
    lemma_block_next(table, r, nw, ne, sw, se, a, b + 1, -1, -1);
    lemma_block_next(table, r, nw, ne, sw, se, a + 1, b, -1, -1);
    lemma_block_next(table, r, nw, ne, sw, se, a + 1, b + 1, -1, -1);
    lemma_join_cell(
        step_leaf(table, window_leaf(nw, ne, sw, se, a, b)),
        step_leaf(table, window_leaf(nw, ne, sw, se, a, b + 1)),
        step_leaf(table, window_leaf(nw, ne, sw, se, a + 1, b)),
        step_leaf(table, window_leaf(nw, ne, sw, se, a + 1, b + 1)),
        u,
        v,
    );
    lemma_block_next(table, r, nw, ne, sw, se, i, j, bu, bv);
}

/// The step of a level-3 node by two generations gives the leaf that holds
/// the centre of the node two generations later.
pub proof fn lemma_two_generations(
    table: Seq<u8>,
    r: Seq<bool>,
    nw: u16,
    ne: u16,
    sw: u16,
    se: u16,
    x: int,
    y: int,
)
    requires
        compiled(table, r),
        in_leaf(x, y),
    ensures
        leaf_cell(step_quad_leaf(table, nw, ne, sw, se, true), x, y) == next(
            r,
            next(r, quad_grid(nw, ne, sw, se)),
        )(x, y),
{
    let g1 = next(r, quad_grid(nw, ne, sw, se));
    let m00 = mid_leaf(table, nw, ne, sw, se, 0, 0);
    let m01 = mid_leaf(table, nw, ne, sw, se, 0, 1);
    let m10 = mid_leaf(table, nw, ne, sw, se, 1, 0);
    let m11 = mid_leaf(table, nw, ne, sw, se, 1, 1);
    assert(step_quad_leaf(table, nw, ne, sw, se, true) == join_blocks(
        step_leaf(table, m00),
        step_leaf(table, m01),
        step_leaf(table, m10),
        step_leaf(table, m11),
    ));
    let a: int = if y < 0 {
        0
    } else {
        1
    };
    let b: int = if x < 0 {
        0
    } else {
        1
    };
    let m = mid_leaf(table, nw, ne, sw, se, a, b);
    let u = x - (2 * b - 1);
    let v = y - (2 * a - 1);
    lemma_step_leaf(table, r, m00, u, v);
    lemma_step_leaf(table, r, m01, u, v);
    lemma_step_leaf(table, r, m10, u, v);
    lemma_step_leaf(table, r, m11, u, v);
    lemma_join_cell(
        step_leaf(table, m00),
        step_leaf(table, m01),
        step_leaf(table, m10),
        step_leaf(table, m11),
        x,
        y,
    );
    assert forall|c: int, d: int|
        u - 1 <= c <= u + 1 && v - 1 <= d <= v + 1 implies #[trigger] leaf_grid(m)(c, d) == g1(
        c + (2 * b - 1),
        d + (2 * a - 1),
    ) by {
        lemma_mid_cell(table, r, nw, ne, sw, se, a, b, c, d);
    }
    lemma_next_alike(r, leaf_grid(m), g1, u, v, 2 * b - 1, 2 * a - 1);
}

} // verus!
