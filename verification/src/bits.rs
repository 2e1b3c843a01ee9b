//! The bit layout of a leaf, and what the bit operations on leaves mean for
//! the cells they hold.

use vstd::prelude::*;
use vstd::arithmetic::power2::pow2;
use vstd::arithmetic::power2::lemma_pow2_unfold;
use vstd::arithmetic::power2::lemma_pow2_pos;

verus! {

/// Whether bit `j` of `leaf` is set.
pub open spec fn bit(leaf: u16, j: u16) -> bool {
    leaf & (1u16 << j) != 0
}

/// The position in a leaf of the cell at `(x, y)`.
pub open spec fn cell_index(x: int, y: int) -> int {
    (1 - y) * 4 + (1 - x)
}

/// Whether `(x, y)` lies in the 4x4 square of a leaf.
pub open spec fn in_leaf(x: int, y: int) -> bool {
    -2 <= x <= 1 && -2 <= y <= 1
}

/// Whether the cell at `(x, y)` of `leaf` is alive. Outside the leaf's square
/// no cell is.
pub open spec fn leaf_cell(leaf: u16, x: int, y: int) -> bool {
    in_leaf(x, y) && bit(leaf, cell_index(x, y) as u16)
}

/// One if bit `j` of `leaf` is set, else zero.
pub open spec fn bit_value(leaf: u16, j: u16) -> nat {
    if (leaf >> j) & 1 == 1 {
        1
    } else {
        0
    }
}

/// The number of set bits of `leaf`.
pub open spec fn popcount(leaf: u16) -> nat {
    bit_value(leaf, 0) + bit_value(leaf, 1) + bit_value(leaf, 2) + bit_value(leaf, 3) + bit_value(
        leaf,
        4,
    ) + bit_value(leaf, 5) + bit_value(leaf, 6) + bit_value(leaf, 7) + bit_value(leaf, 8)
        + bit_value(leaf, 9) + bit_value(leaf, 10) + bit_value(leaf, 11) + bit_value(leaf, 12)
        + bit_value(leaf, 13) + bit_value(leaf, 14) + bit_value(leaf, 15)
}

/// `u16::count_ones` of std: the number of ones in the binary representation.
pub assume_specification[ u16::count_ones ](leaf: u16) -> (n: u32)
    ensures
        n == popcount(leaf),
;

/// Half the side of the children of a node of level `level`: `2^(level - 2)`.
pub open spec fn span(level: nat) -> int {
    pow2((level - 2) as nat) as int
}

/// The span doubles from one level to the next, and is one at the level of
/// the leaves.
pub proof fn lemma_span(level: nat)
    requires
        level >= 2,
    ensures
        span(level) >= 1,
        span(level + 1) == 2 * span(level),
        span(2) == 1,
{
    lemma_pow2_pos((level - 2) as nat);
    lemma_pow2_unfold((level - 1) as nat);
    lemma_pow2_unfold(1);
    assert(pow2(0) == 1) by {
        reveal_with_fuel(vstd::arithmetic::power::pow, 2);
        reveal(pow2);
    }
}

/// A leaf is zero exactly when it has no set bit, and its population then is
/// zero; a population never exceeds 16.
pub proof fn lemma_leaf_zero(leaf: u16)
    ensures
        popcount(leaf) == 0 <==> leaf == 0,
        popcount(leaf) <= 16,
        leaf == 0 ==> forall|j: u16| j < 16 ==> !bit(leaf, j),
        leaf != 0 ==> exists|j: u16| j < 16 && bit(leaf, j),
{
    assert((popcount(leaf) == 0 <==> leaf == 0) && popcount(leaf) <= 16) by (bit_vector);
    if leaf == 0 {
        assert forall|j: u16| j < 16 implies !bit(leaf, j) by {
            assert(j < 16 ==> 0u16 & (1u16 << j) == 0) by (bit_vector);
        }
    } else {
        assert(leaf != 0 ==> (leaf & (1u16 << 0u16) != 0 || leaf & (1u16 << 1u16) != 0 || leaf & (
        1u16 << 2u16) != 0 || leaf & (1u16 << 3u16) != 0 || leaf & (1u16 << 4u16) != 0 || leaf & (
        1u16 << 5u16) != 0 || leaf & (1u16 << 6u16) != 0 || leaf & (1u16 << 7u16) != 0 || leaf & (
        1u16 << 8u16) != 0 || leaf & (1u16 << 9u16) != 0 || leaf & (1u16 << 10u16) != 0 || leaf
            & (1u16 << 11u16) != 0 || leaf & (1u16 << 12u16) != 0 || leaf & (1u16 << 13u16) != 0
            || leaf & (1u16 << 14u16) != 0 || leaf & (1u16 << 15u16) != 0)) by (bit_vector);
        if bit(leaf, 0) {
        } else if bit(leaf, 1) {
        } else if bit(leaf, 2) {
        } else if bit(leaf, 3) {
        } else if bit(leaf, 4) {
        } else if bit(leaf, 5) {
        } else if bit(leaf, 6) {
        } else if bit(leaf, 7) {
        } else if bit(leaf, 8) {
        } else if bit(leaf, 9) {
        } else if bit(leaf, 10) {
        } else if bit(leaf, 11) {
        } else if bit(leaf, 12) {
        } else if bit(leaf, 13) {
        } else if bit(leaf, 14) {
        } else {
            assert(bit(leaf, 15));
        }
    }
}

/// The column of the cell at position `j` of a leaf.
pub open spec fn index_x(j: u16) -> int {
    1 - (j % 4)
}

/// The row of the cell at position `j` of a leaf.
pub open spec fn index_y(j: u16) -> int {
    1 - (j / 4)
}

/// A leaf is zero exactly when none of its cells is alive.
pub proof fn lemma_leaf_cells(leaf: u16)
    ensures
        leaf == 0 <==> forall|x: int, y: int| !leaf_cell(leaf, x, y),
{
    lemma_leaf_zero(leaf);
    if leaf != 0 {
        let j = choose|j: u16| j < 16 && bit(leaf, j);
        let x = index_x(j);
        let y = index_y(j);
        assert(cell_index(x, y) == j);
        assert(leaf_cell(leaf, x, y));
    } else {
        assert forall|x: int, y: int| !leaf_cell(leaf, x, y) by {
            if in_leaf(x, y) {
                assert(!bit(leaf, cell_index(x, y) as u16));
            }
        }
    }
}

/// Setting or clearing one bit changes that bit and no other.
pub proof fn lemma_set_bit(leaf: u16, i: u16, j: u16)
    requires
        i < 16,
        j < 16,
    ensures
        bit(leaf | (1u16 << i), j) == (j == i || bit(leaf, j)),
        bit(leaf & !(1u16 << i), j) == (j != i && bit(leaf, j)),
{
    assert(i < 16 && j < 16 ==> (((leaf | (1u16 << i)) & (1u16 << j) != 0) == (j == i || leaf & (
    1u16 << j) != 0)) && (((leaf & !(1u16 << i)) & (1u16 << j) != 0) == (j != i && leaf & (1u16
        << j) != 0))) by (bit_vector);
}

/// The leaf's successor: the next state of its inner 2x2 cells, in bits 5, 4,
/// 1 and 0, as the rule table gives it.
pub open spec fn step_leaf(table: Seq<u8>, leaf: u16) -> u16 {
    table[leaf as int] as u16
}

/// The leaf that covers the east half of `w` and the west half of `e`.
pub open spec fn join_we(w: u16, e: u16) -> u16 {
    ((w & 0x3333) << 2) | ((e & 0xcccc) >> 2)
}

/// The leaf that covers the south half of `n` and the north half of `s`.
pub open spec fn join_ns(n: u16, s: u16) -> u16 {
    ((n & 0x00ff) << 8) | ((s & 0xff00) >> 8)
}

/// The leaf in the centre of four leaves: the south-east quarter of `nw`, the
/// south-west quarter of `ne`, the north-east quarter of `sw` and the
/// north-west quarter of `se`.
pub open spec fn center_leaf(nw: u16, ne: u16, sw: u16, se: u16) -> u16 {
    ((nw & 0x0033) << 10) | ((ne & 0x00cc) << 6) | ((sw & 0x3300) >> 6) | ((se & 0xcc00) >> 10)
}

/// The leaf made of four 2x2 blocks, each in bits 5, 4, 1 and 0.
pub open spec fn join_blocks(nw: u16, ne: u16, sw: u16, se: u16) -> u16 {
    (nw << 10) | (ne << 8) | (sw << 2) | se
}

/// The leaf in the centre of nine overlapping 2x2 blocks, each in bits 5, 4,
/// 1 and 0 and each one cell apart from the next.
pub open spec fn pick_blocks(
    t00: u16,
    t01: u16,
    t02: u16,
    t10: u16,
    t11: u16,
    t12: u16,
    t20: u16,
    t21: u16,
    t22: u16,
) -> u16 {
    ((t00 & 0x01) << 15) | ((t01 & 0x03) << 13) | ((t02 & 0x02) << 11) | ((t10 & 0x11) << 7) | ((
    t11 & 0x33) << 5) | ((t12 & 0x22) << 3) | ((t20 & 0x10) >> 1) | ((t21 & 0x30) >> 3) | ((t22
        & 0x20) >> 5)
}

/// The centre leaf of a level-3 node with the four leaves `nw`, `ne`, `sw`
/// and `se`, after two generations if `max`, else after one.
pub open spec fn step_quad_leaf(
    table: Seq<u8>,
    nw: u16,
    ne: u16,
    sw: u16,
    se: u16,
    max: bool,
) -> u16 {
    let t00 = step_leaf(table, nw);
    let t01 = step_leaf(table, join_we(nw, ne));
    let t02 = step_leaf(table, ne);
    let t10 = step_leaf(table, join_ns(nw, sw));
    let t11 = step_leaf(table, center_leaf(nw, ne, sw, se));
    let t12 = step_leaf(table, join_ns(ne, se));
    let t20 = step_leaf(table, sw);
    let t21 = step_leaf(table, join_we(sw, se));
    let t22 = step_leaf(table, se);
    if max {
        join_blocks(
            step_leaf(table, join_blocks(t00, t01, t10, t11)),
            step_leaf(table, join_blocks(t01, t02, t11, t12)),
            step_leaf(table, join_blocks(t10, t11, t20, t21)),
            step_leaf(table, join_blocks(t11, t12, t21, t22)),
        )
    } else {
        pick_blocks(t00, t01, t02, t10, t11, t12, t20, t21, t22)
    }
}

/// The four leaves into which a leaf is spread when it becomes the centre of
/// a node of level 3 hold its four quarters, each in the corner next to the
/// centre.
pub proof fn lemma_spread_bits(leaf: u16, j: u16)
    requires
        j < 16,
    ensures
        bit((leaf & 0xcc00) >> 10, j) == ((j == 0 || j == 1 || j == 4 || j == 5) && bit(
            leaf,
            (j + 10) as u16,
        )),
        bit((leaf & 0x3300) >> 6, j) == ((j == 2 || j == 3 || j == 6 || j == 7) && bit(
            leaf,
            (j + 6) as u16,
        )),
        bit((leaf & 0x00cc) << 6, j) == ((j == 8 || j == 9 || j == 12 || j == 13) && bit(
            leaf,
            (j - 6) as u16,
        )),
        bit((leaf & 0x0033) << 10, j) == ((j == 10 || j == 11 || j == 14 || j == 15) && bit(
            leaf,
            (j - 10) as u16,
        )),
{
    assert(j < 16 ==> ((((leaf & 0xcc00) >> 10) & (1u16 << j) != 0) == ((j == 0 || j == 1 || j == 4
        || j == 5) && leaf & (1u16 << ((j + 10) as u16)) != 0)) && ((((leaf & 0x3300) >> 6) & (1u16
        << j) != 0) == ((j == 2 || j == 3 || j == 6 || j == 7) && leaf & (1u16 << ((j + 6) as u16))
        != 0)) && ((((leaf & 0x00cc) << 6) & (1u16 << j) != 0) == ((j == 8 || j == 9 || j == 12
        || j == 13) && leaf & (1u16 << ((j - 6) as u16)) != 0)) && ((((leaf & 0x0033) << 10) & (
    1u16 << j) != 0) == ((j == 10 || j == 11 || j == 14 || j == 15) && leaf & (1u16 << ((j
        - 10) as u16)) != 0))) by (bit_vector);
}

/// Spreading a leaf over four leaves keeps every cell in its place.
pub proof fn lemma_spread_cells(leaf: u16, x: int, y: int)
    ensures
        leaf_cell(leaf, x, y) == (if x < 0 {
            if y < 0 {
                leaf_cell((leaf & 0xcc00) >> 10, x + 2, y + 2)
            } else {
                leaf_cell((leaf & 0x00cc) << 6, x + 2, y - 2)
            }
        } else {
            if y < 0 {
                leaf_cell((leaf & 0x3300) >> 6, x - 2, y + 2)
            } else {
                leaf_cell((leaf & 0x0033) << 10, x - 2, y - 2)
            }
        }),
{
    if x < 0 {
        if y < 0 {
            if in_leaf(x + 2, y + 2) {
                lemma_spread_bits(leaf, cell_index(x + 2, y + 2) as u16);
            }
        } else {
            if in_leaf(x + 2, y - 2) {
                lemma_spread_bits(leaf, cell_index(x + 2, y - 2) as u16);
            }
        }
    } else {
        if y < 0 {
            if in_leaf(x - 2, y + 2) {
                lemma_spread_bits(leaf, cell_index(x - 2, y + 2) as u16);
            }
        } else {
            if in_leaf(x - 2, y - 2) {
                lemma_spread_bits(leaf, cell_index(x - 2, y - 2) as u16);
            }
        }
    }
}

/// Spreading a leaf over four leaves keeps its population.
pub proof fn lemma_spread_population(leaf: u16)
    ensures
        popcount((leaf & 0xcc00) >> 10) + popcount((leaf & 0x3300) >> 6) + popcount(
            (leaf & 0x00cc) << 6,
        ) + popcount((leaf & 0x0033) << 10) == popcount(leaf),
{
    assert(popcount((leaf & 0xcc00) >> 10) + popcount((leaf & 0x3300) >> 6) + popcount(
        (leaf & 0x00cc) << 6,
    ) + popcount((leaf & 0x0033) << 10) == popcount(leaf)) by (bit_vector);
}

/// The cell at `(x, y)` of a leaf after the cell at `(cx, cy)` was set to
/// `state`.
pub proof fn lemma_set_cell(leaf: u16, cx: int, cy: int, x: int, y: int)
    requires
        in_leaf(cx, cy),
    ensures
        leaf_cell(leaf | (1u16 << (cell_index(cx, cy) as u16)), x, y) == ((x == cx && y == cy)
            || leaf_cell(leaf, x, y)),
        leaf_cell(leaf & !(1u16 << (cell_index(cx, cy) as u16)), x, y) == (!(x == cx && y == cy)
            && leaf_cell(leaf, x, y)),
{
    if in_leaf(x, y) {
        lemma_set_bit(leaf, cell_index(cx, cy) as u16, cell_index(x, y) as u16);
    }
}

/// The bits of a conjunction and of a complement.
pub proof fn lemma_and_bits(leaf: u16, mask: u16, j: u16)
    requires
        j < 16,
    ensures
        bit(leaf & mask, j) == (bit(leaf, j) && bit(mask, j)),
        bit(!mask, j) == !bit(mask, j),
{
    assert(j < 16 ==> (((leaf & mask) & (1u16 << j) != 0) == (leaf & (1u16 << j) != 0 && mask & (
    1u16 << j) != 0)) && (((!mask) & (1u16 << j) != 0) == !(mask & (1u16 << j) != 0)))
        by (bit_vector);
}

/// Which bits the masks of this crate hold: all but one corner cell, a
/// quarter, a column, a row.
pub proof fn lemma_mask_bits(j: u16)
    requires
        j < 16,
    ensures
        bit(0xfffe, j) == (j != 0),
        bit(0xfff7, j) == (j != 3),
        bit(0xefff, j) == (j != 12),
        bit(0x7fff, j) == (j != 15),
        bit(0x0033, j) == (j % 4 <= 1 && j / 4 <= 1),
        bit(0x00cc, j) == (j % 4 >= 2 && j / 4 <= 1),
        bit(0x3300, j) == (j % 4 <= 1 && j / 4 >= 2),
        bit(0xcc00, j) == (j % 4 >= 2 && j / 4 >= 2),
        bit(0x8888, j) == (j % 4 == 3),
        bit(0x4444, j) == (j % 4 == 2),
        bit(0x2222, j) == (j % 4 == 1),
        bit(0x1111, j) == (j % 4 == 0),
        bit(0xf000, j) == (j / 4 == 3),
        bit(0x0f00, j) == (j / 4 == 2),
        bit(0x00f0, j) == (j / 4 == 1),
        bit(0x000f, j) == (j / 4 == 0),
{
    assert(j < 16 ==> ((0xfffeu16 & (1u16 << j) != 0) == (j != 0)) && ((0xfff7u16 & (1u16 << j)
        != 0) == (j != 3)) && ((0xefffu16 & (1u16 << j) != 0) == (j != 12)) && ((0x7fffu16 & (1u16
        << j) != 0) == (j != 15)) && ((0x0033u16 & (1u16 << j) != 0) == (j % 4 <= 1 && j / 4 <= 1))
        && ((0x00ccu16 & (1u16 << j) != 0) == (j % 4 >= 2 && j / 4 <= 1)) && ((0x3300u16 & (1u16
        << j) != 0) == (j % 4 <= 1 && j / 4 >= 2)) && ((0xcc00u16 & (1u16 << j) != 0) == (j % 4
        >= 2 && j / 4 >= 2)) && ((0x8888u16 & (1u16 << j) != 0) == (j % 4 == 3)) && ((0x4444u16 & (
    1u16 << j) != 0) == (j % 4 == 2)) && ((0x2222u16 & (1u16 << j) != 0) == (j % 4 == 1)) && ((
    0x1111u16 & (1u16 << j) != 0) == (j % 4 == 0)) && ((0xf000u16 & (1u16 << j) != 0) == (j / 4
        == 3)) && ((0x0f00u16 & (1u16 << j) != 0) == (j / 4 == 2)) && ((0x00f0u16 & (1u16 << j)
        != 0) == (j / 4 == 1)) && ((0x000fu16 & (1u16 << j) != 0) == (j / 4 == 0)))
        by (bit_vector);
}

/// A leaf has no set bit under a mask exactly when the conjunction is zero.
pub proof fn lemma_masked_zero(leaf: u16, mask: u16)
    ensures
        leaf & mask == 0 <==> forall|j: u16| j < 16 && bit(mask, j) ==> !#[trigger] bit(leaf, j),
{
    lemma_leaf_zero(leaf & mask);
    if leaf & mask == 0 {
        assert forall|j: u16| j < 16 && bit(mask, j) implies !#[trigger] bit(leaf, j) by {
            lemma_and_bits(leaf, mask, j);
        }
    } else {
        let j = choose|j: u16| j < 16 && bit(leaf & mask, j);
        lemma_and_bits(leaf, mask, j);
        assert(bit(leaf, j) && bit(mask, j));
    }
}

/// The part of a leaf's population that lies under the mask of a quarter is
/// the whole population exactly when no bit is set outside the quarter.
pub proof fn lemma_quarter_population(leaf: u16)
    ensures
        popcount(leaf & 0x0033) <= popcount(leaf),
        popcount(leaf & 0x00cc) <= popcount(leaf),
        popcount(leaf & 0x3300) <= popcount(leaf),
        popcount(leaf & 0xcc00) <= popcount(leaf),
        popcount(leaf & 0x0033) == popcount(leaf) <==> leaf & !0x0033u16 == 0,
        popcount(leaf & 0x00cc) == popcount(leaf) <==> leaf & !0x00ccu16 == 0,
        popcount(leaf & 0x3300) == popcount(leaf) <==> leaf & !0x3300u16 == 0,
        popcount(leaf & 0xcc00) == popcount(leaf) <==> leaf & !0xcc00u16 == 0,
{
    assert(popcount(leaf & 0x0033) <= popcount(leaf) && popcount(leaf & 0x00cc) <= popcount(leaf)
        && popcount(leaf & 0x3300) <= popcount(leaf) && popcount(leaf & 0xcc00) <= popcount(leaf)
        && (popcount(leaf & 0x0033) == popcount(leaf) <==> leaf & !0x0033u16 == 0) && (popcount(
        leaf & 0x00cc,
    ) == popcount(leaf) <==> leaf & !0x00ccu16 == 0) && (popcount(leaf & 0x3300) == popcount(leaf)
        <==> leaf & !0x3300u16 == 0) && (popcount(leaf & 0xcc00) == popcount(leaf) <==> leaf
        & !0xcc00u16 == 0)) by (bit_vector);
}

/// Whether `(x, y)` lies in the quarter `i` of a square centred on the
/// origin: 0 is north-west, 1 north-east, 2 south-west, 3 south-east.
pub open spec fn in_quarter(i: int, x: int, y: int) -> bool {
    if i == 0 {
        x < 0 && y < 0
    } else if i == 1 {
        x >= 0 && y < 0
    } else if i == 2 {
        x < 0 && y >= 0
    } else {
        x >= 0 && y >= 0
    }
}

/// The mask of the quarter `i` of a leaf.
pub open spec fn quarter_mask(i: int) -> u16 {
    if i == 0 {
        0xcc00
    } else if i == 1 {
        0x3300
    } else if i == 2 {
        0x00cc
    } else {
        0x0033
    }
}

/// The population of a leaf lies under the mask of a quarter exactly when
/// all its live cells lie in that quarter.
pub proof fn lemma_leaf_quarter(leaf: u16, i: int)
    requires
        0 <= i < 4,
    ensures
        popcount(leaf & quarter_mask(i)) <= popcount(leaf),
        popcount(leaf & quarter_mask(i)) == popcount(leaf) <==> forall|x: int, y: int| #[trigger]
            leaf_cell(leaf, x, y) ==> in_quarter(i, x, y),
{
    let m = quarter_mask(i);
    lemma_quarter_population(leaf);
    lemma_masked_zero(leaf, !m);
    if leaf & !m == 0 {
        assert forall|x: int, y: int| #[trigger] leaf_cell(leaf, x, y) implies in_quarter(
            i,
            x,
            y,
        ) by {
            let j = cell_index(x, y) as u16;
            lemma_and_bits(leaf, m, j);
            lemma_mask_bits(j);
            assert(bit(leaf, j));
            assert(!bit(!m, j));
        }
    } else {
        let j = choose|j: u16| j < 16 && bit(!m, j) && bit(leaf, j);
        lemma_and_bits(leaf, m, j);
        lemma_mask_bits(j);
        let x = index_x(j);
        let y = index_y(j);
        assert(cell_index(x, y) == j);
        assert(leaf_cell(leaf, x, y));
        assert(!in_quarter(i, x, y));
    }
}

/// A leaf is zero under the mask that spares one corner bit exactly when
/// no cell but that corner's is alive.
pub proof fn lemma_leaf_corner(leaf: u16)
    ensures
        leaf & 0xfffe == 0 <==> forall|x: int, y: int| #[trigger]
            leaf_cell(leaf, x, y) ==> x == 1 && y == 1,
        leaf & 0xfff7 == 0 <==> forall|x: int, y: int| #[trigger]
            leaf_cell(leaf, x, y) ==> x == -2 && y == 1,
        leaf & 0xefff == 0 <==> forall|x: int, y: int| #[trigger]
            leaf_cell(leaf, x, y) ==> x == 1 && y == -2,
        leaf & 0x7fff == 0 <==> forall|x: int, y: int| #[trigger]
            leaf_cell(leaf, x, y) ==> x == -2 && y == -2,
{
    assert forall|j: u16| j < 16 implies #[trigger] bit(0xfffe, j) == (j != 0) by {
        lemma_mask_bits(j);
    }
    assert forall|j: u16| j < 16 implies #[trigger] bit(0xfff7, j) == (j != 3) by {
        lemma_mask_bits(j);
    }
    assert forall|j: u16| j < 16 implies #[trigger] bit(0xefff, j) == (j != 12) by {
        lemma_mask_bits(j);
    }
    assert forall|j: u16| j < 16 implies #[trigger] bit(0x7fff, j) == (j != 15) by {
        lemma_mask_bits(j);
    }
    lemma_leaf_spared(leaf, 0xfffe, 0);
    lemma_leaf_spared(leaf, 0xfff7, 3);
    lemma_leaf_spared(leaf, 0xefff, 12);
    lemma_leaf_spared(leaf, 0x7fff, 15);
}

/// A leaf is zero under a mask that spares the bit `k` alone exactly when
/// no cell but the one at position `k` is alive.
pub proof fn lemma_leaf_spared(leaf: u16, mask: u16, k: u16)
    requires
        k < 16,
        forall|j: u16| j < 16 ==> #[trigger] bit(mask, j) == (j != k),
    ensures
        leaf & mask == 0 <==> forall|x: int, y: int| #[trigger]
            leaf_cell(leaf, x, y) ==> x == index_x(k) && y == index_y(k),
{
    lemma_masked_zero(leaf, mask);
    if leaf & mask == 0 {
        assert forall|x: int, y: int| #[trigger] leaf_cell(leaf, x, y) implies x == index_x(k)
            && y == index_y(k) by {
            let j = cell_index(x, y) as u16;
            assert(bit(leaf, j));
            assert(bit(mask, j) == (j != k));
        }
    } else {
        let j = choose|j: u16| j < 16 && bit(mask, j) && bit(leaf, j);
        let x = index_x(j);
        let y = index_y(j);
        assert(cell_index(x, y) == j);
        assert(leaf_cell(leaf, x, y));
        assert(bit(mask, j) == (j != k));
    }
}

/// Two leaves with the same live cells are equal.
pub proof fn lemma_leaf_ext(a: u16, b: u16)
    requires
        forall|x: int, y: int| #[trigger] leaf_cell(a, x, y) == leaf_cell(b, x, y),
    ensures
        a == b,
{
    if a != b {
        assert(a != b ==> a ^ b != 0) by (bit_vector);
        lemma_leaf_zero(a ^ b);
        let j = choose|j: u16| j < 16 && bit(a ^ b, j);
        assert(j < 16 ==> (bit(a ^ b, j) == (bit(a, j) != bit(b, j)))) by (bit_vector);
        let x = index_x(j);
        let y = index_y(j);
        assert(cell_index(x, y) == j);
        assert(leaf_cell(a, x, y) == leaf_cell(b, x, y));
    }
}

} // verus!
