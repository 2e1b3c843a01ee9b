//! What the walk of a tree lists: each block that holds a live cell and lies
//! in the rectangle, and no other.

use vstd::prelude::*;
use crate::bits::{
    bit, cell_index, in_leaf, in_quarter, index_x, index_y, leaf_cell, lemma_mask_bits,
    lemma_masked_zero, lemma_span, span,
};
use crate::iter::{
    hi, leaf_block, leaf_row, leaf_rows, lo, meets_quarter, quarter_offset, quarter_rect, Rect,
};
use crate::margin::{lemma_child_cell, lemma_offsets, quarter_dx, quarter_dy};
use crate::tree::{lemma_cell_covered, lemma_children, lemma_level, lemma_population_zero, Tree};
use vstd::arithmetic::power2::{lemma_pow2_adds, lemma_pow2_pos, pow2};

verus! {

/// Whether `(x, y)` lies in the rectangle `r`.
pub open spec fn in_rect(r: Rect, x: int, y: int) -> bool {
    r.0 <= x < r.1 && r.2 <= y < r.3
}

/// Whether the cell at `(x, y)` lies in the block at `(bx, by)` of side
/// `side`.
pub open spec fn in_block(side: int, bx: int, by: int, x: int, y: int) -> bool {
    bx * side <= x < bx * side + side && by * side <= y < by * side + side
}

/// Whether the block at `(bx, by)`, of side `2^level`, holds a live cell of
/// the tree.
pub open spec fn block_alive(t: Tree, level: nat, bx: int, by: int) -> bool {
    exists|x: int, y: int| #[trigger] t.cell(x, y) && in_block(pow2(level) as int, bx, by, x, y)
}

/// What is in two lists one after the other is in the one or in the other.
pub proof fn lemma_concat_contains(a: Seq<(int, int)>, b: Seq<(int, int)>, p: (int, int))
    ensures
        (a + b).contains(p) == (a.contains(p) || b.contains(p)),
{
    if a.contains(p) {
        let i = choose|i: int| 0 <= i < a.len() && a[i] == p;
        assert((a + b)[i] == p);
    }
    if b.contains(p) {
        let i = choose|i: int| 0 <= i < b.len() && b[i] == p;
        assert((a + b)[a.len() + i] == p);
    }
    if (a + b).contains(p) {
        let i = choose|i: int| 0 <= i < (a + b).len() && (a + b)[i] == p;
        if i < a.len() {
            assert(a[i] == p);
        } else {
            assert(b[i - a.len()] == p);
        }
    }
}

/// What the walk of one row of a leaf lists.
pub proof fn lemma_leaf_row(
    leaf: u16,
    level: nat,
    y: int,
    x: int,
    right: int,
    o: (int, int),
    p: (int, int),
)
    ensures
        leaf_row(leaf, level, y, x, right, o).contains(p) <==> x <= p.0 - o.0 < right && p.1 - o.1
            == y && leaf_block(leaf, level, p.0 - o.0, y),
    decreases right - x,
{
    if x < right {
        let first: Seq<(int, int)> = if leaf_block(leaf, level, x, y) {
            seq![(x + o.0, y + o.1)]
        } else {
            seq![]
        };
        let rest = leaf_row(leaf, level, y, x + 1, right, o);
        lemma_leaf_row(leaf, level, y, x + 1, right, o, p);
        lemma_concat_contains(first, rest, p);
        if first.contains(p) {
            assert(first[0] == p);
        }
        if leaf_block(leaf, level, x, y) && p == (x + o.0, y + o.1) {
            assert(first[0] == p);
        }
    }
}

/// What the walk of the rows of a leaf lists.
pub proof fn lemma_leaf_rows(
    leaf: u16,
    level: nat,
    y: int,
    bottom: int,
    left: int,
    right: int,
    o: (int, int),
    p: (int, int),
)
    ensures
        leaf_rows(leaf, level, y, bottom, left, right, o).contains(p) <==> left <= p.0 - o.0
            < right && y <= p.1 - o.1 < bottom && leaf_block(leaf, level, p.0 - o.0, p.1 - o.1),
    decreases bottom - y,
{
    if y < bottom {
        let row = leaf_row(leaf, level, y, left, right, o);
        let rest = leaf_rows(leaf, level, y + 1, bottom, left, right, o);
        lemma_leaf_row(leaf, level, y, left, right, o, p);
        lemma_leaf_rows(leaf, level, y + 1, bottom, left, right, o, p);
        lemma_concat_contains(row, rest, p);
    }
}

/// A quarter of a leaf holds a live cell exactly when the leaf meets the
/// quarter's mask.
pub proof fn lemma_leaf_quarter_alive(leaf: u16, bx: int, by: int)
    requires
        -1 <= bx <= 0,
        -1 <= by <= 0,
    ensures
        leaf_block(leaf, 1, bx, by) <==> exists|x: int, y: int| #[trigger]
            leaf_cell(leaf, x, y) && in_block(2, bx, by, x, y),
{
    let shift = (-8 * by - 2 * bx) as u16;
    let mask = 0x0033u16 << shift;
    assert(0x0033u16 << 0u16 == 0x0033 && 0x0033u16 << 2u16 == 0x00cc && 0x0033u16 << 8u16
        == 0x3300 && 0x0033u16 << 10u16 == 0xcc00) by (bit_vector);
    lemma_masked_zero(leaf, mask);
    if leaf & mask != 0 {
        let j = choose|j: u16| j < 16 && bit(mask, j) && bit(leaf, j);
        lemma_mask_bits(j);
        let x = index_x(j);
        let y = index_y(j);
        assert(cell_index(x, y) == j);
        assert(leaf_cell(leaf, x, y) && in_block(2, bx, by, x, y));
    } else {
        assert forall|x: int, y: int| !(#[trigger] leaf_cell(leaf, x, y) && in_block(
            2,
            bx,
            by,
            x,
            y,
        )) by {
            if leaf_cell(leaf, x, y) && in_block(2, bx, by, x, y) {
                let j = cell_index(x, y) as u16;
                lemma_mask_bits(j);
                assert(bit(leaf, j));
                assert(bit(mask, j));
            }
        }
    }
}

/// What the walk of a leaf lists: its live cells in the rectangle at level
/// 0, its quarters with a live cell at level 1.
pub proof fn lemma_leaf_blocks(leaf: u16, level: nat, r: Rect, o: (int, int), p: (int, int))
    requires
        level <= 1,
    ensures
        ({
            let edge: int = if level == 0 {
                2
            } else {
                1
            };
            leaf_rows(
                leaf,
                level,
                hi(r.2, -edge),
                lo(r.3, edge),
                hi(r.0, -edge),
                lo(r.1, edge),
                o,
            ).contains(p)
        }) <==> in_rect(r, p.0 - o.0, p.1 - o.1) && block_alive(
            Tree::Leaf(leaf),
            level,
            p.0 - o.0,
            p.1 - o.1,
        ),
{
    let edge: int = if level == 0 {
        2
    } else {
        1
    };
    let t = Tree::Leaf(leaf);
    let bx = p.0 - o.0;
    let by = p.1 - o.1;
    lemma_leaf_rows(
        leaf,
        level,
        hi(r.2, -edge),
        lo(r.3, edge),
        hi(r.0, -edge),
        lo(r.1, edge),
        o,
        p,
    );
    vstd::arithmetic::power2::lemma2_to64();
    let side = pow2(level) as int;
    if level == 0 {
        assert(side == 1);
        if block_alive(t, level, bx, by) {
            let (x, y) = choose|x: int, y: int| #[trigger]
                t.cell(x, y) && in_block(side, bx, by, x, y);
            assert(x == bx && y == by);
        }
        if leaf_cell(leaf, bx, by) {
            assert(t.cell(bx, by) && in_block(side, bx, by, bx, by));
        }
    } else {
        assert(side == 2);
        if -1 <= bx <= 0 && -1 <= by <= 0 {
            lemma_leaf_quarter_alive(leaf, bx, by);
            if block_alive(t, level, bx, by) {
                let (x, y) = choose|x: int, y: int| #[trigger]
                    t.cell(x, y) && in_block(side, bx, by, x, y);
                assert(leaf_cell(leaf, x, y) && in_block(2, bx, by, x, y));
            }
            if leaf_block(leaf, 1, bx, by) {
                let (x, y) = choose|x: int, y: int| #[trigger]
                    leaf_cell(leaf, x, y) && in_block(2, bx, by, x, y);
                assert(t.cell(x, y) && in_block(side, bx, by, x, y));
            }
        } else {
            if block_alive(t, level, bx, by) {
                let (x, y) = choose|x: int, y: int| #[trigger]
                    t.cell(x, y) && in_block(side, bx, by, x, y);
                assert(in_leaf(x, y));
            }
        }
    }
}

/// Where a block lies, from the sign of its position.
pub proof fn lemma_block_sign(side: int, b: int, s: int)
    requires
        side > 0,
    ensures
        b <= -1 ==> b * side + side <= 0,
        b >= 0 ==> b * side >= 0,
        b <= -2 ==> b * side + side <= -side,
        b >= 1 ==> b * side >= side,
        (b + s) * side == b * side + s * side,
        (b - s) * side == b * side - s * side,
{
    assert(b <= -1 ==> b * side + side <= 0) by (nonlinear_arith)
        requires
            side > 0,
    ;
    assert(b >= 0 ==> b * side >= 0) by (nonlinear_arith)
        requires
            side > 0,
    ;
    assert(b <= -2 ==> b * side + side <= -side) by (nonlinear_arith)
        requires
            side > 0,
    ;
    assert(b >= 1 ==> b * side >= side) by (nonlinear_arith)
        requires
            side > 0,
    ;
    assert((b + s) * side == b * side + s * side) by (nonlinear_arith);
    assert((b - s) * side == b * side - s * side) by (nonlinear_arith);
}

/// In a tree at least two levels above the blocks, a block in the quarter
/// `i` holds a live cell exactly when it does so in the child `i`, seen
/// from that child's centre.
pub proof fn lemma_block_deep(t: Tree, level: nat, i: int, bx: int, by: int)
    requires
        t.wf(),
        t.level() >= 3,
        t.level() >= level + 2,
        0 <= i < 4,
        in_quarter(i, bx, by),
    ensures
        block_alive(t, level, bx, by) == block_alive(
            t.child(i),
            level,
            bx - quarter_dx(i) * span((t.level() - level) as nat),
            by - quarter_dy(i) * span((t.level() - level) as nat),
        ),
{
    let c = t.child(i);
    let s = span((t.level() - level) as nat);
    let side = pow2(level) as int;
    let q = span(t.level());
    lemma_pow2_pos(level);
    lemma_pow2_adds((t.level() - level - 2) as nat, level);
    assert(q == s * side);
    lemma_offsets(i, q);
    lemma_offsets(i, s);
    let cx = bx - quarter_dx(i) * s;
    let cy = by - quarter_dy(i) * s;
    lemma_block_sign(side, bx, s);
    lemma_block_sign(side, by, s);
    lemma_block_sign(side, cx, s);
    lemma_block_sign(side, cy, s);
    if block_alive(t, level, bx, by) {
        let (x, y) = choose|x: int, y: int| #[trigger] t.cell(x, y) && in_block(side, bx, by, x, y);
        assert(in_quarter(i, x, y));
        lemma_child_cell(t, i, x, y);
        let u = x - quarter_dx(i) * q;
        let v = y - quarter_dy(i) * q;
        assert(c.cell(u, v) && in_block(side, cx, cy, u, v));
    }
    if block_alive(c, level, cx, cy) {
        let (u, v) = choose|u: int, v: int| #[trigger] c.cell(u, v) && in_block(side, cx, cy, u, v);
        lemma_child_cell(t, i, u, v);
        let x = u + quarter_dx(i) * q;
        let y = v + quarter_dy(i) * q;
        assert(t.cell(x, y) && in_block(side, bx, by, x, y));
    }
}

/// The place of the child `i` as a block of a tree one level above the
/// blocks.
pub open spec fn unit_place(i: int) -> (int, int) {
    if i == 0 {
        (-1, -1)
    } else if i == 1 {
        (0, -1)
    } else if i == 2 {
        (-1, 0)
    } else {
        (0, 0)
    }
}

/// In a tree one level above the blocks, a block in the quarter `i` holds a
/// live cell exactly when it is the child `i` and the child has one.
pub proof fn lemma_block_unit(t: Tree, level: nat, i: int, bx: int, by: int)
    requires
        t.wf(),
        t.level() >= 3,
        t.level() == level + 1,
        0 <= i < 4,
        in_quarter(i, bx, by),
    ensures
        block_alive(t, level, bx, by) == ((bx, by) == unit_place(i) && t.child(i).population()
            != 0),
{
    let c = t.child(i);
    let side = pow2(level) as int;
    let q = span(t.level());
    lemma_pow2_pos(level);
    lemma_span(t.level());
    lemma_span(level);
    assert(side == 2 * q) by {
        vstd::arithmetic::power2::lemma_pow2_unfold(level);
    }
    lemma_offsets(i, q);
    lemma_block_sign(side, bx, 0);
    lemma_block_sign(side, by, 0);
    lemma_children(t);
    lemma_population_zero(c);
    if block_alive(t, level, bx, by) {
        let (x, y) = choose|x: int, y: int| #[trigger] t.cell(x, y) && in_block(side, bx, by, x, y);
        lemma_cell_covered(t, x, y);
        lemma_child_cell(t, i, x, y);
        assert(in_quarter(i, x, y));
        assert(c.cell(x - quarter_dx(i) * q, y - quarter_dy(i) * q));
    }
    if (bx, by) == unit_place(i) && c.population() != 0 {
        let (u, v) = choose|u: int, v: int| c.cell(u, v);
        lemma_cell_covered(c, u, v);
        lemma_child_cell(t, i, u, v);
        let x = u + quarter_dx(i) * q;
        let y = v + quarter_dy(i) * q;
        assert(bx * side == (if bx == -1 {
            -side
        } else {
            0
        })) by (nonlinear_arith)
            requires
                bx == -1 || bx == 0,
        ;
        assert(by * side == (if by == -1 {
            -side
        } else {
            0
        })) by (nonlinear_arith)
            requires
                by == -1 || by == 0,
        ;
        assert(t.cell(x, y) && in_block(side, bx, by, x, y));
    }
}

impl Tree {
    /// What the walk lists of the quarter `i`.
    pub open spec fn quarter_blocks(self, level: nat, r: Rect, o: (int, int), i: int) -> Seq<
        (int, int),
    > {
        let (w, e) = if self.level() >= level + 2 {
            (span((self.level() - level) as nat), span((self.level() - level) as nat))
        } else {
            (1int, 0int)
        };
        if meets_quarter(r, i) {
            self.child(i).blocks(level, quarter_rect(r, i, w, e), quarter_offset(o, i, w, e))
        } else {
            seq![]
        }
    }
}

/// What the walk lists of one quarter: the blocks of the tree that lie in
/// the quarter and in the rectangle and hold a live cell.
pub proof fn lemma_quarter_blocks(
    t: Tree,
    level: nat,
    r: Rect,
    o: (int, int),
    p: (int, int),
    i: int,
)
    requires
        t.wf(),
        t.level() >= 3,
        level < t.level(),
        0 <= i < 4,
        t.level() >= level + 2 ==> forall|r2: Rect, o2: (int, int)|
            #[trigger] t.child(i).blocks(level, r2, o2).contains(p) <==> in_rect(
                r2,
                p.0 - o2.0,
                p.1 - o2.1,
            ) && block_alive(t.child(i), level, p.0 - o2.0, p.1 - o2.1),
    ensures
        t.quarter_blocks(level, r, o, i).contains(p) <==> in_rect(r, p.0 - o.0, p.1 - o.1)
            && in_quarter(i, p.0 - o.0, p.1 - o.1) && block_alive(
            t,
            level,
            p.0 - o.0,
            p.1 - o.1,
        ),
{
    let c = t.child(i);
    let bx = p.0 - o.0;
    let by = p.1 - o.1;
    lemma_children(t);
    if t.level() >= level + 2 {
        let s = span((t.level() - level) as nat);
        lemma_span((t.level() - level) as nat);
        lemma_offsets(i, s);
        let r2 = quarter_rect(r, i, s, s);
        let o2 = quarter_offset(o, i, s, s);
        assert(c.blocks(level, r2, o2).contains(p) <==> in_rect(r2, p.0 - o2.0, p.1 - o2.1)
            && block_alive(c, level, p.0 - o2.0, p.1 - o2.1));
        if in_quarter(i, bx, by) {
            lemma_block_deep(t, level, i, bx, by);
        }
    } else {
        let r2 = quarter_rect(r, i, 1, 0);
        let o2 = quarter_offset(o, i, 1, 0);
        let list = c.blocks(level, r2, o2);
        if in_quarter(i, bx, by) {
            lemma_block_unit(t, level, i, bx, by);
        }
        if list.contains(p) {
            assert(list[0] == p);
        }
        if c.population() != 0 && r2.0 <= 0 && r2.1 > 0 && r2.2 <= 0 && r2.3 > 0 {
            assert(list[0] == o2);
        }
    }
}

/// What the walk of a tree lists: a position is listed exactly when it is
/// that of a block which lies in the rectangle and holds a live cell.
/// Positions and the rectangle are in units of blocks of side `2^level`;
/// the block at `(bx, by)` holds the cells from `(bx * 2^level,
/// by * 2^level)` to one less than `((bx + 1) * 2^level, (by + 1) *
/// 2^level)`.
pub proof fn lemma_blocks(t: Tree, level: nat, r: Rect, o: (int, int), p: (int, int))
    requires
        t.wf(),
        level < t.level(),
    ensures
        t.blocks(level, r, o).contains(p) <==> in_rect(r, p.0 - o.0, p.1 - o.1) && block_alive(
            t,
            level,
            p.0 - o.0,
            p.1 - o.1,
        ),
    decreases t,
{
    let bx = p.0 - o.0;
    let by = p.1 - o.1;
    lemma_population_zero(t);
    if t.population() == 0 {
        if block_alive(t, level, bx, by) {
            let (x, y) = choose|x: int, y: int| #[trigger]
                t.cell(x, y) && in_block(pow2(level) as int, bx, by, x, y);
            assert(t.cell(x, y));
        }
    } else {
        match t {
            Tree::Leaf(leaf) => {
                lemma_leaf_blocks(leaf, level, r, o, p);
            },
            Tree::Quad(a, b, c, d) => {
                lemma_level(t);
                lemma_children(t);
                if t.level() >= level + 2 {
                    assert forall|r2: Rect, o2: (int, int)|
                        #[trigger] a.blocks(level, r2, o2).contains(p) <==> in_rect(
                            r2,
                            p.0 - o2.0,
                            p.1 - o2.1,
                        ) && block_alive(*a, level, p.0 - o2.0, p.1 - o2.1) by {
                        lemma_blocks(*a, level, r2, o2, p);
                    }
                    assert forall|r2: Rect, o2: (int, int)|
                        #[trigger] b.blocks(level, r2, o2).contains(p) <==> in_rect(
                            r2,
                            p.0 - o2.0,
                            p.1 - o2.1,
                        ) && block_alive(*b, level, p.0 - o2.0, p.1 - o2.1) by {
                        lemma_blocks(*b, level, r2, o2, p);
                    }
                    assert forall|r2: Rect, o2: (int, int)|
                        #[trigger] c.blocks(level, r2, o2).contains(p) <==> in_rect(
                            r2,
                            p.0 - o2.0,
                            p.1 - o2.1,
                        ) && block_alive(*c, level, p.0 - o2.0, p.1 - o2.1) by {
                        lemma_blocks(*c, level, r2, o2, p);
                    }
                    assert forall|r2: Rect, o2: (int, int)|
                        #[trigger] d.blocks(level, r2, o2).contains(p) <==> in_rect(
                            r2,
                            p.0 - o2.0,
                            p.1 - o2.1,
                        ) && block_alive(*d, level, p.0 - o2.0, p.1 - o2.1) by {
                        lemma_blocks(*d, level, r2, o2, p);
                    }
                }
                lemma_quarter_blocks(t, level, r, o, p, 0);
                lemma_quarter_blocks(t, level, r, o, p, 1);
                lemma_quarter_blocks(t, level, r, o, p, 2);
                lemma_quarter_blocks(t, level, r, o, p, 3);
                let q0 = t.quarter_blocks(level, r, o, 0);
                let q1 = t.quarter_blocks(level, r, o, 1);
                let q2 = t.quarter_blocks(level, r, o, 2);
                let q3 = t.quarter_blocks(level, r, o, 3);
                assert(t.blocks(level, r, o) == q0 + q1 + q2 + q3);
                lemma_concat_contains(q0, q1, p);
                lemma_concat_contains(q0 + q1, q2, p);
                lemma_concat_contains(q0 + q1 + q2, q3, p);
                assert(in_quarter(0, bx, by) || in_quarter(1, bx, by) || in_quarter(2, bx, by)
                    || in_quarter(3, bx, by));
            },
        }
    }
}

/// Two lists without a position twice and without a position in common make
/// a list without a position twice.
pub proof fn lemma_distinct_concat(a: Seq<(int, int)>, b: Seq<(int, int)>)
    requires
        a.no_duplicates(),
        b.no_duplicates(),
        forall|p: (int, int)| !(a.contains(p) && b.contains(p)),
    ensures
        (a + b).no_duplicates(),
{
    assert forall|i: int, j: int| 0 <= i < a.len() && 0 <= j < b.len() implies a[i] != b[j] by {
        assert(a.contains(a[i]));
        assert(b.contains(b[j]));
    }
    vstd::seq_lib::lemma_no_dup_in_concat(a, b);
}

/// The walk of one row of a leaf lists no position twice.
pub proof fn lemma_leaf_row_distinct(
    leaf: u16,
    level: nat,
    y: int,
    x: int,
    right: int,
    o: (int, int),
)
    ensures
        leaf_row(leaf, level, y, x, right, o).no_duplicates(),
    decreases right - x,
{
    if x < right {
        let first: Seq<(int, int)> = if leaf_block(leaf, level, x, y) {
            seq![(x + o.0, y + o.1)]
        } else {
            seq![]
        };
        let rest = leaf_row(leaf, level, y, x + 1, right, o);
        lemma_leaf_row_distinct(leaf, level, y, x + 1, right, o);
        assert forall|p: (int, int)| !(first.contains(p) && rest.contains(p)) by {
            lemma_leaf_row(leaf, level, y, x + 1, right, o, p);
            if first.contains(p) {
                assert(first[0] == p);
            }
        }
        lemma_distinct_concat(first, rest);
    }
}

/// The walk of the rows of a leaf lists no position twice.
pub proof fn lemma_leaf_rows_distinct(
    leaf: u16,
    level: nat,
    y: int,
    bottom: int,
    left: int,
    right: int,
    o: (int, int),
)
    ensures
        leaf_rows(leaf, level, y, bottom, left, right, o).no_duplicates(),
    decreases bottom - y,
{
    if y < bottom {
        let row = leaf_row(leaf, level, y, left, right, o);
        let rest = leaf_rows(leaf, level, y + 1, bottom, left, right, o);
        lemma_leaf_row_distinct(leaf, level, y, left, right, o);
        lemma_leaf_rows_distinct(leaf, level, y + 1, bottom, left, right, o);
        assert forall|p: (int, int)| !(row.contains(p) && rest.contains(p)) by {
            lemma_leaf_row(leaf, level, y, left, right, o, p);
            lemma_leaf_rows(leaf, level, y + 1, bottom, left, right, o, p);
        }
        lemma_distinct_concat(row, rest);
    }
}

/// The walk of a tree lists no position twice.
pub proof fn lemma_blocks_distinct(t: Tree, level: nat, r: Rect, o: (int, int))
    requires
        t.wf(),
        level < t.level(),
    ensures
        t.blocks(level, r, o).no_duplicates(),
    decreases t, 1int,
{
    if t.population() != 0 {
        match t {
            Tree::Leaf(leaf) => {
                let edge: int = if level == 0 {
                    2
                } else {
                    1
                };
                lemma_leaf_rows_distinct(
                    leaf,
                    level,
                    hi(r.2, -edge),
                    lo(r.3, edge),
                    hi(r.0, -edge),
                    lo(r.1, edge),
                    o,
                );
            },
            Tree::Quad(a, b, c, d) => {
                lemma_level(t);
                lemma_children(t);
                let q0 = t.quarter_blocks(level, r, o, 0);
                let q1 = t.quarter_blocks(level, r, o, 1);
                let q2 = t.quarter_blocks(level, r, o, 2);
                let q3 = t.quarter_blocks(level, r, o, 3);
                lemma_quarter_distinct(t, level, r, o, 0);
                lemma_quarter_distinct(t, level, r, o, 1);
                lemma_quarter_distinct(t, level, r, o, 2);
                lemma_quarter_distinct(t, level, r, o, 3);
                assert forall|p: (int, int)|
                    !(q0.contains(p) && q1.contains(p)) && !((q0 + q1).contains(p) && q2.contains(
                        p,
                    )) && !((q0 + q1 + q2).contains(p) && q3.contains(p)) by {
                    lemma_quarter_member(t, level, r, o, p, 0);
                    lemma_quarter_member(t, level, r, o, p, 1);
                    lemma_quarter_member(t, level, r, o, p, 2);
                    lemma_quarter_member(t, level, r, o, p, 3);
                    lemma_concat_contains(q0, q1, p);
                    lemma_concat_contains(q0 + q1, q2, p);
                }
                lemma_distinct_concat(q0, q1);
                lemma_distinct_concat(q0 + q1, q2);
                lemma_distinct_concat(q0 + q1 + q2, q3);
                assert(t.blocks(level, r, o) == q0 + q1 + q2 + q3);
            },
        }
    }
}

/// What the walk lists of one quarter lies in that quarter.
pub proof fn lemma_quarter_member(
    t: Tree,
    level: nat,
    r: Rect,
    o: (int, int),
    p: (int, int),
    i: int,
)
    requires
        t.wf(),
        t.level() >= 3,
        level < t.level(),
        0 <= i < 4,
    ensures
        t.quarter_blocks(level, r, o, i).contains(p) ==> in_quarter(i, p.0 - o.0, p.1 - o.1),
{
    lemma_children(t);
    if t.level() >= level + 2 {
        assert forall|r2: Rect, o2: (int, int)|
            #[trigger] t.child(i).blocks(level, r2, o2).contains(p) <==> in_rect(
                r2,
                p.0 - o2.0,
                p.1 - o2.1,
            ) && block_alive(t.child(i), level, p.0 - o2.0, p.1 - o2.1) by {
            lemma_blocks(t.child(i), level, r2, o2, p);
        }
    }
    lemma_quarter_blocks(t, level, r, o, p, i);
}

/// The walk lists no position of a quarter twice.
pub proof fn lemma_quarter_distinct(t: Tree, level: nat, r: Rect, o: (int, int), i: int)
    requires
        t.wf(),
        t.level() >= 3,
        level < t.level(),
        0 <= i < 4,
    ensures
        t.quarter_blocks(level, r, o, i).no_duplicates(),
    decreases t, 0int,
{
    lemma_children(t);
    if t.level() >= level + 2 {
        let s = span((t.level() - level) as nat);
        if i == 0 {
            lemma_blocks_distinct(
                t.nw(),
                level,
                quarter_rect(r, 0, s, s),
                quarter_offset(o, 0, s, s),
            );
        } else if i == 1 {
            lemma_blocks_distinct(
                t.ne(),
                level,
                quarter_rect(r, 1, s, s),
                quarter_offset(o, 1, s, s),
            );
        } else if i == 2 {
            lemma_blocks_distinct(
                t.sw(),
                level,
                quarter_rect(r, 2, s, s),
                quarter_offset(o, 2, s, s),
            );
        } else {
            lemma_blocks_distinct(
                t.se(),
                level,
                quarter_rect(r, 3, s, s),
                quarter_offset(o, 3, s, s),
            );
        }
    }
}

} // verus!
