//! Listing the live cells, or the blocks of a given size that hold a live
//! cell, within a rectangle.

use vstd::prelude::*;
use crate::bits::{leaf_cell, lemma_span, span};
use crate::cells::node_size;
use crate::graph::{lemma_node_children, lemma_tree_of, node_level, node_valid, tree_of};
use crate::node::{Leaf, Node};
use crate::tree::{lemma_children, Tree};
use crate::listing::{block_alive, in_block, in_rect, lemma_blocks, lemma_blocks_distinct};
use crate::world::World;
use vstd::arithmetic::power2::pow2;

verus! {

/// The lesser of two numbers.
pub open spec fn lo(a: int, b: int) -> int {
    if a <= b {
        a
    } else {
        b
    }
}

/// The greater of two numbers.
pub open spec fn hi(a: int, b: int) -> int {
    if a >= b {
        a
    } else {
        b
    }
}

/// A rectangle `(left, right, top, bottom)`, half-open on the right and at
/// the bottom.
pub type Rect = (int, int, int, int);

/// Whether the block at `(x, y)` of a leaf holds a live cell: at level 0 a
/// block is a cell, with `x` and `y` from -2 to 1; at level 1 it is a
/// quarter, with `x` and `y` from -1 to 0.
pub open spec fn leaf_block(leaf: u16, level: nat, x: int, y: int) -> bool {
    if level == 0 {
        leaf_cell(leaf, x, y)
    } else {
        leaf & (0x0033u16 << ((-8 * y - 2 * x) as u16)) != 0
    }
}

/// The blocks of one row of a leaf that hold a live cell, from `x` to
/// `right`, moved by `offset`.
pub open spec fn leaf_row(
    leaf: u16,
    level: nat,
    y: int,
    x: int,
    right: int,
    offset: (int, int),
) -> Seq<(int, int)>
    decreases right - x,
{
    if x >= right {
        seq![]
    } else {
        (if leaf_block(leaf, level, x, y) {
            seq![(x + offset.0, y + offset.1)]
        } else {
            seq![]
        }) + leaf_row(leaf, level, y, x + 1, right, offset)
    }
}

/// The blocks of the rows of a leaf from `y` to `bottom` that hold a live
/// cell, row by row, moved by `offset`.
pub open spec fn leaf_rows(
    leaf: u16,
    level: nat,
    y: int,
    bottom: int,
    left: int,
    right: int,
    offset: (int, int),
) -> Seq<(int, int)>
    decreases bottom - y,
{
    if y >= bottom {
        seq![]
    } else {
        leaf_row(leaf, level, y, left, right, offset) + leaf_rows(
            leaf,
            level,
            y + 1,
            bottom,
            left,
            right,
            offset,
        )
    }
}

/// The part of a rectangle in the quarter `i`, seen from that quarter's
/// centre, which lies `w` to the west or `e` to the east, and as far to the
/// north or south.
pub open spec fn quarter_rect(r: Rect, i: int, w: int, e: int) -> Rect {
    let (left, right, top, bottom) = r;
    if i == 0 {
        (left + w, lo(right, 0) + w, top + w, lo(bottom, 0) + w)
    } else if i == 1 {
        (hi(left, 0) - e, right - e, top + w, lo(bottom, 0) + w)
    } else if i == 2 {
        (left + w, lo(right, 0) + w, hi(top, 0) - e, bottom - e)
    } else {
        (hi(left, 0) - e, right - e, hi(top, 0) - e, bottom - e)
    }
}

/// The centre of the quarter `i`.
pub open spec fn quarter_offset(offset: (int, int), i: int, w: int, e: int) -> (int, int) {
    if i == 0 {
        (offset.0 - w, offset.1 - w)
    } else if i == 1 {
        (offset.0 + e, offset.1 - w)
    } else if i == 2 {
        (offset.0 - w, offset.1 + e)
    } else {
        (offset.0 + e, offset.1 + e)
    }
}

/// Whether a rectangle reaches into the quarter `i`.
pub open spec fn meets_quarter(r: Rect, i: int) -> bool {
    let (left, right, top, bottom) = r;
    if i == 0 {
        left < 0 && top < 0
    } else if i == 1 {
        right > 0 && top < 0
    } else if i == 2 {
        left < 0 && bottom > 0
    } else {
        right > 0 && bottom > 0
    }
}

impl Tree {
    /// The blocks of side `2^level` that hold a live cell and lie in the
    /// rectangle `r`, in the order in which the tree is walked: quarter by
    /// quarter, north-west, north-east, south-west, south-east, and within a
    /// leaf row by row. Positions and the rectangle are in units of blocks,
    /// seen from the tree's centre; each position is moved by `offset`. A
    /// tree that is no larger than a block counts as one block at its
    /// centre.
    pub open spec fn blocks(self, level: nat, r: Rect, offset: (int, int)) -> Seq<(int, int)>
        decreases self,
    {
        if self.population() == 0 {
            seq![]
        } else if self.level() <= level {
            if r.0 <= 0 && r.1 > 0 && r.2 <= 0 && r.3 > 0 {
                seq![offset]
            } else {
                seq![]
            }
        } else {
            match self {
                Tree::Leaf(leaf) => {
                    let edge: int = if level == 0 {
                        2
                    } else {
                        1
                    };
                    leaf_rows(
                        leaf,
                        level,
                        hi(r.2, -edge),
                        lo(r.3, edge),
                        hi(r.0, -edge),
                        lo(r.1, edge),
                        offset,
                    )
                },
                Tree::Quad(a, b, c, d) => {
                    let (w, e) = if self.level() >= level + 2 {
                        (span((self.level() - level) as nat), span((self.level() - level) as nat))
                    } else {
                        (1int, 0int)
                    };
                    (if meets_quarter(r, 0) {
                        a.blocks(level, quarter_rect(r, 0, w, e), quarter_offset(offset, 0, w, e))
                    } else {
                        seq![]
                    }) + (if meets_quarter(r, 1) {
                        b.blocks(level, quarter_rect(r, 1, w, e), quarter_offset(offset, 1, w, e))
                    } else {
                        seq![]
                    }) + (if meets_quarter(r, 2) {
                        c.blocks(level, quarter_rect(r, 2, w, e), quarter_offset(offset, 2, w, e))
                    } else {
                        seq![]
                    }) + (if meets_quarter(r, 3) {
                        d.blocks(level, quarter_rect(r, 3, w, e), quarter_offset(offset, 3, w, e))
                    } else {
                        seq![]
                    })
                },
            }
        }
    }
}

/// The positions of a list as pairs of integers.
pub open spec fn points(list: Seq<(i64, i64)>) -> Seq<(int, int)> {
    list.map_values(|p: (i64, i64)| (p.0 as int, p.1 as int))
}

/// A rectangle of machine integers as a rectangle of integers.
pub open spec fn rect_of(bound: (i64, i64, i64, i64)) -> Rect {
    (bound.0 as int, bound.1 as int, bound.2 as int, bound.3 as int)
}

/// Whether a rectangle leaves room for the walk's arithmetic.
pub open spec fn in_range(bound: (i64, i64, i64, i64)) -> bool {
    &&& -0x4000_0000_0000_0000 <= bound.0 <= 0x4000_0000_0000_0000
    &&& -0x4000_0000_0000_0000 <= bound.1 <= 0x4000_0000_0000_0000
    &&& -0x4000_0000_0000_0000 <= bound.2 <= 0x4000_0000_0000_0000
    &&& -0x4000_0000_0000_0000 <= bound.3 <= 0x4000_0000_0000_0000
}

/// Whether the walk of a node of level `level` can start at `offset`: the
/// positions that it reaches fit the machine's integers.
pub open spec fn offset_ok(offset: (i64, i64), level: nat) -> bool {
    &&& -0x4000_0000_0000_0000 <= offset.0 - 2 * span(level)
    &&& offset.0 + 2 * span(level) <= 0x4000_0000_0000_0000
    &&& -0x4000_0000_0000_0000 <= offset.1 - 2 * span(level)
    &&& offset.1 + 2 * span(level) <= 0x4000_0000_0000_0000
}

/// Appending one position.
pub proof fn lemma_points_push(list: Seq<(i64, i64)>, p: (i64, i64))
    ensures
        points(list.push(p)) == points(list) + seq![(p.0 as int, p.1 as int)],
        points(list) + Seq::<(int, int)>::empty() == points(list),
{
    assert(points(list.push(p)) =~= points(list) + seq![(p.0 as int, p.1 as int)]);
    assert(points(list) + Seq::<(int, int)>::empty() =~= points(list));
}

fn min(a: i64, b: i64) -> (m: i64)
    ensures
        m == lo(a as int, b as int),
{
    if a <= b {
        a
    } else {
        b
    }
}

fn max(a: i64, b: i64) -> (m: i64)
    ensures
        m == hi(a as int, b as int),
{
    if a >= b {
        a
    } else {
        b
    }
}

impl World {
    /// The blocks of side `2^level` that hold a live cell and lie in the
    /// rectangle `bound`, which is `(left, right, top, bottom)` in units of
    /// blocks, half-open on the right and at the bottom.
    pub fn for_nodes(&self, level: u8, bound: (i64, i64, i64, i64)) -> (list: Vec<(i64, i64)>)
        requires
            self.wf(),
            in_range(bound),
        ensures
            points(list@) == self.tree().blocks(level as nat, rect_of(bound), (0, 0)),
            level < self.root_level() ==> points(list@).no_duplicates(),
            level < self.root_level() ==> forall|bx: int, by: int| #[trigger]
                points(list@).contains((bx, by)) <==> in_rect(rect_of(bound), bx, by)
                    && block_alive(self.tree(), level as nat, bx, by),
    {
        let mut list = Vec::new();
        proof {
            self.lemma_wf();
            lemma_tree_of(self.arena(), self.root);
            crate::graph::lemma_pow2_mono((self.root_level() - 2) as nat, 29);
            vstd::arithmetic::power2::lemma2_to64();
            assert(points(list@) =~= Seq::<(int, int)>::empty());
        }
        self.for_nodes_rec(self.root, level, bound, (0, 0), &mut list);
        proof {
            let t = self.tree();
            let r = rect_of(bound);
            assert(Seq::<(int, int)>::empty() + t.blocks(level as nat, r, (0, 0)) =~= t.blocks(
                level as nat,
                r,
                (0, 0),
            ));
            if level < self.root_level() {
                lemma_blocks_distinct(t, level as nat, r, (0, 0));
                assert forall|bx: int, by: int| #[trigger]
                    points(list@).contains((bx, by)) <==> in_rect(r, bx, by) && block_alive(
                        t,
                        level as nat,
                        bx,
                        by,
                    ) by {
                    lemma_blocks(t, level as nat, r, (0, 0), (bx, by));
                }
            }
        }
        list
    }

    /// The live cells in the rectangle `bound`, which is `(left, right,
    /// top, bottom)`, half-open on the right and at the bottom.
    pub fn for_living_cells(&self, bound: (i64, i64, i64, i64)) -> (list: Vec<(i64, i64)>)
        requires
            self.wf(),
            in_range(bound),
        ensures
            points(list@) == self.tree().blocks(0, rect_of(bound), (0, 0)),
            points(list@).no_duplicates(),
            forall|x: int, y: int| #[trigger]
                points(list@).contains((x, y)) <==> in_rect(rect_of(bound), x, y) && self.alive(
                    x,
                    y,
                ),
    {
        let list = self.for_nodes(0, bound);
        proof {
            let t = self.tree();
            self.lemma_wf();
            lemma_tree_of(self.arena(), self.root);
            vstd::arithmetic::power2::lemma2_to64();
            assert forall|x: int, y: int| #[trigger]
                points(list@).contains((x, y)) <==> in_rect(rect_of(bound), x, y) && self.alive(
                    x,
                    y,
                ) by {
                if block_alive(t, 0, x, y) {
                    let (u, v) = choose|u: int, v: int| #[trigger]
                        t.cell(u, v) && in_block(pow2(0) as int, x, y, u, v);
                    assert(u == x && v == y);
                }
                if t.cell(x, y) {
                    assert(t.cell(x, y) && in_block(pow2(0) as int, x, y, x, y));
                }
            }
        }
        list
    }

    /// Appends to `list` the blocks of side `2^level` of the node `node`
    /// that hold a live cell and lie in the rectangle `bound`, each moved by
    /// `offset`.
    pub fn for_nodes_rec(
        &self,
        node: Node,
        level: u8,
        bound: (i64, i64, i64, i64),
        offset: (i64, i64),
        list: &mut Vec<(i64, i64)>,
    )
        requires
            self.wf(),
            node_valid(self.arena(), node),
            in_range(bound),
            offset_ok(offset, node_level(self.arena(), node)),
        ensures
            points(final(list)@) == points(old(list)@) + tree_of(self.arena(), node).blocks(
                level as nat,
                rect_of(bound),
                (offset.0 as int, offset.1 as int),
            ),
        decreases node_level(self.arena(), node),
    {
        let ghost t = tree_of(self.arena(), node);
        let ghost r = rect_of(bound);
        let ghost o = (offset.0 as int, offset.1 as int);
        proof {
            self.lemma_wf();
            lemma_tree_of(self.arena(), node);
            lemma_points_push(list@, offset);
            lemma_span(t.level());
        }
        if self.node_population(node) == 0 {
            return ;
        }
        let node_level = self.node_level(node);
        let (left, right, top, bottom) = bound;
        if node_level <= level {
            if left <= 0 && right > 0 && top <= 0 && bottom > 0 {
                list.push(offset);
            }
            return ;
        }
        match node {
            Node::Leaf(leaf) => {
                leaf_blocks(leaf, level, bound, offset, list);
            },
            Node::NodeId(id) => {
                proof {
                    lemma_node_children(self.arena(), id);
                    lemma_children(t);
                    lemma_span((t.level() - 1) as nat);
                    if node_level >= level + 2 {
                        lemma_span((node_level - level) as nat);
                        crate::graph::lemma_pow2_mono(
                            ((node_level - level) - 2) as nat,
                            (node_level - 2) as nat,
                        );
                    }
                }
                let data = self.index(id);
                let (w, e): (i64, i64) = if node_level >= level + 2 {
                    let node_size = node_size(node_level - level);
                    (node_size, node_size)
                } else {
                    (1, 0)
                };
                let ghost s0 = list@;
                if left < 0 && top < 0 {
                    self.for_nodes_rec(
                        data.nw(),
                        level,
                        (left + w, min(right, 0) + w, top + w, min(bottom, 0) + w),
                        (offset.0 - w, offset.1 - w),
                        list,
                    );
                }
                let ghost s1 = list@;
                if right > 0 && top < 0 {
                    self.for_nodes_rec(
                        data.ne(),
                        level,
                        (max(left, 0) - e, right - e, top + w, min(bottom, 0) + w),
                        (offset.0 + e, offset.1 - w),
                        list,
                    );
                }
                let ghost s2 = list@;
                if left < 0 && bottom > 0 {
                    self.for_nodes_rec(
                        data.sw(),
                        level,
                        (left + w, min(right, 0) + w, max(top, 0) - e, bottom - e),
                        (offset.0 - w, offset.1 + e),
                        list,
                    );
                }
                let ghost s3 = list@;
                if right > 0 && bottom > 0 {
                    self.for_nodes_rec(
                        data.se(),
                        level,
                        (max(left, 0) - e, right - e, max(top, 0) - e, bottom - e),
                        (offset.0 + e, offset.1 + e),
                        list,
                    );
                }
                proof {
                    lemma_join(
                        t,
                        level as nat,
                        r,
                        o,
                        points(s0),
                        points(s1),
                        points(s2),
                        points(s3),
                        points(list@),
                    );
                }
            },
        }
    }
}

/// The blocks of a tree from those of its four quarters, one after the
/// other.
pub proof fn lemma_join(
    t: Tree,
    level: nat,
    r: Rect,
    o: (int, int),
    s0: Seq<(int, int)>,
    s1: Seq<(int, int)>,
    s2: Seq<(int, int)>,
    s3: Seq<(int, int)>,
    s4: Seq<(int, int)>,
)
    requires
        t.wf(),
        t.level() >= 3,
        t.level() > level,
        t.population() != 0,
        ({
            let (w, e) = if t.level() >= level + 2 {
                (span((t.level() - level) as nat), span((t.level() - level) as nat))
            } else {
                (1int, 0int)
            };
            &&& s1 == s0 + (if meets_quarter(r, 0) {
                t.nw().blocks(level, quarter_rect(r, 0, w, e), quarter_offset(o, 0, w, e))
            } else {
                seq![]
            })
            &&& s2 == s1 + (if meets_quarter(r, 1) {
                t.ne().blocks(level, quarter_rect(r, 1, w, e), quarter_offset(o, 1, w, e))
            } else {
                seq![]
            })
            &&& s3 == s2 + (if meets_quarter(r, 2) {
                t.sw().blocks(level, quarter_rect(r, 2, w, e), quarter_offset(o, 2, w, e))
            } else {
                seq![]
            })
            &&& s4 == s3 + (if meets_quarter(r, 3) {
                t.se().blocks(level, quarter_rect(r, 3, w, e), quarter_offset(o, 3, w, e))
            } else {
                seq![]
            })
        }),
    ensures
        s4 == s0 + t.blocks(level, r, o),
{
    lemma_children(t);
    let (w, e) = if t.level() >= level + 2 {
        (span((t.level() - level) as nat), span((t.level() - level) as nat))
    } else {
        (1int, 0int)
    };
    let b0 = if meets_quarter(r, 0) {
        t.nw().blocks(level, quarter_rect(r, 0, w, e), quarter_offset(o, 0, w, e))
    } else {
        seq![]
    };
    let b1 = if meets_quarter(r, 1) {
        t.ne().blocks(level, quarter_rect(r, 1, w, e), quarter_offset(o, 1, w, e))
    } else {
        seq![]
    };
    let b2 = if meets_quarter(r, 2) {
        t.sw().blocks(level, quarter_rect(r, 2, w, e), quarter_offset(o, 2, w, e))
    } else {
        seq![]
    };
    let b3 = if meets_quarter(r, 3) {
        t.se().blocks(level, quarter_rect(r, 3, w, e), quarter_offset(o, 3, w, e))
    } else {
        seq![]
    };
    assert(t.blocks(level, r, o) == b0 + b1 + b2 + b3);
    assert(s4 =~= s0 + (b0 + b1 + b2 + b3));
}

/// Appends to `list` the blocks of one row of a leaf that hold a live cell,
/// from `left` to `right`, moved by `offset`.
fn leaf_row_blocks(
    leaf: Leaf,
    level: u8,
    y: i64,
    left: i64,
    right: i64,
    offset: (i64, i64),
    list: &mut Vec<(i64, i64)>,
)
    requires
        level <= 1,
        level == 0 ==> -2 <= y < 2 && -2 <= left && right <= 2,
        level == 1 ==> -1 <= y < 1 && -1 <= left && right <= 1,
        offset_ok(offset, 2),
    ensures
        points(final(list)@) == points(old(list)@) + leaf_row(
            leaf,
            level as nat,
            y as int,
            left as int,
            right as int,
            (offset.0 as int, offset.1 as int),
        ),
{
    let ghost o = (offset.0 as int, offset.1 as int);
    let mut x = left;
    proof {
        lemma_span(2);
        lemma_points_push(list@, offset);
    }
    while x < right
        invariant
            level <= 1,
            level == 0 ==> -2 <= y < 2 && -2 <= left && right <= 2,
            level == 1 ==> -1 <= y < 1 && -1 <= left && right <= 1,
            left <= x,
            offset_ok(offset, 2),
            span(2) == 1,
            o == (offset.0 as int, offset.1 as int),
            points(list@) + leaf_row(leaf, level as nat, y as int, x as int, right as int, o)
                == points(old(list)@) + leaf_row(
                leaf,
                level as nat,
                y as int,
                left as int,
                right as int,
                o,
            ),
        decreases right - x,
    {
        let alive = if level == 0 {
            let index = ((1 - y) * 4 + (1 - x)) as u16;
            leaf & (1u16 << index) != 0
        } else {
            let shift = (-8 * y - 2 * x) as u16;
            leaf & (0x0033u16 << shift) != 0
        };
        let ghost before = list@;
        if alive {
            list.push((x + offset.0, y + offset.1));
        }
        proof {
            let rest = leaf_row(leaf, level as nat, y as int, x + 1, right as int, o);
            lemma_points_push(before, ((x + offset.0) as i64, (y + offset.1) as i64));
            if alive {
                assert((points(before) + seq![(x + o.0, y + o.1)]) + rest =~= points(before) + (
                seq![(x + o.0, y + o.1)] + rest));
            } else {
                assert(points(before) + (Seq::<(int, int)>::empty() + rest) =~= points(before)
                    + rest);
            }
        }
        x += 1;
    }
    proof {
        assert(points(list@) + Seq::<(int, int)>::empty() =~= points(list@));
    }
}

/// Appends to `list` the blocks of a leaf that hold a live cell and lie in
/// the rectangle `bound`, row by row, moved by `offset`: its cells at level
/// 0, its quarters at level 1.
pub fn leaf_blocks(
    leaf: Leaf,
    level: u8,
    bound: (i64, i64, i64, i64),
    offset: (i64, i64),
    list: &mut Vec<(i64, i64)>,
)
    requires
        level <= 1,
        offset_ok(offset, 2),
    ensures
        points(final(list)@) == points(old(list)@) + leaf_rows(
            leaf,
            level as nat,
            hi(bound.2 as int, if level == 0 {
                -2
            } else {
                -1
            }),
            lo(bound.3 as int, if level == 0 {
                2
            } else {
                1
            }),
            hi(bound.0 as int, if level == 0 {
                -2
            } else {
                -1
            }),
            lo(bound.1 as int, if level == 0 {
                2
            } else {
                1
            }),
            (offset.0 as int, offset.1 as int),
        ),
{
    let ghost o = (offset.0 as int, offset.1 as int);
    let edge: i64 = if level == 0 {
        2
    } else {
        1
    };
    let left = max(bound.0, -edge);
    let right = min(bound.1, edge);
    let top = max(bound.2, -edge);
    let bottom = min(bound.3, edge);
    let mut y = top;
    while y < bottom
        invariant
            level <= 1,
            edge == (if level == 0 {
                2i64
            } else {
                1i64
            }),
            -edge <= top <= y,
            bottom <= edge,
            -edge <= left,
            right <= edge,
            offset_ok(offset, 2),
            o == (offset.0 as int, offset.1 as int),
            points(list@) + leaf_rows(
                leaf,
                level as nat,
                y as int,
                bottom as int,
                left as int,
                right as int,
                o,
            ) == points(old(list)@) + leaf_rows(
                leaf,
                level as nat,
                top as int,
                bottom as int,
                left as int,
                right as int,
                o,
            ),
        decreases bottom - y,
    {
        let ghost start = list@;
        leaf_row_blocks(leaf, level, y, left, right, offset, list);
        proof {
            let row = leaf_row(leaf, level as nat, y as int, left as int, right as int, o);
            let rest = leaf_rows(
                leaf,
                level as nat,
                y + 1,
                bottom as int,
                left as int,
                right as int,
                o,
            );
            assert((points(start) + row) + rest =~= points(start) + (row + rest));
        }
        y += 1;
    }
    proof {
        assert(points(list@) + Seq::<(int, int)>::empty() =~= points(list@));
    }
}

} // verus!
