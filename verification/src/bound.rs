//! The bounding box of the live cells.

use vstd::prelude::*;
use crate::bits::{
    bit, cell_index, in_quarter, index_x, index_y, leaf_cell, lemma_mask_bits, lemma_masked_zero,
    lemma_span, span,
};
use crate::cells::node_size;
use crate::graph::{lemma_node_children, lemma_tree_of, node_level, node_valid, tree_of};
use crate::margin::{lemma_child_cell, lemma_offsets, quarter_dx, quarter_dy};
use crate::node::{Leaf, Node};
use crate::tree::{lemma_cell_covered, lemma_children, lemma_population_zero, Tree};
use crate::world::World;

verus! {

/// The coordinate of `(x, y)` along an axis: 0 is the x axis, 1 the y axis.
pub open spec fn coord(axis: int, x: int, y: int) -> int {
    if axis == 0 {
        x
    } else {
        y
    }
}

impl Tree {
    /// Whether `edge` bounds the live cells on the side `dir` of the axis
    /// `axis`, and tightly so. On the low side (`dir` is -1) it is the least
    /// coordinate of a live cell; on the high side (`dir` is 1) it is one
    /// more than the greatest.
    pub open spec fn is_edge(self, axis: int, dir: int, edge: int) -> bool {
        if dir < 0 {
            (exists|x: int, y: int| #[trigger] self.cell(x, y) && coord(axis, x, y) == edge) && (
            forall|x: int, y: int| #[trigger] self.cell(x, y) ==> edge <= coord(axis, x, y))
        } else {
            (exists|x: int, y: int| #[trigger] self.cell(x, y) && coord(axis, x, y) == edge - 1)
                && (forall|x: int, y: int| #[trigger] self.cell(x, y) ==> coord(axis, x, y) < edge)
        }
    }

    /// Whether `found` is what a scan for the edge on the side `dir` of the
    /// axis `axis` has to give: nothing for a tree without live cells, else
    /// the edge.
    pub open spec fn scanned(self, axis: int, dir: int, found: Option<i64>) -> bool {
        match found {
            None => self.population() == 0,
            Some(edge) => self.population() != 0 && self.is_edge(axis, dir, edge as int),
        }
    }

    /// Whether `bound` is the tight bounding box `(left, right, top,
    /// bottom)` of the live cells, half-open on the right and at the
    /// bottom.
    pub open spec fn bounded(self, bound: (i64, i64, i64, i64)) -> bool {
        &&& self.is_edge(0, -1, bound.0 as int)
        &&& self.is_edge(0, 1, bound.1 as int)
        &&& self.is_edge(1, -1, bound.2 as int)
        &&& self.is_edge(1, 1, bound.3 as int)
    }
}

/// The direction of the quarter `i` along an axis.
pub open spec fn quarter_dir(axis: int, i: int) -> int {
    if axis == 0 {
        quarter_dx(i)
    } else {
        quarter_dy(i)
    }
}

/// The lesser of two numbers on the low side, the greater on the high side.
pub open spec fn outer(dir: int, a: int, b: int) -> int {
    if dir < 0 {
        if a <= b {
            a
        } else {
            b
        }
    } else {
        if a >= b {
            a
        } else {
            b
        }
    }
}

/// The edge of two scans taken together.
pub open spec fn outer_of(dir: int, a: Option<i64>, b: Option<i64>) -> Option<i64> {
    match (a, b) {
        (Some(a), Some(b)) => Some(outer(dir, a as int, b as int) as i64),
        (Some(a), None) => Some(a),
        (None, Some(b)) => Some(b),
        (None, None) => None,
    }
}

/// In a leaf, a mask that holds the cells of one column or row meets the
/// leaf exactly when the leaf has a live cell in that column or row.
pub proof fn lemma_leaf_line(leaf: u16, mask: u16, axis: int, c: int)
    requires
        -2 <= c <= 1,
        forall|j: u16|
            j < 16 ==> #[trigger] bit(mask, j) == (if axis == 0 {
                j % 4 == 1 - c
            } else {
                j / 4 == 1 - c
            }),
    ensures
        leaf & mask != 0 <==> exists|x: int, y: int| #[trigger]
            leaf_cell(leaf, x, y) && coord(axis, x, y) == c,
{
    lemma_masked_zero(leaf, mask);
    if leaf & mask != 0 {
        let j = choose|j: u16| j < 16 && bit(mask, j) && bit(leaf, j);
        let x = index_x(j);
        let y = index_y(j);
        assert(cell_index(x, y) == j);
        assert(leaf_cell(leaf, x, y) && coord(axis, x, y) == c);
    } else {
        assert forall|x: int, y: int| !(#[trigger] leaf_cell(leaf, x, y) && coord(axis, x, y)
            == c) by {
            if leaf_cell(leaf, x, y) {
                let j = cell_index(x, y) as u16;
                assert(bit(leaf, j));
                assert(bit(mask, j) == (if axis == 0 {
                    j % 4 == 1 - c
                } else {
                    j / 4 == 1 - c
                }));
            }
        }
    }
}

/// The four masks of the columns of a leaf, from the west, and of its rows,
/// from the north.
pub proof fn lemma_leaf_lines(leaf: u16)
    ensures
        forall|c: int| -2 <= c <= 1 ==> (leaf & #[trigger] column_mask(c) != 0 <==> exists|
            x: int,
            y: int,
        | #[trigger] leaf_cell(leaf, x, y) && coord(0, x, y) == c),
        forall|c: int| -2 <= c <= 1 ==> (leaf & #[trigger] row_mask(c) != 0 <==> exists|
            x: int,
            y: int,
        | #[trigger] leaf_cell(leaf, x, y) && coord(1, x, y) == c),
{
    assert forall|c: int| -2 <= c <= 1 implies (leaf & #[trigger] column_mask(c) != 0 <==> exists|
        x: int,
        y: int,
    | #[trigger] leaf_cell(leaf, x, y) && coord(0, x, y) == c) by {
        let mask = column_mask(c);
        assert forall|j: u16| j < 16 implies #[trigger] bit(mask, j) == (j % 4 == 1 - c) by {
            lemma_mask_bits(j);
        }
        lemma_leaf_line(leaf, mask, 0, c);
    }
    assert forall|c: int| -2 <= c <= 1 implies (leaf & #[trigger] row_mask(c) != 0 <==> exists|
        x: int,
        y: int,
    | #[trigger] leaf_cell(leaf, x, y) && coord(1, x, y) == c) by {
        let mask = row_mask(c);
        assert forall|j: u16| j < 16 implies #[trigger] bit(mask, j) == (j / 4 == 1 - c) by {
            lemma_mask_bits(j);
        }
        lemma_leaf_line(leaf, mask, 1, c);
    }
}

/// The mask of the column `x` of a leaf.
pub open spec fn column_mask(x: int) -> u16 {
    if x == -2 {
        0x8888
    } else if x == -1 {
        0x4444
    } else if x == 0 {
        0x2222
    } else {
        0x1111
    }
}

/// The mask of the row `y` of a leaf.
pub open spec fn row_mask(y: int) -> u16 {
    if y == -2 {
        0xf000
    } else if y == -1 {
        0x0f00
    } else if y == 0 {
        0x00f0
    } else {
        0x000f
    }
}

/// The edge of a leaf on the side `dir` of the axis `axis`, from which of
/// its four columns or rows hold a live cell.
pub proof fn lemma_leaf_edge(leaf: u16, axis: int, dir: int, found: Option<i64>)
    requires
        axis == 0 || axis == 1,
        dir == -1 || dir == 1,
        ({
            let m = |c: int|
                if axis == 0 {
                    leaf & column_mask(c) != 0
                } else {
                    leaf & row_mask(c) != 0
                };
            if dir < 0 {
                found == (if m(-2) {
                    Some(-2i64)
                } else if m(-1) {
                    Some(-1i64)
                } else if m(0) {
                    Some(0i64)
                } else if m(1) {
                    Some(1i64)
                } else {
                    None
                })
            } else {
                found == (if m(1) {
                    Some(2i64)
                } else if m(0) {
                    Some(1i64)
                } else if m(-1) {
                    Some(0i64)
                } else if m(-2) {
                    Some(-1i64)
                } else {
                    None
                })
            }
        }),
    ensures
        Tree::Leaf(leaf).scanned(axis, dir, found),
{
    let t = Tree::Leaf(leaf);
    lemma_leaf_lines(leaf);
    lemma_population_zero(t);
    assert(column_mask(-2) == 0x8888 && column_mask(-1) == 0x4444 && column_mask(0) == 0x2222
        && column_mask(1) == 0x1111);
    assert(row_mask(-2) == 0xf000 && row_mask(-1) == 0x0f00 && row_mask(0) == 0x00f0 && row_mask(1)
        == 0x000f);
    let has = |c: int|
        exists|x: int, y: int| #[trigger] leaf_cell(leaf, x, y) && coord(axis, x, y) == c;
    assert(forall|c: int| -2 <= c <= 1 ==> (has(c) <==> (if axis == 0 {
        leaf & #[trigger] column_mask(c) != 0
    } else {
        leaf & row_mask(c) != 0
    })));
    let meets = |c: int|
        if axis == 0 {
            leaf & column_mask(c) != 0
        } else {
            leaf & row_mask(c) != 0
        };
    assert(has(-2) <==> meets(-2));
    assert(has(-1) <==> meets(-1));
    assert(has(0) <==> meets(0));
    assert(has(1) <==> meets(1));
    assert forall|x: int, y: int| #[trigger] t.cell(x, y) implies has(coord(axis, x, y)) && -2
        <= coord(axis, x, y) <= 1 by {
        assert(leaf_cell(leaf, x, y) && coord(axis, x, y) == coord(axis, x, y));
    }
    match found {
        None => {
            assert forall|x: int, y: int| !t.cell(x, y) by {
                if t.cell(x, y) {
                    assert(has(coord(axis, x, y)));
                }
            }
        },
        Some(edge) => {
            let c: int = if dir < 0 {
                edge as int
            } else {
                edge - 1
            };
            assert(has(c));
            let (x, y) = choose|x: int, y: int| #[trigger]
                leaf_cell(leaf, x, y) && coord(axis, x, y) == c;
            assert(t.cell(x, y));
            assert forall|u: int, v: int| #[trigger] t.cell(u, v) implies (if dir < 0 {
                edge <= coord(axis, u, v)
            } else {
                coord(axis, u, v) < edge
            }) by {
                assert(has(coord(axis, u, v)));
            }
        },
    }
}

/// Whether `(x, y)` keeps to `edge` on the side `dir` of the axis `axis`.
pub open spec fn within(axis: int, dir: int, edge: int, x: int, y: int) -> bool {
    if dir < 0 {
        edge <= coord(axis, x, y)
    } else {
        coord(axis, x, y) < edge
    }
}

/// Whether `(x, y)` lies at `edge` on the side `dir` of the axis `axis`.
pub open spec fn touches(axis: int, dir: int, edge: int, x: int, y: int) -> bool {
    if dir < 0 {
        coord(axis, x, y) == edge
    } else {
        coord(axis, x, y) == edge - 1
    }
}

/// What a scan of the child `i` says of the cells of `t` in the quarter
/// `i`: that there is none, or where their edge is, seen from the centre of
/// `t`.
pub open spec fn quarter_edge(t: Tree, i: int, axis: int, dir: int, edge: Option<int>) -> bool {
    match edge {
        None => forall|x: int, y: int| #[trigger] t.cell(x, y) ==> !in_quarter(i, x, y),
        Some(e) => (exists|x: int, y: int| #[trigger] t.cell(x, y) && touches(axis, dir, e, x, y))
            && (forall|x: int, y: int| #[trigger]
            t.cell(x, y) && in_quarter(i, x, y) ==> within(axis, dir, e, x, y)),
    }
}

/// An edge lies in the tree's square.
pub proof fn lemma_edge_range(t: Tree, axis: int, dir: int, edge: int)
    requires
        t.wf(),
        t.is_edge(axis, dir, edge),
    ensures
        dir < 0 ==> -2 * span(t.level()) <= edge < 2 * span(t.level()),
        dir >= 0 ==> -2 * span(t.level()) < edge <= 2 * span(t.level()),
{
    if dir < 0 {
        let (x, y) = choose|x: int, y: int| #[trigger] t.cell(x, y) && coord(axis, x, y) == edge;
        lemma_cell_covered(t, x, y);
    } else {
        let (x, y) = choose|x: int, y: int| #[trigger]
            t.cell(x, y) && coord(axis, x, y) == edge - 1;
        lemma_cell_covered(t, x, y);
    }
}

/// The scan of a child, seen from the centre of the tree.
pub proof fn lemma_quarter_edge(t: Tree, i: int, axis: int, dir: int, found: Option<i64>)
    requires
        t.wf(),
        t.level() >= 3,
        0 <= i < 4,
        axis == 0 || axis == 1,
        t.child(i).scanned(axis, dir, found),
    ensures
        quarter_edge(t, i, axis, dir, shifted(found, quarter_dir(axis, i) * span(t.level()))),
        found matches Some(e) ==> (dir < 0 ==> -span(t.level()) <= e < span(t.level())) && (dir
            >= 0 ==> -span(t.level()) < e <= span(t.level())),
{
    let c = t.child(i);
    let q = span(t.level());
    lemma_children(t);
    lemma_span((t.level() - 1) as nat);
    lemma_offsets(i, q);
    lemma_population_zero(c);
    match found {
        None => {
            assert forall|x: int, y: int| #[trigger] t.cell(x, y) implies !in_quarter(i, x, y) by {
                lemma_child_cell(t, i, x, y);
            }
        },
        Some(e) => {
            lemma_edge_range(c, axis, dir, e as int);
            let o = quarter_dir(axis, i) * q;
            let (x, y) = if dir < 0 {
                choose|x: int, y: int| #[trigger] c.cell(x, y) && coord(axis, x, y) == e
            } else {
                choose|x: int, y: int| #[trigger] c.cell(x, y) && coord(axis, x, y) == e - 1
            };
            lemma_child_cell(t, i, x, y);
            let wx = x + quarter_dx(i) * q;
            let wy = y + quarter_dy(i) * q;
            assert(t.cell(wx, wy) && touches(axis, dir, e + o, wx, wy));
            assert forall|u: int, v: int| #[trigger] t.cell(u, v) && in_quarter(
                i,
                u,
                v,
            ) implies within(axis, dir, e + o, u, v) by {
                lemma_child_cell(t, i, u, v);
                assert(c.cell(u - quarter_dx(i) * q, v - quarter_dy(i) * q));
            }
        },
    }
}

/// An edge moved by `offset`.
pub open spec fn shifted(found: Option<i64>, offset: int) -> Option<int> {
    match found {
        Some(e) => Some(e + offset),
        None => None,
    }
}

/// The edge of a tree from the edges of its four quarters: one of them,
/// and none of the others lies further out.
pub proof fn lemma_combine(
    t: Tree,
    axis: int,
    dir: int,
    e0: Option<int>,
    e1: Option<int>,
    e2: Option<int>,
    e3: Option<int>,
    edge: int,
)
    requires
        quarter_edge(t, 0, axis, dir, e0),
        quarter_edge(t, 1, axis, dir, e1),
        quarter_edge(t, 2, axis, dir, e2),
        quarter_edge(t, 3, axis, dir, e3),
        e0 == Some(edge) || e1 == Some(edge) || e2 == Some(edge) || e3 == Some(edge),
        e0 matches Some(e) ==> outer(dir, edge, e) == edge,
        e1 matches Some(e) ==> outer(dir, edge, e) == edge,
        e2 matches Some(e) ==> outer(dir, edge, e) == edge,
        e3 matches Some(e) ==> outer(dir, edge, e) == edge,
    ensures
        t.is_edge(axis, dir, edge),
{
    let (x, y) = choose|x: int, y: int| #[trigger] t.cell(x, y) && touches(axis, dir, edge, x, y);
    assert(t.cell(x, y) && touches(axis, dir, edge, x, y));
    assert forall|u: int, v: int| #[trigger] t.cell(u, v) implies within(axis, dir, edge, u, v) by {
        assert(in_quarter(0, u, v) || in_quarter(1, u, v) || in_quarter(2, u, v) || in_quarter(
            3,
            u,
            v,
        ));
    }
}

/// The scan of a tree from the scans of its children: the outer edge of the
/// two children on the side of the scan, moved outwards by half their side,
/// or else that of the two others, moved inwards.
pub proof fn lemma_node_edge(
    t: Tree,
    axis: int,
    dir: int,
    n1: int,
    n2: int,
    f1: int,
    f2: int,
    a: Option<i64>,
    b: Option<i64>,
    c: Option<i64>,
    d: Option<i64>,
    found: Option<i64>,
)
    requires
        t.wf(),
        t.level() >= 3,
        axis == 0 || axis == 1,
        dir == -1 || dir == 1,
        0 <= n1 < 4 && 0 <= n2 < 4 && 0 <= f1 < 4 && 0 <= f2 < 4,
        n1 != n2 && n1 != f1 && n1 != f2 && n2 != f1 && n2 != f2 && f1 != f2,
        quarter_dir(axis, n1) == dir && quarter_dir(axis, n2) == dir,
        quarter_dir(axis, f1) == -dir && quarter_dir(axis, f2) == -dir,
        t.child(n1).scanned(axis, dir, a),
        t.child(n2).scanned(axis, dir, b),
        t.child(f1).scanned(axis, dir, c),
        t.child(f2).scanned(axis, dir, d),
        shifted(found, 0) == (match outer_of(dir, a, b) {
            Some(e) => Some(e + dir * span(t.level())),
            None => match outer_of(dir, c, d) {
                Some(e) => Some(e - dir * span(t.level())),
                None => None,
            },
        }),
    ensures
        t.scanned(axis, dir, found),
{
    let q = span(t.level());
    lemma_children(t);
    lemma_span(t.level());
    lemma_quarter_edge(t, n1, axis, dir, a);
    lemma_quarter_edge(t, n2, axis, dir, b);
    lemma_quarter_edge(t, f1, axis, dir, c);
    lemma_quarter_edge(t, f2, axis, dir, d);
    lemma_offsets(n1, q);
    lemma_offsets(n2, q);
    lemma_offsets(f1, q);
    lemma_offsets(f2, q);
    let ea = shifted(a, dir * q);
    let eb = shifted(b, dir * q);
    let ec = shifted(c, -dir * q);
    let ed = shifted(d, -dir * q);
    assert(dir * q == (if dir < 0 {
        -q
    } else {
        q
    }));
    let e0 = if n1 == 0 {
        ea
    } else if n2 == 0 {
        eb
    } else if f1 == 0 {
        ec
    } else {
        ed
    };
    let e1 = if n1 == 1 {
        ea
    } else if n2 == 1 {
        eb
    } else if f1 == 1 {
        ec
    } else {
        ed
    };
    let e2 = if n1 == 2 {
        ea
    } else if n2 == 2 {
        eb
    } else if f1 == 2 {
        ec
    } else {
        ed
    };
    let e3 = if n1 == 3 {
        ea
    } else if n2 == 3 {
        eb
    } else if f1 == 3 {
        ec
    } else {
        ed
    };
    match found {
        Some(edge) => {
            lemma_combine(t, axis, dir, e0, e1, e2, e3, edge as int);
        },
        None => {},
    }
}

/// The outer of two edges.
pub fn pick(a: Option<i64>, b: Option<i64>, high: bool) -> (edge: Option<i64>)
    ensures
        edge == outer_of(
            if high {
                1
            } else {
                -1
            },
            a,
            b,
        ),
{
    match (a, b) {
        (Some(a), Some(b)) => if high {
            if a >= b {
                Some(a)
            } else {
                Some(b)
            }
        } else {
            if a <= b {
                Some(a)
            } else {
                Some(b)
            }
        },
        (Some(a), None) => Some(a),
        (None, Some(b)) => Some(b),
        (None, None) => None,
    }
}

impl World {
    /// The least x coordinate of a live cell of the node `node`.
    pub fn left_bound(&self, node: Node) -> (edge: Option<i64>)
        requires
            self.wf(),
            node_valid(self.arena(), node),
        ensures
            tree_of(self.arena(), node).scanned(0, -1, edge),
        decreases node_level(self.arena(), node),
    {
        let ghost t = tree_of(self.arena(), node);
        proof {
            self.lemma_wf();
            lemma_tree_of(self.arena(), node);
        }
        if self.node_population(node) == 0 {
            return None;
        }
        match node {
            Node::Leaf(leaf) => {
                let edge = if leaf & 0x8888 != 0 {
                    Some(-2)
                } else if leaf & 0x4444 != 0 {
                    Some(-1)
                } else if leaf & 0x2222 != 0 {
                    Some(0)
                } else if leaf & 0x1111 != 0 {
                    Some(1)
                } else {
                    None
                };
                proof {
                    lemma_leaf_edge(leaf, 0, -1, edge);
                }
                edge
            },
            Node::NodeId(id) => {
                proof {
                    lemma_node_children(self.arena(), id);
                }
                let node_size = node_size(self.node_level(node));
                let data = self.index(id);
                let a = self.left_bound(data.nw());
                let b = self.left_bound(data.sw());
                proof {
                    lemma_quarter_edge(t, 0, 0, -1, a);
                    lemma_quarter_edge(t, 2, 0, -1, b);
                }
                match pick(a, b, false) {
                    Some(min) => {
                        proof {
                            lemma_near_edge(
                                t,
                                0,
                                -1,
                                0,
                                2,
                                1,
                                3,
                                a,
                                b,
                                Some((min - node_size) as i64),
                            );
                        }
                        Some(min - node_size)
                    },
                    None => {
                        let c = self.left_bound(data.ne());
                        let d = self.left_bound(data.se());
                        proof {
                            lemma_quarter_edge(t, 1, 0, -1, c);
                            lemma_quarter_edge(t, 3, 0, -1, d);
                        }
                        let edge = match pick(c, d, false) {
                            Some(min) => Some(min + node_size),
                            None => None,
                        };
                        proof {
                            lemma_node_edge(t, 0, -1, 0, 2, 1, 3, a, b, c, d, edge);
                        }
                        edge
                    },
                }
            },
        }
    }

    /// One more than the greatest x coordinate of a live cell of the node
    /// `node`.
    pub fn right_bound(&self, node: Node) -> (edge: Option<i64>)
        requires
            self.wf(),
            node_valid(self.arena(), node),
        ensures
            tree_of(self.arena(), node).scanned(0, 1, edge),
        decreases node_level(self.arena(), node),
    {
        let ghost t = tree_of(self.arena(), node);
        proof {
            self.lemma_wf();
            lemma_tree_of(self.arena(), node);
        }
        if self.node_population(node) == 0 {
            return None;
        }
        match node {
            Node::Leaf(leaf) => {
                let edge = if leaf & 0x1111 != 0 {
                    Some(2)
                } else if leaf & 0x2222 != 0 {
                    Some(1)
                } else if leaf & 0x4444 != 0 {
                    Some(0)
                } else if leaf & 0x8888 != 0 {
                    Some(-1)
                } else {
                    None
                };
                proof {
                    lemma_leaf_edge(leaf, 0, 1, edge);
                }
                edge
            },
            Node::NodeId(id) => {
                proof {
                    lemma_node_children(self.arena(), id);
                }
                let node_size = node_size(self.node_level(node));
                let data = self.index(id);
                let a = self.right_bound(data.ne());
                let b = self.right_bound(data.se());
                proof {
                    lemma_quarter_edge(t, 1, 0, 1, a);
                    lemma_quarter_edge(t, 3, 0, 1, b);
                }
                match pick(a, b, true) {
                    Some(max) => {
                        proof {
                            lemma_near_edge(
                                t,
                                0,
                                1,
                                1,
                                3,
                                0,
                                2,
                                a,
                                b,
                                Some((max + node_size) as i64),
                            );
                        }
                        Some(max + node_size)
                    },
                    None => {
                        let c = self.right_bound(data.nw());
                        let d = self.right_bound(data.sw());
                        proof {
                            lemma_quarter_edge(t, 0, 0, 1, c);
                            lemma_quarter_edge(t, 2, 0, 1, d);
                        }
                        let edge = match pick(c, d, true) {
                            Some(max) => Some(max - node_size),
                            None => None,
                        };
                        proof {
                            lemma_node_edge(t, 0, 1, 1, 3, 0, 2, a, b, c, d, edge);
                        }
                        edge
                    },
                }
            },
        }
    }

    /// The least y coordinate of a live cell of the node `node`.
    pub fn top_bound(&self, node: Node) -> (edge: Option<i64>)
        requires
            self.wf(),
            node_valid(self.arena(), node),
        ensures
            tree_of(self.arena(), node).scanned(1, -1, edge),
        decreases node_level(self.arena(), node),
    {
        let ghost t = tree_of(self.arena(), node);
        proof {
            self.lemma_wf();
            lemma_tree_of(self.arena(), node);
        }
        if self.node_population(node) == 0 {
            return None;
        }
        match node {
            Node::Leaf(leaf) => {
                let edge = if leaf & 0xf000 != 0 {
                    Some(-2)
                } else if leaf & 0x0f00 != 0 {
                    Some(-1)
                } else if leaf & 0x00f0 != 0 {
                    Some(0)
                } else if leaf & 0x000f != 0 {
                    Some(1)
                } else {
                    None
                };
                proof {
                    lemma_leaf_edge(leaf, 1, -1, edge);
                }
                edge
            },
            Node::NodeId(id) => {
                proof {
                    lemma_node_children(self.arena(), id);
                }
                let node_size = node_size(self.node_level(node));
                let data = self.index(id);
                let a = self.top_bound(data.nw());
                let b = self.top_bound(data.ne());
                proof {
                    lemma_quarter_edge(t, 0, 1, -1, a);
                    lemma_quarter_edge(t, 1, 1, -1, b);
                }
                match pick(a, b, false) {
                    Some(min) => {
                        proof {
                            lemma_near_edge(
                                t,
                                1,
                                -1,
                                0,
                                1,
                                2,
                                3,
                                a,
                                b,
                                Some((min - node_size) as i64),
                            );
                        }
                        Some(min - node_size)
                    },
                    None => {
                        let c = self.top_bound(data.sw());
                        let d = self.top_bound(data.se());
                        proof {
                            lemma_quarter_edge(t, 2, 1, -1, c);
                            lemma_quarter_edge(t, 3, 1, -1, d);
                        }
                        let edge = match pick(c, d, false) {
                            Some(min) => Some(min + node_size),
                            None => None,
                        };
                        proof {
                            lemma_node_edge(t, 1, -1, 0, 1, 2, 3, a, b, c, d, edge);
                        }
                        edge
                    },
                }
            },
        }
    }

    /// One more than the greatest y coordinate of a live cell of the node
    /// `node`.
    pub fn bottom_bound(&self, node: Node) -> (edge: Option<i64>)
        requires
            self.wf(),
            node_valid(self.arena(), node),
        ensures
            tree_of(self.arena(), node).scanned(1, 1, edge),
        decreases node_level(self.arena(), node),
    {
        let ghost t = tree_of(self.arena(), node);
        proof {
            self.lemma_wf();
            lemma_tree_of(self.arena(), node);
        }
        if self.node_population(node) == 0 {
            return None;
        }
        match node {
            Node::Leaf(leaf) => {
                let edge = if leaf & 0x000f != 0 {
                    Some(2)
                } else if leaf & 0x00f0 != 0 {
                    Some(1)
                } else if leaf & 0x0f00 != 0 {
                    Some(0)
                } else if leaf & 0xf000 != 0 {
                    Some(-1)
                } else {
                    None
                };
                proof {
                    lemma_leaf_edge(leaf, 1, 1, edge);
                }
                edge
            },
            Node::NodeId(id) => {
                proof {
                    lemma_node_children(self.arena(), id);
                }
                let node_size = node_size(self.node_level(node));
                let data = self.index(id);
                let a = self.bottom_bound(data.sw());
                let b = self.bottom_bound(data.se());
                proof {
                    lemma_quarter_edge(t, 2, 1, 1, a);
                    lemma_quarter_edge(t, 3, 1, 1, b);
                }
                match pick(a, b, true) {
                    Some(max) => {
                        proof {
                            lemma_near_edge(
                                t,
                                1,
                                1,
                                2,
                                3,
                                0,
                                1,
                                a,
                                b,
                                Some((max + node_size) as i64),
                            );
                        }
                        Some(max + node_size)
                    },
                    None => {
                        let c = self.bottom_bound(data.nw());
                        let d = self.bottom_bound(data.ne());
                        proof {
                            lemma_quarter_edge(t, 0, 1, 1, c);
                            lemma_quarter_edge(t, 1, 1, 1, d);
                        }
                        let edge = match pick(c, d, true) {
                            Some(max) => Some(max - node_size),
                            None => None,
                        };
                        proof {
                            lemma_node_edge(t, 1, 1, 2, 3, 0, 1, a, b, c, d, edge);
                        }
                        edge
                    },
                }
            },
        }
    }

    /// The tight bounding box `(left, right, top, bottom)` of the live cells,
    /// half-open on the right and at the bottom; nothing for a world without
    /// live cells.
    pub fn bound(&self) -> (bound: Option<(i64, i64, i64, i64)>)
        requires
            self.wf(),
        ensures
            bound is None <==> self.tree().population() == 0,
            bound matches Some(b) ==> self.tree().bounded(b),
    {
        proof {
            self.lemma_wf();
        }
        match (
            self.left_bound(self.root),
            self.right_bound(self.root),
            self.top_bound(self.root),
            self.bottom_bound(self.root),
        ) {
            (Some(left), Some(right), Some(top), Some(bottom)) => Some((left, right, top, bottom)),
            _ => None,
        }
    }
}

/// The scan of a tree from the scans of the two children on the side of the
/// scan, if one of them has a live cell: their outer edge, moved outwards by
/// half their side.
pub proof fn lemma_near_edge(
    t: Tree,
    axis: int,
    dir: int,
    n1: int,
    n2: int,
    f1: int,
    f2: int,
    a: Option<i64>,
    b: Option<i64>,
    found: Option<i64>,
)
    requires
        t.wf(),
        t.level() >= 3,
        axis == 0 || axis == 1,
        dir == -1 || dir == 1,
        0 <= n1 < 4 && 0 <= n2 < 4 && 0 <= f1 < 4 && 0 <= f2 < 4,
        n1 != n2 && n1 != f1 && n1 != f2 && n2 != f1 && n2 != f2 && f1 != f2,
        quarter_dir(axis, n1) == dir && quarter_dir(axis, n2) == dir,
        quarter_dir(axis, f1) == -dir && quarter_dir(axis, f2) == -dir,
        t.child(n1).scanned(axis, dir, a),
        t.child(n2).scanned(axis, dir, b),
        outer_of(dir, a, b) matches Some(e) && shifted(found, 0) == Some(
            e + dir * span(t.level()),
        ),
    ensures
        t.scanned(axis, dir, found),
{
    let q = span(t.level());
    lemma_children(t);
    lemma_span(t.level());
    lemma_quarter_edge(t, n1, axis, dir, a);
    lemma_quarter_edge(t, n2, axis, dir, b);
    lemma_offsets(n1, q);
    lemma_offsets(n2, q);
    lemma_offsets(f1, q);
    lemma_offsets(f2, q);
    assert(dir * q == (if dir < 0 {
        -q
    } else {
        q
    }));
    let edge = found->Some_0 as int;
    let (x, y) = choose|x: int, y: int| #[trigger] t.cell(x, y) && touches(axis, dir, edge, x, y);
    assert(t.cell(x, y) && touches(axis, dir, edge, x, y));
    assert forall|u: int, v: int| #[trigger] t.cell(u, v) implies within(axis, dir, edge, u, v) by {
        assert(in_quarter(n1, u, v) || in_quarter(n2, u, v) || in_quarter(f1, u, v) || in_quarter(
            f2,
            u,
            v,
        ));
        if in_quarter(f1, u, v) || in_quarter(f2, u, v) {
            assert(dir < 0 ==> coord(axis, u, v) >= 0);
            assert(dir > 0 ==> coord(axis, u, v) < 0);
        }
    }
}

} // verus!
