//! The garbage collector: marks what the root and the cached empty nodes
//! reach, through children and caches, and sweeps the rest.

use vstd::prelude::*;
use crate::arena::{
    slab_get, slab_keys, slab_len, slab_replace, slab_retain_marked, table_clear, table_insert,
};
use crate::graph::{
    arena_wf, child_ok, entry_wf, extends, lemma_frame, node_level, node_valid, tree_of, Arena,
};
use crate::node::{ChildKey, Node, NodeData, NodeId};
use crate::world::{cache_wf, empties_wf, empty_link, store_wf, table_wf, unmarked, World};

verus! {

/// The arena holds the record under `id`, and the record is marked.
pub open spec fn marked(a: Arena, id: usize) -> bool {
    a.contains_key(id) && a[id].gc_mark
}

/// A leaf, or a marked node.
pub open spec fn node_marked(a: Arena, node: Node) -> bool {
    match node {
        Node::Leaf(_) => true,
        Node::NodeId(id) => marked(a, id.0),
    }
}

/// An empty cache, or one that holds a leaf or a marked node.
pub open spec fn cache_marked(a: Arena, cache: Option<Node>) -> bool {
    match cache {
        Some(node) => node_marked(a, node),
        None => true,
    }
}

/// The children of the record under `id` and what its caches hold are
/// marked.
pub open spec fn closed(a: Arena, id: usize) -> bool {
    let d = a[id];
    &&& node_marked(a, d.children.nw())
    &&& node_marked(a, d.children.ne())
    &&& node_marked(a, d.children.sw())
    &&& node_marked(a, d.children.se())
    &&& cache_marked(a, d.cache_step)
    &&& cache_marked(a, d.cache_step_max)
}

/// Every marked record of level `level` or less is closed.
pub open spec fn closed_below(a: Arena, level: nat) -> bool {
    forall|id: usize| marked(a, id) && a[id].level <= level ==> #[trigger] closed(a, id)
}

/// What the caches of the record under `id` hold are valid nodes one level
/// down.
pub open spec fn cache_ok(a: Arena, id: usize) -> bool {
    let d = a[id];
    &&& d.cache_step matches Some(r) ==> child_ok(a, r, d.level)
    &&& d.cache_step_max matches Some(r) ==> child_ok(a, r, d.level)
}

/// The arena is a well-formed quadtree store whose caches hold valid nodes.
pub open spec fn mark_ok(a: Arena) -> bool {
    &&& arena_wf(a)
    &&& forall|id: usize| a.contains_key(id) ==> #[trigger] cache_ok(a, id)
}

/// `b` holds the records of `a` under the same keys, equal but for the
/// marks, and every record marked in `a` is marked in `b`.
pub open spec fn marks_grow(a: Arena, b: Arena) -> bool {
    forall|id: usize|
        #![trigger a.contains_key(id)]
        #![trigger b.contains_key(id)]
        a.contains_key(id) == b.contains_key(id) && (a.contains_key(id) ==> b[id].level
            == a[id].level && b[id].children == a[id].children && b[id].population
            == a[id].population && b[id].cache_step == a[id].cache_step && b[id].cache_step_max
            == a[id].cache_step_max && (a[id].gc_mark ==> b[id].gc_mark))
}

/// Whether `target` is `node` or is reached from it, through children and
/// caches, within `level` levels.
pub open spec fn reaches(a: Arena, node: Node, target: usize, level: nat) -> bool
    decreases level,
{
    match node {
        Node::Leaf(_) => false,
        Node::NodeId(id) => id.0 == target || (level > 2 && {
            let d = a[id.0];
            let l = (level - 1) as nat;
            ||| reaches(a, d.children.nw(), target, l)
            ||| reaches(a, d.children.ne(), target, l)
            ||| reaches(a, d.children.sw(), target, l)
            ||| reaches(a, d.children.se(), target, l)
            ||| (d.cache_step matches Some(r) && reaches(a, r, target, l))
            ||| (d.cache_step_max matches Some(r) && reaches(a, r, target, l))
        }),
    }
}

/// Whether the node `target` is `node` or is reached from it through
/// children and caches.
pub open spec fn reachable(a: Arena, node: Node, target: usize) -> bool {
    reaches(a, node, target, node_level(a, node))
}

/// A node reaches itself and what its children and its caches reach.
pub proof fn lemma_reachable(a: Arena, id: NodeId, target: usize)
    requires
        mark_ok(a),
        a.contains_key(id.0),
    ensures
        reachable(a, Node::NodeId(id), target) == (id.0 == target || reachable(
            a,
            a[id.0].children.nw(),
            target,
        ) || reachable(a, a[id.0].children.ne(), target) || reachable(
            a,
            a[id.0].children.sw(),
            target,
        ) || reachable(a, a[id.0].children.se(), target) || (a[id.0].cache_step matches Some(r)
            && reachable(a, r, target)) || (a[id.0].cache_step_max matches Some(r) && reachable(
            a,
            r,
            target,
        ))),
        forall|leaf: u16| !reachable(a, Node::Leaf(leaf), target),
{
    assert(entry_wf(a, id.0));
    assert(cache_ok(a, id.0));
}

/// What a node reaches is in the arena, at the node's level or below.
pub proof fn lemma_reach_valid(a: Arena, node: Node, target: usize)
    requires
        mark_ok(a),
        node_valid(a, node),
        reachable(a, node, target),
    ensures
        a.contains_key(target),
        a[target].level <= node_level(a, node),
    decreases node_level(a, node),
{
    match node {
        Node::Leaf(_) => {},
        Node::NodeId(id) => {
            lemma_reachable(a, id, target);
            assert(entry_wf(a, id.0));
            assert(cache_ok(a, id.0));
            let d = a[id.0];
            if id.0 == target {
            } else if reachable(a, d.children.nw(), target) {
                lemma_reach_valid(a, d.children.nw(), target);
            } else if reachable(a, d.children.ne(), target) {
                lemma_reach_valid(a, d.children.ne(), target);
            } else if reachable(a, d.children.sw(), target) {
                lemma_reach_valid(a, d.children.sw(), target);
            } else if reachable(a, d.children.se(), target) {
                lemma_reach_valid(a, d.children.se(), target);
            } else if d.cache_step matches Some(r) && reachable(a, r, target) {
                lemma_reach_valid(a, d.cache_step->Some_0, target);
            } else {
                lemma_reach_valid(a, d.cache_step_max->Some_0, target);
            }
        },
    }
}

/// Marks do not change what a node reaches.
pub proof fn lemma_reach_same(a: Arena, b: Arena, node: Node, target: usize)
    requires
        mark_ok(a),
        marks_grow(a, b),
        node_valid(a, node),
    ensures
        reachable(b, node, target) == reachable(a, node, target),
    decreases node_level(a, node),
{
    match node {
        Node::Leaf(_) => {},
        Node::NodeId(id) => {
            lemma_marks_grow(a, b);
            lemma_reachable(a, id, target);
            lemma_reachable(b, id, target);
            assert(entry_wf(a, id.0));
            assert(cache_ok(a, id.0));
            assert(b.contains_key(id.0));
            let d = a[id.0];
            lemma_reach_same(a, b, d.children.nw(), target);
            lemma_reach_same(a, b, d.children.ne(), target);
            lemma_reach_same(a, b, d.children.sw(), target);
            lemma_reach_same(a, b, d.children.se(), target);
            match d.cache_step {
                Some(r) => {
                    lemma_reach_same(a, b, r, target);
                },
                None => {},
            }
            match d.cache_step_max {
                Some(r) => {
                    lemma_reach_same(a, b, r, target);
                },
                None => {},
            }
        },
    }
}

/// An arena that differs from a well-formed one in the marks alone is well
/// formed, and what was closed in the one is closed in the other.
pub proof fn lemma_marks_grow(a: Arena, b: Arena)
    requires
        mark_ok(a),
        marks_grow(a, b),
    ensures
        mark_ok(b),
        extends(a, b),
        forall|node: Node|
            #![trigger node_valid(b, node)]
            #![trigger node_level(b, node)]
            node_valid(a, node) ==> node_valid(b, node) && node_level(b, node) == node_level(
                a,
                node,
            ),
        forall|id: usize| marked(a, id) && closed(a, id) ==> #[trigger] closed(b, id),
        forall|id: usize| marked(a, id) ==> #[trigger] marked(b, id),
{
    assert forall|id: usize| b.contains_key(id) implies #[trigger] entry_wf(b, id) by {
        assert(a.contains_key(id));
        assert(entry_wf(a, id));
    }
    assert forall|id: usize| b.contains_key(id) implies #[trigger] cache_ok(b, id) by {
        assert(a.contains_key(id));
        assert(cache_ok(a, id));
    }
    assert forall|node: Node|
        #![trigger node_valid(b, node)]
        #![trigger node_level(b, node)]
        node_valid(a, node) implies node_valid(b, node) && node_level(b, node) == node_level(
        a,
        node,
    ) by {}
    assert forall|id: usize| marked(a, id) && closed(a, id) implies #[trigger] closed(b, id) by {
        assert(entry_wf(a, id));
        assert(cache_ok(a, id));
    }
}

/// What a marked node reaches is marked, if every marked node at its level
/// or below is closed.
pub proof fn lemma_marked_reach(a: Arena, node: Node, target: usize)
    requires
        mark_ok(a),
        node_valid(a, node),
        node_marked(a, node),
        closed_below(a, node_level(a, node)),
        reachable(a, node, target),
    ensures
        marked(a, target),
    decreases node_level(a, node),
{
    match node {
        Node::Leaf(_) => {},
        Node::NodeId(id) => {
            lemma_reachable(a, id, target);
            assert(entry_wf(a, id.0));
            assert(cache_ok(a, id.0));
            assert(closed(a, id.0));
            let d = a[id.0];
            assert(closed_below(a, (d.level - 1) as nat)) by {
                assert forall|i: usize| marked(a, i) && a[i].level <= d.level - 1 implies
                    #[trigger] closed(a, i) by {}
            }
            if id.0 == target {
            } else if reachable(a, d.children.nw(), target) {
                lemma_marked_reach(a, d.children.nw(), target);
            } else if reachable(a, d.children.ne(), target) {
                lemma_marked_reach(a, d.children.ne(), target);
            } else if reachable(a, d.children.sw(), target) {
                lemma_marked_reach(a, d.children.sw(), target);
            } else if reachable(a, d.children.se(), target) {
                lemma_marked_reach(a, d.children.se(), target);
            } else if d.cache_step matches Some(r) && reachable(a, r, target) {
                lemma_marked_reach(a, d.cache_step->Some_0, target);
            } else {
                lemma_marked_reach(a, d.cache_step_max->Some_0, target);
            }
        },
    }
}

/// What a cache holds, or a leaf in place of nothing.
pub open spec fn cached(cache: Option<Node>) -> Node {
    match cache {
        Some(node) => node,
        None => Node::Leaf(0),
    }
}

impl World {
    /// Marks the node `node` and what it reaches through children and
    /// caches, and nothing else.
    pub fn mark_gc(&mut self, node: Node)
        requires
            mark_ok(old(self).arena()),
            node_valid(old(self).arena(), node),
            closed_below(old(self).arena(), node_level(old(self).arena(), node)),
        ensures
            mark_ok(final(self).arena()),
            marks_grow(old(self).arena(), final(self).arena()),
            closed_below(final(self).arena(), node_level(old(self).arena(), node)),
            forall|t: usize| #[trigger]
                marked(final(self).arena(), t) <==> marked(old(self).arena(), t) || reachable(
                    old(self).arena(),
                    node,
                    t,
                ),
            final(self).rule == old(self).rule,
            final(self).step == old(self).step,
            final(self).generation == old(self).generation,
            final(self).root == old(self).root,
            final(self).empty_nodes == old(self).empty_nodes,
            final(self).hash_table == old(self).hash_table,
            final(self).gc_threshold == old(self).gc_threshold,
        decreases node_level(old(self).arena(), node),
    {
        let ghost a0 = self.arena();
        match node {
            Node::Leaf(_) => {
                proof {
                    lemma_marks_grow(a0, a0);
                }
            },
            Node::NodeId(id) => {
                let data = self.index(id);
                let ghost l = data.level as nat;
                proof {
                    lemma_marks_grow(a0, a0);
                    assert(entry_wf(a0, id.0));
                    assert(cache_ok(a0, id.0));
                }
                if data.gc_mark {
                    proof {
                        assert forall|t: usize| reachable(a0, node, t) implies marked(a0, t) by {
                            lemma_marked_reach(a0, node, t);
                        }
                    }
                } else {
                    let mut marked_data = data;
                    marked_data.gc_mark = true;
                    slab_replace(&mut self.node_data, id.0, marked_data);
                    let ghost a1 = self.arena();
                    proof {
                        lemma_marks_grow(a0, a1);
                        assert forall|t: usize| marked(a1, t) && a1[t].level <= l
                            - 1 implies #[trigger] closed(a1, t) by {
                            assert(closed(a0, t));
                        }
                    }
                    let s1 = data.nw();
                    let s2 = data.ne();
                    let s3 = data.sw();
                    let s4 = data.se();
                    let s5 = match data.cache_step {
                        Some(r) => r,
                        None => Node::Leaf(0),
                    };
                    let s6 = match data.cache_step_max {
                        Some(r) => r,
                        None => Node::Leaf(0),
                    };
                    self.mark_gc(s1);
                    let ghost a2 = self.arena();
                    proof {
                        lemma_marks_grow(a1, a2);
                    }
                    self.mark_gc(s2);
                    let ghost a3 = self.arena();
                    proof {
                        lemma_marks_grow(a2, a3);
                    }
                    self.mark_gc(s3);
                    let ghost a4 = self.arena();
                    proof {
                        lemma_marks_grow(a3, a4);
                    }
                    self.mark_gc(s4);
                    let ghost a5 = self.arena();
                    proof {
                        lemma_marks_grow(a4, a5);
                        if s5 is Leaf {
                            assert(closed_below(a5, 2)) by {
                                assert forall|t: usize| marked(a5, t) && a5[t].level
                                    <= 2 implies #[trigger] closed(a5, t) by {
                                    assert(entry_wf(a5, t));
                                }
                            }
                        }
                    }
                    self.mark_gc(s5);
                    let ghost a6 = self.arena();
                    proof {
                        lemma_marks_grow(a5, a6);
                        if s6 is Leaf {
                            assert(closed_below(a6, 2)) by {
                                assert forall|t: usize| marked(a6, t) && a6[t].level
                                    <= 2 implies #[trigger] closed(a6, t) by {
                                    assert(entry_wf(a6, t));
                                }
                            }
                        }
                    }
                    self.mark_gc(s6);
                    let ghost a7 = self.arena();
                    proof {
                        lemma_marks_grow(a6, a7);
                        lemma_mark_step(a0, a1, a2, a3, a4, a5, a6, a7, id);
                    }
                }
            },
        }
    }
}

/// What marking a node amounts to, from what setting its mark and marking
/// its six successors amount to.
pub proof fn lemma_mark_step(
    a0: Arena,
    a1: Arena,
    a2: Arena,
    a3: Arena,
    a4: Arena,
    a5: Arena,
    a6: Arena,
    a7: Arena,
    id: NodeId,
)
    requires
        mark_ok(a0),
        a0.contains_key(id.0),
        !a0[id.0].gc_mark,
        closed_below(a0, a0[id.0].level as nat),
        a1 == a0.insert(id.0, NodeData { gc_mark: true, ..a0[id.0] }),
        marks_grow(a1, a2),
        marks_grow(a2, a3),
        marks_grow(a3, a4),
        marks_grow(a4, a5),
        marks_grow(a5, a6),
        marks_grow(a6, a7),
        closed_below(a7, (a0[id.0].level - 1) as nat),
        forall|t: usize| #[trigger]
            marked(a2, t) <==> marked(a1, t) || reachable(a1, a0[id.0].children.nw(), t),
        forall|t: usize| #[trigger]
            marked(a3, t) <==> marked(a2, t) || reachable(a2, a0[id.0].children.ne(), t),
        forall|t: usize| #[trigger]
            marked(a4, t) <==> marked(a3, t) || reachable(a3, a0[id.0].children.sw(), t),
        forall|t: usize| #[trigger]
            marked(a5, t) <==> marked(a4, t) || reachable(a4, a0[id.0].children.se(), t),
        forall|t: usize| #[trigger]
            marked(a6, t) <==> marked(a5, t) || reachable(a5, cached(a0[id.0].cache_step), t),
        forall|t: usize| #[trigger]
            marked(a7, t) <==> marked(a6, t) || reachable(a6, cached(a0[id.0].cache_step_max), t),
    ensures
        marks_grow(a0, a7),
        closed_below(a7, a0[id.0].level as nat),
        forall|t: usize| #[trigger]
            marked(a7, t) <==> marked(a0, t) || reachable(a0, Node::NodeId(id), t),
{
    let d = a0[id.0];
    let s1 = d.children.nw();
    let s2 = d.children.ne();
    let s3 = d.children.sw();
    let s4 = d.children.se();
    let s5 = cached(d.cache_step);
    let s6 = cached(d.cache_step_max);
    assert(entry_wf(a0, id.0));
    assert(cache_ok(a0, id.0));
    assert(marks_grow(a0, a1));
    lemma_marks_grow(a0, a1);
    lemma_marks_grow(a1, a2);
    lemma_marks_grow(a2, a3);
    lemma_marks_grow(a3, a4);
    lemma_marks_grow(a4, a5);
    lemma_marks_grow(a5, a6);
    lemma_marks_grow(a6, a7);
    assert(marks_grow(a0, a2));
    assert(marks_grow(a0, a3));
    assert(marks_grow(a0, a4));
    assert(marks_grow(a0, a5));
    assert(marks_grow(a0, a6));
    assert(marks_grow(a0, a7));
    lemma_marks_grow(a0, a7);
    assert forall|t: usize| #[trigger]
        marked(a7, t) <==> marked(a0, t) || reachable(a0, Node::NodeId(id), t) by {
        lemma_reachable(a0, id, t);
        lemma_reach_same(a0, a1, s1, t);
        lemma_reach_same(a0, a2, s2, t);
        lemma_reach_same(a0, a3, s3, t);
        lemma_reach_same(a0, a4, s4, t);
        lemma_reach_same(a0, a5, s5, t);
        lemma_reach_same(a0, a6, s6, t);
        assert(marked(a1, t) <==> marked(a0, t) || t == id.0);
        assert(marked(a2, t) <==> marked(a1, t) || reachable(a0, s1, t));
        assert(marked(a3, t) <==> marked(a2, t) || reachable(a0, s2, t));
        assert(marked(a4, t) <==> marked(a3, t) || reachable(a0, s3, t));
        assert(marked(a5, t) <==> marked(a4, t) || reachable(a0, s4, t));
        assert(marked(a6, t) <==> marked(a5, t) || reachable(a0, s5, t));
        assert(marked(a7, t) <==> marked(a6, t) || reachable(a0, s6, t));
    }
    assert forall|t: usize| marked(a7, t) && a7[t].level <= d.level implies #[trigger] closed(
        a7,
        t,
    ) by {
        if a7[t].level <= d.level - 1 {
        } else if t == id.0 {
            lemma_self_marked(a0, a1, a2, a7, s1);
            lemma_self_marked(a0, a2, a3, a7, s2);
            lemma_self_marked(a0, a3, a4, a7, s3);
            lemma_self_marked(a0, a4, a5, a7, s4);
            lemma_self_marked(a0, a5, a6, a7, s5);
            lemma_self_marked(a0, a6, a7, a7, s6);
        } else {
            lemma_reachable(a0, id, t);
            if marked(a0, t) {
                assert(closed(a0, t));
            } else {
                assert(reachable(a0, Node::NodeId(id), t));
                if reachable(a0, s1, t) {
                    lemma_reach_valid(a0, s1, t);
                } else if reachable(a0, s2, t) {
                    lemma_reach_valid(a0, s2, t);
                } else if reachable(a0, s3, t) {
                    lemma_reach_valid(a0, s3, t);
                } else if reachable(a0, s4, t) {
                    lemma_reach_valid(a0, s4, t);
                } else if reachable(a0, s5, t) {
                    lemma_reach_valid(a0, s5, t);
                } else {
                    lemma_reach_valid(a0, s6, t);
                }
            }
        }
    }
}

/// A node that was marked along the way is marked at the end.
pub proof fn lemma_self_marked(a0: Arena, a: Arena, b: Arena, last: Arena, node: Node)
    requires
        mark_ok(a0),
        node_valid(a0, node),
        marks_grow(a0, a),
        marks_grow(b, last),
        forall|t: usize| #[trigger] marked(b, t) <==> marked(a, t) || reachable(a, node, t),
    ensures
        node_marked(last, node),
{
    match node {
        Node::Leaf(_) => {},
        Node::NodeId(id) => {
            lemma_marks_grow(a0, a);
            assert(a.contains_key(id.0));
            lemma_reachable(a, id, id.0);
            assert(marked(b, id.0));
        },
    }
}

/// The children of the record under `id` and what its caches hold are in
/// the arena.
pub open spec fn sealed(a: Arena, id: usize) -> bool {
    let d = a[id];
    &&& node_valid(a, d.children.nw())
    &&& node_valid(a, d.children.ne())
    &&& node_valid(a, d.children.sw())
    &&& node_valid(a, d.children.se())
    &&& d.cache_step matches Some(r) ==> node_valid(a, r)
    &&& d.cache_step_max matches Some(r) ==> node_valid(a, r)
}

/// A part of a well-formed store that holds, with each record, the record's
/// children and what its caches hold, is a well-formed store, and its nodes
/// stand for the trees that they stood for.
pub proof fn lemma_sweep(
    a: Arena,
    m: Map<ChildKey, usize>,
    table: Seq<u8>,
    step: nat,
    e: Seq<Node>,
    b: Arena,
    n: Map<ChildKey, usize>,
)
    requires
        store_wf(a, m, table, step, e),
        forall|id: usize| #[trigger] b.contains_key(id) ==> a.contains_key(id) && b[id] == a[id],
        forall|id: usize| b.contains_key(id) ==> #[trigger] sealed(b, id),
        forall|i: int| 0 <= i < e.len() ==> node_valid(b, #[trigger] e[i]),
        table_wf(b, n),
    ensures
        store_wf(b, n, table, step, e),
        extends(b, a),
        forall|node: Node| node_valid(b, node) ==> #[trigger] tree_of(b, node) == tree_of(a, node),
{
    assert(extends(b, a));
    assert forall|id: usize| b.contains_key(id) implies #[trigger] entry_wf(b, id) by {
        assert(entry_wf(a, id));
        assert(sealed(b, id));
    }
    assert forall|node: Node| node_valid(b, node) implies #[trigger] tree_of(b, node) == tree_of(
        a,
        node,
    ) by {
        lemma_frame(b, a, node);
    }
    assert forall|id: usize| b.contains_key(id) implies #[trigger] cache_wf(
        b,
        table,
        step,
        id,
    ) by {
        assert(cache_wf(a, table, step, id));
        assert(sealed(b, id));
        lemma_frame(b, a, Node::NodeId(NodeId(id)));
        match a[id].cache_step {
            Some(r) => {
                lemma_frame(b, a, r);
            },
            None => {},
        }
        match a[id].cache_step_max {
            Some(r) => {
                lemma_frame(b, a, r);
            },
            None => {},
        }
    }
    assert forall|id: usize| b.contains_key(id) implies #[trigger] unmarked(b, id) by {
        assert(unmarked(a, id));
    }
    assert forall|i: int| 1 <= i < e.len() implies #[trigger] empty_link(b, e, i) by {
        assert(empty_link(a, e, i));
        assert(node_valid(b, e[i]));
    }
}

/// The last cached empty node reaches every cached empty node.
pub proof fn lemma_empties_reach(a: Arena, e: Seq<Node>, i: int, j: int)
    requires
        mark_ok(a),
        empties_wf(a, e),
        1 <= i <= j < e.len(),
    ensures
        e[i] is NodeId,
        e[j] is NodeId,
        reachable(a, e[j], e[i]->NodeId_0.0),
    decreases j - i,
{
    assert(empty_link(a, e, i));
    assert(empty_link(a, e, j));
    let id = e[j]->NodeId_0;
    lemma_reachable(a, id, e[i]->NodeId_0.0);
    if i < j {
        lemma_empties_reach(a, e, i, j - 1);
    }
}

impl World {
    /// Whether the root or the last cached empty node reaches the node
    /// `id` through children and caches.
    pub open spec fn live(&self, id: usize) -> bool {
        reachable(self.arena(), self.root, id) || (self.empty_nodes@.len() > 0 && reachable(
            self.arena(),
            self.empty_nodes@.last(),
            id,
        ))
    }

    /// Removes from the arena every node that neither the root nor a cached
    /// empty node reaches through children and caches. What is left stands
    /// for what it stood for: no cell, no cache and no counter changes.
    pub fn garbage_collect(&mut self)
        requires
            old(self).wf(),
        ensures
            final(self).wf(),
            final(self).rule == old(self).rule,
            final(self).step == old(self).step,
            final(self).generation == old(self).generation,
            final(self).root == old(self).root,
            final(self).empty_nodes == old(self).empty_nodes,
            final(self).gc_threshold == old(self).gc_threshold,
            final(self).tree() == old(self).tree(),
            forall|id: usize| #[trigger]
                final(self).arena().contains_key(id) <==> old(self).arena().contains_key(id) && old(
                    self,
                ).live(id),
            forall|id: usize| #[trigger]
                final(self).arena().contains_key(id) ==> final(self).arena()[id] == old(
                    self,
                ).arena()[id],
    {
        let ghost a0 = self.arena();
        let ghost e = self.empty_nodes@;
        proof {
            reveal(World::wf);
            assert forall|id: usize| a0.contains_key(id) implies #[trigger] cache_ok(a0, id) by {
                assert(cache_wf(a0, self.table(), self.step as nat, id));
            }
            assert forall|id: usize| !marked(a0, id) by {
                if a0.contains_key(id) {
                    assert(unmarked(a0, id));
                }
            }
        }
        let count = self.empty_nodes.len();
        if count > 0 {
            let last = self.empty_nodes[count - 1];
            proof {
                crate::world::lemma_empties(a0, e, count - 1);
            }
            self.mark_gc(last);
        }
        let ghost a1 = self.arena();
        proof {
            lemma_marks_grow(a0, a1);
            assert forall|t: usize| marked(a1, t) implies #[trigger] closed(a1, t) by {
                lemma_reach_valid(a0, e.last(), t);
            }
        }
        self.mark_gc(self.root);
        let ghost a2 = self.arena();
        proof {
            lemma_marks_grow(a1, a2);
            lemma_marks_grow(a0, a2);
            assert forall|t: usize| #[trigger] marked(a2, t) <==> a0.contains_key(t) && old(
                self,
            ).live(t) by {
                lemma_reach_same(a0, a1, self.root, t);
                if reachable(a0, self.root, t) {
                    lemma_reach_valid(a0, self.root, t);
                }
                if count > 0 && reachable(a0, e.last(), t) {
                    lemma_reach_valid(a0, e.last(), t);
                }
            }
            assert forall|t: usize| marked(a2, t) implies #[trigger] closed(a2, t) by {
                if marked(a1, t) {
                    assert(closed(a1, t));
                } else {
                    lemma_reach_same(a0, a1, self.root, t);
                    lemma_reach_valid(a1, self.root, t);
                }
            }
        }
        slab_retain_marked(&mut self.node_data);
        table_clear(&mut self.hash_table);
        let ghost a3 = self.arena();
        proof {
            assert forall|id: usize| #[trigger] a3.contains_key(id) implies a0.contains_key(id)
                && a3[id] == a0[id] by {
                assert(marked(a2, id));
                assert(unmarked(a0, id));
            }
            assert forall|id: usize| a3.contains_key(id) implies #[trigger] sealed(a3, id) by {
                assert(marked(a2, id));
                assert(closed(a2, id));
            }
            assert forall|id: usize| #[trigger] a3.contains_key(id) <==> a0.contains_key(id) && old(
                self,
            ).live(id) by {
                assert(a3.contains_key(id) <==> marked(a2, id));
            }
        }
        let keys = slab_keys(&self.node_data);
        let mut i: usize = 0;
        while i < keys.len()
            invariant
                i <= keys.len(),
                self.arena() == a3,
                keys@.no_duplicates(),
                forall|key: usize| keys@.contains(key) <==> a3.contains_key(key),
                store_wf(
                    a0,
                    old(self).hash_table@,
                    self.table(),
                    self.step as nat,
                    self.empty_nodes@,
                ),
                forall|id: usize| #[trigger]
                    a3.contains_key(id) ==> a0.contains_key(id) && a3[id] == a0[id],
                forall|id: usize| #[trigger]
                    a3.contains_key(id) <==> a0.contains_key(id) && old(self).live(id),
                forall|id: usize| a3.contains_key(id) ==> #[trigger] sealed(a3, id),
                a0 == old(self).arena(),
                forall|k: ChildKey| #[trigger]
                    self.hash_table@.contains_key(k) ==> a3.contains_key(self.hash_table@[k])
                        && a3[self.hash_table@[k]].children.spec_key() == k,
                forall|j: int|
                    0 <= j < i ==> self.hash_table@.contains_key(
                        a3[#[trigger] keys@[j]].children.spec_key(),
                    ) && self.hash_table@[a3[keys@[j]].children.spec_key()] == keys@[j],
                self.rule == old(self).rule,
                self.step == old(self).step,
                self.generation == old(self).generation,
                self.root == old(self).root,
                self.empty_nodes == old(self).empty_nodes,
                self.gc_threshold == old(self).gc_threshold,
            decreases keys.len() - i,
        {
            let key = keys[i];
            proof {
                assert(keys@.contains(key));
            }
            let data = slab_get(&self.node_data, key);
            let ghost before = self.hash_table@;
            table_insert(&mut self.hash_table, data.children.key(), key);
            proof {
                assert forall|j: int| 0 <= j < i + 1 implies self.hash_table@.contains_key(
                    a3[#[trigger] keys@[j]].children.spec_key(),
                ) && self.hash_table@[a3[keys@[j]].children.spec_key()] == keys@[j] by {
                    if j < i {
                        assert(keys@.contains(keys@[j]));
                        assert(keys@[j] != key);
                        assert(a0.contains_key(keys@[j]));
                        assert(a0.contains_key(key));
                    }
                }
            }
            i += 1;
        }
        proof {
            let n = self.hash_table@;
            assert(mark_ok(a0)) by {
                assert forall|id: usize| a0.contains_key(id) implies #[trigger] cache_ok(
                    a0,
                    id,
                ) by {
                    assert(cache_wf(a0, self.table(), self.step as nat, id));
                }
            }
            assert forall|id: usize| #[trigger] a3.contains_key(id) implies n.contains_key(
                a3[id].children.spec_key(),
            ) && n[a3[id].children.spec_key()] == id by {
                assert(keys@.contains(id));
                let j = choose|j: int| 0 <= j < keys@.len() && keys@[j] == id;
                assert(keys@[j] == id);
            }
            assert forall|j: int| 0 <= j < e.len() implies node_valid(a3, #[trigger] e[j]) by {
                if j > 0 {
                    lemma_empties_reach(a0, e, j, e.len() - 1);
                    assert(empty_link(a0, e, j));
                    assert(a3.contains_key(e[j]->NodeId_0.0));
                }
            }
            assert forall|id: usize| a0.contains_key(id) implies #[trigger] cache_ok(a0, id) by {
                assert(cache_wf(a0, self.table(), self.step as nat, id));
            }
            lemma_reachable_self(a0, self.root);
            assert(node_valid(a3, self.root));
            lemma_sweep(
                a0,
                old(self).hash_table@,
                self.table(),
                self.step as nat,
                e,
                a3,
                n,
            );
            reveal(World::wf);
            assert(tree_of(a3, self.root) == tree_of(a0, self.root));
        }
    }

    /// Collects garbage if the arena has reached its threshold.
    pub fn check_gc(&mut self)
        requires
            old(self).wf(),
        ensures
            final(self).wf(),
            final(self).rule == old(self).rule,
            final(self).step == old(self).step,
            final(self).generation == old(self).generation,
            final(self).root == old(self).root,
            final(self).empty_nodes == old(self).empty_nodes,
            final(self).gc_threshold == old(self).gc_threshold,
            final(self).tree() == old(self).tree(),
            old(self).arena().dom().len() < old(self).gc_threshold ==> final(self).arena() == old(
                self,
            ).arena(),
            old(self).arena().dom().len() >= old(self).gc_threshold ==> forall|id: usize|
                #[trigger] final(self).arena().contains_key(id) <==> old(self).arena().contains_key(
                    id,
                ) && old(self).live(id),
    {
        if slab_len(&self.node_data) >= self.gc_threshold {
            self.garbage_collect();
        }
    }
}

/// A node of the arena reaches itself.
pub proof fn lemma_reachable_self(a: Arena, node: Node)
    requires
        mark_ok(a),
        node_valid(a, node),
    ensures
        node matches Node::NodeId(id) ==> reachable(a, node, id.0),
{
    match node {
        Node::Leaf(_) => {},
        Node::NodeId(id) => {
            lemma_reachable(a, id, id.0);
        },
    }
}

} // verus!
