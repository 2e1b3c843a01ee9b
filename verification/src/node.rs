//! Handles and records of the quadtree: leaves, node identifiers, child
//! tuples and the per-node record kept in the arena.

use vstd::prelude::*;

verus! {

/// A 4x4 block of cells. The cell at `(x, y)`, with `x` and `y` in
/// `-2..=1`, is bit `(1 - y) * 4 + (1 - x)`: the most significant bit is the
/// top-left cell.
pub type Leaf = u16;

/// The largest level a node may have. A node of level `n` covers a square of
/// side `2^n`, so populations stay below `2^63` and coordinates fit `i64`.
pub const MAX_LEVEL: u8 = 31;

/// A handle of an internal node: its key in the arena.
#[derive(Hash, Copy, Clone, Ord, PartialOrd, Eq, PartialEq, Debug, Structural)]
pub struct NodeId(pub usize);

/// A leaf (level 2) or an internal node (level 3 and up).
#[derive(Hash, Copy, Clone, Ord, PartialOrd, Eq, PartialEq, Debug, Structural)]
pub enum Node {
    Leaf(Leaf),
    NodeId(NodeId),
}

/// The four children of an internal node, north-west first. All four are of
/// one kind: four leaves, or four internal nodes.
#[allow(inconsistent_fields)]
#[derive(Hash, Copy, Clone, Ord, PartialOrd, Eq, PartialEq, Debug, Structural)]
pub enum QuadChildren {
    Leaf { nw: Leaf, ne: Leaf, sw: Leaf, se: Leaf },
    NodeId { nw: NodeId, ne: NodeId, sw: NodeId, se: NodeId },
}

impl QuadChildren {
    /// Whether the four nodes are of one kind, so that they can be the
    /// children of one node.
    pub open spec fn same_kind(nw: Node, ne: Node, sw: Node, se: Node) -> bool {
        (nw is Leaf && ne is Leaf && sw is Leaf && se is Leaf) || (nw is NodeId && ne is NodeId
            && sw is NodeId && se is NodeId)
    }

    /// The north-west child.
    pub open spec fn spec_nw(self) -> Node {
        match self {
            QuadChildren::NodeId { nw, .. } => Node::NodeId(nw),
            QuadChildren::Leaf { nw, .. } => Node::Leaf(nw),
        }
    }

    /// The north-east child.
    pub open spec fn spec_ne(self) -> Node {
        match self {
            QuadChildren::NodeId { ne, .. } => Node::NodeId(ne),
            QuadChildren::Leaf { ne, .. } => Node::Leaf(ne),
        }
    }

    /// The south-west child.
    pub open spec fn spec_sw(self) -> Node {
        match self {
            QuadChildren::NodeId { sw, .. } => Node::NodeId(sw),
            QuadChildren::Leaf { sw, .. } => Node::Leaf(sw),
        }
    }

    /// The south-east child.
    pub open spec fn spec_se(self) -> Node {
        match self {
            QuadChildren::NodeId { se, .. } => Node::NodeId(se),
            QuadChildren::Leaf { se, .. } => Node::Leaf(se),
        }
    }

    /// Packs four nodes of one kind into a child tuple.
    pub fn new(nw: Node, ne: Node, sw: Node, se: Node) -> (children: Self)
        requires
            Self::same_kind(nw, ne, sw, se),
        ensures
            children.spec_nw() == nw,
            children.spec_ne() == ne,
            children.spec_sw() == sw,
            children.spec_se() == se,
    {
        match nw {
            Node::Leaf(a) => {
                let b = match ne { Node::Leaf(b) => b, Node::NodeId(_) => 0 };
                let c = match sw { Node::Leaf(c) => c, Node::NodeId(_) => 0 };
                let d = match se { Node::Leaf(d) => d, Node::NodeId(_) => 0 };
                QuadChildren::Leaf { nw: a, ne: b, sw: c, se: d }
            },
            Node::NodeId(a) => {
                let b = match ne { Node::NodeId(b) => b, Node::Leaf(_) => a };
                let c = match sw { Node::NodeId(c) => c, Node::Leaf(_) => a };
                let d = match se { Node::NodeId(d) => d, Node::Leaf(_) => a };
                QuadChildren::NodeId { nw: a, ne: b, sw: c, se: d }
            },
        }
    }

    /// The north-west child.
    #[verifier::when_used_as_spec(spec_nw)]
    pub fn nw(self) -> (node: Node)
        ensures
            node == self.spec_nw(),
    {
        match self {
            QuadChildren::NodeId { nw, .. } => Node::NodeId(nw),
            QuadChildren::Leaf { nw, .. } => Node::Leaf(nw),
        }
    }

    /// The north-east child.
    #[verifier::when_used_as_spec(spec_ne)]
    pub fn ne(self) -> (node: Node)
        ensures
            node == self.spec_ne(),
    {
        match self {
            QuadChildren::NodeId { ne, .. } => Node::NodeId(ne),
            QuadChildren::Leaf { ne, .. } => Node::Leaf(ne),
        }
    }

    /// The south-west child.
    #[verifier::when_used_as_spec(spec_sw)]
    pub fn sw(self) -> (node: Node)
        ensures
            node == self.spec_sw(),
    {
        match self {
            QuadChildren::NodeId { sw, .. } => Node::NodeId(sw),
            QuadChildren::Leaf { sw, .. } => Node::Leaf(sw),
        }
    }

    /// The south-east child.
    #[verifier::when_used_as_spec(spec_se)]
    pub fn se(self) -> (node: Node)
        ensures
            node == self.spec_se(),
    {
        match self {
            QuadChildren::NodeId { se, .. } => Node::NodeId(se),
            QuadChildren::Leaf { se, .. } => Node::Leaf(se),
        }
    }

    /// The key under which a child tuple is looked up: whether the children
    /// are leaves, and the four children as integers.
    pub open spec fn spec_key(self) -> ChildKey {
        match self {
            QuadChildren::Leaf { nw, ne, sw, se } => (
                true,
                nw as usize,
                ne as usize,
                sw as usize,
                se as usize,
            ),
            QuadChildren::NodeId { nw, ne, sw, se } => (false, nw.0, ne.0, sw.0, se.0),
        }
    }

    /// The key under which the child tuple is looked up.
    #[verifier::when_used_as_spec(spec_key)]
    pub fn key(self) -> (key: ChildKey)
        ensures
            key == self.spec_key(),
    {
        match self {
            QuadChildren::Leaf { nw, ne, sw, se } => (
                true,
                nw as usize,
                ne as usize,
                sw as usize,
                se as usize,
            ),
            QuadChildren::NodeId { nw, ne, sw, se } => (false, nw.0, ne.0, sw.0, se.0),
        }
    }

    /// Two child tuples with one key are equal.
    pub proof fn lemma_key_injective(self, other: QuadChildren)
        requires
            self.spec_key() == other.spec_key(),
        ensures
            self == other,
    {
    }
}

/// The key of a child tuple in the canonicalization map.
pub type ChildKey = (bool, usize, usize, usize, usize);

/// The record of an internal node. `level`, `population` and `children` never
/// change once the node is made; the caches and the mark do.
#[derive(Copy, Clone, Debug)]
pub struct NodeData {
    /// The node covers a square of side `2^level`.
    pub level: u8,
    /// The number of live cells in the node.
    pub population: u64,
    /// The four children, one level down.
    pub children: QuadChildren,
    /// The node's centre after `2^step` generations, for the world's current
    /// step.
    pub cache_step: Option<Node>,
    /// The node's centre after `2^(level - 2)` generations.
    pub cache_step_max: Option<Node>,
    /// Set only while the collector runs.
    pub gc_mark: bool,
}

impl NodeData {
    /// The north-west child.
    #[verifier::when_used_as_spec(spec_nw)]
    pub fn nw(&self) -> (node: Node)
        ensures
            node == self.children.spec_nw(),
    {
        self.children.nw()
    }

    /// The north-east child.
    #[verifier::when_used_as_spec(spec_ne)]
    pub fn ne(&self) -> (node: Node)
        ensures
            node == self.children.spec_ne(),
    {
        self.children.ne()
    }

    /// The south-west child.
    #[verifier::when_used_as_spec(spec_sw)]
    pub fn sw(&self) -> (node: Node)
        ensures
            node == self.children.spec_sw(),
    {
        self.children.sw()
    }

    /// The south-east child.
    #[verifier::when_used_as_spec(spec_se)]
    pub fn se(&self) -> (node: Node)
        ensures
            node == self.children.spec_se(),
    {
        self.children.se()
    }

    /// The north-west child.
    pub open spec fn spec_nw(&self) -> Node {
        self.children.spec_nw()
    }

    /// The north-east child.
    pub open spec fn spec_ne(&self) -> Node {
        self.children.spec_ne()
    }

    /// The south-west child.
    pub open spec fn spec_sw(&self) -> Node {
        self.children.spec_sw()
    }

    /// The south-east child.
    pub open spec fn spec_se(&self) -> Node {
        self.children.spec_se()
    }

    /// Reads the collector's mark and clears it.
    pub fn take_mark(&mut self) -> (mark: bool)
        ensures
            mark == old(self).gc_mark,
            *final(self) == (NodeData { gc_mark: false, ..*old(self) }),
    {
        let mark = self.gc_mark;
        self.gc_mark = false;
        mark
    }
}

} // verus!
