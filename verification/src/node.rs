//! The stored form of a quadtree node: a leaf holding one cell, or an inner
//! node holding four child handles together with its level, its population,
//! and the memoized evolution result.

use vstd::prelude::*;

use crate::coords::Level;
use crate::universe::Id;

verus! {

/// A node of the hash-consed quadtree.
#[derive(Debug, Copy, Clone)]
pub enum Node {
    /// Always level 0.
    Leaf(Leaf),
    /// Never level 0.
    Inode(Inode),
}

/// An inner node. `level`, `population` and `result` are derived data: the
/// identity of an inner node is its four child handles alone.
#[derive(Debug, Copy, Clone)]
pub struct Inode {
    pub level: Level,
    pub population: u128,
    pub result: Option<Id>,
    pub nw: Id,
    pub ne: Id,
    pub sw: Id,
    pub se: Id,
}

/// The state of one cell.
#[derive(Debug, Copy, Clone, PartialEq, Eq, Structural, Hash)]
pub enum Cell {
    Dead,
    Alive,
}

/// A leaf: a single cell.
#[derive(Debug, Copy, Clone, PartialEq, Eq, Structural, Hash)]
pub struct Leaf(pub Cell);

/// Whether a cell is alive.
pub open spec fn cell_alive(c: Cell) -> bool {
    c is Alive
}

/// Node identity as the table keys it: leaves by their cell, inner nodes by
/// their four child handles. Level and population are functions of the
/// children, and the `result` cache is deliberately ignored.
pub open spec fn key_eq(a: Node, b: Node) -> bool {
    match (a, b) {
        (Node::Leaf(x), Node::Leaf(y)) => x.0 == y.0,
        (Node::Inode(x), Node::Inode(y)) => x.nw == y.nw && x.ne == y.ne && x.sw == y.sw
            && x.se == y.se,
        _ => false,
    }
}

/// The population a node reports: the stored count for an inner node, 0 or
/// 1 for a leaf.
pub open spec fn node_population(n: Node) -> nat {
    match n {
        Node::Inode(i) => i.population as nat,
        Node::Leaf(l) => if cell_alive(l.0) {
            1nat
        } else {
            0nat
        },
    }
}

/// The level a node reports: the stored level for an inner node, 0 for a
/// leaf.
pub open spec fn node_level(n: Node) -> nat {
    match n {
        Node::Inode(i) => i.level.0 as nat,
        Node::Leaf(_) => 0,
    }
}

impl Leaf {
    pub fn new(cell: Cell) -> (r: Self)
        ensures
            r.0 == cell,
    {
        Self(cell)
    }

    /// Whether this leaf's cell is alive.
    pub fn alive(&self) -> (r: bool)
        ensures
            r == cell_alive(self.0),
    {
        match self.0 {
            Cell::Dead => false,
            Cell::Alive => true,
        }
    }
}

impl Node {
    /// The number of live cells under this node.
    pub fn population(&self) -> (r: u128)
        ensures
            r as nat == node_population(*self),
    {
        match *self {
            Node::Inode(ref i) => i.population,
            Node::Leaf(c) => if c.alive() {
                1
            } else {
                0
            },
        }
    }

    /// The level of this node; leaves are level 0.
    pub fn level(&self) -> (r: Level)
        ensures
            r.0 as nat == node_level(*self),
    {
        match *self {
            Node::Inode(ref i) => i.level,
            Node::Leaf(_) => Level(0),
        }
    }
}

/// Whether two nodes have the same identity key: the exec form of
/// [`key_eq`].
pub fn same_key(a: &Node, b: &Node) -> (r: bool)
    ensures
        r == key_eq(*a, *b),
{
    match (a, b) {
        (Node::Leaf(x), Node::Leaf(y)) => x.0 == y.0,
        (Node::Inode(x), Node::Inode(y)) => x.nw == y.nw && x.ne == y.ne && x.sw == y.sw
            && x.se == y.se,
        _ => false,
    }
}

} // verus!
