//! Owned quadtree nodes and the recursive evolution algorithm on them.

use vstd::arithmetic::power2::{lemma2_to64, lemma2_to64_rest, pow2};
use vstd::bits::lemma_u32_shl_is_mul;
use vstd::prelude::*;

use crate::coords::{pos_in_level, quarter};
use crate::model::{
    bit16, bits_prefix, c_horizontal, c_sub, c_subsub, c_vertical, rule_bit, tnode, tree_bits,
    tree_cell, tree_empty, tree_expand, tree_kernel, tree_level, tree_next_gen, tree_pop,
    tree_set, wf_tree, Tree,
};

verus! {

/// An owned quadtree node: a leaf cell or an inner node.
#[derive(Debug)]
pub enum Node {
    /// Always level 0.
    Leaf(Cell),
    /// Never level 0.
    Inner(Inode),
}

/// An owned inner node; level and population are derived from the children.
#[derive(Debug)]
pub struct Inode {
    pub level: u32,
    pub population: u128,
    pub nw: Box<Node>,
    pub ne: Box<Node>,
    pub sw: Box<Node>,
    pub se: Box<Node>,
}

/// The state of one cell.
#[derive(Debug, Copy, Clone, PartialEq, Eq, Structural)]
pub enum Cell {
    Dead,
    Alive,
}

/// The ghost tree an owned node denotes.
pub open spec fn node_tree(n: Node) -> Tree
    decreases n,
{
    match n {
        Node::Leaf(c) => Tree::Leaf(c is Alive),
        Node::Inner(i) => tnode(
            node_tree(*i.nw),
            node_tree(*i.ne),
            node_tree(*i.sw),
            node_tree(*i.se),
        ),
    }
}

/// The stored level and population fields agree with the denoted tree, at
/// every node, and no level exceeds 63.
pub open spec fn counters_ok(n: Node) -> bool
    decreases n,
{
    match n {
        Node::Leaf(_) => true,
        Node::Inner(i) => {
            &&& counters_ok(*i.nw)
            &&& counters_ok(*i.ne)
            &&& counters_ok(*i.sw)
            &&& counters_ok(*i.se)
            &&& i.level as nat == tree_level(node_tree(n))
            &&& i.population as nat == tree_pop(node_tree(n))
            &&& i.level <= 63
        },
    }
}

/// Full well-formedness of an owned node.
pub open spec fn node_wf(n: Node) -> bool {
    wf_tree(node_tree(n)) && counters_ok(n)
}

impl Clone for Node {
    /// An equal, independently owned copy of the subtree.
    fn clone(&self) -> (res: Self)
        ensures
            res == *self,
        decreases *self,
    {
        match self {
            Node::Leaf(c) => Node::Leaf(*c),
            Node::Inner(i) => Node::Inner(
                Inode {
                    level: i.level,
                    population: i.population,
                    nw: Box::new((*i.nw).clone()),
                    ne: Box::new((*i.ne).clone()),
                    sw: Box::new((*i.sw).clone()),
                    se: Box::new((*i.se).clone()),
                },
            ),
        }
    }
}

impl Cell {
    fn new(alive: bool) -> (r: Self)
        ensures
            (r is Alive) == alive,
    {
        if alive {
            Cell::Alive
        } else {
            Cell::Dead
        }
    }
}

impl Inode {
    /// An inner node from four children of equal level, its level and
    /// population derived from theirs.
    pub fn new(nw: Node, ne: Node, sw: Node, se: Node) -> (r: Self)
        requires
            node_wf(nw),
            node_wf(ne),
            node_wf(sw),
            node_wf(se),
            tree_level(node_tree(ne)) == tree_level(node_tree(nw)),
            tree_level(node_tree(sw)) == tree_level(node_tree(nw)),
            tree_level(node_tree(se)) == tree_level(node_tree(nw)),
            tree_level(node_tree(nw)) <= 62,
        ensures
            node_wf(Node::Inner(r)),
            node_tree(Node::Inner(r)) == tnode(
                node_tree(nw),
                node_tree(ne),
                node_tree(sw),
                node_tree(se),
            ),
            tree_level(node_tree(Node::Inner(r))) == tree_level(node_tree(nw)) + 1,
    {
        proof {
            crate::model::lemma_tree_pop_bound(node_tree(nw));
            crate::model::lemma_tree_pop_bound(node_tree(ne));
            crate::model::lemma_tree_pop_bound(node_tree(sw));
            crate::model::lemma_tree_pop_bound(node_tree(se));
            let lvl = tree_level(node_tree(nw));
            assert(pow2(2 * lvl) <= pow2(124)) by {
                if 2 * lvl < 124 {
                    vstd::arithmetic::power2::lemma_pow2_strictly_increases(2 * lvl, 124);
                }
            };
            assert(pow2(124) == pow2(62) * pow2(62)) by {
                vstd::arithmetic::power2::lemma_pow2_adds(62, 62);
            };
            lemma2_to64_rest();
            assert(pow2(124) == 0x10000000000000000000000000000000);
        }
        match (nw, ne, sw, se) {
            (Node::Inner(a), Node::Inner(b), Node::Inner(c), Node::Inner(d)) => {
                let r = Inode {
                    level: a.level + 1,
                    population: a.population + b.population + c.population + d.population,
                    nw: Box::new(Node::Inner(a)),
                    ne: Box::new(Node::Inner(b)),
                    sw: Box::new(Node::Inner(c)),
                    se: Box::new(Node::Inner(d)),
                };
                r
            },
            (Node::Leaf(a), Node::Leaf(b), Node::Leaf(c), Node::Leaf(d)) => {
                let mut population: u128 = 0;
                if let Cell::Alive = a {
                    population += 1;
                }
                if let Cell::Alive = b {
                    population += 1;
                }
                if let Cell::Alive = c {
                    population += 1;
                }
                if let Cell::Alive = d {
                    population += 1;
                }
                let r = Inode {
                    level: 1,
                    population,
                    nw: Box::new(Node::Leaf(a)),
                    ne: Box::new(Node::Leaf(b)),
                    sw: Box::new(Node::Leaf(c)),
                    se: Box::new(Node::Leaf(d)),
                };
                r
            },
            _ => {
                proof {
                    assert(tree_level(node_tree(nw)) == 0 ==> nw is Leaf);
                }
                vstd::pervasive::unreached()
            },
        }
    }
}

impl Node {
    /// A leaf holding one cell.
    pub fn new_leaf(alive: bool) -> (r: Self)
        ensures
            node_wf(r),
            node_tree(r) == Tree::Leaf(alive),
            tree_level(node_tree(r)) == 0,
    {
        Node::Leaf(Cell::new(alive))
    }

    /// An inner node from four children of equal level.
    pub fn new_inner(nw: Node, ne: Node, sw: Node, se: Node) -> (r: Self)
        requires
            node_wf(nw),
            node_wf(ne),
            node_wf(sw),
            node_wf(se),
            tree_level(node_tree(ne)) == tree_level(node_tree(nw)),
            tree_level(node_tree(sw)) == tree_level(node_tree(nw)),
            tree_level(node_tree(se)) == tree_level(node_tree(nw)),
            tree_level(node_tree(nw)) <= 62,
        ensures
            node_wf(r),
            node_tree(r) == tnode(node_tree(nw), node_tree(ne), node_tree(sw), node_tree(se)),
            tree_level(node_tree(r)) == tree_level(node_tree(nw)) + 1,
    {
        Node::Inner(Inode::new(nw, ne, sw, se))
    }

    /// The cell of a leaf.
    pub fn cell(self) -> (r: Cell)
        requires
            self is Leaf,
        ensures
            node_tree(self) == Tree::Leaf(r is Alive),
    {
        if let Node::Leaf(cell) = self {
            cell
        } else {
            vstd::pervasive::unreached()
        }
    }

    /// The cell of a leaf, by reference.
    pub fn cell_ref(&self) -> (r: &Cell)
        requires
            *self is Leaf,
        ensures
            node_tree(*self) == Tree::Leaf(*r is Alive),
    {
        if let Node::Leaf(ref cell) = self {
            cell
        } else {
            vstd::pervasive::unreached()
        }
    }

    /// The inner node inside.
    pub fn inode(self) -> (r: Inode)
        requires
            self is Inner,
        ensures
            Node::Inner(r) == self,
    {
        if let Node::Inner(inode) = self {
            inode
        } else {
            vstd::pervasive::unreached()
        }
    }

    /// The inner node inside, by reference.
    pub fn inode_ref(&self) -> (r: &Inode)
        requires
            *self is Inner,
        ensures
            Node::Inner(*r) == *self,
    {
        if let Node::Inner(ref inode) = self {
            inode
        } else {
            vstd::pervasive::unreached()
        }
    }

    /// The number of live cells under this node.
    pub fn population(&self) -> (r: u128)
        requires
            node_wf(*self),
        ensures
            r as nat == tree_pop(node_tree(*self)),
    {
        match *self {
            Node::Inner(ref i) => i.population,
            Node::Leaf(c) => match c {
                Cell::Alive => 1,
                Cell::Dead => 0,
            },
        }
    }

    /// The level of this node; leaves are level 0.
    pub fn level(&self) -> (r: u32)
        requires
            node_wf(*self),
        ensures
            r as nat == tree_level(node_tree(*self)),
    {
        match *self {
            Node::Inner(ref i) => i.level,
            Node::Leaf(_) => 0,
        }
    }

    /// The all-dead tree at a given level.
    pub fn new_empty_tree(level: u32) -> (r: Self)
        requires
            level <= 63,
        ensures
            node_wf(r),
            node_tree(r) == tree_empty(level as nat),
        decreases level,
    {
        proof {
            crate::model::lemma_tree_empty_wf(level as nat);
            if level > 0 {
                crate::model::lemma_tree_empty_wf((level - 1) as nat);
            }
        }
        if level == 0 {
            Self::new_leaf(false)
        } else {
            let child = Self::new_empty_tree(level - 1);
            Self::new_inner(child.clone(), child.clone(), child.clone(), child)
        }
    }
}



/// A well-formed node whose tree has positive level is an inner node.
pub proof fn lemma_node_inner(n: Node)
    requires
        tree_level(node_tree(n)) >= 1,
    ensures
        n is Inner,
{
    match n {
        Node::Leaf(_) => {
            assert(tree_level(node_tree(n)) == 0);
        },
        Node::Inner(_) => {},
    }
}

/// The children of a well-formed inner node: their trees assemble the
/// node's tree, they are well formed, and they sit one level down.
pub proof fn lemma_children_of(n: Node)
    requires
        node_wf(n),
        n is Inner,
    ensures
        tree_level(node_tree(n)) >= 1,
        node_tree(n) == tnode(
            node_tree(*n->Inner_0.nw),
            node_tree(*n->Inner_0.ne),
            node_tree(*n->Inner_0.sw),
            node_tree(*n->Inner_0.se),
        ),
        crate::model::t_nw(node_tree(n)) == node_tree(*n->Inner_0.nw),
        crate::model::t_ne(node_tree(n)) == node_tree(*n->Inner_0.ne),
        crate::model::t_sw(node_tree(n)) == node_tree(*n->Inner_0.sw),
        crate::model::t_se(node_tree(n)) == node_tree(*n->Inner_0.se),
        node_wf(*n->Inner_0.nw),
        node_wf(*n->Inner_0.ne),
        node_wf(*n->Inner_0.sw),
        node_wf(*n->Inner_0.se),
        tree_level(node_tree(*n->Inner_0.nw)) == tree_level(node_tree(n)) - 1,
        tree_level(node_tree(*n->Inner_0.ne)) == tree_level(node_tree(n)) - 1,
        tree_level(node_tree(*n->Inner_0.sw)) == tree_level(node_tree(n)) - 1,
        tree_level(node_tree(*n->Inner_0.se)) == tree_level(node_tree(n)) - 1,
        n->Inner_0.level as nat == tree_level(node_tree(n)),
        n->Inner_0.level <= 63,
        n->Inner_0.population as nat == tree_pop(node_tree(n)),
{
    crate::model::lemma_wf_children(node_tree(n));
}

impl Clone for Inode {
    /// An equal, independently owned copy of the inner node.
    fn clone(&self) -> (res: Self)
        ensures
            res == *self,
    {
        Inode {
            level: self.level,
            population: self.population,
            nw: Box::new((*self.nw).clone()),
            ne: Box::new((*self.ne).clone()),
            sw: Box::new((*self.sw).clone()),
            se: Box::new((*self.se).clone()),
        }
    }
}

impl Node {
    /// The cell at `(x, y)` as a bit, with the position taken relative to
    /// this node's center.
    pub fn get_bit(&self, x: i32, y: i32) -> (r: u16)
        requires
            node_wf(*self),
            *self is Inner ==> pos_in_level(tree_level(node_tree(*self)), x as int, y as int)
                && tree_level(node_tree(*self)) <= 32,
        ensures
            r == if tree_cell(node_tree(*self), x as int, y as int) {
                1u16
            } else {
                0u16
            },
        decreases *self,
    {
        match *self {
            Node::Leaf(c) => match c {
                Cell::Alive => 1,
                Cell::Dead => 0,
            },
            Node::Inner(ref i) => {
                let ghost t = node_tree(*self);
                let ghost l = tree_level(t);
                proof {
                    crate::model::lemma_wf_children(t);
                    crate::model::lemma_quadrant_shift(l, x as int, y as int);
                    lemma2_to64();
                    lemma2_to64_rest();
                    if l >= 2 {
                        if ((i.level - 2) as nat) < 30 {
                            vstd::arithmetic::power2::lemma_pow2_strictly_increases(
                                (i.level - 2) as nat,
                                30,
                            );
                        }
                        lemma_u32_shl_is_mul(1u32, (i.level - 2) as u32);
                    }
                    if ((l - 1) as nat) < 31 {
                        vstd::arithmetic::power2::lemma_pow2_strictly_increases(
                            (l - 1) as nat,
                            31,
                        );
                    }
                }
                let offset: i32 = if i.level >= 2 {
                    (1u32 << ((i.level - 2) as u32)) as i32
                } else {
                    0
                };
                proof {
                    assert(offset == quarter(l));
                }
                match (x < 0, y < 0) {
                    (true, true) => i.nw.get_bit(x + offset, y + offset),
                    (true, false) => i.sw.get_bit(x + offset, y - offset),
                    (false, true) => i.ne.get_bit(x - offset, y + offset),
                    (false, false) => i.se.get_bit(x - offset, y - offset),
                }
            },
        }
    }

    /// The tree with the cell at `(x, y)` rewritten to `alive`; the path to
    /// the cell is rebuilt and all siblings move over unchanged.
    pub fn set_bit(self, x: i32, y: i32, alive: bool) -> (r: Self)
        requires
            node_wf(self),
            self is Inner ==> pos_in_level(tree_level(node_tree(self)), x as int, y as int)
                && tree_level(node_tree(self)) <= 32,
        ensures
            node_wf(r),
            node_tree(r) == tree_set(node_tree(self), x as int, y as int, alive),
            tree_level(node_tree(r)) == tree_level(node_tree(self)),
        decreases self,
    {
        match self {
            Node::Leaf(_) => Self::new_leaf(alive),
            Node::Inner(i) => {
                let ghost t = node_tree(Node::Inner(i));
                let ghost l = tree_level(t);
                proof {
                    crate::model::lemma_wf_children(t);
                    crate::model::lemma_quadrant_shift(l, x as int, y as int);
                    crate::model::lemma_tree_set(t, x as int, y as int, alive);
                    lemma2_to64();
                    lemma2_to64_rest();
                    if l >= 2 {
                        if ((i.level - 2) as nat) < 30 {
                            vstd::arithmetic::power2::lemma_pow2_strictly_increases(
                                (i.level - 2) as nat,
                                30,
                            );
                        }
                        lemma_u32_shl_is_mul(1u32, (i.level - 2) as u32);
                    }
                    if ((l - 1) as nat) < 31 {
                        vstd::arithmetic::power2::lemma_pow2_strictly_increases(
                            (l - 1) as nat,
                            31,
                        );
                    }
                }
                let offset: i32 = if i.level >= 2 {
                    (1u32 << ((i.level - 2) as u32)) as i32
                } else {
                    0
                };
                proof {
                    assert(offset == quarter(l));
                }
                match (x < 0, y < 0) {
                    (true, true) => Self::new_inner(
                        i.nw.set_bit(x + offset, y + offset, alive),
                        *i.ne,
                        *i.sw,
                        *i.se,
                    ),
                    (true, false) => Self::new_inner(
                        *i.nw,
                        *i.ne,
                        i.sw.set_bit(x + offset, y - offset, alive),
                        *i.se,
                    ),
                    (false, true) => Self::new_inner(
                        *i.nw,
                        i.ne.set_bit(x - offset, y + offset, alive),
                        *i.sw,
                        *i.se,
                    ),
                    (false, false) => Self::new_inner(
                        *i.nw,
                        *i.ne,
                        *i.sw,
                        i.se.set_bit(x - offset, y - offset, alive),
                    ),
                }
            },
        }
    }

    /// Wrap this tree one level up, keeping every cell: it becomes the
    /// centered square of a doubled, otherwise empty tree.
    pub fn expand_universe(self) -> (r: Self)
        requires
            node_wf(self),
            self is Inner,
            tree_level(node_tree(self)) <= 62,
        ensures
            node_wf(r),
            node_tree(r) == tree_expand(node_tree(self)),
            tree_level(node_tree(r)) == tree_level(node_tree(self)) + 1,
    {
        let ghost t = node_tree(self);
        proof {
            crate::model::lemma_wf_children(t);
            crate::model::lemma_tree_empty_wf((tree_level(t) - 1) as nat);
            crate::model::lemma_tree_expand_wf(t);
        }
        let node = self.inode();
        let border = Self::new_empty_tree(node.level - 1);
        Self::new_inner(
            Self::new_inner(border.clone(), border.clone(), border.clone(), *node.nw),
            Self::new_inner(border.clone(), border.clone(), *node.ne, border.clone()),
            Self::new_inner(border.clone(), *node.sw, border.clone(), border.clone()),
            Self::new_inner(*node.se, border.clone(), border.clone(), border),
        )
    }
}

impl Inode {
    /// The centered square of this node: its four grandchildren nearest the
    /// center, one level down.
    pub fn centered_sub(&self) -> (r: Self)
        requires
            node_wf(Node::Inner(*self)),
            tree_level(node_tree(Node::Inner(*self))) >= 2,
        ensures
            node_wf(Node::Inner(r)),
            node_tree(Node::Inner(r)) == c_sub(node_tree(Node::Inner(*self))),
            tree_level(node_tree(Node::Inner(r))) == tree_level(node_tree(Node::Inner(*self)))
                - 1,
    {
        let ghost t = node_tree(Node::Inner(*self));
        proof {
            lemma_children_of(Node::Inner(*self));
            lemma_node_inner(*self.nw);
            lemma_node_inner(*self.ne);
            lemma_node_inner(*self.sw);
            lemma_node_inner(*self.se);
            lemma_children_of(*self.nw);
            lemma_children_of(*self.ne);
            lemma_children_of(*self.sw);
            lemma_children_of(*self.se);
            crate::model::lemma_c_sub_wf(t);
        }
        Self::new(
            (*self.nw.inode_ref().se).clone(),
            (*self.ne.inode_ref().sw).clone(),
            (*self.sw.inode_ref().ne).clone(),
            (*self.se.inode_ref().nw).clone(),
        )
    }

    /// The centered square of a west/east pair of equal level.
    pub fn centered_horizontal(west: &Self, east: &Self) -> (r: Self)
        requires
            node_wf(Node::Inner(*west)),
            node_wf(Node::Inner(*east)),
            tree_level(node_tree(Node::Inner(*west))) >= 2,
            tree_level(node_tree(Node::Inner(*east))) == tree_level(node_tree(Node::Inner(*west))),
        ensures
            node_wf(Node::Inner(r)),
            node_tree(Node::Inner(r)) == c_horizontal(
                node_tree(Node::Inner(*west)),
                node_tree(Node::Inner(*east)),
            ),
            tree_level(node_tree(Node::Inner(r))) == tree_level(node_tree(Node::Inner(*west)))
                - 1,
    {
        let ghost w = node_tree(Node::Inner(*west));
        let ghost e = node_tree(Node::Inner(*east));
        proof {
            lemma_children_of(Node::Inner(*west));
            lemma_children_of(Node::Inner(*east));
            lemma_node_inner(*west.ne);
            lemma_node_inner(*west.se);
            lemma_node_inner(*east.nw);
            lemma_node_inner(*east.sw);
            lemma_children_of(*west.ne);
            lemma_children_of(*west.se);
            lemma_children_of(*east.nw);
            lemma_children_of(*east.sw);
            crate::model::lemma_c_horizontal_wf(w, e);
        }
        Self::new(
            (*west.ne.inode_ref().se).clone(),
            (*east.nw.inode_ref().sw).clone(),
            (*west.se.inode_ref().ne).clone(),
            (*east.sw.inode_ref().nw).clone(),
        )
    }

    /// The centered square of a north/south pair of equal level.
    pub fn centered_vertical(north: &Self, south: &Self) -> (r: Self)
        requires
            node_wf(Node::Inner(*north)),
            node_wf(Node::Inner(*south)),
            tree_level(node_tree(Node::Inner(*north))) >= 2,
            tree_level(node_tree(Node::Inner(*south))) == tree_level(
                node_tree(Node::Inner(*north)),
            ),
        ensures
            node_wf(Node::Inner(r)),
            node_tree(Node::Inner(r)) == c_vertical(
                node_tree(Node::Inner(*north)),
                node_tree(Node::Inner(*south)),
            ),
            tree_level(node_tree(Node::Inner(r))) == tree_level(node_tree(Node::Inner(*north)))
                - 1,
    {
        let ghost n = node_tree(Node::Inner(*north));
        let ghost s = node_tree(Node::Inner(*south));
        proof {
            lemma_children_of(Node::Inner(*north));
            lemma_children_of(Node::Inner(*south));
            lemma_node_inner(*north.sw);
            lemma_node_inner(*north.se);
            lemma_node_inner(*south.nw);
            lemma_node_inner(*south.ne);
            lemma_children_of(*north.sw);
            lemma_children_of(*north.se);
            lemma_children_of(*south.nw);
            lemma_children_of(*south.ne);
            crate::model::lemma_c_vertical_wf(n, s);
        }
        Self::new(
            (*north.sw.inode_ref().se).clone(),
            (*north.se.inode_ref().sw).clone(),
            (*south.nw.inode_ref().ne).clone(),
            (*south.ne.inode_ref().nw).clone(),
        )
    }

    /// The innermost square of a node of level at least 3: its four
    /// great-grandchildren touching the center, two levels down.
    pub fn centered_subsub(&self) -> (r: Self)
        requires
            node_wf(Node::Inner(*self)),
            tree_level(node_tree(Node::Inner(*self))) >= 3,
        ensures
            node_wf(Node::Inner(r)),
            node_tree(Node::Inner(r)) == c_subsub(node_tree(Node::Inner(*self))),
            tree_level(node_tree(Node::Inner(r))) == tree_level(node_tree(Node::Inner(*self)))
                - 2,
    {
        let ghost t = node_tree(Node::Inner(*self));
        proof {
            lemma_children_of(Node::Inner(*self));
            lemma_node_inner(*self.nw);
            lemma_node_inner(*self.ne);
            lemma_node_inner(*self.sw);
            lemma_node_inner(*self.se);
            lemma_children_of(*self.nw);
            lemma_children_of(*self.ne);
            lemma_children_of(*self.sw);
            lemma_children_of(*self.se);
            lemma_node_inner(*self.nw->Inner_0.se);
            lemma_node_inner(*self.ne->Inner_0.sw);
            lemma_node_inner(*self.sw->Inner_0.ne);
            lemma_node_inner(*self.se->Inner_0.nw);
            lemma_children_of(*self.nw->Inner_0.se);
            lemma_children_of(*self.ne->Inner_0.sw);
            lemma_children_of(*self.sw->Inner_0.ne);
            lemma_children_of(*self.se->Inner_0.nw);
            crate::model::lemma_c_subsub_wf(t);
        }
        Self::new(
            (*self.nw.inode_ref().se.inode_ref().se).clone(),
            (*self.ne.inode_ref().sw.inode_ref().sw).clone(),
            (*self.sw.inode_ref().ne.inode_ref().ne).clone(),
            (*self.se.inode_ref().nw.inode_ref().nw).clone(),
        )
    }

    /// The square straddling a west/east pair of equal level, at that same
    /// level: the east half of `west` beside the west half of `east`.
    fn strip_h(west: &Self, east: &Self) -> (r: Self)
        requires
            node_wf(Node::Inner(*west)),
            node_wf(Node::Inner(*east)),
            tree_level(node_tree(Node::Inner(*east))) == tree_level(node_tree(Node::Inner(*west))),
            tree_level(node_tree(Node::Inner(*west))) <= 63,
        ensures
            node_wf(Node::Inner(r)),
            node_tree(Node::Inner(r)) == crate::model::h_strip(
                node_tree(Node::Inner(*west)),
                node_tree(Node::Inner(*east)),
            ),
            tree_level(node_tree(Node::Inner(r))) == tree_level(node_tree(Node::Inner(*west))),
    {
        proof {
            lemma_children_of(Node::Inner(*west));
            lemma_children_of(Node::Inner(*east));
            crate::model::lemma_strips_wf(
                node_tree(Node::Inner(*west)),
                node_tree(Node::Inner(*east)),
            );
        }
        Self::new(
            (*west.ne).clone(),
            (*east.nw).clone(),
            (*west.se).clone(),
            (*east.sw).clone(),
        )
    }

    /// The square straddling a north/south pair of equal level, at that
    /// same level: the south half of `north` above the north half of
    /// `south`.
    fn strip_v(north: &Self, south: &Self) -> (r: Self)
        requires
            node_wf(Node::Inner(*north)),
            node_wf(Node::Inner(*south)),
            tree_level(node_tree(Node::Inner(*south))) == tree_level(
                node_tree(Node::Inner(*north)),
            ),
            tree_level(node_tree(Node::Inner(*north))) <= 63,
        ensures
            node_wf(Node::Inner(r)),
            node_tree(Node::Inner(r)) == crate::model::v_strip(
                node_tree(Node::Inner(*north)),
                node_tree(Node::Inner(*south)),
            ),
            tree_level(node_tree(Node::Inner(r))) == tree_level(node_tree(Node::Inner(*north))),
    {
        proof {
            lemma_children_of(Node::Inner(*north));
            lemma_children_of(Node::Inner(*south));
            crate::model::lemma_strips_wf(
                node_tree(Node::Inner(*north)),
                node_tree(Node::Inner(*south)),
            );
        }
        Self::new(
            (*north.sw).clone(),
            (*north.se).clone(),
            (*south.nw).clone(),
            (*south.ne).clone(),
        )
    }

    /// This node's center advanced `2^(level-2)` generations, one level
    /// down: the bit kernel at level 2, and otherwise the doubling
    /// recursion — the nine overlapping half-sized squares evolved, their
    /// results assembled into four overlapping half-sized squares, and each
    /// of those evolved once more. This variant recomputes every call: it
    /// has no table and so no cache to share results through.
    #[verifier::rlimit(100)]
    #[verifier::spinoff_prover]
    pub fn next_generation(self) -> (r: Self)
        requires
            node_wf(Node::Inner(self)),
            tree_level(node_tree(Node::Inner(self))) >= 2,
        ensures
            node_wf(Node::Inner(r)),
            node_tree(Node::Inner(r)) == tree_next_gen(node_tree(Node::Inner(self))),
            tree_level(node_tree(Node::Inner(r))) == tree_level(node_tree(Node::Inner(self)))
                - 1,
        decreases tree_level(node_tree(Node::Inner(self))),
    {
        let ghost t = node_tree(Node::Inner(self));
        proof {
            crate::model::lemma_tree_next_gen_wf(t);
        }
        if self.level == 2 {
            Node::manual_simulation(Node::Inner(self)).inode()
        } else {
            proof {
                crate::model::lemma_nine_squares(t);
                crate::model::lemma_tree_next_gen_unfold(t);
                lemma_children_of(Node::Inner(self));
                lemma_node_inner(*self.nw);
                lemma_node_inner(*self.ne);
                lemma_node_inner(*self.sw);
                lemma_node_inner(*self.se);
            }
            let a = self.nw.inode_ref();
            let b = self.ne.inode_ref();
            let c = self.sw.inode_ref();
            let d = self.se.inode_ref();
            let n00 = a.clone().next_generation();
            let n01 = Self::strip_h(a, b).next_generation();
            let n02 = b.clone().next_generation();
            let n10 = Self::strip_v(a, c).next_generation();
            let n11 = self.centered_sub().next_generation();
            let n12 = Self::strip_v(b, d).next_generation();
            let n20 = c.clone().next_generation();
            let n21 = Self::strip_h(c, d).next_generation();
            let n22 = d.clone().next_generation();
            let rnw = Self::new(
                Node::Inner(n00),
                Node::Inner(n01.clone()),
                Node::Inner(n10.clone()),
                Node::Inner(n11.clone()),
            ).next_generation();
            let rne = Self::new(
                Node::Inner(n01),
                Node::Inner(n02),
                Node::Inner(n11.clone()),
                Node::Inner(n12.clone()),
            ).next_generation();
            let rsw = Self::new(
                Node::Inner(n10),
                Node::Inner(n11.clone()),
                Node::Inner(n20),
                Node::Inner(n21.clone()),
            ).next_generation();
            let rse = Self::new(
                Node::Inner(n11),
                Node::Inner(n12),
                Node::Inner(n21),
                Node::Inner(n22),
            ).next_generation();
            Self::new(
                Node::Inner(rnw),
                Node::Inner(rne),
                Node::Inner(rsw),
                Node::Inner(rse),
            )
        }
    }
}

impl Node {
    /// Evolve a level-2 tree one generation by bit arithmetic: its 16 cells
    /// packed row-major into one word, top-left cell in the most
    /// significant bit, and the rule applied to the four center cells.
    #[verifier::loop_isolation(false)]
    pub fn manual_simulation(self) -> (r: Self)
        requires
            node_wf(self),
            self is Inner,
            tree_level(node_tree(self)) == 2,
        ensures
            node_wf(r),
            node_tree(r) == tree_kernel(node_tree(self)),
            tree_level(node_tree(r)) == 1,
    {
        let ghost t = node_tree(self);
        proof {
            lemma2_to64();
        }
        let mut all_bits: u16 = 0;
        let mut i: usize = 0;
        while i < 16
            invariant
                i <= 16,
                all_bits == bits_prefix(t, i as int),
            decreases 16 - i,
        {
            proof {
                crate::model::lemma_bits_prefix_bound(t, i as nat);
                crate::model::lemma_bits_prefix_bound(t, (i + 1) as nat);
                assert(pow2(i as nat) <= pow2(15)) by {
                    if (i as nat) < 15 {
                        vstd::arithmetic::power2::lemma_pow2_strictly_increases(i as nat, 15);
                    }
                };
                lemma2_to64();
            }
            let x = (i % 4) as i32 - 2;
            let y = (i / 4) as i32 - 2;
            let bit = self.get_bit(x, y);
            proof {
                assert((x as int) == ((i as int) % 4) - 2);
                assert((y as int) == ((i as int) / 4) - 2);
                assert(bit16(t, i as int) == bit);
                assert(bits_prefix(t, (i + 1) as int) == 2 * bits_prefix(t, i as int) + bit16(
                    t,
                    i as int,
                ));
            }
            all_bits = all_bits * 2 + bit;
            i += 1;
        }
        proof {
            crate::model::lemma_bits_prefix_bound(t, 16);
            lemma2_to64();
            assert(all_bits == tree_bits(t));
        }
        Self::new_inner(
            Self::one_gen(all_bits >> 5u16),
            Self::one_gen(all_bits >> 4u16),
            Self::one_gen(all_bits >> 1u16),
            Self::one_gen(all_bits),
        )
    }

    /// One Game-of-Life step of a single cell, read off a 16-bit window in
    /// which bit 5 is the cell itself and the mask `0x757` selects its
    /// eight neighbors.
    pub fn one_gen(bitmask: u16) -> (r: Self)
        ensures
            node_wf(r),
            node_tree(r) == Tree::Leaf(rule_bit(bitmask)),
            tree_level(node_tree(r)) == 0,
    {
        if bitmask == 0 {
            proof {
                assert(((0u16 >> 5u16) & 1u16) == 0u16 && (0u16 & 0x757u16) == 0u16 && (0u16
                    & 1u16) == 0u16 && ((0u16 >> 1u16) & 1u16) == 0u16 && ((0u16 >> 2u16) & 1u16)
                    == 0u16 && ((0u16 >> 4u16) & 1u16) == 0u16 && ((0u16 >> 6u16) & 1u16) == 0u16
                    && ((0u16 >> 8u16) & 1u16) == 0u16 && ((0u16 >> 9u16) & 1u16) == 0u16 && ((
                0u16 >> 10u16) & 1u16) == 0u16) by (bit_vector);
            }
            return Self::new_leaf(false);
        }
        let center = (bitmask >> 5u16) & 1u16;
        let m = bitmask & 0x757u16;
        proof {
            assert((m & 1u16) <= 1 && ((m >> 1u16) & 1u16) <= 1 && ((m >> 2u16) & 1u16) <= 1 && ((
            m >> 4u16) & 1u16) <= 1 && ((m >> 6u16) & 1u16) <= 1 && ((m >> 8u16) & 1u16) <= 1
                && ((m >> 9u16) & 1u16) <= 1 && ((m >> 10u16) & 1u16) <= 1) by (bit_vector);
        }
        let neighbor_count = (m & 1u16) + ((m >> 1u16) & 1u16) + ((m >> 2u16) & 1u16) + ((m
            >> 4u16) & 1u16) + ((m >> 6u16) & 1u16) + ((m >> 8u16) & 1u16) + ((m >> 9u16) & 1u16)
            + ((m >> 10u16) & 1u16);
        if neighbor_count == 3 || (neighbor_count == 2 && center == 1) {
            Self::new_leaf(true)
        } else {
            Self::new_leaf(false)
        }
    }
}

} // verus!
