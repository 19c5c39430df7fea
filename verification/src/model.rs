//! The ghost model of the engine: a quadtree of booleans, together with the
//! spec-level meaning of every operation the engine performs on its nodes.
//!
//! Both the hash-consed universe and the owned-tree variant are specified
//! against this one model, so their contracts agree with each other.

use vstd::arithmetic::power2::{lemma_pow2_adds, lemma_pow2_pos, pow2};
use vstd::prelude::*;

use crate::coords::{pos_in_level, quarter};

verus! {

/// A ghost quadtree: a leaf is one cell (`true` = alive), an inner node has
/// four children ordered north-west, north-east, south-west, south-east.
pub enum Tree {
    Leaf(bool),
    Node(Seq<Tree>),
}

/// An inner node from four children in NW, NE, SW, SE order.
pub open spec fn tnode(nw: Tree, ne: Tree, sw: Tree, se: Tree) -> Tree {
    Tree::Node(seq![nw, ne, sw, se])
}

/// The north-west child of an inner node.
pub open spec fn t_nw(t: Tree) -> Tree {
    t->Node_0[0]
}

/// The north-east child of an inner node.
pub open spec fn t_ne(t: Tree) -> Tree {
    t->Node_0[1]
}

/// The south-west child of an inner node.
pub open spec fn t_sw(t: Tree) -> Tree {
    t->Node_0[2]
}

/// The south-east child of an inner node.
pub open spec fn t_se(t: Tree) -> Tree {
    t->Node_0[3]
}

/// The level of a tree: 0 at a leaf, one more than the north-west child
/// otherwise.
pub open spec fn tree_level(t: Tree) -> nat
    decreases t,
{
    match t {
        Tree::Leaf(_) => 0,
        Tree::Node(cs) => if cs.len() == 4 {
            1 + tree_level(cs[0])
        } else {
            1
        },
    }
}

/// Well-formedness: every inner node has exactly four children, all of the
/// same level.
pub open spec fn wf_tree(t: Tree) -> bool
    decreases t,
{
    match t {
        Tree::Leaf(_) => true,
        Tree::Node(cs) => {
            &&& cs.len() == 4
            &&& wf_tree(cs[0])
            &&& wf_tree(cs[1])
            &&& wf_tree(cs[2])
            &&& wf_tree(cs[3])
            &&& tree_level(cs[1]) == tree_level(cs[0])
            &&& tree_level(cs[2]) == tree_level(cs[0])
            &&& tree_level(cs[3]) == tree_level(cs[0])
        },
    }
}

/// The number of live cells in a tree.
pub open spec fn tree_pop(t: Tree) -> nat
    decreases t,
{
    match t {
        Tree::Leaf(b) => if b {
            1
        } else {
            0
        },
        Tree::Node(cs) => if cs.len() == 4 {
            tree_pop(cs[0]) + tree_pop(cs[1]) + tree_pop(cs[2]) + tree_pop(cs[3])
        } else {
            0
        },
    }
}

/// The cell at `(x, y)` in a tree centered at the origin. The quadrant is
/// chosen by the signs of the coordinates (zero goes east/south), and the
/// position is re-expressed relative to that quadrant's center.
pub open spec fn tree_cell(t: Tree, x: int, y: int) -> bool
    decreases t,
{
    match t {
        Tree::Leaf(b) => b,
        Tree::Node(cs) => if cs.len() == 4 {
            let d = quarter(1 + tree_level(cs[0]));
            if x < 0 {
                if y < 0 {
                    tree_cell(cs[0], x + d, y + d)
                } else {
                    tree_cell(cs[2], x + d, y - d)
                }
            } else {
                if y < 0 {
                    tree_cell(cs[1], x - d, y + d)
                } else {
                    tree_cell(cs[3], x - d, y - d)
                }
            }
        } else {
            false
        },
    }
}

/// The tree with the cell at `(x, y)` replaced by `b` and everything else
/// unchanged.
pub open spec fn tree_set(t: Tree, x: int, y: int, b: bool) -> Tree
    decreases t,
{
    match t {
        Tree::Leaf(_) => Tree::Leaf(b),
        Tree::Node(cs) => if cs.len() == 4 {
            let d = quarter(1 + tree_level(cs[0]));
            if x < 0 {
                if y < 0 {
                    tnode(tree_set(cs[0], x + d, y + d, b), cs[1], cs[2], cs[3])
                } else {
                    tnode(cs[0], cs[1], tree_set(cs[2], x + d, y - d, b), cs[3])
                }
            } else {
                if y < 0 {
                    tnode(cs[0], tree_set(cs[1], x - d, y + d, b), cs[2], cs[3])
                } else {
                    tnode(cs[0], cs[1], cs[2], tree_set(cs[3], x - d, y - d, b))
                }
            }
        } else {
            t
        },
    }
}

/// The all-dead tree at a given level.
pub open spec fn tree_empty(l: nat) -> Tree
    decreases l,
{
    if l == 0 {
        Tree::Leaf(false)
    } else {
        let c = tree_empty((l - 1) as nat);
        tnode(c, c, c, c)
    }
}

/// A level-`k` tree wrapped into a level-`k+1` tree covering the same cells:
/// the old children move to the inner corners of the new children, and the
/// outer ring is filled with empty trees.
pub open spec fn tree_expand(t: Tree) -> Tree {
    let cs = t->Node_0;
    let b = tree_empty((tree_level(t) - 1) as nat);
    tnode(
        tnode(b, b, b, cs[0]),
        tnode(b, b, cs[1], b),
        tnode(b, cs[2], b, b),
        tnode(cs[3], b, b, b),
    )
}

/// The population of a tree is at most one cell per unit of area,
/// `2^level * 2^level`.
pub proof fn lemma_tree_pop_bound(t: Tree)
    requires
        wf_tree(t),
    ensures
        tree_pop(t) <= pow2(2 * tree_level(t)),
    decreases t,
{
    match t {
        Tree::Leaf(_) => {
            assert(pow2(0) == 1) by {
                vstd::arithmetic::power2::lemma2_to64();
            };
        },
        Tree::Node(cs) => {
            lemma_tree_pop_bound(cs[0]);
            lemma_tree_pop_bound(cs[1]);
            lemma_tree_pop_bound(cs[2]);
            lemma_tree_pop_bound(cs[3]);
            let l0 = tree_level(cs[0]);
            lemma_pow2_adds(2 * l0, 2);
            assert(pow2(2) == 4) by {
                vstd::arithmetic::power2::lemma2_to64();
            };
            assert(pow2(2 * tree_level(t)) == 4 * pow2(2 * l0));
        },
    }
}

/// The empty tree is well formed, has the stated level, and holds no live
/// cells.
pub proof fn lemma_tree_empty_wf(l: nat)
    ensures
        wf_tree(tree_empty(l)),
        tree_level(tree_empty(l)) == l,
        tree_pop(tree_empty(l)) == 0,
    decreases l,
{
    if l > 0 {
        lemma_tree_empty_wf((l - 1) as nat);
    }
}

/// Every cell of the empty tree is dead.
pub proof fn lemma_tree_empty_cell(l: nat, x: int, y: int)
    ensures
        !tree_cell(tree_empty(l), x, y),
    decreases l,
{
    if l > 0 {
        lemma_tree_empty_wf((l - 1) as nat);
        let d = quarter(l);
        lemma_tree_empty_cell((l - 1) as nat, x + d, y + d);
        lemma_tree_empty_cell((l - 1) as nat, x + d, y - d);
        lemma_tree_empty_cell((l - 1) as nat, x - d, y + d);
        lemma_tree_empty_cell((l - 1) as nat, x - d, y - d);
    }
}

/// After `tree_set`, the written cell reads back, the shape is unchanged,
/// and the tree stays well formed.
pub proof fn lemma_tree_set(t: Tree, x: int, y: int, b: bool)
    requires
        wf_tree(t),
        t is Node ==> pos_in_level(tree_level(t), x, y),
    ensures
        wf_tree(tree_set(t, x, y, b)),
        tree_level(tree_set(t, x, y, b)) == tree_level(t),
        tree_cell(tree_set(t, x, y, b), x, y) == b,
    decreases t,
{
    match t {
        Tree::Leaf(_) => {},
        Tree::Node(cs) => {
            let l = tree_level(t);
            let d = quarter(l);
            lemma_quadrant_shift(l, x, y);
            if x < 0 {
                if y < 0 {
                    lemma_tree_set(cs[0], x + d, y + d, b);
                } else {
                    lemma_tree_set(cs[2], x + d, y - d, b);
                }
            } else {
                if y < 0 {
                    lemma_tree_set(cs[1], x - d, y + d, b);
                } else {
                    lemma_tree_set(cs[3], x - d, y - d, b);
                }
            }
        },
    }
}

/// `tree_set` changes no cell other than the one written.
pub proof fn lemma_tree_set_other(t: Tree, x: int, y: int, b: bool, x2: int, y2: int)
    requires
        wf_tree(t),
        t is Node,
        pos_in_level(tree_level(t), x, y),
        pos_in_level(tree_level(t), x2, y2),
        !(x2 == x && y2 == y),
    ensures
        tree_cell(tree_set(t, x, y, b), x2, y2) == tree_cell(t, x2, y2),
    decreases t,
{
    let cs = t->Node_0;
    let l = tree_level(t);
    let d = quarter(l);
    lemma_quadrant_shift(l, x, y);
    lemma_quadrant_shift(l, x2, y2);
    // The shape of the rewritten child, so the reader's descent uses the
    // same quadrant shift as before the write.
    if x < 0 {
        if y < 0 {
            lemma_tree_set(cs[0], x + d, y + d, b);
        } else {
            lemma_tree_set(cs[2], x + d, y - d, b);
        }
    } else {
        if y < 0 {
            lemma_tree_set(cs[1], x - d, y + d, b);
        } else {
            lemma_tree_set(cs[3], x - d, y - d, b);
        }
    }
    if l == 1 {
        // In-bounds coordinates are -1 or 0, so distinct positions fall in
        // distinct quadrants and the set touches a different leaf.
        assert(pow2(0) == 1) by {
            vstd::arithmetic::power2::lemma2_to64();
        };
    } else {
        // A well-formed child of positive level is itself an inner node.
        if x < 0 && y < 0 && x2 < 0 && y2 < 0 {
            lemma_tree_set_other(cs[0], x + d, y + d, b, x2 + d, y2 + d);
        } else if x < 0 && y >= 0 && x2 < 0 && y2 >= 0 {
            lemma_tree_set_other(cs[2], x + d, y - d, b, x2 + d, y2 - d);
        } else if x >= 0 && y < 0 && x2 >= 0 && y2 < 0 {
            lemma_tree_set_other(cs[1], x - d, y + d, b, x2 - d, y2 + d);
        } else if x >= 0 && y >= 0 && x2 >= 0 && y2 >= 0 {
            lemma_tree_set_other(cs[3], x - d, y - d, b, x2 - d, y2 - d);
        }
    }
}

/// Writing the value a cell already holds leaves the tree unchanged.
pub proof fn lemma_tree_set_noop(t: Tree, x: int, y: int, b: bool)
    requires
        wf_tree(t),
        t is Node ==> pos_in_level(tree_level(t), x, y),
        tree_cell(t, x, y) == b,
    ensures
        tree_set(t, x, y, b) == t,
    decreases t,
{
    match t {
        Tree::Leaf(_) => {},
        Tree::Node(cs) => {
            let l = tree_level(t);
            let d = quarter(l);
            lemma_quadrant_shift(l, x, y);
            if x < 0 {
                if y < 0 {
                    lemma_tree_set_noop(cs[0], x + d, y + d, b);
                } else {
                    lemma_tree_set_noop(cs[2], x + d, y - d, b);
                }
            } else {
                if y < 0 {
                    lemma_tree_set_noop(cs[1], x - d, y + d, b);
                } else {
                    lemma_tree_set_noop(cs[3], x - d, y - d, b);
                }
            }
            assert(seq![cs[0], cs[1], cs[2], cs[3]] =~= cs);
        },
    }
}

/// A well-formed tree of positive level is an inner node whose four
/// children are well formed, one level down.
pub proof fn lemma_wf_children(t: Tree)
    requires
        wf_tree(t),
        tree_level(t) >= 1,
    ensures
        t is Node,
        t->Node_0.len() == 4,
        t == tnode(t_nw(t), t_ne(t), t_sw(t), t_se(t)),
        wf_tree(t_nw(t)) && tree_level(t_nw(t)) == tree_level(t) - 1,
        wf_tree(t_ne(t)) && tree_level(t_ne(t)) == tree_level(t) - 1,
        wf_tree(t_sw(t)) && tree_level(t_sw(t)) == tree_level(t) - 1,
        wf_tree(t_se(t)) && tree_level(t_se(t)) == tree_level(t) - 1,
        tree_pop(t) == tree_pop(t_nw(t)) + tree_pop(t_ne(t)) + tree_pop(t_sw(t)) + tree_pop(
            t_se(t),
        ),
{
    let cs = t->Node_0;
    assert(seq![cs[0], cs[1], cs[2], cs[3]] =~= cs);
}

/// Expanding keeps the tree well formed, raises the level by one, and keeps
/// the population.
pub proof fn lemma_tree_expand_wf(t: Tree)
    requires
        wf_tree(t),
        t is Node,
    ensures
        wf_tree(tree_expand(t)),
        tree_level(tree_expand(t)) == tree_level(t) + 1,
        tree_pop(tree_expand(t)) == tree_pop(t),
{
    let l = tree_level(t);
    let b = tree_empty((l - 1) as nat);
    lemma_wf_children(t);
    lemma_tree_empty_wf((l - 1) as nat);
    let a0 = tnode(b, b, b, t_nw(t));
    let a1 = tnode(b, b, t_ne(t), b);
    let a2 = tnode(b, t_sw(t), b, b);
    let a3 = tnode(t_se(t), b, b, b);
    assert(wf_tree(a0) && tree_level(a0) == l && tree_pop(a0) == tree_pop(t_nw(t)));
    assert(wf_tree(a1) && tree_level(a1) == l && tree_pop(a1) == tree_pop(t_ne(t)));
    assert(wf_tree(a2) && tree_level(a2) == l && tree_pop(a2) == tree_pop(t_sw(t)));
    assert(wf_tree(a3) && tree_level(a3) == l && tree_pop(a3) == tree_pop(t_se(t)));
    assert(tree_expand(t) == tnode(a0, a1, a2, a3));
    assert(wf_tree(tree_expand(t)));
}

/// Expanding keeps every cell: positions inside the old square read the same
/// cell, and the newly covered ring is dead.
pub proof fn lemma_tree_expand_cell(t: Tree, x: int, y: int)
    requires
        wf_tree(t),
        t is Node,
        pos_in_level(tree_level(t) + 1, x, y),
    ensures
        tree_cell(tree_expand(t), x, y) == if pos_in_level(tree_level(t), x, y) {
            tree_cell(t, x, y)
        } else {
            false
        },
{
    let l = tree_level(t);
    let lb = (l - 1) as nat;
    let b = tree_empty(lb);
    lemma_wf_children(t);
    lemma_tree_empty_wf(lb);
    lemma_tree_expand_wf(t);
    let u = tree_expand(t);
    // Shifts: descending from level l+1 moves by dd, from level l by d.
    let dd = quarter(l + 1);
    let d = quarter(l);
    assert(dd == pow2(lb));
    assert(pow2(l) == 2 * dd) by {
        lemma_pow2_adds(lb, 1);
        vstd::arithmetic::power2::lemma2_to64();
    };
    if l >= 2 {
        assert(d == pow2((l - 2) as nat));
        assert(dd == 2 * d) by {
            lemma_pow2_adds((l - 2) as nat, 1);
            vstd::arithmetic::power2::lemma2_to64();
        };
    } else {
        assert(d == 0 && dd == 1) by {
            vstd::arithmetic::power2::lemma2_to64();
        };
    }
    let a0 = tnode(b, b, b, t_nw(t));
    let a1 = tnode(b, b, t_ne(t), b);
    let a2 = tnode(b, t_sw(t), b, b);
    let a3 = tnode(t_se(t), b, b, b);
    assert(u == tnode(a0, a1, a2, a3));
    assert(tree_level(a0) == l && tree_level(a1) == l && tree_level(a2) == l && tree_level(a3)
        == l);
    // The leaf children of a level-1 input absorb any coordinates.
    if l == 1 {
        assert(tree_level(t_nw(t)) == 0 && t_nw(t) is Leaf);
        assert(tree_level(t_ne(t)) == 0 && t_ne(t) is Leaf);
        assert(tree_level(t_sw(t)) == 0 && t_sw(t) is Leaf);
        assert(tree_level(t_se(t)) == 0 && t_se(t) is Leaf);
    }
    if x < 0 {
        if y < 0 {
            assert(tree_cell(u, x, y) == tree_cell(a0, x + dd, y + dd));
            if x + dd < 0 {
                lemma_tree_empty_cell(lb, x + dd + d, y + dd + d);
                lemma_tree_empty_cell(lb, x + dd + d, y + dd - d);
            } else if y + dd < 0 {
                lemma_tree_empty_cell(lb, x + dd - d, y + dd + d);
            } else {
                assert(tree_cell(a0, x + dd, y + dd) == tree_cell(t_nw(t), x + dd - d, y + dd
                    - d));
                assert(tree_cell(t, x, y) == tree_cell(t_nw(t), x + d, y + d));
            }
        } else {
            assert(tree_cell(u, x, y) == tree_cell(a2, x + dd, y - dd));
            if x + dd < 0 {
                lemma_tree_empty_cell(lb, x + dd + d, y - dd + d);
                lemma_tree_empty_cell(lb, x + dd + d, y - dd - d);
            } else if y - dd >= 0 {
                lemma_tree_empty_cell(lb, x + dd - d, y - dd - d);
            } else {
                assert(tree_cell(a2, x + dd, y - dd) == tree_cell(t_sw(t), x + dd - d, y - dd
                    + d));
                assert(tree_cell(t, x, y) == tree_cell(t_sw(t), x + d, y - d));
            }
        }
    } else {
        if y < 0 {
            assert(tree_cell(u, x, y) == tree_cell(a1, x - dd, y + dd));
            if x - dd >= 0 {
                lemma_tree_empty_cell(lb, x - dd - d, y + dd + d);
                lemma_tree_empty_cell(lb, x - dd - d, y + dd - d);
            } else if y + dd < 0 {
                lemma_tree_empty_cell(lb, x - dd + d, y + dd + d);
            } else {
                assert(tree_cell(a1, x - dd, y + dd) == tree_cell(t_ne(t), x - dd + d, y + dd
                    - d));
                assert(tree_cell(t, x, y) == tree_cell(t_ne(t), x - d, y + d));
            }
        } else {
            assert(tree_cell(u, x, y) == tree_cell(a3, x - dd, y - dd));
            if x - dd >= 0 {
                lemma_tree_empty_cell(lb, x - dd - d, y - dd - d);
                lemma_tree_empty_cell(lb, x - dd - d, y - dd + d);
            } else if y - dd >= 0 {
                lemma_tree_empty_cell(lb, x - dd + d, y - dd - d);
            } else {
                assert(tree_cell(a3, x - dd, y - dd) == tree_cell(t_se(t), x - dd + d, y - dd
                    + d));
                assert(tree_cell(t, x, y) == tree_cell(t_se(t), x - d, y - d));
            }
        }
    }
}

/// The population balance that makes evolution safe: each of the root's
/// quadrants holds all of its live cells in the grandchild nearest the
/// center, so a step cannot move live cells past the kept center.
pub open spec fn padded(t: Tree) -> bool {
    &&& tree_level(t) >= 3
    &&& tree_pop(t_nw(t)) == tree_pop(t_se(t_se(t_nw(t))))
    &&& tree_pop(t_ne(t)) == tree_pop(t_sw(t_sw(t_ne(t))))
    &&& tree_pop(t_sw(t)) == tree_pop(t_ne(t_ne(t_sw(t))))
    &&& tree_pop(t_se(t)) == tree_pop(t_nw(t_nw(t_se(t))))
}

/// The outer ring of grandchildren is dead. Every tree that was just
/// expanded has this shape, and expanding once more makes it padded.
pub open spec fn ring_empty(t: Tree) -> bool {
    &&& tree_level(t) >= 2
    &&& tree_pop(t_nw(t_nw(t))) == 0
    &&& tree_pop(t_ne(t_nw(t))) == 0
    &&& tree_pop(t_sw(t_nw(t))) == 0
    &&& tree_pop(t_nw(t_ne(t))) == 0
    &&& tree_pop(t_ne(t_ne(t))) == 0
    &&& tree_pop(t_se(t_ne(t))) == 0
    &&& tree_pop(t_nw(t_sw(t))) == 0
    &&& tree_pop(t_sw(t_sw(t))) == 0
    &&& tree_pop(t_se(t_sw(t))) == 0
    &&& tree_pop(t_ne(t_se(t))) == 0
    &&& tree_pop(t_sw(t_se(t))) == 0
    &&& tree_pop(t_se(t_se(t))) == 0
}

/// Expanding any inner node of level at least one yields a tree whose outer
/// grandchild ring is dead.
pub proof fn lemma_expand_ring(t: Tree)
    requires
        wf_tree(t),
        t is Node,
    ensures
        ring_empty(tree_expand(t)),
{
    lemma_wf_children(t);
    lemma_tree_empty_wf((tree_level(t) - 1) as nat);
    lemma_tree_expand_wf(t);
    let u = tree_expand(t);
    lemma_wf_children(u);
    lemma_wf_children(t_nw(u));
    lemma_wf_children(t_ne(u));
    lemma_wf_children(t_sw(u));
    lemma_wf_children(t_se(u));
}

/// Expanding a tree whose grandchild ring is dead yields a padded tree.
pub proof fn lemma_ring_padded(t: Tree)
    requires
        wf_tree(t),
        ring_empty(t),
    ensures
        padded(tree_expand(t)),
{
    lemma_wf_children(t);
    lemma_wf_children(t_nw(t));
    lemma_wf_children(t_ne(t));
    lemma_wf_children(t_sw(t));
    lemma_wf_children(t_se(t));
    lemma_tree_empty_wf((tree_level(t) - 1) as nat);
    lemma_tree_expand_wf(t);
    let u = tree_expand(t);
    lemma_wf_children(u);
    lemma_wf_children(t_nw(u));
    lemma_wf_children(t_ne(u));
    lemma_wf_children(t_sw(u));
    lemma_wf_children(t_se(u));
}

/// The centered level-`k-1` square of a level-`k` node: the four
/// grandchildren that touch the node's center.
pub open spec fn c_sub(t: Tree) -> Tree {
    tnode(t_se(t_nw(t)), t_sw(t_ne(t)), t_ne(t_sw(t)), t_nw(t_se(t)))
}

/// The centered square of the strip formed by a west and an east neighbor
/// of the same level.
pub open spec fn c_horizontal(w: Tree, e: Tree) -> Tree {
    tnode(t_se(t_ne(w)), t_sw(t_nw(e)), t_ne(t_se(w)), t_nw(t_sw(e)))
}

/// The centered square of the strip formed by a north and a south neighbor
/// of the same level.
pub open spec fn c_vertical(n: Tree, s: Tree) -> Tree {
    tnode(t_se(t_sw(n)), t_sw(t_se(n)), t_ne(t_nw(s)), t_nw(t_ne(s)))
}

/// The innermost level-`k-1` square of a level-`k` node: the four
/// great-grandchildren that touch the center, one level further in than
/// `c_sub`.
pub open spec fn c_subsub(t: Tree) -> Tree {
    tnode(t_se(t_se(t_nw(t))), t_sw(t_sw(t_ne(t))), t_ne(t_ne(t_sw(t))), t_nw(t_nw(t_se(t))))
}

/// The square straddling a west and an east neighbor of the same level:
/// the east half of `w` beside the west half of `e`. Same level as `w`.
pub open spec fn h_strip(w: Tree, e: Tree) -> Tree {
    tnode(t_ne(w), t_nw(e), t_se(w), t_sw(e))
}

/// The square straddling a north and a south neighbor of the same level:
/// the south half of `n` above the north half of `s`. Same level as `n`.
pub open spec fn v_strip(n: Tree, s: Tree) -> Tree {
    tnode(t_sw(n), t_se(n), t_nw(s), t_ne(s))
}

/// A strip square of two well-formed neighbors of equal positive level is
/// well formed, at that same level.
pub proof fn lemma_strips_wf(a: Tree, b: Tree)
    requires
        wf_tree(a),
        wf_tree(b),
        tree_level(a) == tree_level(b),
        tree_level(a) >= 1,
    ensures
        wf_tree(h_strip(a, b)),
        tree_level(h_strip(a, b)) == tree_level(a),
        wf_tree(v_strip(a, b)),
        tree_level(v_strip(a, b)) == tree_level(a),
{
    lemma_wf_children(a);
    lemma_wf_children(b);
}

/// `c_sub` of a well-formed node of level at least 2 is well formed, one
/// level down.
pub proof fn lemma_c_sub_wf(t: Tree)
    requires
        wf_tree(t),
        tree_level(t) >= 2,
    ensures
        wf_tree(c_sub(t)),
        tree_level(c_sub(t)) == tree_level(t) - 1,
{
    lemma_wf_children(t);
    lemma_wf_children(t_nw(t));
    lemma_wf_children(t_ne(t));
    lemma_wf_children(t_sw(t));
    lemma_wf_children(t_se(t));
}

/// `c_horizontal` of two well-formed nodes of equal level at least 2 is
/// well formed, one level down.
pub proof fn lemma_c_horizontal_wf(w: Tree, e: Tree)
    requires
        wf_tree(w),
        wf_tree(e),
        tree_level(w) == tree_level(e),
        tree_level(w) >= 2,
    ensures
        wf_tree(c_horizontal(w, e)),
        tree_level(c_horizontal(w, e)) == tree_level(w) - 1,
{
    lemma_wf_children(w);
    lemma_wf_children(e);
    lemma_wf_children(t_nw(e));
    lemma_wf_children(t_ne(w));
    lemma_wf_children(t_sw(e));
    lemma_wf_children(t_se(w));
}

/// `c_vertical` of two well-formed nodes of equal level at least 2 is well
/// formed, one level down.
pub proof fn lemma_c_vertical_wf(n: Tree, s: Tree)
    requires
        wf_tree(n),
        wf_tree(s),
        tree_level(n) == tree_level(s),
        tree_level(n) >= 2,
    ensures
        wf_tree(c_vertical(n, s)),
        tree_level(c_vertical(n, s)) == tree_level(n) - 1,
{
    lemma_wf_children(n);
    lemma_wf_children(s);
    lemma_wf_children(t_sw(n));
    lemma_wf_children(t_se(n));
    lemma_wf_children(t_nw(s));
    lemma_wf_children(t_ne(s));
}

/// `c_subsub` of a well-formed node of level at least 3 is well formed, two
/// levels down: it is built from great-grandchildren.
#[verifier::rlimit(100)]
pub proof fn lemma_c_subsub_wf(t: Tree)
    requires
        wf_tree(t),
        tree_level(t) >= 3,
    ensures
        wf_tree(c_subsub(t)),
        tree_level(c_subsub(t)) == tree_level(t) - 2,
{
    lemma_wf_children(t);
    lemma_wf_children(t_nw(t));
    lemma_wf_children(t_ne(t));
    lemma_wf_children(t_sw(t));
    lemma_wf_children(t_se(t));
    lemma_wf_children(t_se(t_nw(t)));
    lemma_wf_children(t_sw(t_ne(t)));
    lemma_wf_children(t_ne(t_sw(t)));
    lemma_wf_children(t_nw(t_se(t)));
}


/// One bit of the 16-bit raster of a level-2 tree: index `i` counts
/// row-major from the top-left cell `(-2, -2)`.
pub open spec fn bit16(t: Tree, i: int) -> int {
    if tree_cell(t, (i % 4) - 2, (i / 4) - 2) {
        1
    } else {
        0
    }
}

/// The first `n` raster bits of a level-2 tree packed into an integer, the
/// earliest cell in the most significant position.
pub open spec fn bits_prefix(t: Tree, n: int) -> int
    decreases n,
{
    if n <= 0 {
        0
    } else {
        2 * bits_prefix(t, n - 1) + bit16(t, n - 1)
    }
}

/// `bits_prefix` stays below `2^n`, so the full 16-bit raster fits a `u16`.
pub proof fn lemma_bits_prefix_bound(t: Tree, n: nat)
    ensures
        0 <= bits_prefix(t, n as int) < pow2(n),
    decreases n,
{
    if n == 0 {
        assert(pow2(0) == 1) by {
            vstd::arithmetic::power2::lemma2_to64();
        };
    } else {
        lemma_bits_prefix_bound(t, (n - 1) as nat);
        lemma_pow2_adds((n - 1) as nat, 1);
        assert(pow2(1) == 2) by {
            vstd::arithmetic::power2::lemma2_to64();
        };
    }
}

/// The 4x4 grid of a level-2 tree as a 16-bit word, row-major, the
/// top-left cell in the most significant bit.
pub open spec fn tree_bits(t: Tree) -> u16 {
    bits_prefix(t, 16) as u16
}

/// One step of the B3/S23 rule read off a 16-bit window: the low bits hold
/// the three rows below and around the cell, bit 5 is the cell itself, and
/// the mask isolates its eight neighbors.
pub open spec fn rule_bit(window: u16) -> bool {
    let center = (window >> 5u16) & 1u16;
    let m = window & 0x757u16;
    let n = (m & 1u16) + ((m >> 1u16) & 1u16) + ((m >> 2u16) & 1u16) + ((m >> 4u16) & 1u16) + ((m
        >> 6u16) & 1u16) + ((m >> 8u16) & 1u16) + ((m >> 9u16) & 1u16) + ((m >> 10u16) & 1u16);
    n == 3 || (n == 2 && center == 1)
}

/// One generation of the centered 2x2 square of a level-2 tree, computed
/// from the packed raster: shifting by 5, 4, 1, 0 places the NW, NE, SW,
/// SE center cell at bit 5 of its own 3x3 window.
pub open spec fn tree_kernel(t: Tree) -> Tree {
    let w = tree_bits(t);
    tnode(
        Tree::Leaf(rule_bit(w >> 5u16)),
        Tree::Leaf(rule_bit(w >> 4u16)),
        Tree::Leaf(rule_bit(w >> 1u16)),
        Tree::Leaf(rule_bit(w)),
    )
}

/// The kernel yields a well-formed level-1 node.
pub proof fn lemma_tree_kernel_wf(t: Tree)
    ensures
        wf_tree(tree_kernel(t)),
        tree_level(tree_kernel(t)) == 1,
{
    let w = tree_bits(t);
    let k = tree_kernel(t);
    assert(tree_level(Tree::Leaf(rule_bit(w >> 5u16))) == 0);
    assert(tree_level(Tree::Leaf(rule_bit(w >> 4u16))) == 0);
    assert(tree_level(Tree::Leaf(rule_bit(w >> 1u16))) == 0);
    assert(tree_level(Tree::Leaf(rule_bit(w))) == 0);
    assert(wf_tree(Tree::Leaf(rule_bit(w >> 5u16))));
    assert(wf_tree(Tree::Leaf(rule_bit(w >> 4u16))));
    assert(wf_tree(Tree::Leaf(rule_bit(w >> 1u16))));
    assert(wf_tree(Tree::Leaf(rule_bit(w))));
    assert(wf_tree(k));
    assert(tree_level(k) == 1);
}

/// The centered half of a tree advanced `2^(l-2)` generations, `l >= 2`
/// being the level handed in: one step of the bit kernel at level 2, and
/// above it the doubling recursion. The nine overlapping half-sized squares
/// at stride `2^(l-2)` are each evolved `2^(l-3)` generations; their nine
/// results tile four overlapping half-sized assemblies, and evolving each
/// assembly adds the remaining `2^(l-3)` generations.
pub open spec fn tree_step_rec(l: nat, t: Tree) -> Tree
    decreases l,
{
    if l <= 2 {
        tree_kernel(t)
    } else {
        let m = (l - 1) as nat;
        let n00 = tree_step_rec(m, t_nw(t));
        let n01 = tree_step_rec(m, h_strip(t_nw(t), t_ne(t)));
        let n02 = tree_step_rec(m, t_ne(t));
        let n10 = tree_step_rec(m, v_strip(t_nw(t), t_sw(t)));
        let n11 = tree_step_rec(m, c_sub(t));
        let n12 = tree_step_rec(m, v_strip(t_ne(t), t_se(t)));
        let n20 = tree_step_rec(m, t_sw(t));
        let n21 = tree_step_rec(m, h_strip(t_sw(t), t_se(t)));
        let n22 = tree_step_rec(m, t_se(t));
        tnode(
            tree_step_rec(m, tnode(n00, n01, n10, n11)),
            tree_step_rec(m, tnode(n01, n02, n11, n12)),
            tree_step_rec(m, tnode(n10, n11, n20, n21)),
            tree_step_rec(m, tnode(n11, n12, n21, n22)),
        )
    }
}

/// One evolution of a tree of level `k >= 2`: its centered half advanced
/// `2^(k-2)` generations, one level down.
pub open spec fn tree_next_gen(t: Tree) -> Tree {
    tree_step_rec(tree_level(t), t)
}

/// The nine overlapping half-sized squares of a node of level `l >= 3` are
/// well formed, one level down: the four children, the four strips between
/// neighboring children, and the centered square.
pub proof fn lemma_nine_squares(t: Tree)
    requires
        wf_tree(t),
        tree_level(t) >= 3,
    ensures
        wf_tree(t_nw(t)) && tree_level(t_nw(t)) == tree_level(t) - 1,
        wf_tree(t_ne(t)) && tree_level(t_ne(t)) == tree_level(t) - 1,
        wf_tree(t_sw(t)) && tree_level(t_sw(t)) == tree_level(t) - 1,
        wf_tree(t_se(t)) && tree_level(t_se(t)) == tree_level(t) - 1,
        wf_tree(h_strip(t_nw(t), t_ne(t))) && tree_level(h_strip(t_nw(t), t_ne(t)))
            == tree_level(t) - 1,
        wf_tree(h_strip(t_sw(t), t_se(t))) && tree_level(h_strip(t_sw(t), t_se(t)))
            == tree_level(t) - 1,
        wf_tree(v_strip(t_nw(t), t_sw(t))) && tree_level(v_strip(t_nw(t), t_sw(t)))
            == tree_level(t) - 1,
        wf_tree(v_strip(t_ne(t), t_se(t))) && tree_level(v_strip(t_ne(t), t_se(t)))
            == tree_level(t) - 1,
        wf_tree(c_sub(t)) && tree_level(c_sub(t)) == tree_level(t) - 1,
{
    lemma_wf_children(t);
    lemma_strips_wf(t_nw(t), t_ne(t));
    lemma_strips_wf(t_sw(t), t_se(t));
    lemma_strips_wf(t_nw(t), t_sw(t));
    lemma_strips_wf(t_ne(t), t_se(t));
    lemma_c_sub_wf(t);
}

/// Evolution with the stated level yields a well-formed tree one level
/// down.
#[verifier::rlimit(100)]
pub proof fn lemma_tree_step_rec_wf(l: nat, t: Tree)
    requires
        wf_tree(t),
        tree_level(t) == l,
        l >= 2,
    ensures
        wf_tree(tree_step_rec(l, t)),
        tree_level(tree_step_rec(l, t)) == l - 1,
    decreases l,
{
    if l == 2 {
        lemma_tree_kernel_wf(t);
    } else {
        let m = (l - 1) as nat;
        lemma_nine_squares(t);
        let n00 = tree_step_rec(m, t_nw(t));
        let n01 = tree_step_rec(m, h_strip(t_nw(t), t_ne(t)));
        let n02 = tree_step_rec(m, t_ne(t));
        let n10 = tree_step_rec(m, v_strip(t_nw(t), t_sw(t)));
        let n11 = tree_step_rec(m, c_sub(t));
        let n12 = tree_step_rec(m, v_strip(t_ne(t), t_se(t)));
        let n20 = tree_step_rec(m, t_sw(t));
        let n21 = tree_step_rec(m, h_strip(t_sw(t), t_se(t)));
        let n22 = tree_step_rec(m, t_se(t));
        lemma_tree_step_rec_wf(m, t_nw(t));
        lemma_tree_step_rec_wf(m, h_strip(t_nw(t), t_ne(t)));
        lemma_tree_step_rec_wf(m, t_ne(t));
        lemma_tree_step_rec_wf(m, v_strip(t_nw(t), t_sw(t)));
        lemma_tree_step_rec_wf(m, c_sub(t));
        lemma_tree_step_rec_wf(m, v_strip(t_ne(t), t_se(t)));
        lemma_tree_step_rec_wf(m, t_sw(t));
        lemma_tree_step_rec_wf(m, h_strip(t_sw(t), t_se(t)));
        lemma_tree_step_rec_wf(m, t_se(t));
        lemma_tree_step_rec_wf(m, tnode(n00, n01, n10, n11));
        lemma_tree_step_rec_wf(m, tnode(n01, n02, n11, n12));
        lemma_tree_step_rec_wf(m, tnode(n10, n11, n20, n21));
        lemma_tree_step_rec_wf(m, tnode(n11, n12, n21, n22));
    }
}

/// Evolution yields a well-formed tree one level down.
pub proof fn lemma_tree_next_gen_wf(t: Tree)
    requires
        wf_tree(t),
        tree_level(t) >= 2,
    ensures
        wf_tree(tree_next_gen(t)),
        tree_level(tree_next_gen(t)) == tree_level(t) - 1,
{
    lemma_tree_step_rec_wf(tree_level(t), t);
}

/// The doubling recursion written over `tree_next_gen` itself: above the
/// base case, the nine half-sized squares are evolved, and the answer
/// assembles the evolutions of the four overlapping squares their results
/// tile.
#[verifier::rlimit(100)]
pub proof fn lemma_tree_next_gen_unfold(t: Tree)
    requires
        wf_tree(t),
        tree_level(t) >= 3,
    ensures
        ({
            let n00 = tree_next_gen(t_nw(t));
            let n01 = tree_next_gen(h_strip(t_nw(t), t_ne(t)));
            let n02 = tree_next_gen(t_ne(t));
            let n10 = tree_next_gen(v_strip(t_nw(t), t_sw(t)));
            let n11 = tree_next_gen(c_sub(t));
            let n12 = tree_next_gen(v_strip(t_ne(t), t_se(t)));
            let n20 = tree_next_gen(t_sw(t));
            let n21 = tree_next_gen(h_strip(t_sw(t), t_se(t)));
            let n22 = tree_next_gen(t_se(t));
            tree_next_gen(t) == tnode(
                tree_next_gen(tnode(n00, n01, n10, n11)),
                tree_next_gen(tnode(n01, n02, n11, n12)),
                tree_next_gen(tnode(n10, n11, n20, n21)),
                tree_next_gen(tnode(n11, n12, n21, n22)),
            )
        }),
{
    let l = tree_level(t);
    let m = (l - 1) as nat;
    lemma_nine_squares(t);
    lemma_tree_step_rec_wf(m, t_nw(t));
    lemma_tree_step_rec_wf(m, h_strip(t_nw(t), t_ne(t)));
    lemma_tree_step_rec_wf(m, t_ne(t));
    lemma_tree_step_rec_wf(m, v_strip(t_nw(t), t_sw(t)));
    lemma_tree_step_rec_wf(m, c_sub(t));
    lemma_tree_step_rec_wf(m, v_strip(t_ne(t), t_se(t)));
    lemma_tree_step_rec_wf(m, t_sw(t));
    lemma_tree_step_rec_wf(m, h_strip(t_sw(t), t_se(t)));
    lemma_tree_step_rec_wf(m, t_se(t));
    let n00 = tree_step_rec(m, t_nw(t));
    let n01 = tree_step_rec(m, h_strip(t_nw(t), t_ne(t)));
    let n02 = tree_step_rec(m, t_ne(t));
    let n10 = tree_step_rec(m, v_strip(t_nw(t), t_sw(t)));
    let n11 = tree_step_rec(m, c_sub(t));
    let n12 = tree_step_rec(m, v_strip(t_ne(t), t_se(t)));
    let n20 = tree_step_rec(m, t_sw(t));
    let n21 = tree_step_rec(m, h_strip(t_sw(t), t_se(t)));
    let n22 = tree_step_rec(m, t_se(t));
    assert(tree_level(tnode(n00, n01, n10, n11)) == m);
    assert(tree_level(tnode(n01, n02, n11, n12)) == m);
    assert(tree_level(tnode(n10, n11, n20, n21)) == m);
    assert(tree_level(tnode(n11, n12, n21, n22)) == m);
}


/// `t` expanded `n` times.
pub open spec fn iter_expand(n: nat, t: Tree) -> Tree
    decreases n,
{
    if n == 0 {
        t
    } else {
        tree_expand(iter_expand((n - 1) as nat, t))
    }
}

/// Descending into a quadrant maps the parent's coordinate range exactly
/// onto the child's: for a level `l >= 1` node, a position in bounds lands in
/// bounds of the level `l - 1` child, and the shift is a bijection.
pub proof fn lemma_quadrant_shift(l: nat, x: int, y: int)
    requires
        l >= 1,
        pos_in_level(l, x, y),
    ensures
        x < 0 && y < 0 ==> pos_in_level((l - 1) as nat, x + quarter(l), y + quarter(l)) || l == 1,
        x < 0 && y >= 0 ==> pos_in_level((l - 1) as nat, x + quarter(l), y - quarter(l)) || l == 1,
        x >= 0 && y < 0 ==> pos_in_level((l - 1) as nat, x - quarter(l), y + quarter(l)) || l == 1,
        x >= 0 && y >= 0 ==> pos_in_level((l - 1) as nat, x - quarter(l), y - quarter(l)) || l == 1,
{
    if l >= 2 {
        lemma_pow2_adds((l - 2) as nat, 1);
        assert(pow2(1) == 2) by {
            vstd::arithmetic::power2::lemma2_to64();
        };
        lemma_pow2_pos((l - 2) as nat);
        assert(pow2((l - 1) as nat) == 2 * pow2((l - 2) as nat));
    }
}

} // verus!
