//! A universe over owned quadtree nodes.

use vstd::prelude::*;

use crate::coords::pos_in_level;
use crate::model::{
    iter_expand, padded, ring_empty, tree_cell, tree_empty, tree_level, tree_next_gen, tree_pop,
    tree_set, Tree,
};
use crate::treelife::tree_node::{
    lemma_children_of, lemma_node_inner, node_tree, node_wf, Node,
};

verus! {

/// A universe holding one owned root tree and the generation counter.
pub struct TreeUniverse {
    generation: usize,
    root: Node,
}

impl TreeUniverse {
    /// The tree the universe denotes.
    pub closed spec fn tree(self) -> Tree {
        node_tree(self.root)
    }

    /// How many steps have run.
    pub closed spec fn gen_count(self) -> nat {
        self.generation as nat
    }

    /// The invariant: a well-formed inner root of level at least 2.
    pub closed spec fn wf(self) -> bool {
        &&& node_wf(self.root)
        &&& self.root is Inner
        &&& tree_level(self.tree()) >= 2
    }

    /// An empty universe with a level-3 root.
    pub fn new() -> (r: Self)
        ensures
            r.wf(),
            r.tree() == tree_empty(3),
            r.gen_count() == 0,
    {
        proof {
            crate::model::lemma_tree_empty_wf(3);
        }
        Self { generation: 0, root: Node::new_empty_tree(3) }
    }
}

impl Default for TreeUniverse {
    /// The same empty universe as [`TreeUniverse::new`].
    fn default() -> (r: Self)
        ensures
            r.wf(),
            r.tree() == tree_empty(3),
            r.gen_count() == 0,
    {
        Self::new()
    }
}


impl TreeUniverse {
    /// The cell at `(x, y)` as a bit.
    pub fn get_bit(&self, x: i32, y: i32) -> (r: u16)
        requires
            self.wf(),
            tree_level(self.tree()) <= 32,
            pos_in_level(tree_level(self.tree()), x as int, y as int),
        ensures
            r == if tree_cell(self.tree(), x as int, y as int) {
                1u16
            } else {
                0u16
            },
    {
        self.root.get_bit(x, y)
    }

    /// Write one cell, growing the universe first until the position is
    /// covered. Any `i32` position fits by level 32.
    #[verifier::loop_isolation(false)]
    pub fn set_bit(&mut self, x: i32, y: i32, alive: bool)
        requires
            old(self).wf(),
            tree_level(old(self).tree()) <= 32,
        ensures
            final(self).wf(),
            final(self).gen_count() == old(self).gen_count(),
            tree_level(old(self).tree()) <= tree_level(final(self).tree()) <= 32,
            pos_in_level(tree_level(final(self).tree()), x as int, y as int),
            exists|k: nat|
                final(self).tree() == tree_set(
                    #[trigger] iter_expand(k, old(self).tree()),
                    x as int,
                    y as int,
                    alive,
                ) && tree_level(iter_expand(k, old(self).tree())) == tree_level(
                    final(self).tree(),
                ),
    {
        let ghost orig = self.tree();
        let ghost mut k: nat = 0;
        let mut copy = self.root.clone();
        loop
            invariant
                node_wf(copy),
                copy is Inner,
                2 <= tree_level(node_tree(copy)) <= 32,
                tree_level(node_tree(copy)) >= tree_level(orig),
                node_tree(copy) == iter_expand(k, orig),
            decreases 32 - tree_level(node_tree(copy)),
        {
            proof {
                lemma_children_of(copy);
            }
            let level = copy.inode_ref().level;
            proof {
                vstd::arithmetic::power2::lemma2_to64();
                vstd::arithmetic::power2::lemma2_to64_rest();
                vstd::bits::lemma_u64_pow2_no_overflow((level - 1) as nat);
                vstd::bits::lemma_u64_shl_is_mul(1u64, (level - 1) as u64);
                if ((level - 1) as nat) < 31 {
                    vstd::arithmetic::power2::lemma_pow2_strictly_increases(
                        (level - 1) as nat,
                        31,
                    );
                }
            }
            let max = (1u64 << ((level - 1) as u64)) as i64;
            if -max <= x as i64 && (x as i64) < max && -max <= y as i64 && (y as i64) < max {
                break;
            }
            proof {
                assert(tree_level(node_tree(copy)) < 32) by {
                    if tree_level(node_tree(copy)) == 32 {
                        assert(max == 0x80000000);
                    }
                };
                crate::model::lemma_tree_expand_wf(node_tree(copy));
            }
            copy = copy.expand_universe();
            proof {
                k = k + 1;
            }
        }
        self.root = copy.set_bit(x, y, alive);
        proof {
            lemma_node_inner(self.root);
        }
    }

    /// Whether the root is ready to evolve: level at least 3, each
    /// quadrant's population concentrated in the grandchild nearest the
    /// center.
    fn padded_root(&self) -> (r: bool)
        requires
            self.wf(),
        ensures
            r == padded(self.tree()),
    {
        proof {
            lemma_children_of(self.root);
        }
        if self.root.inode_ref().level < 3 {
            return false;
        }
        let i = self.root.inode_ref();
        proof {
            lemma_node_inner(*i.nw);
            lemma_node_inner(*i.ne);
            lemma_node_inner(*i.sw);
            lemma_node_inner(*i.se);
            lemma_children_of(*i.nw);
            lemma_children_of(*i.ne);
            lemma_children_of(*i.sw);
            lemma_children_of(*i.se);
            lemma_node_inner(*i.nw->Inner_0.se);
            lemma_node_inner(*i.ne->Inner_0.sw);
            lemma_node_inner(*i.sw->Inner_0.ne);
            lemma_node_inner(*i.se->Inner_0.nw);
            lemma_children_of(*i.nw->Inner_0.se);
            lemma_children_of(*i.ne->Inner_0.sw);
            lemma_children_of(*i.sw->Inner_0.ne);
            lemma_children_of(*i.se->Inner_0.nw);
        }
        let ok = i.nw.population() == i.nw.inode_ref().se.inode_ref().se.population()
            && i.ne.population() == i.ne.inode_ref().sw.inode_ref().sw.population()
            && i.sw.population() == i.sw.inode_ref().ne.inode_ref().ne.population()
            && i.se.population() == i.se.inode_ref().nw.inode_ref().nw.population();
        ok
    }

    /// Advance one tick: grow until the root is padded, then replace it by
    /// its evolved center, `2^(L-2)` generations ahead for a padded root of
    /// level `L`.
    #[verifier::loop_isolation(false)]
    pub fn run_step(&mut self)
        requires
            old(self).wf(),
            tree_level(old(self).tree()) <= 30,
            old(self).gen_count() < usize::MAX,
        ensures
            final(self).wf(),
            final(self).gen_count() == old(self).gen_count() + 1,
            tree_level(final(self).tree()) <= 32,
            exists|k: nat|
                k <= 2 && padded(#[trigger] iter_expand(k, old(self).tree())) && (forall|j: nat|
                    j < k ==> !padded(#[trigger] iter_expand(j, old(self).tree())))
                    && final(self).tree() == tree_next_gen(iter_expand(k, old(self).tree())),
    {
        let ghost orig = self.tree();
        let ghost mut k: nat = 0;
        while !self.padded_root()
            invariant
                self.wf(),
                self.gen_count() == old(self).gen_count(),
                self.tree() == iter_expand(k, orig),
                k <= 2,
                k >= 1 ==> ring_empty(self.tree()),
                k == 2 ==> padded(self.tree()),
                forall|j: nat| j < k ==> !padded(#[trigger] iter_expand(j, orig)),
                tree_level(self.tree()) == tree_level(orig) + k,
            decreases (if padded(self.tree()) {
                0int
            } else if ring_empty(self.tree()) {
                1int
            } else {
                2int
            }),
        {
            let ghost prev = self.tree();
            proof {
                assert(k < 2);
                crate::model::lemma_expand_ring(prev);
                if ring_empty(prev) {
                    crate::model::lemma_ring_padded(prev);
                }
                crate::model::lemma_tree_expand_wf(prev);
            }
            let root = self.root.clone();
            self.root = root.expand_universe();
            proof {
                lemma_node_inner(self.root);
                k = k + 1;
            }
        }
        let ghost pad = self.tree();
        proof {
            crate::model::lemma_tree_next_gen_wf(pad);
        }
        let root = self.root.clone();
        self.root = Node::Inner(root.inode().next_generation());
        self.generation = self.generation + 1;
        proof {
            lemma_node_inner(self.root);
            assert(padded(iter_expand(k, orig)) && self.tree() == tree_next_gen(
                iter_expand(k, orig),
            ));
        }
    }

    /// The number of live cells.
    pub fn population(&self) -> (r: u128)
        requires
            self.wf(),
        ensures
            r as nat == tree_pop(self.tree()),
    {
        self.root.population()
    }

    /// The root's level.
    pub fn level(&self) -> (r: u32)
        requires
            self.wf(),
        ensures
            r as nat == tree_level(self.tree()),
    {
        self.root.level()
    }
}

} // verus!
