//! The hash-consed universe: a table assigning one stable handle to every
//! distinct quadtree node, the root handle, and the generation counter.
//!
//! Structurally equal subtrees share one handle, so the memoized evolution
//! computed for any one of them is reused for all.

use vstd::arithmetic::power2::{lemma2_to64, lemma2_to64_rest, lemma_pow2_adds, pow2};
use vstd::pervasive::VecAdditionalExecFns;
use vstd::prelude::*;

use crate::coords::{pos_in_level, quarter, Level, Position, Quadrant};
use crate::model::{
    tnode, tree_cell, tree_empty, tree_expand, tree_kernel, tree_level, tree_next_gen, tree_pop,
    tree_set, Tree,
};
use crate::node::{cell_alive, key_eq, node_level, node_population, same_key, Cell, Inode, Leaf,
    Node};

verus! {

/// A handle: the index of a canonical node in the universe's table. Two
/// handles are equal exactly when they denote structurally equal subtrees.
#[derive(Debug, Copy, Clone, PartialEq, Eq, Structural, PartialOrd, Ord, Hash)]
pub struct Id(pub usize);

/// The universe: the node table, the root handle, and how many times
/// `evolve` has run.
pub struct Universe {
    table: Vec<Node>,
    root: Option<Id>,
    generation: usize,
}

/// The subtree a table entry denotes, as a ghost tree. Handles held in a
/// well-formed table always point below their owner, so the recursion is on
/// the index; an out-of-range or forward reference denotes a dead leaf.
pub open spec fn abs(t: Seq<Node>, i: int) -> Tree
    decreases i,
{
    if 0 <= i < t.len() {
        match t[i] {
            Node::Leaf(l) => Tree::Leaf(cell_alive(l.0)),
            Node::Inode(n) => if n.nw.0 < i && n.ne.0 < i && n.sw.0 < i && n.se.0 < i {
                tnode(
                    abs(t, n.nw.0 as int),
                    abs(t, n.ne.0 as int),
                    abs(t, n.sw.0 as int),
                    abs(t, n.se.0 as int),
                )
            } else {
                Tree::Leaf(false)
            },
        }
    } else {
        Tree::Leaf(false)
    }
}

/// Structural well-formedness of one entry: children sit strictly below it
/// in the table, carry the level just under its own, and its population is
/// the sum of theirs.
pub open spec fn wf_at(t: Seq<Node>, i: int) -> bool {
    match t[i] {
        Node::Leaf(_) => true,
        Node::Inode(n) => {
            &&& n.nw.0 < i
            &&& n.ne.0 < i
            &&& n.sw.0 < i
            &&& n.se.0 < i
            &&& 1 <= n.level.0 <= 63
            &&& node_level(t[n.nw.0 as int]) == n.level.0 - 1
            &&& node_level(t[n.ne.0 as int]) == n.level.0 - 1
            &&& node_level(t[n.sw.0 as int]) == n.level.0 - 1
            &&& node_level(t[n.se.0 as int]) == n.level.0 - 1
            &&& n.population == node_population(t[n.nw.0 as int]) + node_population(
                t[n.ne.0 as int],
            ) + node_population(t[n.sw.0 as int]) + node_population(t[n.se.0 as int])
        },
    }
}

/// Every entry is structurally well formed.
pub open spec fn wf_nodes(t: Seq<Node>) -> bool {
    forall|i: int| 0 <= i < t.len() ==> #[trigger] wf_at(t, i)
}

/// Canonicity: no two entries share an identity key, so every distinct
/// subtree has exactly one handle.
pub open spec fn canonical(t: Seq<Node>) -> bool {
    forall|i: int, j: int|
        0 <= i < t.len() && 0 <= j < t.len() && i != j ==> !key_eq(#[trigger] t[i], #[trigger] t[j])
}

/// What a filled `result` cache means: the denoted subtree, evolved.
pub open spec fn memo_at(t: Seq<Node>, i: int) -> bool {
    match t[i] {
        Node::Leaf(_) => true,
        Node::Inode(n) => match n.result {
            Option::None => true,
            Option::Some(r) => {
                &&& r.0 < t.len()
                &&& n.level.0 >= 2
                &&& node_level(t[r.0 as int]) == n.level.0 - 1
                &&& abs(t, r.0 as int) == tree_next_gen(abs(t, i))
            },
        },
    }
}

/// Every filled cache entry is truthful.
pub open spec fn memo_ok(t: Seq<Node>) -> bool {
    forall|i: int| 0 <= i < t.len() ==> #[trigger] memo_at(t, i)
}

/// The full table invariant.
pub open spec fn wf_table(t: Seq<Node>) -> bool {
    wf_nodes(t) && canonical(t) && memo_ok(t)
}

/// A node that may be appended to table `t` without breaking `wf_table`:
/// its children are present, its derived fields agree with them, and its
/// cache is empty.
pub open spec fn insert_ok(t: Seq<Node>, node: Node) -> bool {
    match node {
        Node::Leaf(_) => true,
        Node::Inode(n) => {
            &&& n.nw.0 < t.len()
            &&& n.ne.0 < t.len()
            &&& n.sw.0 < t.len()
            &&& n.se.0 < t.len()
            &&& 1 <= n.level.0 <= 63
            &&& node_level(t[n.nw.0 as int]) == n.level.0 - 1
            &&& node_level(t[n.ne.0 as int]) == n.level.0 - 1
            &&& node_level(t[n.sw.0 as int]) == n.level.0 - 1
            &&& node_level(t[n.se.0 as int]) == n.level.0 - 1
            &&& n.population == node_population(t[n.nw.0 as int]) + node_population(
                t[n.ne.0 as int],
            ) + node_population(t[n.sw.0 as int]) + node_population(t[n.se.0 as int])
            &&& n.result is None
        },
    }
}

/// Two nodes that agree on everything but the `result` cache.
pub open spec fn same_core(a: Node, b: Node) -> bool {
    match (a, b) {
        (Node::Leaf(x), Node::Leaf(y)) => x == y,
        (Node::Inode(x), Node::Inode(y)) => x.level == y.level && x.population == y.population
            && x.nw == y.nw && x.ne == y.ne && x.sw == y.sw && x.se == y.se,
        _ => false,
    }
}

/// Table `t2` extends `t1`: it keeps every old entry (up to cache fills)
/// and may add new ones. All handles into `t1` keep their meaning in `t2`.
pub open spec fn extends(t2: Seq<Node>, t1: Seq<Node>) -> bool {
    &&& t1.len() <= t2.len()
    &&& forall|i: int| 0 <= i < t1.len() ==> same_core(#[trigger] t2[i], t1[i])
}

/// In a structurally well-formed table, the denoted tree of every entry is
/// well formed and its stored level and population are truthful.
pub proof fn lemma_abs_props(t: Seq<Node>, i: int)
    requires
        wf_nodes(t),
        0 <= i < t.len(),
    ensures
        crate::model::wf_tree(abs(t, i)),
        tree_level(abs(t, i)) == node_level(t[i]),
        tree_pop(abs(t, i)) == node_population(t[i]),
    decreases i,
{
    assert(wf_at(t, i));
    match t[i] {
        Node::Leaf(_) => {},
        Node::Inode(n) => {
            lemma_abs_props(t, n.nw.0 as int);
            lemma_abs_props(t, n.ne.0 as int);
            lemma_abs_props(t, n.sw.0 as int);
            lemma_abs_props(t, n.se.0 as int);
        },
    }
}

/// Extension preserves the meaning, level and population of every old
/// handle.
pub proof fn lemma_extends_abs(t1: Seq<Node>, t2: Seq<Node>, i: int)
    requires
        extends(t2, t1),
        0 <= i < t1.len(),
    ensures
        abs(t2, i) == abs(t1, i),
        node_level(t2[i]) == node_level(t1[i]),
        node_population(t2[i]) == node_population(t1[i]),
    decreases i,
{
    assert(same_core(t2[i], t1[i]));
    match t1[i] {
        Node::Leaf(_) => {},
        Node::Inode(n) => {
            if n.nw.0 < i && n.ne.0 < i && n.sw.0 < i && n.se.0 < i {
                lemma_extends_abs(t1, t2, n.nw.0 as int);
                lemma_extends_abs(t1, t2, n.ne.0 as int);
                lemma_extends_abs(t1, t2, n.sw.0 as int);
                lemma_extends_abs(t1, t2, n.se.0 as int);
            }
        },
    }
}

/// The quantified form of [`lemma_extends_abs`], for re-establishing every
/// held handle after a table mutation in one step.
pub proof fn lemma_extends_abs_all(t1: Seq<Node>, t2: Seq<Node>)
    requires
        extends(t2, t1),
    ensures
        forall|i: int| 0 <= i < t1.len() ==> #[trigger] abs(t2, i) == abs(t1, i),
        forall|i: int|
            0 <= i < t1.len() ==> node_level(#[trigger] t2[i]) == node_level(t1[i])
                && node_population(t2[i]) == node_population(t1[i]),
{
    assert forall|i: int| 0 <= i < t1.len() implies #[trigger] abs(t2, i) == abs(t1, i) by {
        lemma_extends_abs(t1, t2, i);
    };
    assert forall|i: int|
        0 <= i < t1.len() implies node_level(#[trigger] t2[i]) == node_level(t1[i])
        && node_population(t2[i]) == node_population(t1[i]) by {
        lemma_extends_abs(t1, t2, i);
    };
}

/// Extension is transitive.
pub proof fn lemma_extends_trans(t3: Seq<Node>, t2: Seq<Node>, t1: Seq<Node>)
    requires
        extends(t2, t1),
        extends(t3, t2),
    ensures
        extends(t3, t1),
{
    assert forall|i: int| 0 <= i < t1.len() implies same_core(#[trigger] t3[i], t1[i]) by {
        assert(same_core(t2[i], t1[i]));
        assert(same_core(t3[i], t2[i]));
    };
}

/// Canonicity makes denotation injective: two handles of one well-formed
/// table that denote the same subtree are the same handle.
pub proof fn lemma_abs_injective(t: Seq<Node>, i: int, j: int)
    requires
        wf_nodes(t),
        canonical(t),
        0 <= i < t.len(),
        0 <= j < t.len(),
        abs(t, i) == abs(t, j),
    ensures
        i == j,
    decreases i + j,
{
    if i != j {
        assert(wf_at(t, i));
        assert(wf_at(t, j));
        match (t[i], t[j]) {
            (Node::Leaf(a), Node::Leaf(b)) => {
                assert(cell_alive(a.0) == cell_alive(b.0));
                assert(a.0 == b.0);
                assert(key_eq(t[i], t[j]));
            },
            (Node::Inode(a), Node::Inode(b)) => {
                let sa = abs(t, i)->Node_0;
                let sb = abs(t, j)->Node_0;
                assert(sa == sb);
                assert(sa[0] == sb[0] && sa[1] == sb[1] && sa[2] == sb[2] && sa[3] == sb[3]);
                lemma_abs_injective(t, a.nw.0 as int, b.nw.0 as int);
                lemma_abs_injective(t, a.ne.0 as int, b.ne.0 as int);
                lemma_abs_injective(t, a.sw.0 as int, b.sw.0 as int);
                lemma_abs_injective(t, a.se.0 as int, b.se.0 as int);
                assert(key_eq(t[i], t[j]));
            },
            (Node::Leaf(_), Node::Inode(b)) => {
                assert(abs(t, j) is Node);
            },
            (Node::Inode(a), Node::Leaf(_)) => {
                assert(abs(t, i) is Node);
            },
        }
    }
}

impl Universe {
    /// The table contents, for specification purposes.
    pub closed spec fn table_view(self) -> Seq<Node> {
        self.table@
    }

    /// The root handle, if the universe has been initialized.
    pub closed spec fn root_id(self) -> Option<Id> {
        self.root
    }

    /// How many times `evolve` has completed.
    pub closed spec fn gen_count(self) -> nat {
        self.generation as nat
    }

    /// The full invariant: the table is well formed and the root, once
    /// present, is an inner node of level at least 2.
    pub open spec fn wf(self) -> bool {
        &&& wf_table(self.table_view())
        &&& match self.root_id() {
            Option::None => true,
            Option::Some(r) => {
                &&& r.0 < self.table_view().len()
                &&& self.table_view()[r.0 as int] is Inode
                &&& node_level(self.table_view()[r.0 as int]) >= 2
            },
        }
    }

    /// The subtree the root denotes.
    pub open spec fn root_tree(self) -> Tree
        recommends
            self.root_id() is Some,
    {
        abs(self.table_view(), (self.root_id()->0).0 as int)
    }

    /// The root's level.
    pub open spec fn root_level(self) -> nat
        recommends
            self.root_id() is Some,
    {
        tree_level(self.root_tree())
    }

    /// The cell grid the universe denotes.
    pub open spec fn grid(self, x: int, y: int) -> bool
        recommends
            self.root_id() is Some,
    {
        tree_cell(self.root_tree(), x, y)
    }

    /// An empty universe, ready to use: the canonical all-dead level-3 tree
    /// as its root, generation 0.
    pub fn new() -> (r: Self)
        ensures
            r.wf(),
            r.root_id() is Some,
            r.root_tree() == tree_empty(3),
            r.root_level() == 3,
            r.gen_count() == 0,
            r.table_view().len() <= 4,
    {
        let mut u = Self { table: Vec::new(), root: None, generation: 0 };
        u.initalize();
        u
    }

    /// The canonical handle of `node`: the handle of the existing entry
    /// with the same key if there is one, else the handle of `node` freshly
    /// appended. This linear scan is what makes handles canonical.
    #[verifier::loop_isolation(false)]
    fn get_id(&mut self, node: Node) -> (r: Id)
        requires
            wf_table(old(self).table_view()),
            insert_ok(old(self).table_view(), node),
        ensures
            wf_table(final(self).table_view()),
            extends(final(self).table_view(), old(self).table_view()),
            final(self).root_id() == old(self).root_id(),
            final(self).gen_count() == old(self).gen_count(),
            r.0 < final(self).table_view().len(),
            key_eq(final(self).table_view()[r.0 as int], node),
            (exists|j: int|
                0 <= j < old(self).table_view().len() && key_eq(
                    #[trigger] old(self).table_view()[j],
                    node,
                )) ==> final(self).table_view() == old(self).table_view() && r.0 < old(
                self,
            ).table_view().len(),
            !(exists|j: int|
                0 <= j < old(self).table_view().len() && key_eq(
                    #[trigger] old(self).table_view()[j],
                    node,
                )) ==> final(self).table_view() == old(self).table_view().push(node) && r.0
                == old(self).table_view().len(),
    {
        let n = self.table.len();
        let mut idx: usize = 0;
        while idx < n
            invariant
                n == self.table.len(),
                idx <= n,
                *self == *old(self),
                forall|j: int| 0 <= j < idx ==> !key_eq(#[trigger] self.table@[j], node),
            decreases n - idx,
        {
            if same_key(&self.table[idx], &node) {
                return Id(idx);
            }
            idx += 1;
        }
        let id = Id(self.table.len());
        self.table.push(node);
        proof {
            let t1 = old(self).table_view();
            let t2 = self.table_view();
            assert forall|i: int| 0 <= i < t2.len() implies #[trigger] wf_at(t2, i) by {
                if i < t1.len() {
                    assert(wf_at(t1, i));
                } else {
                    assert(t2[i] == node);
                }
            };
            assert forall|i: int| 0 <= i < t2.len() implies #[trigger] memo_at(t2, i) by {
                if i < t1.len() {
                    assert(memo_at(t1, i));
                    lemma_extends_abs_all(t1, t2);
                    match t1[i] {
                        Node::Leaf(_) => {},
                        Node::Inode(nn) => match nn.result {
                            Option::None => {},
                            Option::Some(rr) => {
                                assert(abs(t2, rr.0 as int) == abs(t1, rr.0 as int));
                                assert(abs(t2, i) == abs(t1, i));
                            },
                        },
                    }
                }
            };
            assert forall|i: int, j: int|
                0 <= i < t2.len() && 0 <= j < t2.len() && i != j implies !key_eq(
                #[trigger] t2[i],
                #[trigger] t2[j],
            ) by {
                if i < t1.len() && j < t1.len() {
                    assert(!key_eq(t1[i], t1[j]));
                } else if i < t1.len() {
                    assert(t2[j] == node);
                    assert(!key_eq(t1[i], node));
                } else if j < t1.len() {
                    assert(t2[i] == node);
                    assert(!key_eq(t1[j], node));
                }
            };
        }
        id
    }

    /// The canonical handle of a leaf holding `cell`.
    pub fn new_leaf(&mut self, cell: Cell) -> (r: Id)
        requires
            wf_table(old(self).table_view()),
        ensures
            wf_table(final(self).table_view()),
            extends(final(self).table_view(), old(self).table_view()),
            final(self).root_id() == old(self).root_id(),
            final(self).gen_count() == old(self).gen_count(),
            r.0 < final(self).table_view().len(),
            abs(final(self).table_view(), r.0 as int) == Tree::Leaf(cell_alive(cell)),
            node_level(final(self).table_view()[r.0 as int]) == 0,
            final(self).table_view().len() <= old(self).table_view().len() + 1,
            final(self).table_view().len() > old(self).table_view().len() ==> r.0 == old(
                self,
            ).table_view().len(),
            (exists|j: int|
                0 <= j < old(self).table_view().len() && key_eq(
                    #[trigger] old(self).table_view()[j],
                    Node::Leaf(Leaf(cell)),
                )) ==> final(self).table_view() == old(self).table_view(),
    {
        let node = Node::Leaf(Leaf::new(cell));
        let r = self.get_id(node);
        proof {
            let t2 = self.table_view();
            assert(key_eq(t2[r.0 as int], node));
            match t2[r.0 as int] {
                Node::Leaf(l) => {
                    assert(l.0 == cell);
                },
                Node::Inode(_) => {},
            }
        }
        r
    }
}


impl Id {
    /// The node this handle denotes in `univ`.
    fn node(self, univ: &Universe) -> (r: &Node)
        requires
            self.0 < univ.table_view().len(),
        ensures
            *r == univ.table_view()[self.0 as int],
    {
        &univ.table[self.0]
    }

    /// The leaf this handle denotes in `univ`.
    #[allow(dead_code)]
    fn leaf(self, univ: &Universe) -> (r: Leaf)
        requires
            self.0 < univ.table_view().len(),
            univ.table_view()[self.0 as int] is Leaf,
        ensures
            univ.table_view()[self.0 as int] == Node::Leaf(r),
    {
        if let Node::Leaf(leaf) = *self.node(univ) {
            leaf
        } else {
            vstd::pervasive::unreached()
        }
    }

    /// The inner node this handle denotes in `univ`.
    fn inode(self, univ: &Universe) -> (r: Inode)
        requires
            self.0 < univ.table_view().len(),
            univ.table_view()[self.0 as int] is Inode,
        ensures
            univ.table_view()[self.0 as int] == Node::Inode(r),
    {
        if let Node::Inode(inode) = *self.node(univ) {
            inode
        } else {
            vstd::pervasive::unreached()
        }
    }
}

/// Whether the table already holds an inner node with exactly these four
/// children.
pub open spec fn has_inode_key(t: Seq<Node>, nwx: Id, nex: Id, swx: Id, sex: Id) -> bool {
    exists|j: int|
        0 <= j < t.len() && (#[trigger] t[j] matches Node::Inode(m) && m.nw == nwx && m.ne == nex
            && m.sw == swx && m.se == sex)
}

impl Universe {
    /// The canonical handle of the inner node with these four children, of
    /// equal level: the existing handle if the node is already interned,
    /// else a fresh one whose level and population are derived from the
    /// children.
    #[verifier::rlimit(100)]
    fn new_inode(&mut self, nwx: Id, nex: Id, swx: Id, sex: Id) -> (r: Id)
        requires
            wf_table(old(self).table_view()),
            nwx.0 < old(self).table_view().len(),
            nex.0 < old(self).table_view().len(),
            swx.0 < old(self).table_view().len(),
            sex.0 < old(self).table_view().len(),
            node_level(old(self).table_view()[nex.0 as int]) == node_level(
                old(self).table_view()[nwx.0 as int],
            ),
            node_level(old(self).table_view()[swx.0 as int]) == node_level(
                old(self).table_view()[nwx.0 as int],
            ),
            node_level(old(self).table_view()[sex.0 as int]) == node_level(
                old(self).table_view()[nwx.0 as int],
            ),
            node_level(old(self).table_view()[nwx.0 as int]) <= 62,
        ensures
            wf_table(final(self).table_view()),
            extends(final(self).table_view(), old(self).table_view()),
            final(self).root_id() == old(self).root_id(),
            final(self).gen_count() == old(self).gen_count(),
            r.0 < final(self).table_view().len(),
            final(self).table_view()[r.0 as int] matches Node::Inode(m) && m.nw == nwx && m.ne
                == nex && m.sw == swx && m.se == sex,
            node_level(final(self).table_view()[r.0 as int]) == node_level(
                old(self).table_view()[nwx.0 as int],
            ) + 1,
            abs(final(self).table_view(), r.0 as int) == tnode(
                abs(old(self).table_view(), nwx.0 as int),
                abs(old(self).table_view(), nex.0 as int),
                abs(old(self).table_view(), swx.0 as int),
                abs(old(self).table_view(), sex.0 as int),
            ),
            final(self).table_view().len() <= old(self).table_view().len() + 1,
            final(self).table_view().len() > old(self).table_view().len() ==> r.0 == old(
                self,
            ).table_view().len(),
            has_inode_key(old(self).table_view(), nwx, nex, swx, sex) ==> final(self).table_view()
                == old(self).table_view(),
    {
        proof {
            lemma_abs_props(self.table@, nwx.0 as int);
            lemma_abs_props(self.table@, nex.0 as int);
            lemma_abs_props(self.table@, swx.0 as int);
            lemma_abs_props(self.table@, sex.0 as int);
            crate::model::lemma_tree_pop_bound(abs(self.table@, nwx.0 as int));
            crate::model::lemma_tree_pop_bound(abs(self.table@, nex.0 as int));
            crate::model::lemma_tree_pop_bound(abs(self.table@, swx.0 as int));
            crate::model::lemma_tree_pop_bound(abs(self.table@, sex.0 as int));
            let lvl = node_level(self.table@[nwx.0 as int]);
            assert(pow2(2 * lvl) <= pow2(124)) by {
                if 2 * lvl < 124 {
                    vstd::arithmetic::power2::lemma_pow2_strictly_increases(2 * lvl, 124);
                }
            };
            assert(pow2(124) == pow2(62) * pow2(62)) by {
                lemma_pow2_adds(62, 62);
            };
            lemma2_to64_rest();
            assert(pow2(124) == 0x10000000000000000000000000000000);
        }
        let a = *nwx.node(self);
        let b = *nex.node(self);
        let c = *swx.node(self);
        let d = *sex.node(self);
        proof {
            assert(wf_at(self.table@, nwx.0 as int));
            assert(wf_at(self.table@, nex.0 as int));
            assert(wf_at(self.table@, swx.0 as int));
            assert(wf_at(self.table@, sex.0 as int));
        }
        let node = match (a, b, c, d) {
            (Node::Inode(nw), Node::Inode(ne), Node::Inode(sw), Node::Inode(se)) => Node::Inode(
                Inode {
                    level: Level(nw.level.0 + 1),
                    population: nw.population + ne.population + sw.population + se.population,
                    result: None,
                    nw: nwx,
                    ne: nex,
                    sw: swx,
                    se: sex,
                },
            ),
            (Node::Leaf(nw), Node::Leaf(ne), Node::Leaf(sw), Node::Leaf(se)) => {
                let mut population: u128 = 0;
                if nw.alive() {
                    population += 1;
                }
                if ne.alive() {
                    population += 1;
                }
                if sw.alive() {
                    population += 1;
                }
                if se.alive() {
                    population += 1;
                }
                Node::Inode(
                    Inode {
                        level: Level(1),
                        population,
                        result: None,
                        nw: nwx,
                        ne: nex,
                        sw: swx,
                        se: sex,
                    },
                )
            },
            _ => vstd::pervasive::unreached(),
        };
        let ghost t0 = self.table@;
        let r = self.get_id(node);
        proof {
            let t2 = self.table@;
            assert(wf_at(t2, r.0 as int));
            if has_inode_key(t0, nwx, nex, swx, sex) {
                let j = choose|j: int|
                    0 <= j < t0.len() && (#[trigger] t0[j] matches Node::Inode(m) && m.nw == nwx
                        && m.ne == nex && m.sw == swx && m.se == sex);
                assert(key_eq(t0[j], node));
            }
            lemma_extends_abs(t0, t2, nwx.0 as int);
            lemma_extends_abs(t0, t2, nex.0 as int);
            lemma_extends_abs(t0, t2, swx.0 as int);
            lemma_extends_abs(t0, t2, sex.0 as int);
            assert(abs(t2, r.0 as int) == tnode(
                abs(t2, nwx.0 as int),
                abs(t2, nex.0 as int),
                abs(t2, swx.0 as int),
                abs(t2, sex.0 as int),
            ));
        }
        r
    }

    /// The canonical handle of the all-dead tree at `level`, built by
    /// recursion; canonicity makes every build of it return one handle.
    pub fn new_empty_tree(&mut self, level: Level) -> (r: Id)
        requires
            wf_table(old(self).table_view()),
            level.0 <= 63,
        ensures
            wf_table(final(self).table_view()),
            extends(final(self).table_view(), old(self).table_view()),
            final(self).root_id() == old(self).root_id(),
            final(self).gen_count() == old(self).gen_count(),
            r.0 < final(self).table_view().len(),
            abs(final(self).table_view(), r.0 as int) == tree_empty(level.0 as nat),
            node_level(final(self).table_view()[r.0 as int]) == level.0,
            final(self).table_view().len() <= old(self).table_view().len() + level.0 + 1,
            forall|i: int|
                old(self).table_view().len() <= i < final(self).table_view().len()
                    ==> exists|j: nat|
                    j <= level.0 && #[trigger] abs(final(self).table_view(), i) == tree_empty(j),
        decreases level.0,
    {
        proof {
            crate::model::lemma_tree_empty_wf(level.0 as nat);
            if level.0 > 0 {
                crate::model::lemma_tree_empty_wf((level.0 - 1) as nat);
            }
        }
        let ghost t0 = self.table@;
        if level.0 == 0 {
            let r = self.new_leaf(Cell::Dead);
            proof {
                assert forall|i: int| t0.len() <= i < self.table@.len() implies exists|j: nat|
                    j <= level.0 && #[trigger] abs(self.table@, i) == tree_empty(j) by {
                    assert(i == r.0);
                    assert(abs(self.table@, i) == tree_empty(0));
                };
            }
            r
        } else {
            let child = self.new_empty_tree(Level(level.0 - 1));
            let ghost t1 = self.table@;
            let r = self.new_inode(child, child, child, child);
            proof {
                let t2 = self.table@;
                lemma_extends_abs_all(t1, t2);
                assert forall|i: int| t0.len() <= i < t2.len() implies exists|j: nat|
                    j <= level.0 && #[trigger] abs(t2, i) == tree_empty(j) by {
                    if i < t1.len() {
                        let j = choose|j: nat| j <= level.0 - 1 && abs(t1, i) == tree_empty(j);
                        assert(abs(t2, i) == abs(t1, i));
                        assert(abs(t2, i) == tree_empty(j));
                    } else {
                        assert(i == r.0);
                        assert(abs(t2, i) == tree_empty(level.0 as nat));
                    }
                };
            }
            r
        }
    }

    /// Point the root at the canonical empty level-3 tree. The table gains
    /// at most the four canonical empty nodes of levels 0 through 3 and
    /// nothing else.
    pub fn initalize(&mut self)
        requires
            old(self).wf(),
        ensures
            final(self).wf(),
            extends(final(self).table_view(), old(self).table_view()),
            final(self).root_id() is Some,
            final(self).root_tree() == tree_empty(3),
            final(self).root_level() == 3,
            final(self).gen_count() == old(self).gen_count(),
            final(self).table_view().len() <= old(self).table_view().len() + 4,
            forall|i: int|
                old(self).table_view().len() <= i < final(self).table_view().len()
                    ==> exists|j: nat|
                    j <= 3 && #[trigger] abs(final(self).table_view(), i) == tree_empty(j),
    {
        let r = self.new_empty_tree(Level(3));
        self.root = Some(r);
        proof {
            crate::model::lemma_tree_empty_wf(3);
            assert(self.table@[r.0 as int] is Inode) by {
                if self.table@[r.0 as int] is Leaf {
                    assert(node_level(self.table@[r.0 as int]) == 0);
                }
            };
        }
    }

    /// The root handle, if the universe has been initialized.
    pub fn root(&self) -> (r: Option<Id>)
        ensures
            r == self.root_id(),
    {
        self.root
    }

    /// How many times `evolve` has completed.
    pub fn generation(&self) -> (r: usize)
        ensures
            r as nat == self.gen_count(),
    {
        self.generation
    }

    /// The number of nodes interned so far. It only ever grows; a repeated
    /// computation that is answered from the cache interns nothing new.
    pub fn node_count(&self) -> (r: usize)
        ensures
            r == self.table_view().len(),
    {
        self.table.len()
    }

    /// The level of the root.
    pub fn level(&self) -> (r: Level)
        requires
            self.wf(),
            self.root_id() is Some,
        ensures
            r.0 as nat == self.root_level(),
    {
        let root = self.root.unwrap();
        let r = root.node(self).level();
        proof {
            lemma_abs_props(self.table@, (self.root_id()->0).0 as int);
        }
        r
    }

    /// The number of live cells in the universe.
    pub fn population(&self) -> (r: u128)
        requires
            self.wf(),
            self.root_id() is Some,
        ensures
            r as nat == tree_pop(self.root_tree()),
    {
        let root = self.root.unwrap();
        let r = root.node(self).population();
        proof {
            lemma_abs_props(self.table@, (self.root_id()->0).0 as int);
        }
        r
    }
}


impl Universe {
    /// The cell at `pos` inside the subtree `tree` denotes, with `pos`
    /// expressed relative to that subtree's center.
    pub fn get_tree_cell(&self, tree: Id, pos: Position) -> (r: Cell)
        requires
            wf_table(self.table_view()),
            tree.0 < self.table_view().len(),
            node_level(self.table_view()[tree.0 as int]) >= 1 ==> pos_in_level(
                node_level(self.table_view()[tree.0 as int]),
                pos.x as int,
                pos.y as int,
            ),
        ensures
            cell_alive(r) == tree_cell(
                abs(self.table_view(), tree.0 as int),
                pos.x as int,
                pos.y as int,
            ),
        decreases tree.0,
    {
        let n = *tree.node(self);
        match n {
            Node::Leaf(c) => c.0,
            Node::Inode(inode) => {
                let ghost t = self.table@;
                let ghost l = inode.level.0 as nat;
                proof {
                    assert(wf_at(t, tree.0 as int));
                    lemma_abs_props(t, tree.0 as int);
                    lemma_abs_props(t, inode.nw.0 as int);
                    crate::model::lemma_quadrant_shift(l, pos.x as int, pos.y as int);
                    lemma2_to64_rest();
                    if l - 1 < 62 {
                        vstd::arithmetic::power2::lemma_pow2_strictly_increases(
                            (l - 1) as nat,
                            62,
                        );
                    }
                    if l >= 2 && l - 2 < 61 {
                        vstd::arithmetic::power2::lemma_pow2_strictly_increases(
                            (l - 2) as nat,
                            61,
                        );
                    }
                }
                let q = pos.quadrant();
                let center = inode.level.quadrant_center(q);
                let p2 = pos.relative_to(center);
                match q {
                    Quadrant::NorthWest => self.get_tree_cell(inode.nw, p2),
                    Quadrant::NorthEast => self.get_tree_cell(inode.ne, p2),
                    Quadrant::SouthWest => self.get_tree_cell(inode.sw, p2),
                    Quadrant::SouthEast => self.get_tree_cell(inode.se, p2),
                }
            },
        }
    }

    /// The canonical handle of the subtree `tree` with the cell at `pos`
    /// rewritten to `state`: the path from the root of the subtree to the
    /// cell is re-interned, all siblings are shared.
    fn set_tree_cell(&mut self, tree: Id, pos: Position, state: Cell) -> (r: Id)
        requires
            wf_table(old(self).table_view()),
            tree.0 < old(self).table_view().len(),
            node_level(old(self).table_view()[tree.0 as int]) >= 1 ==> pos_in_level(
                node_level(old(self).table_view()[tree.0 as int]),
                pos.x as int,
                pos.y as int,
            ),
        ensures
            wf_table(final(self).table_view()),
            extends(final(self).table_view(), old(self).table_view()),
            final(self).root_id() == old(self).root_id(),
            final(self).gen_count() == old(self).gen_count(),
            r.0 < final(self).table_view().len(),
            node_level(final(self).table_view()[r.0 as int]) == node_level(
                old(self).table_view()[tree.0 as int],
            ),
            abs(final(self).table_view(), r.0 as int) == tree_set(
                abs(old(self).table_view(), tree.0 as int),
                pos.x as int,
                pos.y as int,
                cell_alive(state),
            ),
            tree_cell(abs(old(self).table_view(), tree.0 as int), pos.x as int, pos.y as int)
                == cell_alive(state) ==> r == tree && final(self).table_view()
                == old(self).table_view(),
        decreases tree.0,
    {
        let ghost t0 = self.table@;
        let n = *tree.node(self);
        match n {
            Node::Leaf(c) => {
                let r = self.new_leaf(state);
                proof {
                    if cell_alive(c.0) == cell_alive(state) {
                        assert(c.0 == state);
                        assert(key_eq(t0[tree.0 as int], Node::Leaf(Leaf(state))));
                        assert(self.table@ == t0);
                        lemma_abs_injective(self.table@, r.0 as int, tree.0 as int);
                    }
                }
                r
            },
            Node::Inode(inode) => {
                let ghost l = inode.level.0 as nat;
                let ghost old_tree = abs(t0, tree.0 as int);
                proof {
                    assert(wf_at(t0, tree.0 as int));
                    lemma_abs_props(t0, tree.0 as int);
                    lemma_abs_props(t0, inode.nw.0 as int);
                    crate::model::lemma_quadrant_shift(l, pos.x as int, pos.y as int);
                    lemma2_to64_rest();
                    if l - 1 < 62 {
                        vstd::arithmetic::power2::lemma_pow2_strictly_increases(
                            (l - 1) as nat,
                            62,
                        );
                    }
                    if l >= 2 && l - 2 < 61 {
                        vstd::arithmetic::power2::lemma_pow2_strictly_increases(
                            (l - 2) as nat,
                            61,
                        );
                    }
                }
                let q = pos.quadrant();
                let center = inode.level.quadrant_center(q);
                let p2 = pos.relative_to(center);
                let child = match q {
                    Quadrant::NorthWest => inode.nw,
                    Quadrant::NorthEast => inode.ne,
                    Quadrant::SouthWest => inode.sw,
                    Quadrant::SouthEast => inode.se,
                };
                let c2 = self.set_tree_cell(child, p2, state);
                let ghost t1 = self.table@;
                proof {
                    lemma_extends_abs_all(t0, t1);
                }
                let r = match q {
                    Quadrant::NorthWest => self.new_inode(c2, inode.ne, inode.sw, inode.se),
                    Quadrant::NorthEast => self.new_inode(inode.nw, c2, inode.sw, inode.se),
                    Quadrant::SouthWest => self.new_inode(inode.nw, inode.ne, c2, inode.se),
                    Quadrant::SouthEast => self.new_inode(inode.nw, inode.ne, inode.sw, c2),
                };
                proof {
                    let t2 = self.table@;
                    lemma_extends_trans(t2, t1, t0);
                    lemma_extends_abs_all(t1, t2);
                    let b = cell_alive(state);
                    let d = crate::coords::quarter(l);
                    assert(abs(t2, r.0 as int) == tree_set(
                        old_tree,
                        pos.x as int,
                        pos.y as int,
                        b,
                    ));
                    if tree_cell(old_tree, pos.x as int, pos.y as int) == b {
                        assert(t1 == t0);
                        assert(has_inode_key(t0, inode.nw, inode.ne, inode.sw, inode.se)) by {
                            assert(t0[tree.0 as int] matches Node::Inode(m) && m.nw == inode.nw
                                && m.ne == inode.ne && m.sw == inode.sw && m.se == inode.se);
                        };
                        assert(t2 == t0);
                        crate::model::lemma_tree_set_noop(
                            old_tree,
                            pos.x as int,
                            pos.y as int,
                            b,
                        );
                        lemma_abs_injective(t2, r.0 as int, tree.0 as int);
                    }
                }
                r
            },
        }
    }

    /// Wrap the root one level up, keeping every cell: the old root becomes
    /// the centered square of the new, doubled one.
    pub fn expand(&mut self)
        requires
            old(self).wf(),
            old(self).root_id() is Some,
            old(self).root_level() <= 62,
        ensures
            final(self).wf(),
            extends(final(self).table_view(), old(self).table_view()),
            final(self).root_id() is Some,
            final(self).gen_count() == old(self).gen_count(),
            final(self).root_tree() == tree_expand(old(self).root_tree()),
            final(self).root_level() == old(self).root_level() + 1,
    {
        let ghost t0 = self.table@;
        let root = match self.root {
            Some(r) => r,
            None => vstd::pervasive::unreached(),
        };
        let ghost old_tree = abs(t0, root.0 as int);
        let iroot = root.inode(self);
        proof {
            assert(wf_at(t0, root.0 as int));
            lemma_abs_props(t0, root.0 as int);
            lemma_abs_props(t0, iroot.nw.0 as int);
            crate::model::lemma_tree_empty_wf((iroot.level.0 - 1) as nat);
        }
        let border = self.new_empty_tree(Level(iroot.level.0 - 1));
        let ghost t1 = self.table@;
        proof {
            lemma_extends_abs_all(t0, t1);
        }
        let nw = self.new_inode(border, border, border, iroot.nw);
        let ghost t2 = self.table@;
        proof {
            lemma_extends_abs_all(t1, t2);
            lemma_extends_trans(t2, t1, t0);
        }
        let ne = self.new_inode(border, border, iroot.ne, border);
        let ghost t3 = self.table@;
        proof {
            lemma_extends_abs_all(t2, t3);
            lemma_extends_trans(t3, t2, t0);
        }
        let sw = self.new_inode(border, iroot.sw, border, border);
        let ghost t4 = self.table@;
        proof {
            lemma_extends_abs_all(t3, t4);
            lemma_extends_trans(t4, t3, t0);
        }
        let se = self.new_inode(iroot.se, border, border, border);
        let ghost t5 = self.table@;
        proof {
            lemma_extends_abs_all(t4, t5);
            lemma_extends_trans(t5, t4, t0);
        }
        let r = self.new_inode(nw, ne, sw, se);
        self.root = Some(r);
        proof {
            let t6 = self.table@;
            lemma_extends_abs_all(t5, t6);
            lemma_extends_trans(t6, t5, t0);
            let b = tree_empty((tree_level(old_tree) - 1) as nat);
            assert(abs(t6, r.0 as int) == tnode(
                tnode(b, b, b, abs(t0, iroot.nw.0 as int)),
                tnode(b, b, abs(t0, iroot.ne.0 as int), b),
                tnode(b, abs(t0, iroot.sw.0 as int), b, b),
                tnode(abs(t0, iroot.se.0 as int), b, b, b),
            ));
            assert(old_tree->Node_0[0] == abs(t0, iroot.nw.0 as int));
            assert(abs(t6, r.0 as int) == tree_expand(old_tree));
            crate::model::lemma_tree_expand_wf(old_tree);
            assert(self.table@[r.0 as int] is Inode) by {
                if self.table@[r.0 as int] is Leaf {
                    assert(node_level(self.table@[r.0 as int]) == 0);
                }
            };
        }
    }

    /// Write one cell anywhere in the `i64` grid the engine can address,
    /// growing the universe first until the position is covered. Writing the
    /// value a covered cell already holds changes nothing at all.
    #[verifier::loop_isolation(false)]
    pub fn set_cell(&mut self, pos: Position, cell: Cell)
        requires
            old(self).wf(),
            old(self).root_id() is Some,
            pos_in_level(63, pos.x as int, pos.y as int),
        ensures
            final(self).wf(),
            final(self).root_id() is Some,
            final(self).gen_count() == old(self).gen_count(),
            old(self).root_level() <= final(self).root_level() <= 63,
            pos_in_level(final(self).root_level(), pos.x as int, pos.y as int),
            pos_in_level(old(self).root_level(), pos.x as int, pos.y as int)
                ==> final(self).root_level() == old(self).root_level(),
            !pos_in_level(old(self).root_level(), pos.x as int, pos.y as int) ==> !pos_in_level(
                (final(self).root_level() - 1) as nat,
                pos.x as int,
                pos.y as int,
            ),
            final(self).grid(pos.x as int, pos.y as int) == cell_alive(cell),
            forall|a: int, b: int|
                pos_in_level(final(self).root_level(), a, b) && !(a == pos.x as int && b
                    == pos.y as int) ==> (final(self).grid(a, b) <==> (pos_in_level(
                    old(self).root_level(),
                    a,
                    b,
                ) && old(self).grid(a, b))),
            (pos_in_level(old(self).root_level(), pos.x as int, pos.y as int) && old(self).grid(
                pos.x as int,
                pos.y as int,
            ) == cell_alive(cell)) ==> final(self).root_id() == old(self).root_id()
                && final(self).table_view() == old(self).table_view(),
    {
        let x = pos.x;
        let y = pos.y;
        proof {
            assert(wf_at(self.table@, (self.root_id()->0).0 as int));
            lemma_abs_props(self.table@, (self.root_id()->0).0 as int);
        }
        loop
            invariant
                self.wf(),
                self.root_id() is Some,
                self.gen_count() == old(self).gen_count(),
                old(self).root_level() <= self.root_level() <= 63,
                extends(self.table_view(), old(self).table_view()),
                forall|a: int, b: int|
                    pos_in_level(self.root_level(), a, b) ==> (self.grid(a, b) <==> (
                    pos_in_level(old(self).root_level(), a, b) && old(self).grid(a, b))),
                *self == *old(self) || !pos_in_level(
                    old(self).root_level(),
                    pos.x as int,
                    pos.y as int,
                ),
                self.root_level() == old(self).root_level() || !pos_in_level(
                    (self.root_level() - 1) as nat,
                    pos.x as int,
                    pos.y as int,
                ),
            decreases 63 - self.root_level(),
        {
            let lvl = self.level();
            if pos.in_bounds(lvl) {
                break;
            }
            proof {
                assert(self.root_level() < 63) by {
                    if self.root_level() == 63 {
                        assert(pos_in_level(self.root_level(), x as int, y as int));
                    }
                };
            }
            let ghost prev = *self;
            proof {
                assert(wf_at(prev.table_view(), (prev.root_id()->0).0 as int));
                lemma_abs_props(prev.table_view(), (prev.root_id()->0).0 as int);
            }
            self.expand();
            proof {
                assert(prev.root_tree() is Node) by {
                    assert(wf_at(prev.table_view(), (prev.root_id()->0).0 as int));
                };
                assert forall|a: int, b: int|
                    pos_in_level(self.root_level(), a, b) implies (self.grid(a, b) <==> (
                    pos_in_level(old(self).root_level(), a, b) && old(self).grid(a, b))) by {
                    let pg = prev.grid(a, b);
                    let pl = pos_in_level(prev.root_level(), a, b);
                    crate::model::lemma_tree_expand_cell(prev.root_tree(), a, b);
                    if pos_in_level(old(self).root_level(), a, b) {
                        crate::coords::lemma_pos_in_level_mono(
                            old(self).root_level(),
                            prev.root_level(),
                            a,
                            b,
                        );
                    }
                };
            }
        }
        let ghost tmid = *self;
        let root = match self.root {
            Some(r) => r,
            None => vstd::pervasive::unreached(),
        };
        proof {
            lemma_abs_props(self.table@, root.0 as int);
        }
        let r = self.set_tree_cell(root, pos, cell);
        self.root = Some(r);
        proof {
            let rt = tmid.root_tree();
            let b = cell_alive(cell);
            crate::model::lemma_tree_set(rt, x as int, y as int, b);
            assert(rt is Node) by {
                assert(wf_at(tmid.table_view(), (tmid.root_id()->0).0 as int));
            };
            assert(self.table@[r.0 as int] is Inode) by {
                if self.table@[r.0 as int] is Leaf {
                    assert(node_level(self.table@[r.0 as int]) == 0);
                }
            };
            assert forall|a: int, b2: int|
                pos_in_level(self.root_level(), a, b2) && !(a == x as int && b2 == y as int)
                implies (self.grid(a, b2) <==> (pos_in_level(old(self).root_level(), a, b2)
                && old(self).grid(a, b2))) by {
                let mg = tmid.grid(a, b2);
                let ml = pos_in_level(tmid.root_level(), a, b2);
                crate::model::lemma_tree_set_other(rt, x as int, y as int, b, a, b2);
            };
            if pos_in_level(old(self).root_level(), x as int, y as int) && old(self).grid(
                x as int,
                y as int,
            ) == b {
                assert(tmid == *old(self));
                crate::model::lemma_tree_set_noop(rt, x as int, y as int, b);
            }
        }
    }

    /// The cell at `pos`, which must be inside the square the root covers.
    pub fn get_cell(&self, pos: Position) -> (r: Cell)
        requires
            self.wf(),
            self.root_id() is Some,
            pos_in_level(self.root_level(), pos.x as int, pos.y as int),
        ensures
            cell_alive(r) == self.grid(pos.x as int, pos.y as int),
    {
        let root = match self.root {
            Some(r) => r,
            None => vstd::pervasive::unreached(),
        };
        proof {
            lemma_abs_props(self.table@, root.0 as int);
        }
        self.get_tree_cell(root, pos)
    }
}


impl Universe {
    /// One Game-of-Life step of a single cell, read off a 16-bit window in
    /// which bit 5 is the cell itself and the mask `0x757` selects its eight
    /// neighbors: the canonical leaf of the cell's next state.
    fn one_gen(&mut self, bitmask: u16) -> (r: Id)
        requires
            wf_table(old(self).table_view()),
        ensures
            wf_table(final(self).table_view()),
            extends(final(self).table_view(), old(self).table_view()),
            final(self).root_id() == old(self).root_id(),
            final(self).gen_count() == old(self).gen_count(),
            r.0 < final(self).table_view().len(),
            abs(final(self).table_view(), r.0 as int) == Tree::Leaf(crate::model::rule_bit(
                bitmask,
            )),
            node_level(final(self).table_view()[r.0 as int]) == 0,
    {
        if bitmask == 0 {
            proof {
                assert(((0u16 >> 5u16) & 1u16) == 0u16 && (0u16 & 0x757u16) == 0u16 && (0u16
                    & 1u16) == 0u16 && ((0u16 >> 1u16) & 1u16) == 0u16 && ((0u16 >> 2u16) & 1u16)
                    == 0u16 && ((0u16 >> 4u16) & 1u16) == 0u16 && ((0u16 >> 6u16) & 1u16) == 0u16
                    && ((0u16 >> 8u16) & 1u16) == 0u16 && ((0u16 >> 9u16) & 1u16) == 0u16 && ((
                0u16 >> 10u16) & 1u16) == 0u16) by (bit_vector);
            }
            return self.new_leaf(Cell::Dead);
        }
        let center = (bitmask >> 5u16) & 1u16;
        let m = bitmask & 0x757u16;
        proof {
            assert((m & 1u16) <= 1 && ((m >> 1u16) & 1u16) <= 1 && ((m >> 2u16) & 1u16) <= 1 && ((
            m >> 4u16) & 1u16) <= 1 && ((m >> 6u16) & 1u16) <= 1 && ((m >> 8u16) & 1u16) <= 1
                && ((m >> 9u16) & 1u16) <= 1 && ((m >> 10u16) & 1u16) <= 1) by (bit_vector);
        }
        let neighbor_count = (m & 1u16) + ((m >> 1u16) & 1u16) + ((m >> 2u16) & 1u16) + ((m
            >> 4u16) & 1u16) + ((m >> 6u16) & 1u16) + ((m >> 8u16) & 1u16) + ((m >> 9u16) & 1u16)
            + ((m >> 10u16) & 1u16);
        if neighbor_count == 3 || (neighbor_count == 2 && center == 1) {
            self.new_leaf(Cell::Alive)
        } else {
            self.new_leaf(Cell::Dead)
        }
    }

    /// Evolve a level-2 subtree one generation by table-driven bit
    /// arithmetic: pack its 16 cells into one word, row-major with the
    /// top-left cell as the most significant bit, and apply the rule to the
    /// four center cells.
    #[verifier::loop_isolation(false)]
    fn manual_evolve(&mut self, node: Id) -> (r: Id)
        requires
            wf_table(old(self).table_view()),
            node.0 < old(self).table_view().len(),
            node_level(old(self).table_view()[node.0 as int]) == 2,
        ensures
            wf_table(final(self).table_view()),
            extends(final(self).table_view(), old(self).table_view()),
            final(self).root_id() == old(self).root_id(),
            final(self).gen_count() == old(self).gen_count(),
            r.0 < final(self).table_view().len(),
            abs(final(self).table_view(), r.0 as int) == tree_kernel(
                abs(old(self).table_view(), node.0 as int),
            ),
            node_level(final(self).table_view()[r.0 as int]) == 1,
    {
        let ghost t0 = self.table@;
        let ghost tr = abs(t0, node.0 as int);
        proof {
            lemma_abs_props(t0, node.0 as int);
            lemma2_to64();
        }
        let mut all_bits: u16 = 0;
        let mut i: usize = 0;
        while i < 16
            invariant
                *self == *old(self),
                i <= 16,
                all_bits == crate::model::bits_prefix(tr, i as int),
            decreases 16 - i,
        {
            proof {
                crate::model::lemma_bits_prefix_bound(tr, i as nat);
                crate::model::lemma_bits_prefix_bound(tr, (i + 1) as nat);
                assert(pow2(i as nat) <= pow2(15)) by {
                    if (i as nat) < 15 {
                        vstd::arithmetic::power2::lemma_pow2_strictly_increases(i as nat, 15);
                    }
                };
                lemma2_to64();
            }
            let x = (i % 4) as i64 - 2;
            let y = (i / 4) as i64 - 2;
            let c = self.get_tree_cell(node, Position::new(x, y));
            let bit: u16 = match c {
                Cell::Alive => 1,
                Cell::Dead => 0,
            };
            proof {
                assert(cell_alive(c) == crate::model::tree_cell(tr, x as int, y as int));
                assert((x as int) == ((i as int) % 4) - 2);
                assert((y as int) == ((i as int) / 4) - 2);
                assert(crate::model::bit16(tr, i as int) == bit);
                assert(crate::model::bits_prefix(tr, (i + 1) as int) == 2
                    * crate::model::bits_prefix(tr, i as int) + crate::model::bit16(
                    tr,
                    i as int,
                ));
            }
            all_bits = all_bits * 2 + bit;
            i += 1;
        }
        proof {
            crate::model::lemma_bits_prefix_bound(tr, 16);
            lemma2_to64();
            assert(all_bits == crate::model::tree_bits(tr));
        }
        let nw = self.one_gen(all_bits >> 5u16);
        let ghost t1 = self.table@;
        let ne = self.one_gen(all_bits >> 4u16);
        let ghost t2 = self.table@;
        proof {
            lemma_extends_abs_all(t1, t2);
        }
        let sw = self.one_gen(all_bits >> 1u16);
        let ghost t3 = self.table@;
        proof {
            lemma_extends_abs_all(t2, t3);
            lemma_extends_trans(t3, t2, t1);
        }
        let se = self.one_gen(all_bits);
        let ghost t4 = self.table@;
        proof {
            lemma_extends_abs_all(t3, t4);
            lemma_extends_trans(t4, t3, t1);
            lemma_extends_trans(t4, t3, t0);
        }
        let r = self.new_inode(nw, ne, sw, se);
        proof {
            let t5 = self.table@;
            lemma_extends_abs_all(t4, t5);
            lemma_extends_trans(t5, t4, t0);
        }
        r
    }

    /// The canonical handle of the centered level-`k-1` square of a
    /// level-`k` node: its four grandchildren nearest the center.
    #[verifier::rlimit(100)]
    pub fn centered_sub(&mut self, node: Id) -> (r: Id)
        requires
            wf_table(old(self).table_view()),
            node.0 < old(self).table_view().len(),
            node_level(old(self).table_view()[node.0 as int]) >= 2,
        ensures
            wf_table(final(self).table_view()),
            extends(final(self).table_view(), old(self).table_view()),
            final(self).root_id() == old(self).root_id(),
            final(self).gen_count() == old(self).gen_count(),
            r.0 < final(self).table_view().len(),
            abs(final(self).table_view(), r.0 as int) == crate::model::c_sub(
                abs(old(self).table_view(), node.0 as int),
            ),
            node_level(final(self).table_view()[r.0 as int]) == node_level(
                old(self).table_view()[node.0 as int],
            ) - 1,
    {
        proof {
            lemma_inode_shape(self.table@, node.0 as int);
        }
        let n = node.inode(self);
        proof {
            assert(wf_at(self.table@, node.0 as int));
            lemma_inode_shape(self.table@, n.nw.0 as int);
            lemma_inode_shape(self.table@, n.ne.0 as int);
            lemma_inode_shape(self.table@, n.sw.0 as int);
            lemma_inode_shape(self.table@, n.se.0 as int);
        }
        let a = n.nw.inode(self);
        let b = n.ne.inode(self);
        let c = n.sw.inode(self);
        let d = n.se.inode(self);
        proof {
            assert(wf_at(self.table@, n.nw.0 as int));
            assert(wf_at(self.table@, n.ne.0 as int));
            assert(wf_at(self.table@, n.sw.0 as int));
            assert(wf_at(self.table@, n.se.0 as int));
            let t = self.table@;
            assert(abs(t, node.0 as int) == tnode(
                abs(t, n.nw.0 as int),
                abs(t, n.ne.0 as int),
                abs(t, n.sw.0 as int),
                abs(t, n.se.0 as int),
            ));
            assert(crate::model::t_se(abs(t, n.nw.0 as int)) == abs(t, a.se.0 as int));
            assert(crate::model::t_sw(abs(t, n.ne.0 as int)) == abs(t, b.sw.0 as int));
            assert(crate::model::t_ne(abs(t, n.sw.0 as int)) == abs(t, c.ne.0 as int));
            assert(crate::model::t_nw(abs(t, n.se.0 as int)) == abs(t, d.nw.0 as int));
        }
        self.new_inode(a.se, b.sw, c.ne, d.nw)
    }

    /// The canonical handle of the centered square of a west/east pair of
    /// equal level.
    #[verifier::rlimit(100)]
    pub fn centered_horizontal(&mut self, west: Id, east: Id) -> (r: Id)
        requires
            wf_table(old(self).table_view()),
            west.0 < old(self).table_view().len(),
            east.0 < old(self).table_view().len(),
            node_level(old(self).table_view()[west.0 as int]) >= 2,
            node_level(old(self).table_view()[east.0 as int]) == node_level(
                old(self).table_view()[west.0 as int],
            ),
        ensures
            wf_table(final(self).table_view()),
            extends(final(self).table_view(), old(self).table_view()),
            final(self).root_id() == old(self).root_id(),
            final(self).gen_count() == old(self).gen_count(),
            r.0 < final(self).table_view().len(),
            abs(final(self).table_view(), r.0 as int) == crate::model::c_horizontal(
                abs(old(self).table_view(), west.0 as int),
                abs(old(self).table_view(), east.0 as int),
            ),
            node_level(final(self).table_view()[r.0 as int]) == node_level(
                old(self).table_view()[west.0 as int],
            ) - 1,
    {
        proof {
            lemma_inode_shape(self.table@, west.0 as int);
            lemma_inode_shape(self.table@, east.0 as int);
        }
        let w = west.inode(self);
        let e = east.inode(self);
        proof {
            assert(wf_at(self.table@, west.0 as int));
            assert(wf_at(self.table@, east.0 as int));
            lemma_inode_shape(self.table@, w.ne.0 as int);
            lemma_inode_shape(self.table@, w.se.0 as int);
            lemma_inode_shape(self.table@, e.nw.0 as int);
            lemma_inode_shape(self.table@, e.sw.0 as int);
        }
        let a = w.ne.inode(self);
        let b = e.nw.inode(self);
        let c = w.se.inode(self);
        let d = e.sw.inode(self);
        proof {
            assert(wf_at(self.table@, w.ne.0 as int));
            assert(wf_at(self.table@, w.se.0 as int));
            assert(wf_at(self.table@, e.nw.0 as int));
            assert(wf_at(self.table@, e.sw.0 as int));
            let t = self.table@;
            assert(abs(t, west.0 as int) == tnode(
                abs(t, w.nw.0 as int),
                abs(t, w.ne.0 as int),
                abs(t, w.sw.0 as int),
                abs(t, w.se.0 as int),
            ));
            assert(abs(t, east.0 as int) == tnode(
                abs(t, e.nw.0 as int),
                abs(t, e.ne.0 as int),
                abs(t, e.sw.0 as int),
                abs(t, e.se.0 as int),
            ));
            assert(crate::model::t_se(abs(t, w.ne.0 as int)) == abs(t, a.se.0 as int));
            assert(crate::model::t_sw(abs(t, e.nw.0 as int)) == abs(t, b.sw.0 as int));
            assert(crate::model::t_ne(abs(t, w.se.0 as int)) == abs(t, c.ne.0 as int));
            assert(crate::model::t_nw(abs(t, e.sw.0 as int)) == abs(t, d.nw.0 as int));
        }
        self.new_inode(a.se, b.sw, c.ne, d.nw)
    }

    /// The canonical handle of the centered square of a north/south pair of
    /// equal level.
    #[verifier::rlimit(100)]
    pub fn centered_vertical(&mut self, north: Id, south: Id) -> (r: Id)
        requires
            wf_table(old(self).table_view()),
            north.0 < old(self).table_view().len(),
            south.0 < old(self).table_view().len(),
            node_level(old(self).table_view()[north.0 as int]) >= 2,
            node_level(old(self).table_view()[south.0 as int]) == node_level(
                old(self).table_view()[north.0 as int],
            ),
        ensures
            wf_table(final(self).table_view()),
            extends(final(self).table_view(), old(self).table_view()),
            final(self).root_id() == old(self).root_id(),
            final(self).gen_count() == old(self).gen_count(),
            r.0 < final(self).table_view().len(),
            abs(final(self).table_view(), r.0 as int) == crate::model::c_vertical(
                abs(old(self).table_view(), north.0 as int),
                abs(old(self).table_view(), south.0 as int),
            ),
            node_level(final(self).table_view()[r.0 as int]) == node_level(
                old(self).table_view()[north.0 as int],
            ) - 1,
    {
        proof {
            lemma_inode_shape(self.table@, north.0 as int);
            lemma_inode_shape(self.table@, south.0 as int);
        }
        let nn = north.inode(self);
        let s = south.inode(self);
        proof {
            assert(wf_at(self.table@, north.0 as int));
            assert(wf_at(self.table@, south.0 as int));
            lemma_inode_shape(self.table@, nn.sw.0 as int);
            lemma_inode_shape(self.table@, nn.se.0 as int);
            lemma_inode_shape(self.table@, s.nw.0 as int);
            lemma_inode_shape(self.table@, s.ne.0 as int);
        }
        let a = nn.sw.inode(self);
        let b = nn.se.inode(self);
        let c = s.nw.inode(self);
        let d = s.ne.inode(self);
        proof {
            assert(wf_at(self.table@, nn.sw.0 as int));
            assert(wf_at(self.table@, nn.se.0 as int));
            assert(wf_at(self.table@, s.nw.0 as int));
            assert(wf_at(self.table@, s.ne.0 as int));
            let t = self.table@;
            assert(abs(t, north.0 as int) == tnode(
                abs(t, nn.nw.0 as int),
                abs(t, nn.ne.0 as int),
                abs(t, nn.sw.0 as int),
                abs(t, nn.se.0 as int),
            ));
            assert(abs(t, south.0 as int) == tnode(
                abs(t, s.nw.0 as int),
                abs(t, s.ne.0 as int),
                abs(t, s.sw.0 as int),
                abs(t, s.se.0 as int),
            ));
            assert(crate::model::t_se(abs(t, nn.sw.0 as int)) == abs(t, a.se.0 as int));
            assert(crate::model::t_sw(abs(t, nn.se.0 as int)) == abs(t, b.sw.0 as int));
            assert(crate::model::t_ne(abs(t, s.nw.0 as int)) == abs(t, c.ne.0 as int));
            assert(crate::model::t_nw(abs(t, s.ne.0 as int)) == abs(t, d.nw.0 as int));
        }
        self.new_inode(a.se, b.sw, c.ne, d.nw)
    }

    /// The canonical handle of the innermost square of a node of level at
    /// least 3: its four great-grandchildren touching the center, two
    /// levels down.
    #[verifier::rlimit(100)]
    pub fn centered_subsub(&mut self, node: Id) -> (r: Id)
        requires
            wf_table(old(self).table_view()),
            node.0 < old(self).table_view().len(),
            node_level(old(self).table_view()[node.0 as int]) >= 3,
        ensures
            wf_table(final(self).table_view()),
            extends(final(self).table_view(), old(self).table_view()),
            final(self).root_id() == old(self).root_id(),
            final(self).gen_count() == old(self).gen_count(),
            r.0 < final(self).table_view().len(),
            abs(final(self).table_view(), r.0 as int) == crate::model::c_subsub(
                abs(old(self).table_view(), node.0 as int),
            ),
            node_level(final(self).table_view()[r.0 as int]) == node_level(
                old(self).table_view()[node.0 as int],
            ) - 2,
    {
        proof {
            lemma_inode_shape(self.table@, node.0 as int);
        }
        let n = node.inode(self);
        proof {
            assert(wf_at(self.table@, node.0 as int));
            lemma_inode_shape(self.table@, n.nw.0 as int);
            lemma_inode_shape(self.table@, n.ne.0 as int);
            lemma_inode_shape(self.table@, n.sw.0 as int);
            lemma_inode_shape(self.table@, n.se.0 as int);
        }
        let a = n.nw.inode(self);
        let b = n.ne.inode(self);
        let c = n.sw.inode(self);
        let d = n.se.inode(self);
        proof {
            assert(wf_at(self.table@, n.nw.0 as int));
            assert(wf_at(self.table@, n.ne.0 as int));
            assert(wf_at(self.table@, n.sw.0 as int));
            assert(wf_at(self.table@, n.se.0 as int));
            lemma_inode_shape(self.table@, a.se.0 as int);
            lemma_inode_shape(self.table@, b.sw.0 as int);
            lemma_inode_shape(self.table@, c.ne.0 as int);
            lemma_inode_shape(self.table@, d.nw.0 as int);
        }
        let ga = a.se.inode(self);
        let gb = b.sw.inode(self);
        let gc = c.ne.inode(self);
        let gd = d.nw.inode(self);
        proof {
            assert(wf_at(self.table@, a.se.0 as int));
            assert(wf_at(self.table@, b.sw.0 as int));
            assert(wf_at(self.table@, c.ne.0 as int));
            assert(wf_at(self.table@, d.nw.0 as int));
            let t = self.table@;
            assert(abs(t, node.0 as int) == tnode(
                abs(t, n.nw.0 as int),
                abs(t, n.ne.0 as int),
                abs(t, n.sw.0 as int),
                abs(t, n.se.0 as int),
            ));
            assert(crate::model::t_se(abs(t, n.nw.0 as int)) == abs(t, a.se.0 as int));
            assert(crate::model::t_sw(abs(t, n.ne.0 as int)) == abs(t, b.sw.0 as int));
            assert(crate::model::t_ne(abs(t, n.sw.0 as int)) == abs(t, c.ne.0 as int));
            assert(crate::model::t_nw(abs(t, n.se.0 as int)) == abs(t, d.nw.0 as int));
            assert(crate::model::t_se(abs(t, a.se.0 as int)) == abs(t, ga.se.0 as int));
            assert(crate::model::t_sw(abs(t, b.sw.0 as int)) == abs(t, gb.sw.0 as int));
            assert(crate::model::t_ne(abs(t, c.ne.0 as int)) == abs(t, gc.ne.0 as int));
            assert(crate::model::t_nw(abs(t, d.nw.0 as int)) == abs(t, gd.nw.0 as int));
        }
        self.new_inode(ga.se, gb.sw, gc.ne, gd.nw)
    }

    /// Fill the one mutable field an interned node has: the memoized
    /// evolution of its center. Identity ignores the cache, so canonicity is
    /// untouched.
    fn set_result(&mut self, tree: Id, r: Id)
        requires
            wf_table(old(self).table_view()),
            tree.0 < old(self).table_view().len(),
            r.0 < old(self).table_view().len(),
            old(self).table_view()[tree.0 as int] is Inode,
            node_level(old(self).table_view()[tree.0 as int]) >= 2,
            node_level(old(self).table_view()[r.0 as int]) == node_level(
                old(self).table_view()[tree.0 as int],
            ) - 1,
            abs(old(self).table_view(), r.0 as int) == tree_next_gen(
                abs(old(self).table_view(), tree.0 as int),
            ),
        ensures
            wf_table(final(self).table_view()),
            extends(final(self).table_view(), old(self).table_view()),
            final(self).table_view().len() == old(self).table_view().len(),
            final(self).root_id() == old(self).root_id(),
            final(self).gen_count() == old(self).gen_count(),
    {
        let ghost t0 = self.table@;
        let mut n = tree.inode(self);
        n.result = Some(r);
        self.table.set(tree.0, Node::Inode(n));
        proof {
            let t2 = self.table@;
            assert forall|i: int| 0 <= i < t0.len() implies same_core(#[trigger] t2[i], t0[i]) by {
                if i != tree.0 as int {
                    assert(t2[i] == t0[i]);
                }
            };
            lemma_extends_abs_all(t0, t2);
            assert forall|i: int| 0 <= i < t2.len() implies #[trigger] wf_at(t2, i) by {
                assert(wf_at(t0, i));
                if i != tree.0 as int {
                    assert(t2[i] == t0[i]);
                }
            };
            assert forall|i: int, j: int|
                0 <= i < t2.len() && 0 <= j < t2.len() && i != j implies !key_eq(
                #[trigger] t2[i],
                #[trigger] t2[j],
            ) by {
                assert(!key_eq(t0[i], t0[j]));
            };
            assert forall|i: int| 0 <= i < t2.len() implies #[trigger] memo_at(t2, i) by {
                assert(memo_at(t0, i));
                if i != tree.0 as int {
                    assert(t2[i] == t0[i]);
                }
            };
        }
    }

    /// The canonical handle of the square straddling a west/east pair of
    /// equal positive level: the east half of the west node beside the west
    /// half of the east node, at that same level.
    #[verifier::rlimit(100)]
    fn strip_h(&mut self, west: Id, east: Id) -> (r: Id)
        requires
            wf_table(old(self).table_view()),
            west.0 < old(self).table_view().len(),
            east.0 < old(self).table_view().len(),
            node_level(old(self).table_view()[west.0 as int]) >= 1,
            node_level(old(self).table_view()[east.0 as int]) == node_level(
                old(self).table_view()[west.0 as int],
            ),
            node_level(old(self).table_view()[west.0 as int]) <= 63,
        ensures
            wf_table(final(self).table_view()),
            extends(final(self).table_view(), old(self).table_view()),
            final(self).root_id() == old(self).root_id(),
            final(self).gen_count() == old(self).gen_count(),
            r.0 < final(self).table_view().len(),
            abs(final(self).table_view(), r.0 as int) == crate::model::h_strip(
                abs(old(self).table_view(), west.0 as int),
                abs(old(self).table_view(), east.0 as int),
            ),
            node_level(final(self).table_view()[r.0 as int]) == node_level(
                old(self).table_view()[west.0 as int],
            ),
    {
        proof {
            lemma_inode_shape(self.table@, west.0 as int);
            lemma_inode_shape(self.table@, east.0 as int);
        }
        let w = west.inode(self);
        let e = east.inode(self);
        proof {
            assert(wf_at(self.table@, west.0 as int));
            assert(wf_at(self.table@, east.0 as int));
            let t = self.table@;
            assert(abs(t, west.0 as int) == tnode(
                abs(t, w.nw.0 as int),
                abs(t, w.ne.0 as int),
                abs(t, w.sw.0 as int),
                abs(t, w.se.0 as int),
            ));
            assert(abs(t, east.0 as int) == tnode(
                abs(t, e.nw.0 as int),
                abs(t, e.ne.0 as int),
                abs(t, e.sw.0 as int),
                abs(t, e.se.0 as int),
            ));
        }
        self.new_inode(w.ne, e.nw, w.se, e.sw)
    }

    /// The canonical handle of the square straddling a north/south pair of
    /// equal positive level: the south half of the north node above the
    /// north half of the south node, at that same level.
    #[verifier::rlimit(100)]
    fn strip_v(&mut self, north: Id, south: Id) -> (r: Id)
        requires
            wf_table(old(self).table_view()),
            north.0 < old(self).table_view().len(),
            south.0 < old(self).table_view().len(),
            node_level(old(self).table_view()[north.0 as int]) >= 1,
            node_level(old(self).table_view()[south.0 as int]) == node_level(
                old(self).table_view()[north.0 as int],
            ),
            node_level(old(self).table_view()[north.0 as int]) <= 63,
        ensures
            wf_table(final(self).table_view()),
            extends(final(self).table_view(), old(self).table_view()),
            final(self).root_id() == old(self).root_id(),
            final(self).gen_count() == old(self).gen_count(),
            r.0 < final(self).table_view().len(),
            abs(final(self).table_view(), r.0 as int) == crate::model::v_strip(
                abs(old(self).table_view(), north.0 as int),
                abs(old(self).table_view(), south.0 as int),
            ),
            node_level(final(self).table_view()[r.0 as int]) == node_level(
                old(self).table_view()[north.0 as int],
            ),
    {
        proof {
            lemma_inode_shape(self.table@, north.0 as int);
            lemma_inode_shape(self.table@, south.0 as int);
        }
        let n = north.inode(self);
        let s = south.inode(self);
        proof {
            assert(wf_at(self.table@, north.0 as int));
            assert(wf_at(self.table@, south.0 as int));
            let t = self.table@;
            assert(abs(t, north.0 as int) == tnode(
                abs(t, n.nw.0 as int),
                abs(t, n.ne.0 as int),
                abs(t, n.sw.0 as int),
                abs(t, n.se.0 as int),
            ));
            assert(abs(t, south.0 as int) == tnode(
                abs(t, s.nw.0 as int),
                abs(t, s.ne.0 as int),
                abs(t, s.sw.0 as int),
                abs(t, s.se.0 as int),
            ));
        }
        self.new_inode(n.sw, n.se, s.nw, s.ne)
    }

    /// The first five of the nine overlapping half-sized squares of a node
    /// of level at least 3, each evolved, in reading order: the north-west
    /// child, the north strip, the north-east child, the west strip, and
    /// the centered square.
    #[verifier::rlimit(100)]
    #[verifier::spinoff_prover]
    fn evolve_five(&mut self, tree: Id) -> (r: (Id, Id, Id, Id, Id))
        requires
            wf_table(old(self).table_view()),
            tree.0 < old(self).table_view().len(),
            node_level(old(self).table_view()[tree.0 as int]) >= 3,
        ensures
            wf_table(final(self).table_view()),
            extends(final(self).table_view(), old(self).table_view()),
            final(self).root_id() == old(self).root_id(),
            final(self).gen_count() == old(self).gen_count(),
            r.0.0 < final(self).table_view().len(),
            r.1.0 < final(self).table_view().len(),
            r.2.0 < final(self).table_view().len(),
            r.3.0 < final(self).table_view().len(),
            r.4.0 < final(self).table_view().len(),
            ({
                let tr = abs(old(self).table_view(), tree.0 as int);
                let tf = final(self).table_view();
                let m = (node_level(old(self).table_view()[tree.0 as int]) - 2) as nat;
                &&& node_level(tf[r.0.0 as int]) == m
                &&& node_level(tf[r.1.0 as int]) == m
                &&& node_level(tf[r.2.0 as int]) == m
                &&& node_level(tf[r.3.0 as int]) == m
                &&& node_level(tf[r.4.0 as int]) == m
                &&& abs(tf, r.0.0 as int) == tree_next_gen(crate::model::t_nw(tr))
                &&& abs(tf, r.1.0 as int) == tree_next_gen(
                    crate::model::h_strip(crate::model::t_nw(tr), crate::model::t_ne(tr)),
                )
                &&& abs(tf, r.2.0 as int) == tree_next_gen(crate::model::t_ne(tr))
                &&& abs(tf, r.3.0 as int) == tree_next_gen(
                    crate::model::v_strip(crate::model::t_nw(tr), crate::model::t_sw(tr)),
                )
                &&& abs(tf, r.4.0 as int) == tree_next_gen(crate::model::c_sub(tr))
            }),
        decreases node_level(old(self).table_view()[tree.0 as int]), 0int,
    {
        let ghost t0 = self.table@;
        let ghost tr = abs(t0, tree.0 as int);
        proof {
            lemma_inode_shape(t0, tree.0 as int);
            lemma_abs_props(t0, tree.0 as int);
            assert(wf_at(t0, tree.0 as int));
            crate::model::lemma_nine_squares(tr);
        }
        let n = tree.inode(self);
        let r00 = self.evolve_tree(n.nw);
        let ghost s1 = self.table@;
        proof {
            lemma_extends_abs_all(t0, s1);
        }
        let s01 = self.strip_h(n.nw, n.ne);
        let ghost s2 = self.table@;
        proof {
            lemma_extends_abs_all(s1, s2);
            lemma_extends_trans(s2, s1, t0);
        }
        let r01 = self.evolve_tree(s01);
        let ghost s3 = self.table@;
        proof {
            lemma_extends_abs_all(s2, s3);
            lemma_extends_trans(s3, s2, t0);
        }
        let r02 = self.evolve_tree(n.ne);
        let ghost s4 = self.table@;
        proof {
            lemma_extends_abs_all(s3, s4);
            lemma_extends_trans(s4, s3, t0);
        }
        let s10 = self.strip_v(n.nw, n.sw);
        let ghost s5 = self.table@;
        proof {
            lemma_extends_abs_all(s4, s5);
            lemma_extends_trans(s5, s4, t0);
        }
        let r10 = self.evolve_tree(s10);
        let ghost s6 = self.table@;
        proof {
            lemma_extends_abs_all(s5, s6);
            lemma_extends_trans(s6, s5, t0);
        }
        let s11 = self.centered_sub(tree);
        let ghost s7 = self.table@;
        proof {
            lemma_extends_abs_all(s6, s7);
            lemma_extends_trans(s7, s6, t0);
        }
        let r11 = self.evolve_tree(s11);
        proof {
            let s8 = self.table@;
            lemma_extends_abs_all(s7, s8);
            lemma_extends_trans(s8, s7, t0);
        }
        (r00, r01, r02, r10, r11)
    }

    /// The nine overlapping half-sized squares of a node of level at least
    /// 3 — its four children, the four strips between neighbors, and its
    /// centered square — each evolved, in reading order.
    #[verifier::rlimit(100)]
    #[verifier::spinoff_prover]
    fn evolve_nine(&mut self, tree: Id) -> (r: (Id, Id, Id, Id, Id, Id, Id, Id, Id))
        requires
            wf_table(old(self).table_view()),
            tree.0 < old(self).table_view().len(),
            node_level(old(self).table_view()[tree.0 as int]) >= 3,
        ensures
            wf_table(final(self).table_view()),
            extends(final(self).table_view(), old(self).table_view()),
            final(self).root_id() == old(self).root_id(),
            final(self).gen_count() == old(self).gen_count(),
            r.0.0 < final(self).table_view().len(),
            r.1.0 < final(self).table_view().len(),
            r.2.0 < final(self).table_view().len(),
            r.3.0 < final(self).table_view().len(),
            r.4.0 < final(self).table_view().len(),
            r.5.0 < final(self).table_view().len(),
            r.6.0 < final(self).table_view().len(),
            r.7.0 < final(self).table_view().len(),
            r.8.0 < final(self).table_view().len(),
            ({
                let tr = abs(old(self).table_view(), tree.0 as int);
                let tf = final(self).table_view();
                let m = (node_level(old(self).table_view()[tree.0 as int]) - 2) as nat;
                &&& node_level(tf[r.0.0 as int]) == m
                &&& node_level(tf[r.1.0 as int]) == m
                &&& node_level(tf[r.2.0 as int]) == m
                &&& node_level(tf[r.3.0 as int]) == m
                &&& node_level(tf[r.4.0 as int]) == m
                &&& node_level(tf[r.5.0 as int]) == m
                &&& node_level(tf[r.6.0 as int]) == m
                &&& node_level(tf[r.7.0 as int]) == m
                &&& node_level(tf[r.8.0 as int]) == m
                &&& abs(tf, r.0.0 as int) == tree_next_gen(crate::model::t_nw(tr))
                &&& abs(tf, r.1.0 as int) == tree_next_gen(
                    crate::model::h_strip(crate::model::t_nw(tr), crate::model::t_ne(tr)),
                )
                &&& abs(tf, r.2.0 as int) == tree_next_gen(crate::model::t_ne(tr))
                &&& abs(tf, r.3.0 as int) == tree_next_gen(
                    crate::model::v_strip(crate::model::t_nw(tr), crate::model::t_sw(tr)),
                )
                &&& abs(tf, r.4.0 as int) == tree_next_gen(crate::model::c_sub(tr))
                &&& abs(tf, r.5.0 as int) == tree_next_gen(
                    crate::model::v_strip(crate::model::t_ne(tr), crate::model::t_se(tr)),
                )
                &&& abs(tf, r.6.0 as int) == tree_next_gen(crate::model::t_sw(tr))
                &&& abs(tf, r.7.0 as int) == tree_next_gen(
                    crate::model::h_strip(crate::model::t_sw(tr), crate::model::t_se(tr)),
                )
                &&& abs(tf, r.8.0 as int) == tree_next_gen(crate::model::t_se(tr))
            }),
        decreases node_level(old(self).table_view()[tree.0 as int]), 1int,
    {
        let ghost t0 = self.table@;
        let ghost tr = abs(t0, tree.0 as int);
        proof {
            lemma_inode_shape(t0, tree.0 as int);
            lemma_abs_props(t0, tree.0 as int);
            assert(wf_at(t0, tree.0 as int));
            crate::model::lemma_nine_squares(tr);
        }
        let n = tree.inode(self);
        let five = self.evolve_five(tree);
        let ghost s8 = self.table@;
        proof {
            lemma_extends_abs_all(t0, s8);
        }
        let s12 = self.strip_v(n.ne, n.se);
        let ghost s9 = self.table@;
        proof {
            lemma_extends_abs_all(s8, s9);
            lemma_extends_trans(s9, s8, t0);
        }
        let r12 = self.evolve_tree(s12);
        let ghost s10g = self.table@;
        proof {
            lemma_extends_abs_all(s9, s10g);
            lemma_extends_trans(s10g, s9, t0);
        }
        let r20 = self.evolve_tree(n.sw);
        let ghost s11g = self.table@;
        proof {
            lemma_extends_abs_all(s10g, s11g);
            lemma_extends_trans(s11g, s10g, t0);
        }
        let s21 = self.strip_h(n.sw, n.se);
        let ghost s12g = self.table@;
        proof {
            lemma_extends_abs_all(s11g, s12g);
            lemma_extends_trans(s12g, s11g, t0);
        }
        let r21 = self.evolve_tree(s21);
        let ghost s13g = self.table@;
        proof {
            lemma_extends_abs_all(s12g, s13g);
            lemma_extends_trans(s13g, s12g, t0);
        }
        let r22 = self.evolve_tree(n.se);
        proof {
            let s14g = self.table@;
            lemma_extends_abs_all(s13g, s14g);
            lemma_extends_trans(s14g, s13g, t0);
        }
        (five.0, five.1, five.2, five.3, five.4, r12, r20, r21, r22)
    }

    /// The handle of this subtree's center advanced `2^(level-2)`
    /// generations, one level down: from the cache when it is filled, from
    /// the bit kernel at level 2, and otherwise by the doubling recursion —
    /// the nine overlapping half-sized squares are evolved, their results
    /// assembled into four overlapping half-sized squares, and each of
    /// those evolved once more. The computed answer is memoized on the
    /// node.
    #[verifier::rlimit(100)]
    #[verifier::spinoff_prover]
    pub fn evolve_tree(&mut self, tree: Id) -> (r: Id)
        requires
            wf_table(old(self).table_view()),
            tree.0 < old(self).table_view().len(),
            node_level(old(self).table_view()[tree.0 as int]) >= 2,
        ensures
            wf_table(final(self).table_view()),
            extends(final(self).table_view(), old(self).table_view()),
            final(self).root_id() == old(self).root_id(),
            final(self).gen_count() == old(self).gen_count(),
            r.0 < final(self).table_view().len(),
            node_level(final(self).table_view()[r.0 as int]) == node_level(
                old(self).table_view()[tree.0 as int],
            ) - 1,
            abs(final(self).table_view(), r.0 as int) == tree_next_gen(
                abs(old(self).table_view(), tree.0 as int),
            ),
            (old(self).table_view()[tree.0 as int] matches Node::Inode(n) && n.result is Some)
                ==> final(self).table_view() == old(self).table_view(),
        decreases node_level(old(self).table_view()[tree.0 as int]), 2int,
    {
        let ghost t0 = self.table@;
        let ghost tr = abs(t0, tree.0 as int);
        proof {
            lemma_inode_shape(t0, tree.0 as int);
            lemma_abs_props(t0, tree.0 as int);
            assert(wf_at(t0, tree.0 as int));
        }
        let n = tree.inode(self);
        if let Some(result) = n.result {
            proof {
                assert(memo_at(t0, tree.0 as int));
            }
            return result;
        }
        if n.level.0 == 2 {
            let r = self.manual_evolve(tree);
            return r;
        }
        let nine = self.evolve_nine(tree);
        let ghost s0 = self.table@;
        let anw = self.new_inode(nine.0, nine.1, nine.3, nine.4);
        let ghost s1 = self.table@;
        proof {
            lemma_extends_abs_all(s0, s1);
            lemma_extends_trans(s1, s0, t0);
        }
        let rnw = self.evolve_tree(anw);
        let ghost s2 = self.table@;
        proof {
            lemma_extends_abs_all(s1, s2);
            lemma_extends_trans(s2, s1, t0);
        }
        let ane = self.new_inode(nine.1, nine.2, nine.4, nine.5);
        let ghost s3 = self.table@;
        proof {
            lemma_extends_abs_all(s2, s3);
            lemma_extends_trans(s3, s2, t0);
        }
        let rne = self.evolve_tree(ane);
        let ghost s4 = self.table@;
        proof {
            lemma_extends_abs_all(s3, s4);
            lemma_extends_trans(s4, s3, t0);
        }
        let asw = self.new_inode(nine.3, nine.4, nine.6, nine.7);
        let ghost s5 = self.table@;
        proof {
            lemma_extends_abs_all(s4, s5);
            lemma_extends_trans(s5, s4, t0);
        }
        let rsw = self.evolve_tree(asw);
        let ghost s6 = self.table@;
        proof {
            lemma_extends_abs_all(s5, s6);
            lemma_extends_trans(s6, s5, t0);
        }
        let ase = self.new_inode(nine.4, nine.5, nine.7, nine.8);
        let ghost s7 = self.table@;
        proof {
            lemma_extends_abs_all(s6, s7);
            lemma_extends_trans(s7, s6, t0);
        }
        let rse = self.evolve_tree(ase);
        let ghost s8 = self.table@;
        proof {
            lemma_extends_abs_all(s7, s8);
            lemma_extends_trans(s8, s7, t0);
        }
        let result = self.new_inode(rnw, rne, rsw, rse);
        let ghost s9 = self.table@;
        proof {
            lemma_extends_abs_all(s8, s9);
            lemma_extends_trans(s9, s8, t0);
            lemma_extends_abs(t0, s9, tree.0 as int);
            crate::model::lemma_nine_squares(tr);
            crate::model::lemma_tree_next_gen_unfold(tr);
            let n00 = tree_next_gen(crate::model::t_nw(tr));
            let n01 = tree_next_gen(
                crate::model::h_strip(crate::model::t_nw(tr), crate::model::t_ne(tr)),
            );
            let n02 = tree_next_gen(crate::model::t_ne(tr));
            let n10 = tree_next_gen(
                crate::model::v_strip(crate::model::t_nw(tr), crate::model::t_sw(tr)),
            );
            let n11 = tree_next_gen(crate::model::c_sub(tr));
            let n12 = tree_next_gen(
                crate::model::v_strip(crate::model::t_ne(tr), crate::model::t_se(tr)),
            );
            let n20 = tree_next_gen(crate::model::t_sw(tr));
            let n21 = tree_next_gen(
                crate::model::h_strip(crate::model::t_sw(tr), crate::model::t_se(tr)),
            );
            let n22 = tree_next_gen(crate::model::t_se(tr));
            assert(abs(s1, anw.0 as int) == tnode(n00, n01, n10, n11));
            assert(abs(s3, ane.0 as int) == tnode(n01, n02, n11, n12));
            assert(abs(s5, asw.0 as int) == tnode(n10, n11, n20, n21));
            assert(abs(s7, ase.0 as int) == tnode(n11, n12, n21, n22));
            assert(abs(s9, rnw.0 as int) == tree_next_gen(tnode(n00, n01, n10, n11)));
            assert(abs(s9, rne.0 as int) == tree_next_gen(tnode(n01, n02, n11, n12)));
            assert(abs(s9, rsw.0 as int) == tree_next_gen(tnode(n10, n11, n20, n21)));
            assert(abs(s9, rse.0 as int) == tree_next_gen(tnode(n11, n12, n21, n22)));
            assert(abs(s9, result.0 as int) == tree_next_gen(tr));
        }
        self.set_result(tree, result);
        proof {
            let s10 = self.table@;
            lemma_extends_abs_all(s9, s10);
            lemma_extends_trans(s10, s9, t0);
        }
        result
    }

    /// Whether the root is ready to evolve: level at least 3, with each
    /// quadrant's whole population concentrated in its grandchild nearest
    /// the center, so the step cannot leak outside the kept center.
    #[verifier::rlimit(100)]
    #[verifier::spinoff_prover]
    fn padded_root(&self) -> (r: bool)
        requires
            self.wf(),
            self.root_id() is Some,
        ensures
            r == crate::model::padded(self.root_tree()),
    {
        let root = match self.root {
            Some(r) => r,
            None => vstd::pervasive::unreached(),
        };
        let ghost t = self.table@;
        proof {
            lemma_inode_shape(t, root.0 as int);
            lemma_abs_props(t, root.0 as int);
        }
        let iroot = root.inode(self);
        if iroot.level.0 < 3 {
            return false;
        }
        proof {
            assert(wf_at(t, root.0 as int));
            lemma_inode_shape(t, iroot.nw.0 as int);
            lemma_inode_shape(t, iroot.ne.0 as int);
            lemma_inode_shape(t, iroot.sw.0 as int);
            lemma_inode_shape(t, iroot.se.0 as int);
            lemma_abs_props(t, iroot.nw.0 as int);
            lemma_abs_props(t, iroot.ne.0 as int);
            lemma_abs_props(t, iroot.sw.0 as int);
            lemma_abs_props(t, iroot.se.0 as int);
        }
        let cnw = iroot.nw.inode(self);
        let cne = iroot.ne.inode(self);
        let csw = iroot.sw.inode(self);
        let cse = iroot.se.inode(self);
        proof {
            assert(wf_at(t, iroot.nw.0 as int));
            assert(wf_at(t, iroot.ne.0 as int));
            assert(wf_at(t, iroot.sw.0 as int));
            assert(wf_at(t, iroot.se.0 as int));
            lemma_inode_shape(t, cnw.se.0 as int);
            lemma_inode_shape(t, cne.sw.0 as int);
            lemma_inode_shape(t, csw.ne.0 as int);
            lemma_inode_shape(t, cse.nw.0 as int);
            lemma_abs_props(t, cnw.se.0 as int);
            lemma_abs_props(t, cne.sw.0 as int);
            lemma_abs_props(t, csw.ne.0 as int);
            lemma_abs_props(t, cse.nw.0 as int);
        }
        let gnw = cnw.se.inode(self);
        let gne = cne.sw.inode(self);
        let gsw = csw.ne.inode(self);
        let gse = cse.nw.inode(self);
        proof {
            assert(wf_at(t, cnw.se.0 as int));
            assert(wf_at(t, cne.sw.0 as int));
            assert(wf_at(t, csw.ne.0 as int));
            assert(wf_at(t, cse.nw.0 as int));
            lemma_abs_props(t, gnw.se.0 as int);
            lemma_abs_props(t, gne.sw.0 as int);
            lemma_abs_props(t, gsw.ne.0 as int);
            lemma_abs_props(t, gse.nw.0 as int);
        }
        let ok = cnw.population == gnw.se.node(self).population()
            && cne.population == gne.sw.node(self).population()
            && csw.population == gsw.ne.node(self).population()
            && cse.population == gse.nw.node(self).population();
        ok
    }

    /// Advance the universe one tick: grow until the root is padded — never
    /// more than twice — then replace it by its evolved center, `2^(L-2)`
    /// generations ahead for a padded root of level `L`, and count the
    /// tick.
    #[verifier::loop_isolation(false)]
    pub fn evolve(&mut self)
        requires
            old(self).wf(),
            old(self).root_id() is Some,
            old(self).root_level() <= 61,
            old(self).gen_count() < usize::MAX,
        ensures
            final(self).wf(),
            final(self).root_id() is Some,
            extends(final(self).table_view(), old(self).table_view()),
            final(self).gen_count() == old(self).gen_count() + 1,
            final(self).root_level() >= 2,
            exists|k: nat|
                k <= 2 && crate::model::padded(
                    #[trigger] crate::model::iter_expand(k, old(self).root_tree()),
                ) && (forall|j: nat|
                    j < k ==> !crate::model::padded(
                        #[trigger] crate::model::iter_expand(j, old(self).root_tree()),
                    )) && final(self).root_tree() == tree_next_gen(
                    crate::model::iter_expand(k, old(self).root_tree()),
                ),
    {
        proof {
            assert(wf_at(self.table@, (self.root_id()->0).0 as int));
            lemma_abs_props(self.table@, (self.root_id()->0).0 as int);
        }
        let ghost orig = *self;
        let ghost mut k: nat = 0;
        loop
            invariant
                self.wf(),
                self.root_id() is Some,
                self.gen_count() == orig.gen_count(),
                extends(self.table_view(), orig.table_view()),
                self.root_tree() == crate::model::iter_expand(k, orig.root_tree()),
                k <= 2,
                k >= 1 ==> crate::model::ring_empty(self.root_tree()),
                k == 2 ==> crate::model::padded(self.root_tree()),
                forall|j: nat|
                    j < k ==> !crate::model::padded(
                        #[trigger] crate::model::iter_expand(j, orig.root_tree()),
                    ),
                self.root_level() == orig.root_level() + k,
            decreases (if crate::model::padded(self.root_tree()) {
                0int
            } else if crate::model::ring_empty(self.root_tree()) {
                1int
            } else {
                2int
            }),
        {
            if self.padded_root() {
                break;
            }
            let ghost prev_tree = self.root_tree();
            proof {
                assert(k < 2);
                assert(wf_at(self.table@, (self.root_id()->0).0 as int));
                lemma_abs_props(self.table@, (self.root_id()->0).0 as int);
                assert(prev_tree is Node);
                crate::model::lemma_expand_ring(prev_tree);
                if crate::model::ring_empty(prev_tree) {
                    crate::model::lemma_ring_padded(prev_tree);
                }
            }
            self.expand();
            proof {
                k = k + 1;
            }
        }
        let root = match self.root {
            Some(r) => r,
            None => vstd::pervasive::unreached(),
        };
        let ghost tmid = *self;
        proof {
            lemma_abs_props(self.table@, root.0 as int);
        }
        let r = self.evolve_tree(root);
        self.root = Some(r);
        self.generation = self.generation + 1;
        proof {
            crate::model::lemma_tree_next_gen_wf(tmid.root_tree());
            assert(self.table@[r.0 as int] is Inode) by {
                if self.table@[r.0 as int] is Leaf {
                    assert(node_level(self.table@[r.0 as int]) == 0);
                }
            };
            assert(crate::model::padded(crate::model::iter_expand(k, orig.root_tree()))
                && self.root_tree() == tree_next_gen(
                crate::model::iter_expand(k, orig.root_tree()),
            ));
        }
    }
}

/// A well-formed table entry of positive level is an inner node.
pub proof fn lemma_inode_shape(t: Seq<Node>, i: int)
    requires
        wf_nodes(t),
        0 <= i < t.len(),
        node_level(t[i]) >= 1,
    ensures
        t[i] is Inode,
{
    assert(wf_at(t, i));
    if t[i] is Leaf {
        assert(node_level(t[i]) == 0);
    }
}

/// Every reachable inner node's four children carry exactly the level one
/// below its own.
pub proof fn lemma_child_levels(u: Universe, i: int)
    requires
        u.wf(),
        0 <= i < u.table_view().len(),
        u.table_view()[i] matches Node::Inode(n),
    ensures
        u.table_view()[i] matches Node::Inode(n) ==> {
            &&& node_level(u.table_view()[n.nw.0 as int]) == n.level.0 - 1
            &&& node_level(u.table_view()[n.ne.0 as int]) == n.level.0 - 1
            &&& node_level(u.table_view()[n.sw.0 as int]) == n.level.0 - 1
            &&& node_level(u.table_view()[n.se.0 as int]) == n.level.0 - 1
        },
{
    assert(wf_at(u.table_view(), i));
}

/// Every reachable inner node's population is the sum of its children's
/// populations, and counts exactly the live cells of the subtree it
/// denotes.
pub proof fn lemma_population(u: Universe, i: int)
    requires
        u.wf(),
        0 <= i < u.table_view().len(),
        u.table_view()[i] matches Node::Inode(n),
    ensures
        u.table_view()[i] matches Node::Inode(n) ==> n.population == node_population(
            u.table_view()[n.nw.0 as int],
        ) + node_population(u.table_view()[n.ne.0 as int]) + node_population(
            u.table_view()[n.sw.0 as int],
        ) + node_population(u.table_view()[n.se.0 as int]),
        node_population(u.table_view()[i]) == tree_pop(abs(u.table_view(), i)),
{
    assert(wf_at(u.table_view(), i));
    lemma_abs_props(u.table_view(), i);
}

/// Canonicity: two inner nodes of one universe with the same four child
/// handles are one node, under one handle.
pub proof fn lemma_canonicity(u: Universe, i: int, j: int)
    requires
        u.wf(),
        0 <= i < u.table_view().len(),
        0 <= j < u.table_view().len(),
        u.table_view()[i] matches Node::Inode(a),
        u.table_view()[j] matches Node::Inode(b),
        u.table_view()[i]->Inode_0.nw == u.table_view()[j]->Inode_0.nw,
        u.table_view()[i]->Inode_0.ne == u.table_view()[j]->Inode_0.ne,
        u.table_view()[i]->Inode_0.sw == u.table_view()[j]->Inode_0.sw,
        u.table_view()[i]->Inode_0.se == u.table_view()[j]->Inode_0.se,
    ensures
        i == j,
{
    if i != j {
        assert(key_eq(u.table_view()[i], u.table_view()[j]));
    }
}

} // verus!
