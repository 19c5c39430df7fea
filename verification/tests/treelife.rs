//! The owned-tree engine: bit access, the kernel, and stepping.

use hashlife::treelife::tree_node::{Cell, Inode, Node};
use hashlife::treelife::tree_universe::TreeUniverse;

#[test]
fn one_gen_applies_the_rule() {
    // A lone live cell dies; an empty window stays dead.
    assert_eq!(*Node::one_gen(0b0000_0000_0010_0000).cell_ref(), Cell::Dead);
    assert_eq!(*Node::one_gen(0).cell_ref(), Cell::Dead);
    // Exactly three neighbors give birth.
    assert_eq!(*Node::one_gen(0b0000_0000_0000_0111).cell_ref(), Cell::Alive);
    // A live cell with two neighbors survives.
    assert_eq!(*Node::one_gen(0b0000_0000_0010_0101).cell_ref(), Cell::Alive);
    // A live cell with four neighbors dies.
    assert_eq!(*Node::one_gen(0b0000_0001_0110_0101).cell_ref(), Cell::Dead);
}

#[test]
fn manual_simulation_steps_a_blinker() {
    // A horizontal blinker through the center row of a 4x4 square turns
    // vertical after one generation.
    let mut t = Node::new_empty_tree(2);
    for (x, y) in [(-1i32, 0i32), (0, 0), (1, 0)] {
        t = t.set_bit(x, y, true);
    }
    let stepped = Node::Inner(t.inode().next_generation());
    // The 2x2 center after one generation: only the column x == 0 lives.
    assert_eq!(stepped.get_bit(0, -1), 1);
    assert_eq!(stepped.get_bit(0, 0), 1);
    assert_eq!(stepped.get_bit(-1, -1), 0);
    assert_eq!(stepped.get_bit(-1, 0), 0);
}

#[test]
fn set_bit_reads_back_and_counts() {
    let mut u = TreeUniverse::new();
    u.set_bit(3, -2, true);
    u.set_bit(-6, 5, true);
    assert_eq!(u.get_bit(3, -2), 1);
    assert_eq!(u.get_bit(-6, 5), 1);
    assert_eq!(u.get_bit(0, 0), 0);
    assert_eq!(u.population(), 2);
    u.set_bit(3, -2, false);
    assert_eq!(u.population(), 1);
}

#[test]
fn run_step_keeps_a_block_still() {
    let mut u = TreeUniverse::new();
    for (x, y) in [(0i32, 0i32), (1, 0), (0, 1), (1, 1)] {
        u.set_bit(x, y, true);
    }
    for _ in 0..3 {
        u.run_step();
        assert_eq!(u.population(), 4);
    }
    assert_eq!(u.get_bit(0, 0), 1);
    assert_eq!(u.get_bit(1, 1), 1);
    assert_eq!(u.get_bit(2, 0), 0);
}

#[test]
fn inode_new_derives_level_and_population() {
    let i = Inode::new(
        Node::new_leaf(true),
        Node::new_leaf(false),
        Node::new_leaf(true),
        Node::new_leaf(true),
    );
    let n = Node::Inner(i);
    assert_eq!(n.level(), 1);
    assert_eq!(n.population(), 3);
}
