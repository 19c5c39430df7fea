//! The hash-consed universe: reads, writes, growth and canonicity.

use hashlife::coords::{Level, Position};
use hashlife::node::Cell;
use hashlife::universe::Universe;

fn fresh() -> Universe {
    Universe::new()
}

#[test]
fn new_starts_at_the_empty_level_three_root() {
    let u = Universe::new();
    assert_eq!(u.level(), Level(3));
    assert_eq!(u.population(), 0);
    assert_eq!(u.generation(), 0);
    assert!(u.node_count() <= 4);
    assert_eq!(u.get_cell(Position::new(0, 0)), Cell::Dead);
}

#[test]
fn initalize_resets_the_root_and_interns_nothing_new() {
    let mut u = Universe::new();
    u.set_cell(Position::new(1, 1), Cell::Alive);
    let n = u.node_count();
    u.initalize();
    // The canonical empty nodes of levels 0..=3 already sit in the table.
    assert_eq!(u.node_count(), n);
    assert_eq!(u.level(), Level(3));
    assert_eq!(u.population(), 0);
}

#[test]
fn set_then_get_reads_back() {
    let mut u = fresh();
    u.set_cell(Position::new(2, -3), Cell::Alive);
    assert_eq!(u.get_cell(Position::new(2, -3)), Cell::Alive);
    assert_eq!(u.get_cell(Position::new(0, 0)), Cell::Dead);
    u.set_cell(Position::new(2, -3), Cell::Dead);
    assert_eq!(u.get_cell(Position::new(2, -3)), Cell::Dead);
}

#[test]
fn set_twice_keeps_the_root_handle() {
    let mut u = fresh();
    u.set_cell(Position::new(1, 1), Cell::Alive);
    let first = u.root();
    u.set_cell(Position::new(1, 1), Cell::Alive);
    assert_eq!(u.root(), first);
}

#[test]
fn same_builds_share_roots_and_generations() {
    let cells = [(0i64, 0i64), (-5, 3), (7, 7), (2, -2)];
    let mut a = fresh();
    let mut b = fresh();
    for (x, y) in cells {
        a.set_cell(Position::new(x, y), Cell::Alive);
        b.set_cell(Position::new(x, y), Cell::Alive);
    }
    assert_eq!(a.root(), b.root());
    assert_eq!(a.generation(), b.generation());
}

#[test]
fn empty_trees_share_one_handle() {
    let mut u = fresh();
    let first = u.new_empty_tree(Level(5));
    let second = u.new_empty_tree(Level(5));
    assert_eq!(first, second);
}

#[test]
fn population_counts_live_cells() {
    let mut u = fresh();
    u.set_cell(Position::new(0, 0), Cell::Alive);
    u.set_cell(Position::new(1, 0), Cell::Alive);
    u.set_cell(Position::new(-3, 2), Cell::Alive);
    assert_eq!(u.population(), 3);
    u.set_cell(Position::new(1, 0), Cell::Dead);
    assert_eq!(u.population(), 2);
}

#[test]
fn far_cell_grows_the_universe_and_survives() {
    let mut u = fresh();
    u.set_cell(Position::new(1_000_000, -1_000_000), Cell::Alive);
    assert_eq!(u.get_cell(Position::new(1_000_000, -1_000_000)), Cell::Alive);
    assert_eq!(u.get_cell(Position::new(0, 0)), Cell::Dead);
    assert_eq!(u.level(), Level(21));
}

#[test]
fn expand_keeps_every_cell() {
    let mut u = fresh();
    u.set_cell(Position::new(-4, 3), Cell::Alive);
    u.set_cell(Position::new(3, -4), Cell::Alive);
    let lvl = u.level();
    u.expand();
    assert_eq!(u.level(), Level(lvl.0 + 1));
    assert_eq!(u.get_cell(Position::new(-4, 3)), Cell::Alive);
    assert_eq!(u.get_cell(Position::new(3, -4)), Cell::Alive);
    assert_eq!(u.get_cell(Position::new(5, 5)), Cell::Dead);
    assert_eq!(u.population(), 2);
}

#[test]
fn evolve_counts_ticks() {
    let mut u = fresh();
    assert_eq!(u.generation(), 0);
    u.evolve();
    assert_eq!(u.generation(), 1);
    u.evolve();
    assert_eq!(u.generation(), 2);
    assert_eq!(u.population(), 0);
}

#[test]
fn coordinate_helpers() {
    assert_eq!(Level(3).side_len(), 8);
    assert_eq!(Level(3).min_coord(), -4);
    assert_eq!(Level(3).max_coord(), 3);
    assert_eq!(Level(3).min_pos(), Position::new(-4, -4));
    assert_eq!(Level(3).max_pos(), Position::new(3, 3));
    let c = Level(4).quadrant_center(hashlife::coords::Quadrant::NorthEast);
    assert_eq!(c, Position::new(4, -4));
    assert!(Position::new(-4, 3).in_bounds(Level(3)));
    assert!(!Position::new(4, 0).in_bounds(Level(3)));
    assert_eq!(
        Position::new(7, -2).relative_to(Position::new(4, -4)),
        Position::new(3, 2)
    );
    assert_eq!(
        Position::new(1, 2).offset(hashlife::coords::Offset::new(-3, 5)),
        Position::new(-2, 7)
    );
}
