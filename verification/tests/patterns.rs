//! Whole patterns through the engine: still lifes, oscillators, loading.

use hashlife::node::Cell;
use hashlife::universe::Universe;
use hashlife::Position;

fn load(pattern: &[u8]) -> Universe {
    let mut u = Universe::new();
    u.read_rls(&pattern.to_vec()).expect("pattern parses");
    u
}

#[test]
fn block_is_a_still_life() {
    let mut u = load(b"oo$oo!");
    assert_eq!(u.population(), 4);
    for _ in 0..4 {
        u.evolve();
        assert_eq!(u.population(), 4);
        for (x, y) in [(0i64, 0i64), (1, 0), (0, 1), (1, 1)] {
            assert_eq!(u.get_cell(Position::new(x, y)), Cell::Alive);
        }
        for (x, y) in [(-1i64, -1i64), (2, 2), (2, 0), (0, 2), (-1, 0)] {
            assert_eq!(u.get_cell(Position::new(x, y)), Cell::Dead);
        }
    }
}

#[test]
fn blinker_returns_after_an_even_tick() {
    // The blinker pads to a level-5 root, so one `evolve` advances
    // 2^(5-2) = 8 raw generations. The period is 2, so every tick returns
    // the horizontal phase; the vertical phase is witnessed by the
    // level-2 kernel test in the owned-tree suite.
    let mut u = load(b"3o!");
    assert_eq!(u.population(), 3);
    for _ in 0..3 {
        u.evolve();
        assert_eq!(u.population(), 3);
        for (x, y) in [(0i64, 0i64), (1, 0), (2, 0)] {
            assert_eq!(u.get_cell(Position::new(x, y)), Cell::Alive);
        }
        assert_eq!(u.get_cell(Position::new(1, -1)), Cell::Dead);
        assert_eq!(u.get_cell(Position::new(1, 1)), Cell::Dead);
    }
}

#[test]
fn glider_flies_two_periods_per_tick() {
    // The glider pads to a level-5 root, so one `evolve` advances 8 raw
    // generations: exactly two glider periods, a displacement of (2, 2).
    let mut u = load(b"bo$2bo$3o!");
    assert_eq!(u.population(), 5);
    u.evolve();
    assert_eq!(u.population(), 5);
    for (x, y) in [(3i64, 2i64), (4, 3), (2, 4), (3, 4), (4, 4)] {
        assert_eq!(u.get_cell(Position::new(x, y)), Cell::Alive);
    }
    for (x, y) in [(1i64, 0i64), (2, 1), (0, 2), (1, 2), (2, 2)] {
        assert_eq!(u.get_cell(Position::new(x, y)), Cell::Dead);
    }
}

#[test]
fn memoization_spares_the_table() {
    let mut u = load(b"oo$oo!");
    let n0 = u.node_count();
    u.evolve();
    let n1 = u.node_count();
    u.evolve();
    let n2 = u.node_count();
    // The second tick replays the first one's shapes from the cache: it may
    // intern at most what the first tick interned.
    assert!(n2 - n1 <= n1 - n0);
}
