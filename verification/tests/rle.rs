//! The pattern reader: runs, counts, headers, and faults.

use hashlife::node::Cell;
use hashlife::rle::{parse_rle, RleError};
use hashlife::Position;
use hashlife::Universe;

fn cells_of(pattern: &[u8]) -> Vec<(i64, i64)> {
    let (cells, err) = parse_rle(&pattern.to_vec());
    assert!(err.is_none(), "unexpected error: {:?}", err);
    cells.iter().map(|p| (p.x, p.y)).collect()
}

#[test]
fn acorn_cells_in_reading_order() {
    assert_eq!(
        cells_of(b"bo5b$3bo3b$2o2b3o!"),
        vec![(1, 0), (3, 1), (0, 2), (1, 2), (4, 2), (5, 2), (6, 2)]
    );
}

#[test]
fn counts_default_to_one_and_accumulate() {
    assert_eq!(cells_of(b"12b3o!"), vec![(12, 0), (13, 0), (14, 0)]);
    assert_eq!(cells_of(b"o2$o!"), vec![(0, 0), (0, 2)]);
}

#[test]
fn headers_and_whitespace_are_ignored() {
    assert_eq!(
        cells_of(b"#C a comment\nx = 3, y = 1\n2o o!"),
        vec![(0, 0), (1, 0), (2, 0)]
    );
}

#[test]
fn text_after_the_terminator_is_ignored() {
    assert_eq!(cells_of(b"oo! garbage &&&"), vec![(0, 0), (1, 0)]);
}

#[test]
fn a_stray_byte_is_reported_with_its_position() {
    let (cells, err) = parse_rle(&b"oo$q!".to_vec());
    assert_eq!(cells.len(), 2);
    assert_eq!(err, Some(RleError::BadChar { position: 3, byte: b'q' }));
}

#[test]
fn an_oversized_count_is_reported() {
    let (_, err) = parse_rle(&b"9999999999o!".to_vec());
    assert_eq!(err, Some(RleError::Overflow { position: 9 }));
}

#[test]
fn a_faulty_pattern_loads_its_prefix_and_surfaces_the_fault() {
    let mut u = Universe::new();
    let r = u.read_rls(&b"oo$q!".to_vec());
    assert_eq!(r, Err(RleError::BadChar { position: 3, byte: b'q' }));
    assert_eq!(u.get_cell(Position::new(0, 0)), Cell::Alive);
    assert_eq!(u.get_cell(Position::new(1, 0)), Cell::Alive);
    assert_eq!(u.population(), 2);
}
