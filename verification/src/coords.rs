//! Coordinates on the cell grid: positions, quadrants, offsets, and quadtree
//! levels. A node at level `k` covers a `2^k x 2^k` square of cells centered
//! at the origin, so the coordinates it contains are `[-2^(k-1), 2^(k-1))` on
//! each axis.

use vstd::arithmetic::power2::{
    lemma2_to64, lemma2_to64_rest, lemma_pow2_adds, lemma_pow2_pos, pow2,
};
use vstd::bits::{lemma_u64_pow2_no_overflow, lemma_u64_shl_is_mul};
use vstd::prelude::*;

verus! {

/// A cell coordinate. The universe is centered at the origin; `y` grows
/// southward and `x` grows eastward.
#[derive(Debug, Copy, Clone, PartialEq, Eq, Structural)]
pub struct Position {
    pub x: i64,
    pub y: i64,
}

/// One of the four quadrants of a quadtree node, named by compass direction.
/// Zero coordinates belong to the positive (east/south) side.
#[derive(Debug, Copy, Clone, PartialEq, Eq, Structural)]
pub enum Quadrant {
    NorthWest,
    NorthEast,
    SouthWest,
    SouthEast,
}

/// A displacement between two positions.
#[derive(Debug, Copy, Clone, PartialEq, Eq, Structural)]
pub struct Offset {
    pub dx: i64,
    pub dy: i64,
}

/// The height of a quadtree node. Level 0 is a single cell; a node at level
/// `k >= 1` has four children at level `k - 1`. Levels above 63 are never
/// used: level 63 already spans the whole `i64` grid the engine can address.
#[derive(Debug, Copy, Clone, PartialEq, Eq, Structural, Hash)]
pub struct Level(pub u8);

/// The quadrant that holds a coordinate pair: negative coordinates go
/// north/west, the rest south/east.
pub open spec fn quadrant_of(x: int, y: int) -> Quadrant {
    if x < 0 {
        if y < 0 {
            Quadrant::NorthWest
        } else {
            Quadrant::SouthWest
        }
    } else {
        if y < 0 {
            Quadrant::NorthEast
        } else {
            Quadrant::SouthEast
        }
    }
}

/// Whether a coordinate lies inside a level-`l` square centered at the
/// origin: the half-open range `[-2^(l-1), 2^(l-1))`.
pub open spec fn coord_in_level(l: nat, c: int) -> bool {
    -(pow2((l - 1) as nat) as int) <= c < pow2((l - 1) as nat) as int
}

/// Whether a position lies inside a level-`l` square centered at the origin.
pub open spec fn pos_in_level(l: nat, x: int, y: int) -> bool {
    coord_in_level(l, x) && coord_in_level(l, y)
}

/// The distance from a node's center to the center of one of its quadrants:
/// a quarter of the side length, which is zero at levels 0 and 1.
pub open spec fn quarter(l: nat) -> int {
    if l >= 2 {
        pow2((l - 2) as nat) as int
    } else {
        0
    }
}

/// A position inside a level-`l` square is inside every larger square.
pub proof fn lemma_pos_in_level_mono(l: nat, m: nat, x: int, y: int)
    requires
        1 <= l <= m,
        pos_in_level(l, x, y),
    ensures
        pos_in_level(m, x, y),
{
    if l < m {
        vstd::arithmetic::power2::lemma_pow2_strictly_increases((l - 1) as nat, (m - 1) as nat);
    }
}

impl Position {
    pub fn new(x: i64, y: i64) -> (r: Self)
        ensures
            r == (Position { x, y }),
    {
        Self { x, y }
    }

    /// The quadrant of a node centered at the origin that contains this
    /// position.
    pub fn quadrant(self) -> (r: Quadrant)
        ensures
            r == quadrant_of(self.x as int, self.y as int),
    {
        match (self.x < 0, self.y < 0) {
            (true, true) => Quadrant::NorthWest,
            (false, true) => Quadrant::NorthEast,
            (true, false) => Quadrant::SouthWest,
            (false, false) => Quadrant::SouthEast,
        }
    }

    /// This position expressed relative to `other` as the new origin.
    pub fn relative_to(self, other: Self) -> (r: Self)
        requires
            i64::MIN <= self.x - other.x <= i64::MAX,
            i64::MIN <= self.y - other.y <= i64::MAX,
        ensures
            r.x == self.x - other.x,
            r.y == self.y - other.y,
    {
        Self::new(self.x - other.x, self.y - other.y)
    }

    /// This position displaced by `offset`.
    pub fn offset(self, offset: Offset) -> (r: Self)
        requires
            i64::MIN <= self.x + offset.dx <= i64::MAX,
            i64::MIN <= self.y + offset.dy <= i64::MAX,
        ensures
            r.x == self.x + offset.dx,
            r.y == self.y + offset.dy,
    {
        Self::new(self.x + offset.dx, self.y + offset.dy)
    }

    /// Whether this position lies inside the square a level-`level` node
    /// covers when centered at the origin.
    pub fn in_bounds(self, level: Level) -> (r: bool)
        requires
            1 <= level.0 <= 63,
        ensures
            r == pos_in_level(level.0 as nat, self.x as int, self.y as int),
    {
        let min = level.min_coord();
        let max = level.max_coord();
        min <= self.x && self.x <= max && min <= self.y && self.y <= max
    }
}

impl Offset {
    pub fn new(dx: i64, dy: i64) -> (r: Self)
        ensures
            r == (Offset { dx, dy }),
    {
        Self { dx, dy }
    }
}

impl Level {
    /// The side length `2^level` of the square a node at this level covers.
    pub fn side_len(self) -> (r: u64)
        requires
            self.0 <= 63,
        ensures
            r == pow2(self.0 as nat),
    {
        proof {
            lemma_u64_pow2_no_overflow(self.0 as nat);
            lemma_u64_shl_is_mul(1u64, self.0 as u64);
        }
        1u64 << (self.0 as u64)
    }

    /// The center of the given quadrant of a node at this level centered at
    /// the origin: `(+-2^(level-2), +-2^(level-2))`, and the origin itself at
    /// levels 0 and 1.
    pub fn quadrant_center(self, quadrant: Quadrant) -> (r: Position)
        requires
            self.0 <= 63,
        ensures
            r == match quadrant {
                Quadrant::NorthWest => (Position { x: -quarter(self.0 as nat) as i64, y: -quarter(self.0 as nat) as i64 }),
                Quadrant::NorthEast => (Position { x: quarter(self.0 as nat) as i64, y: -quarter(self.0 as nat) as i64 }),
                Quadrant::SouthWest => (Position { x: -quarter(self.0 as nat) as i64, y: quarter(self.0 as nat) as i64 }),
                Quadrant::SouthEast => (Position { x: quarter(self.0 as nat) as i64, y: quarter(self.0 as nat) as i64 }),
            },
    {
        let side = self.side_len();
        let delta = (side / 4) as i64;
        proof {
            lemma2_to64();
            lemma2_to64_rest();
            if self.0 >= 2 {
                lemma_pow2_adds((self.0 - 2) as nat, 2);
                lemma_pow2_pos((self.0 - 2) as nat);
                assert(pow2(self.0 as nat) == pow2((self.0 - 2) as nat) * 4);
                assert(pow2((self.0 - 2) as nat) <= pow2(61)) by {
                    if (self.0 as nat) - 2 < 61 {
                        vstd::arithmetic::power2::lemma_pow2_strictly_increases(
                            (self.0 - 2) as nat, 61);
                    }
                };
            }
            assert(delta == quarter(self.0 as nat));
        }
        match quadrant {
            Quadrant::NorthWest => Position::new(-delta, -delta),
            Quadrant::NorthEast => Position::new(delta, -delta),
            Quadrant::SouthWest => Position::new(-delta, delta),
            Quadrant::SouthEast => Position::new(delta, delta),
        }
    }

    /// The least coordinate covered at this level: `-2^(level-1)`.
    pub fn min_coord(self) -> (r: i64)
        requires
            1 <= self.0 <= 63,
        ensures
            r == -(pow2((self.0 - 1) as nat) as int),
    {
        proof {
            lemma_u64_pow2_no_overflow((self.0 - 1) as nat);
            lemma_u64_shl_is_mul(1u64, (self.0 - 1) as u64);
            lemma2_to64_rest();
            if ((self.0 - 1) as nat) < 62 {
                vstd::arithmetic::power2::lemma_pow2_strictly_increases((self.0 - 1) as nat, 62);
            }
        }
        -((1u64 << ((self.0 - 1) as u64)) as i64)
    }

    /// The greatest coordinate covered at this level: `2^(level-1) - 1`.
    pub fn max_coord(self) -> (r: i64)
        requires
            1 <= self.0 <= 63,
        ensures
            r == pow2((self.0 - 1) as nat) - 1,
    {
        proof {
            lemma_u64_pow2_no_overflow((self.0 - 1) as nat);
            lemma_u64_shl_is_mul(1u64, (self.0 - 1) as u64);
            lemma2_to64_rest();
            if ((self.0 - 1) as nat) < 62 {
                vstd::arithmetic::power2::lemma_pow2_strictly_increases((self.0 - 1) as nat, 62);
            }
        }
        ((1u64 << ((self.0 - 1) as u64)) as i64) - 1
    }

    /// The south-west corner of the covered square.
    pub fn min_pos(self) -> (r: Position)
        requires
            1 <= self.0 <= 63,
        ensures
            r.x == -(pow2((self.0 - 1) as nat) as int),
            r.y == r.x,
    {
        let min = self.min_coord();
        Position::new(min, min)
    }

    /// The north-east corner of the covered square.
    pub fn max_pos(self) -> (r: Position)
        requires
            1 <= self.0 <= 63,
        ensures
            r.x == pow2((self.0 - 1) as nat) - 1,
            r.y == r.x,
    {
        let max = self.max_coord();
        Position::new(max, max)
    }
}

} // verus!
