//! The run-length-encoded pattern format: `b` skips dead cells, `o` emits
//! live cells, `$` ends a row, `!` ends the pattern, a decimal count before
//! a tag repeats it, lines opening with `#` or `x` are headers, and
//! whitespace is ignored. Parsing yields the live cells in reading order;
//! the first offending byte is reported with its position.

use vstd::prelude::*;

use crate::coords::{pos_in_level, Level, Position};
use crate::node::Cell;
use crate::universe::{wf_at, Universe};

verus! {

/// Why a pattern was rejected.
#[derive(Debug, Copy, Clone, PartialEq, Eq, Structural)]
pub enum RleError {
    /// A byte that is no tag, digit, header or whitespace.
    BadChar { position: usize, byte: u8 },
    /// A repeat count or a coordinate that exceeds its machine range.
    Overflow { position: usize },
    /// A parsed cell outside the square the engine can address.
    OutOfRange { index: usize },
}

/// The parser state after some prefix of the input: the cells emitted so
/// far, the cursor, the pending repeat count, whether the cursor stands at
/// a line start or inside a header line, and whether the pattern has ended
/// or failed.
pub struct RleState {
    pub cells: Seq<(int, int)>,
    pub x: int,
    pub y: int,
    pub run: int,
    pub line_start: bool,
    pub comment: bool,
    pub done: bool,
    pub error: Option<RleError>,
}

/// The state before any input.
pub open spec fn rle_init() -> RleState {
    RleState {
        cells: Seq::empty(),
        x: 0,
        y: 0,
        run: 0,
        line_start: true,
        comment: false,
        done: false,
        error: None,
    }
}

/// The repeat count a tag consumes: the pending count, defaulting to 1.
pub open spec fn rle_count(st: RleState) -> int {
    if st.run == 0 {
        1
    } else {
        st.run
    }
}

/// `n` live cells emitted eastward from `(x, y)`.
pub open spec fn rle_emit(x: int, y: int, n: int) -> Seq<(int, int)> {
    Seq::new(n as nat, |j: int| (x + j, y))
}

/// One byte of input applied to the parser state.
pub open spec fn rle_step(st: RleState, b: u8, position: usize) -> RleState {
    if st.done || st.error is Some {
        st
    } else if st.comment {
        if b == 10 {
            RleState { comment: false, line_start: true, ..st }
        } else {
            st
        }
    } else if st.line_start && (b == 35 || b == 120) {
        RleState { comment: true, ..st }
    } else if b == 10 {
        RleState { line_start: true, ..st }
    } else {
        let s2 = RleState { line_start: false, ..st };
        if b == 13 || b == 32 || b == 9 {
            s2
        } else if b == 98 {
            let n = rle_count(s2);
            if s2.x > i64::MAX - n {
                RleState { error: Some(RleError::Overflow { position }), ..s2 }
            } else {
                RleState { x: s2.x + n, run: 0, ..s2 }
            }
        } else if b == 111 {
            let n = rle_count(s2);
            if s2.x > i64::MAX - n {
                RleState { error: Some(RleError::Overflow { position }), ..s2 }
            } else {
                RleState {
                    cells: s2.cells + rle_emit(s2.x, s2.y, n),
                    x: s2.x + n,
                    run: 0,
                    ..s2
                }
            }
        } else if b == 36 {
            let n = rle_count(s2);
            if s2.y > i64::MAX - n {
                RleState { error: Some(RleError::Overflow { position }), ..s2 }
            } else {
                RleState { y: s2.y + n, x: 0, run: 0, ..s2 }
            }
        } else if b == 33 {
            RleState { done: true, ..s2 }
        } else if 48 <= b <= 57 {
            let d = (b - 48) as int;
            if s2.run > (u32::MAX - d) / 10 {
                RleState { error: Some(RleError::Overflow { position }), ..s2 }
            } else {
                RleState { run: s2.run * 10 + d, ..s2 }
            }
        } else {
            RleState { error: Some(RleError::BadChar { position, byte: b }), ..s2 }
        }
    }
}

/// The parser state after the first `n` bytes of `s`.
pub open spec fn rle_exec(s: Seq<u8>, n: int) -> RleState
    decreases n,
{
    if n <= 0 {
        rle_init()
    } else {
        rle_step(rle_exec(s, n - 1), s[n - 1], (n - 1) as usize)
    }
}

/// The live cells of a whole pattern, in reading order.
pub open spec fn rle_cells(s: Seq<u8>) -> Seq<(int, int)> {
    rle_exec(s, s.len() as int).cells
}

/// The error a whole pattern produces, if any.
pub open spec fn rle_error(s: Seq<u8>) -> Option<RleError> {
    rle_exec(s, s.len() as int).error
}

/// Once ended or failed, the parser state never changes again.
pub proof fn lemma_rle_stuck(s: Seq<u8>, i: int, n: int)
    requires
        0 <= i <= n,
        rle_exec(s, i).done || rle_exec(s, i).error is Some,
    ensures
        rle_exec(s, n) == rle_exec(s, i),
    decreases n - i,
{
    if i < n {
        lemma_rle_stuck(s, i, n - 1);
    }
}

/// The parser itself never reports a range fault: that check is the
/// loader's.
pub proof fn lemma_rle_no_oob(s: Seq<u8>, n: int)
    ensures
        rle_exec(s, n).error matches Some(e) ==> !(e is OutOfRange),
    decreases n,
{
    if n > 0 {
        lemma_rle_no_oob(s, n - 1);
    }
}

/// Parse a pattern: the live cells it emits before its end or its first
/// fault, and the fault itself if there is one.
#[verifier::loop_isolation(false)]
pub fn parse_rle(pattern: &Vec<u8>) -> (r: (Vec<Position>, Option<RleError>))
    ensures
        r.1 == rle_error(pattern@),
        r.0@.len() == rle_cells(pattern@).len(),
        forall|j: int|
            0 <= j < r.0@.len() ==> ((#[trigger] r.0@[j]).x as int, r.0@[j].y as int)
                == rle_cells(pattern@)[j],
{
    let ghost s = pattern@;
    let mut cells: Vec<Position> = Vec::new();
    let mut x: i64 = 0;
    let mut y: i64 = 0;
    let mut run: u32 = 0;
    let mut line_start: bool = true;
    let mut comment: bool = false;
    let mut i: usize = 0;
    while i < pattern.len()
        invariant
            i <= pattern.len(),
            !rle_exec(s, i as int).done,
            rle_exec(s, i as int).error is None,
            x == rle_exec(s, i as int).x,
            y == rle_exec(s, i as int).y,
            run == rle_exec(s, i as int).run,
            line_start == rle_exec(s, i as int).line_start,
            comment == rle_exec(s, i as int).comment,
            cells@.len() == rle_exec(s, i as int).cells.len(),
            forall|j: int|
                0 <= j < cells@.len() ==> ((#[trigger] cells@[j]).x as int, cells@[j].y as int)
                    == rle_exec(s, i as int).cells[j],
        decreases pattern.len() - i,
    {
        let ghost st = rle_exec(s, i as int);
        let b = pattern[i];
        proof {
            assert(rle_exec(s, i + 1) == rle_step(st, b, i));
        }
        if comment {
            if b == 10 {
                comment = false;
                line_start = true;
            }
            i += 1;
            continue;
        }
        if line_start && (b == 35 || b == 120) {
            comment = true;
            i += 1;
            continue;
        }
        if b == 10 {
            line_start = true;
            i += 1;
            continue;
        }
        line_start = false;
        if b == 13 || b == 32 || b == 9 {
            i += 1;
            continue;
        }
        if b == 98 {
            let n = if run == 0 {
                1
            } else {
                run
            };
            if x > i64::MAX - n as i64 {
                proof {
                    lemma_rle_stuck(s, i + 1, s.len() as int);
                }
                return (cells, Some(RleError::Overflow { position: i }));
            }
            x += n as i64;
            run = 0;
        } else if b == 111 {
            let n = if run == 0 {
                1
            } else {
                run
            };
            if x > i64::MAX - n as i64 {
                proof {
                    lemma_rle_stuck(s, i + 1, s.len() as int);
                }
                return (cells, Some(RleError::Overflow { position: i }));
            }
            let ghost x0 = x as int;
            let ghost base = cells@;
            let mut j: u32 = 0;
            while j < n
                invariant
                    j <= n,
                    x == x0 + j,
                    x0 + n <= i64::MAX,
                    cells@.len() == base.len() + j,
                    forall|q: int| 0 <= q < base.len() ==> #[trigger] cells@[q] == base[q],
                    forall|q: int|
                        base.len() <= q < cells@.len() ==> ((#[trigger] cells@[q]).x as int,
                        cells@[q].y as int) == (x0 + (q - base.len()), y as int),
                decreases n - j,
            {
                cells.push(Position::new(x, y));
                x += 1;
                j += 1;
            }
            proof {
                assert(rle_step(st, b, i).cells =~= cells@.map_values(
                    |p: Position| (p.x as int, p.y as int),
                )) by {
                    assert forall|q: int| 0 <= q < cells@.len() implies (cells@[q].x as int,
                    cells@[q].y as int) == rle_step(st, b, i).cells[q] by {
                        if q < base.len() {
                        } else {
                            assert(rle_step(st, b, i).cells[q] == rle_emit(x0, y as int, n as int)[
                                q - base.len()]);
                        }
                    };
                };
            }
            run = 0;
        } else if b == 36 {
            let n = if run == 0 {
                1
            } else {
                run
            };
            if y > i64::MAX - n as i64 {
                proof {
                    lemma_rle_stuck(s, i + 1, s.len() as int);
                }
                return (cells, Some(RleError::Overflow { position: i }));
            }
            y += n as i64;
            x = 0;
            run = 0;
        } else if b == 33 {
            proof {
                lemma_rle_stuck(s, i + 1, s.len() as int);
            }
            return (cells, None);
        } else if 48 <= b && b <= 57 {
            let d = (b - 48) as u32;
            if run > (u32::MAX - d) / 10 {
                proof {
                    lemma_rle_stuck(s, i + 1, s.len() as int);
                }
                return (cells, Some(RleError::Overflow { position: i }));
            }
            run = run * 10 + d;
        } else {
            proof {
                lemma_rle_stuck(s, i + 1, s.len() as int);
            }
            return (cells, Some(RleError::BadChar { position: i, byte: b }));
        }
        i += 1;
    }
    (cells, None)
}

impl Universe {
    /// Load a pattern: every cell the pattern emits before its end or its
    /// first fault is set alive, in reading order, and the fault, if any,
    /// is returned. A pattern with a cell outside the addressable level-63
    /// square — and only such a pattern — is rejected whole, the universe
    /// untouched, naming the first such cell.
    #[verifier::loop_isolation(false)]
    pub fn read_rls(&mut self, pattern: &Vec<u8>) -> (r: Result<(), RleError>)
        requires
            old(self).wf(),
            old(self).root_id() is Some,
        ensures
            final(self).wf(),
            final(self).root_id() is Some,
            final(self).gen_count() == old(self).gen_count(),
            r matches Result::Err(e) && e is OutOfRange ==> *final(self) == *old(self),
            (r matches Result::Err(e) && e is OutOfRange) <==> (exists|j: int|
                0 <= j < rle_cells(pattern@).len() && !pos_in_level(
                    63,
                    (#[trigger] rle_cells(pattern@)[j]).0,
                    rle_cells(pattern@)[j].1,
                )),
            r matches Result::Err(RleError::OutOfRange { index }) ==> index
                < rle_cells(pattern@).len() && !pos_in_level(
                63,
                rle_cells(pattern@)[index as int].0,
                rle_cells(pattern@)[index as int].1,
            ) && (forall|j: int|
                0 <= j < index ==> pos_in_level(
                    63,
                    (#[trigger] rle_cells(pattern@)[j]).0,
                    rle_cells(pattern@)[j].1,
                )),
            !(r matches Result::Err(e) && e is OutOfRange) ==> {
                &&& old(self).root_level() <= final(self).root_level() <= 63
                &&& forall|j: int|
                    0 <= j < rle_cells(pattern@).len() ==> pos_in_level(
                        final(self).root_level(),
                        (#[trigger] rle_cells(pattern@)[j]).0,
                        rle_cells(pattern@)[j].1,
                    ) && final(self).grid(rle_cells(pattern@)[j].0, rle_cells(pattern@)[j].1)
                &&& forall|a: int, b: int|
                    pos_in_level(final(self).root_level(), a, b)
                        ==> ((#[trigger] final(self).grid(a, b)) <==> ((pos_in_level(
                        old(self).root_level(),
                        a,
                        b,
                    ) && old(self).grid(a, b)) || rle_cells(pattern@).contains((a, b))))
                &&& (r matches Result::Err(e2) ==> rle_error(pattern@) == Some(e2))
                &&& (r is Ok ==> rle_error(pattern@) is None)
            },
    {
        let parsed = parse_rle(pattern);
        let cells = parsed.0;
        let err = parsed.1;
        let lvl63 = Level(63);
        let mut i: usize = 0;
        while i < cells.len()
            invariant
                i <= cells.len(),
                forall|j: int|
                    0 <= j < i ==> pos_in_level(
                        63,
                        (#[trigger] cells@[j]).x as int,
                        cells@[j].y as int,
                    ),
            decreases cells.len() - i,
        {
            let p = cells[i];
            if !p.in_bounds(lvl63) {
                proof {
                    let cs0 = rle_cells(pattern@);
                    assert(((cells@[i as int]).x as int, cells@[i as int].y as int) == cs0[i as int]);
                    assert(!pos_in_level(63, cs0[i as int].0, cs0[i as int].1));
                    assert forall|j: int| 0 <= j < i implies pos_in_level(
                        63,
                        (#[trigger] cs0[j]).0,
                        cs0[j].1,
                    ) by {
                        assert(((cells@[j]).x as int, cells@[j].y as int) == cs0[j]);
                    };
                }
                return Err(RleError::OutOfRange { index: i });
            }
            i += 1;
        }
        let ghost cs = rle_cells(pattern@);
        proof {
            assert(wf_at(self.table_view(), (self.root_id()->0).0 as int));
            crate::universe::lemma_abs_props(
                self.table_view(),
                (self.root_id()->0).0 as int,
            );
        }
        let mut k: usize = 0;
        while k < cells.len()
            invariant
                k <= cells.len(),
                self.wf(),
                self.root_id() is Some,
                self.gen_count() == old(self).gen_count(),
                old(self).root_level() <= self.root_level() <= 63,
                forall|j: int|
                    0 <= j < cells@.len() ==> pos_in_level(
                        63,
                        (#[trigger] cells@[j]).x as int,
                        cells@[j].y as int,
                    ),
                forall|j: int|
                    0 <= j < k ==> pos_in_level(
                        self.root_level(),
                        (#[trigger] cells@[j]).x as int,
                        cells@[j].y as int,
                    ) && self.grid(cells@[j].x as int, cells@[j].y as int),
                forall|a: int, b: int|
                    pos_in_level(self.root_level(), a, b) ==> ((#[trigger] self.grid(a, b)) <==> ((
                    pos_in_level(old(self).root_level(), a, b) && old(self).grid(a, b)) || exists|j: int|
                        0 <= j < k && ((#[trigger] cells@[j]).x as int, cells@[j].y as int) == (
                        a,
                        b,
                    ))),
            decreases cells.len() - k,
        {
            let p = cells[k];
            let ghost prev = *self;
            self.set_cell(p, Cell::Alive);
            proof {
                assert forall|j: int|
                    0 <= j < k + 1 implies pos_in_level(
                    self.root_level(),
                    (#[trigger] cells@[j]).x as int,
                    cells@[j].y as int,
                ) && self.grid(cells@[j].x as int, cells@[j].y as int) by {
                    let a = cells@[j].x as int;
                    let b = cells@[j].y as int;
                    if j < k {
                        crate::coords::lemma_pos_in_level_mono(
                            prev.root_level(),
                            self.root_level(),
                            a,
                            b,
                        );
                        let pg = prev.grid(a, b);
                    }
                };
                assert forall|a: int, b: int|
                    pos_in_level(self.root_level(), a, b) implies ((#[trigger] self.grid(a, b))
                    <==> ((pos_in_level(old(self).root_level(), a, b) && old(self).grid(a, b))
                    || exists|j: int|
                        0 <= j < k + 1 && ((#[trigger] cells@[j]).x as int, cells@[j].y as int)
                            == (a, b))) by {
                    let pg = prev.grid(a, b);
                    let pl = pos_in_level(prev.root_level(), a, b);
                    if pos_in_level(old(self).root_level(), a, b) {
                        crate::coords::lemma_pos_in_level_mono(
                            old(self).root_level(),
                            prev.root_level(),
                            a,
                            b,
                        );
                    }
                    if self.grid(a, b) {
                        if !(a == p.x as int && b == p.y as int) {
                            assert(pl && pg);
                        } else {
                            assert(((#[trigger] cells@[k as int]).x as int,
                            cells@[k as int].y as int) == (a, b));
                        }
                    } else {
                        assert(!(exists|j: int|
                            0 <= j < k + 1 && ((#[trigger] cells@[j]).x as int,
                            cells@[j].y as int) == (a, b))) by {
                            if exists|j: int|
                                0 <= j < k + 1 && ((#[trigger] cells@[j]).x as int,
                                cells@[j].y as int) == (a, b) {
                                let j = choose|j: int|
                                    0 <= j < k + 1 && ((#[trigger] cells@[j]).x as int,
                                    cells@[j].y as int) == (a, b);
                                if j < k {
                                    crate::coords::lemma_pos_in_level_mono(
                                        prev.root_level(),
                                        self.root_level(),
                                        a,
                                        b,
                                    );
                                }
                            }
                        };
                    }
                };
            }
            k += 1;
        }
        proof {
            lemma_rle_no_oob(pattern@, pattern@.len() as int);
            assert forall|j: int| 0 <= j < cs.len() implies pos_in_level(
                63,
                (#[trigger] cs[j]).0,
                cs[j].1,
            ) by {
                assert(((cells@[j]).x as int, cells@[j].y as int) == cs[j]);
            };
            assert forall|j: int|
                0 <= j < cs.len() implies pos_in_level(
                self.root_level(),
                (#[trigger] cs[j]).0,
                cs[j].1,
            ) && self.grid(cs[j].0, cs[j].1) by {
                assert(((#[trigger] cells@[j]).x as int, cells@[j].y as int) == cs[j]);
            };
            assert forall|a: int, b: int|
                pos_in_level(self.root_level(), a, b) implies ((#[trigger] self.grid(a, b)) <==> ((
            pos_in_level(old(self).root_level(), a, b) && old(self).grid(a, b)) || cs.contains(
                (a, b),
            ))) by {
                if exists|j: int|
                    0 <= j < cells@.len() && ((#[trigger] cells@[j]).x as int,
                    cells@[j].y as int) == (a, b) {
                    let j = choose|j: int|
                        0 <= j < cells@.len() && ((#[trigger] cells@[j]).x as int,
                        cells@[j].y as int) == (a, b);
                    assert(cs[j] == (a, b));
                    assert(cs.contains((a, b)));
                }
                if cs.contains((a, b)) {
                    let j = choose|j: int| 0 <= j < cs.len() && #[trigger] cs[j] == (a, b);
                    assert(((cells@[j]).x as int, cells@[j].y as int) == (a, b));
                    assert(exists|jj: int|
                        0 <= jj < cells@.len() && ((#[trigger] cells@[jj]).x as int,
                        cells@[jj].y as int) == (a, b));
                }
            };
        }
        match err {
            Some(e) => Err(e),
            None => Ok(()),
        }
    }
}

} // verus!
