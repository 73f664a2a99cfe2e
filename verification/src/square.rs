use vstd::prelude::*;

verus! {

/// One cell as the player sees it, and one cell of the hidden solution.
///
/// The visible grid uses all four variants: `Unknown` is a hidden cell,
/// `Mine` a flagged mine, `Blank` a revealed cell with no adjacent mines,
/// and `Adj(n)` a revealed cell with `n` adjacent mines, `1 <= n <= 8`.
/// The solution grid never holds `Unknown`.
#[derive(Clone, Copy, Debug, PartialEq, Eq, Structural)]
pub enum Square {
    Unknown,
    Mine,
    Blank,
    Adj(u8),
}

/// Which board mutation a failed deduction attempted.
#[derive(Clone, Copy, Debug, PartialEq, Eq, Structural)]
pub enum DeduceOp {
    Reveal,
    Flag,
}

/// The only two failure kinds: malformed construction input, and a
/// deduction the solution contradicts (the engine tried to reveal a mine
/// or to flag a safe cell). The second is fatal and aborts the solve.
#[derive(Clone, Copy, Debug, PartialEq, Eq, Structural)]
pub enum SolveError {
    InvalidInput,
    DeductionViolation { row: usize, col: usize, op: DeduceOp },
}

/// A square the solution may hold: a mine, a blank, or a count in 1..=8.
pub open spec fn sol_ok(s: Square) -> bool {
    match s {
        Square::Unknown => false,
        Square::Mine => true,
        Square::Blank => true,
        Square::Adj(n) => 1 <= n <= 8,
    }
}

/// What a valid construction code decodes to: 0 is Blank, 1..=8 an
/// adjacent-mine count, 9 a mine.
pub open spec fn decode(v: u8) -> Square {
    if v == 0 {
        Square::Blank
    } else if v < 9 {
        Square::Adj(v)
    } else {
        Square::Mine
    }
}

impl Square {
    /// Decode one construction code, rejecting anything above 9.
    pub fn from_code(v: u8) -> (r: Result<Square, SolveError>)
        ensures
            v <= 9 ==> r == Ok::<Square, SolveError>(decode(v)),
            v > 9 ==> r == Err::<Square, SolveError>(SolveError::InvalidInput),
            r is Ok ==> sol_ok(r->Ok_0),
    {
        if v == 0 {
            Ok(Square::Blank)
        } else if v < 9 {
            Ok(Square::Adj(v))
        } else if v == 9 {
            Ok(Square::Mine)
        } else {
            Err(SolveError::InvalidInput)
        }
    }
}

} // verus!
