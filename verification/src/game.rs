use vstd::prelude::*;

use crate::square::{decode, sol_ok, SolveError, Square};

verus! {

/// Cell `(r, c)` of a row-major grid with `cols` columns.
pub open spec fn cell(g: Seq<Square>, cols: int, r: int, c: int) -> Square {
    g[r * cols + c]
}

/// Coordinate `p` names a mine of the solution.
pub open spec fn mine_at(sol: Seq<Square>, rows: int, cols: int, p: (usize, usize)) -> bool {
    p.0 < rows && p.1 < cols && cell(sol, cols, p.0 as int, p.1 as int) == Square::Mine
}

/// `(r1, c1)` lies in the square ring of Chebyshev radius `rad` around
/// `(r2, c2)`: distinct cells whose row and column each differ by at most
/// `rad`.
pub open spec fn near(r1: int, c1: int, r2: int, c2: int, rad: int) -> bool {
    &&& !(r1 == r2 && c1 == c2)
    &&& -rad <= r1 - r2 <= rad
    &&& -rad <= c1 - c2 <= rad
}

/// How many of the cells in `s` are mines of the solution.
pub open spec fn mines_in(sol: Seq<Square>, rows: int, cols: int, s: Set<(usize, usize)>) -> nat {
    s.filter(|p: (usize, usize)| mine_at(sol, rows, cols, p)).len()
}

/// The 8-connected ring at distance 1 around `(r, c)`, clipped to the grid.
pub open spec fn ring1(rows: int, cols: int, r: int, c: int) -> Set<(usize, usize)> {
    Set::new(|p: (usize, usize)| p.0 < rows && p.1 < cols && near(p.0 as int, p.1 as int, r, c, 1))
}

/// The number a non-mine solution cell announces: its adjacent-mine count.
pub open spec fn adj_num(s: Square) -> int {
    match s {
        Square::Blank => 0,
        Square::Adj(n) => n as int,
        _ => 0,
    }
}

/// The solution is a true Minesweeper board: every non-mine cell's value
/// equals the number of mines among its up-to-8 neighbors.
pub open spec fn consistent(sol: Seq<Square>, rows: int, cols: int) -> bool {
    forall|r: int, c: int|
        0 <= r < rows && 0 <= c < cols && #[trigger] cell(sol, cols, r, c) != Square::Mine
            ==> mines_in(sol, rows, cols, ring1(rows, cols, r, c)) == adj_num(cell(sol, cols, r, c))
}

/// Coordinate `p` is a still-hidden cell of the visible grid.
pub open spec fn vis_unknown_at(g: Game, p: (usize, usize)) -> bool {
    p.0 < g.rows && p.1 < g.cols && g.vis_at(p.0 as int, p.1 as int) == Square::Unknown
}

/// Coordinate `p` is a flagged cell of the visible grid.
pub open spec fn vis_mine_at(g: Game, p: (usize, usize)) -> bool {
    p.0 < g.rows && p.1 < g.cols && g.vis_at(p.0 as int, p.1 as int) == Square::Mine
}

/// How many neighbors of `(r, c)` are still hidden.
pub open spec fn hidden_ring_count(g: Game, r: int, c: int) -> nat {
    ring1(g.rows as int, g.cols as int, r, c).filter(|p: (usize, usize)| vis_unknown_at(g, p)).len()
}

/// How many neighbors of `(r, c)` are flagged.
pub open spec fn flagged_ring_count(g: Game, r: int, c: int) -> nat {
    ring1(g.rows as int, g.cols as int, r, c).filter(|p: (usize, usize)| vis_mine_at(g, p)).len()
}

/// No trivial rule applies at `(r, c)`: if the cell shows a number, either
/// no neighbor is hidden, or the mines still to find among the hidden
/// neighbors are strictly between none and all of them.
pub open spec fn cell_settled(g: Game, r: int, c: int) -> bool {
    match g.vis_at(r, c) {
        Square::Adj(n) => hidden_ring_count(g, r, c) == 0 || (0 < n - flagged_ring_count(g, r, c)
            && n - flagged_ring_count(g, r, c) < hidden_ring_count(g, r, c)),
        _ => true,
    }
}

/// The deduction fixed point, at the board level: no revealed numbered
/// cell anywhere still admits a forced all-safe or all-mines move.
pub open spec fn board_settled(g: Game) -> bool {
    forall|r: int, c: int| 0 <= r < g.rows && 0 <= c < g.cols ==> #[trigger] cell_settled(g, r, c)
}

/// How many cells of a visible grid are still hidden.
pub open spec fn count_unknown(g: Seq<Square>) -> nat
    decreases g.len(),
{
    if g.len() == 0 {
        0
    } else {
        count_unknown(g.drop_last()) + (if g.last() == Square::Unknown {
            1nat
        } else {
            0nat
        })
    }
}

pub proof fn lemma_count_unknown_update(g: Seq<Square>, k: int, v: Square)
    requires
        0 <= k < g.len(),
    ensures
        count_unknown(g.update(k, v)) == count_unknown(g) - (if g[k] == Square::Unknown {
            1int
        } else {
            0int
        }) + (if v == Square::Unknown {
            1int
        } else {
            0int
        }),
    decreases g.len(),
{
    let u = g.update(k, v);
    if k == g.len() - 1 {
        assert(u.drop_last() =~= g.drop_last());
        assert(u.last() == v);
    } else {
        assert(u.drop_last() =~= g.drop_last().update(k, v));
        assert(u.last() == g.last());
        lemma_count_unknown_update(g.drop_last(), k, v);
    }
}

/// Row and column indices address distinct positions of the flat grid.
pub proof fn lemma_index(rows: int, cols: int, r: int, c: int)
    by (nonlinear_arith)
    requires
        0 <= r < rows,
        0 <= c < cols,
    ensures
        0 <= r * cols + c,
        r * cols + c < rows * cols,
{
}

pub proof fn lemma_index_inj(cols: int, r1: int, c1: int, r2: int, c2: int)
    by (nonlinear_arith)
    requires
        0 <= c1 < cols,
        0 <= c2 < cols,
        0 <= r1,
        0 <= r2,
        r1 * cols + c1 == r2 * cols + c2,
    ensures
        r1 == r2,
        c1 == c2,
{
}

/// The board: ground-truth solution plus the player-visible grid, stored
/// row-major. Only `click` and `mark_mine` ever change visibility, and a
/// cell only moves from `Unknown` toward its revealed or flagged state.
pub struct Game {
    pub rows: usize,
    pub cols: usize,
    pub visible: Vec<Square>,
    pub solution: Vec<Square>,
}

impl Game {
    pub open spec fn in_bounds(self, r: int, c: int) -> bool {
        0 <= r < self.rows && 0 <= c < self.cols
    }

    pub open spec fn vis_at(self, r: int, c: int) -> Square {
        cell(self.visible@, self.cols as int, r, c)
    }

    pub open spec fn sol_at(self, r: int, c: int) -> Square {
        cell(self.solution@, self.cols as int, r, c)
    }

    pub open spec fn wf(self) -> bool {
        &&& 1 <= self.rows
        &&& 1 <= self.cols
        &&& self.visible@.len() == self.rows * self.cols
        &&& self.solution@.len() == self.rows * self.cols
        &&& forall|r: int, c: int| self.in_bounds(r, c) ==> sol_ok(#[trigger] self.sol_at(r, c))
    }

    /// Every revealed or flagged cell shows exactly what the solution holds.
    pub open spec fn faithful(self) -> bool {
        forall|r: int, c: int|
            self.in_bounds(r, c) && #[trigger] self.vis_at(r, c) != Square::Unknown
                ==> self.vis_at(r, c) == self.sol_at(r, c)
    }

    /// Flood reveal has run to completion: no revealed zero-count cell still
    /// has a hidden neighbor.
    pub open spec fn flood_closed(self) -> bool {
        forall|r: int, c: int, i: int, j: int|
            self.in_bounds(r, c) && self.in_bounds(i, j) && #[trigger] self.vis_at(r, c)
                == Square::Blank && near(i, j, r, c, 1) ==> #[trigger] self.vis_at(i, j)
                != Square::Unknown
    }

    pub open spec fn inv(self) -> bool {
        self.wf() && self.faithful() && self.flood_closed()
    }

    pub open spec fn sol_consistent(self) -> bool {
        consistent(self.solution@, self.rows as int, self.cols as int)
    }

    fn idx(&self, r: usize, c: usize) -> (k: usize)
        requires
            self.wf(),
            r < self.rows,
            c < self.cols,
        ensures
            k == r * self.cols + c,
            k < self.visible@.len(),
            k < self.solution@.len(),
    {
        proof {
            lemma_index(self.rows as int, self.cols as int, r as int, c as int);
        }
        let n = self.visible.len();
        r * self.cols + c
    }

    /// What the player currently sees at `(r, c)`.
    pub fn visible(&self, r: usize, c: usize) -> (s: Square)
        requires
            self.wf(),
            r < self.rows,
            c < self.cols,
        ensures
            s == self.vis_at(r as int, c as int),
    {
        let k = self.idx(r, c);
        self.visible[k]
    }

    fn sol(&self, r: usize, c: usize) -> (s: Square)
        requires
            self.wf(),
            r < self.rows,
            c < self.cols,
        ensures
            s == self.sol_at(r as int, c as int),
    {
        let k = self.idx(r, c);
        self.solution[k]
    }

    fn set_vis(&mut self, r: usize, c: usize, v: Square)
        requires
            old(self).wf(),
            r < old(self).rows,
            c < old(self).cols,
        ensures
            final(self).wf(),
            final(self).rows == old(self).rows,
            final(self).cols == old(self).cols,
            final(self).solution@ == old(self).solution@,
            final(self).visible@ == old(self).visible@.update(
                r as int * old(self).cols as int + c as int,
                v,
            ),
            final(self).vis_at(r as int, c as int) == v,
            forall|i: int, j: int|
                old(self).in_bounds(i, j) && !(i == r as int && j == c as int)
                    ==> final(self).vis_at(i, j) == old(self).vis_at(i, j),
    {
        let k = self.idx(r, c);
        self.visible.set(k, v);
        proof {
            assert forall|i: int, j: int| self.in_bounds(i, j) implies sol_ok(
                #[trigger] self.sol_at(i, j),
            ) by {
                assert(self.sol_at(i, j) == old(self).sol_at(i, j));
                assert(sol_ok(old(self).sol_at(i, j)));
            }
            assert forall|i: int, j: int|
                old(self).in_bounds(i, j) && !(i == r as int && j == c as int)
                    implies self.vis_at(i, j) == old(self).vis_at(i, j) by {
                lemma_index(self.rows as int, self.cols as int, i, j);
                if i * self.cols as int + j == k as int {
                    lemma_index_inj(self.cols as int, i, j, r as int, c as int);
                }
            }
        }
    }

    /// Reveal `(nr, nc)` from the solution if it is still hidden, and queue
    /// it for neighbor expansion when it turns out blank.
    fn flood_step(&mut self, stack: &mut Vec<(usize, usize)>, nr: usize, nc: usize)
        requires
            old(self).wf(),
            old(self).faithful(),
            nr < old(self).rows,
            nc < old(self).cols,
        ensures
            final(self).wf(),
            final(self).faithful(),
            final(self).rows == old(self).rows,
            final(self).cols == old(self).cols,
            final(self).solution@ == old(self).solution@,
            final(self).vis_at(nr as int, nc as int) != Square::Unknown,
            old(self).vis_at(nr as int, nc as int) != Square::Unknown ==> *final(self) == *old(self)
                && *final(stack) == *old(stack),
            old(self).vis_at(nr as int, nc as int) == Square::Unknown ==> {
                &&& final(self).vis_at(nr as int, nc as int) == old(self).sol_at(
                    nr as int,
                    nc as int,
                )
                &&& count_unknown(final(self).visible@) < count_unknown(old(self).visible@)
                &&& (old(self).sol_at(nr as int, nc as int) == Square::Blank ==> final(stack)@
                    == old(stack)@.push((nr, nc)))
                &&& (old(self).sol_at(nr as int, nc as int) != Square::Blank ==> *final(stack)
                    == *old(stack))
            },
            forall|i: int, j: int|
                old(self).in_bounds(i, j) && !(i == nr as int && j == nc as int)
                    ==> final(self).vis_at(i, j) == #[trigger] old(self).vis_at(i, j),
            count_unknown(final(self).visible@) <= count_unknown(old(self).visible@),
            forall|k: int|
                0 <= k < old(stack)@.len() ==> final(stack)@[k] == #[trigger] old(stack)@[k],
            final(stack)@.len() >= old(stack)@.len(),
            forall|q: (usize, usize)| #[trigger]
                old(stack)@.contains(q) ==> final(stack)@.contains(q),
            old(self).vis_at(nr as int, nc as int) == Square::Unknown && old(self).sol_at(
                nr as int,
                nc as int,
            ) == Square::Blank ==> final(stack)@.contains((nr, nc)),
    {
        let v = self.visible(nr, nc);
        if v == Square::Unknown {
            let s = self.sol(nr, nc);
            self.set_vis(nr, nc, s);
            proof {
                lemma_index(self.rows as int, self.cols as int, nr as int, nc as int);
                lemma_count_unknown_update(
                    old(self).visible@,
                    nr as int * self.cols as int + nc as int,
                    s,
                );
                assert(sol_ok(s));
                assert forall|i: int, j: int|
                    self.in_bounds(i, j) && #[trigger] self.vis_at(i, j)
                        != Square::Unknown implies self.vis_at(i, j) == self.sol_at(i, j) by {
                    if !(i == nr as int && j == nc as int) {
                        assert(self.vis_at(i, j) == old(self).vis_at(i, j));
                    }
                }
            }
            if s == Square::Blank {
                let ghost pre = stack@;
                stack.push((nr, nc));
                proof {
                    assert(stack@[pre.len() as int] == (nr, nc));
                    assert forall|q: (usize, usize)| #[trigger]
                        pre.contains(q) implies stack@.contains(q) by {
                        let k = choose|k: int| 0 <= k < pre.len() && pre[k] == q;
                        assert(stack@[k] == q);
                    }
                }
            }
        }
    }

    /// Reveal every still-hidden neighbor of the blank cell `(cr, cc)`,
    /// queueing newly revealed blanks.
    #[verifier::rlimit(100)]
    fn flood_cell(&mut self, stack: &mut Vec<(usize, usize)>, cr: usize, cc: usize)
        requires
            old(self).wf(),
            old(self).faithful(),
            cr < old(self).rows,
            cc < old(self).cols,
        ensures
            final(self).wf(),
            final(self).faithful(),
            final(self).rows == old(self).rows,
            final(self).cols == old(self).cols,
            final(self).solution@ == old(self).solution@,
            // every in-bounds neighbor of (cr, cc) is now revealed or flagged
            forall|i: int, j: int|
                final(self).in_bounds(i, j) && near(i, j, cr as int, cc as int, 1)
                    ==> #[trigger] final(self).vis_at(i, j) != Square::Unknown,
            // monotone: nothing revealed is taken back
            forall|i: int, j: int|
                old(self).in_bounds(i, j) && #[trigger] old(self).vis_at(i, j) != Square::Unknown
                    ==> final(self).vis_at(i, j) == old(self).vis_at(i, j),
            // any change reveals a hidden cell as its solution value
            forall|i: int, j: int|
                old(self).in_bounds(i, j) && final(self).vis_at(i, j) != #[trigger] old(self).vis_at(i, j) ==> old(self).vis_at(i, j) == Square::Unknown && final(self).vis_at(i, j) == old(self).sol_at(i, j),
            // only neighbors of (cr, cc) are touched
            forall|i: int, j: int|
                old(self).in_bounds(i, j) && final(self).vis_at(i, j) != #[trigger] old(self).vis_at(i, j) ==> near(i, j, cr as int, cc as int, 1),
            // the stack grows by pushes only
            forall|k: int|
                0 <= k < old(stack)@.len() ==> final(stack)@[k] == #[trigger] old(stack)@[k],
            final(stack)@.len() >= old(stack)@.len(),
            // each newly revealed blank cell is queued
            forall|i: int, j: int|
                old(self).in_bounds(i, j) && final(self).vis_at(i, j) != #[trigger] old(self).vis_at(i, j) && final(self).vis_at(i, j) == Square::Blank ==> final(stack)@.contains((i as usize, j as usize)),
            // queued cells are in-bounds revealed blanks
            forall|k: int|
                old(stack)@.len() <= k < final(stack)@.len() ==> (#[trigger] final(stack)@[k]).0
                    < old(self).rows && final(stack)@[k].1 < old(self).cols && final(self).vis_at(
                    final(stack)@[k].0 as int,
                    final(stack)@[k].1 as int,
                ) == Square::Blank && old(self).vis_at(
                    final(stack)@[k].0 as int,
                    final(stack)@[k].1 as int,
                ) == Square::Unknown,
            forall|q: (usize, usize)| #[trigger]
                old(stack)@.contains(q) ==> final(stack)@.contains(q),
            count_unknown(final(self).visible@) <= count_unknown(old(self).visible@),
            final(stack)@.len() > old(stack)@.len() ==> count_unknown(final(self).visible@)
                < count_unknown(old(self).visible@),
    {
        let rows = self.rows;
        if cr > 0 {
            self.flood_row(stack, cr - 1, cc, true);
        }
        let ghost self1 = *self;
        let ghost st1 = stack@;
        self.flood_row(stack, cr, cc, false);
        let ghost self2 = *self;
        let ghost st2 = stack@;
        if cr + 1 < rows {
            self.flood_row(stack, cr + 1, cc, true);
        }
        proof {
            assert forall|i: int, j: int|
                self.in_bounds(i, j) && near(i, j, cr as int, cc as int, 1) implies #[trigger] self.vis_at(
                i,
                j,
            ) != Square::Unknown by {
                if i == cr - 1 {
                    assert(self1.vis_at(i, j) != Square::Unknown);
                    assert(self2.vis_at(i, j) == self1.vis_at(i, j));
                    assert(self.vis_at(i, j) == self2.vis_at(i, j));
                } else if i == cr as int {
                    assert(self2.vis_at(i, j) != Square::Unknown);
                    assert(self.vis_at(i, j) == self2.vis_at(i, j));
                } else {
                    assert(i == cr + 1);
                    assert(self.vis_at(i, j) != Square::Unknown);
                }
            }
            assert forall|k: int|
                old(stack)@.len() <= k < stack@.len() implies (#[trigger] stack@[k]).0 < old(
                self,
            ).rows && stack@[k].1 < old(self).cols && self.vis_at(
                stack@[k].0 as int,
                stack@[k].1 as int,
            ) == Square::Blank && old(self).vis_at(stack@[k].0 as int, stack@[k].1 as int)
                == Square::Unknown by {
                if k < st1.len() {
                    assert(st2[k] == st1[k]);
                    assert(stack@[k] == st2[k]);
                    assert(old(self).vis_at(st1[k].0 as int, st1[k].1 as int) == Square::Unknown);
                    assert(self1.vis_at(st1[k].0 as int, st1[k].1 as int) == Square::Blank);
                    assert(self2.vis_at(st1[k].0 as int, st1[k].1 as int) == self1.vis_at(
                        st1[k].0 as int,
                        st1[k].1 as int,
                    ));
                    assert(self.vis_at(st1[k].0 as int, st1[k].1 as int) == self2.vis_at(
                        st1[k].0 as int,
                        st1[k].1 as int,
                    ));
                } else if k < st2.len() {
                    assert(stack@[k] == st2[k]);
                    assert(self1.vis_at(st2[k].0 as int, st2[k].1 as int) == Square::Unknown);
                    assert(old(self).vis_at(st2[k].0 as int, st2[k].1 as int) == Square::Unknown)
                        by {
                        if old(self).vis_at(st2[k].0 as int, st2[k].1 as int) != Square::Unknown {
                            assert(self1.vis_at(st2[k].0 as int, st2[k].1 as int) == old(
                                self,
                            ).vis_at(st2[k].0 as int, st2[k].1 as int));
                        }
                    }
                    assert(self2.vis_at(st2[k].0 as int, st2[k].1 as int) == Square::Blank);
                    assert(self.vis_at(st2[k].0 as int, st2[k].1 as int) == self2.vis_at(
                        st2[k].0 as int,
                        st2[k].1 as int,
                    ));
                } else {
                    assert(self2.vis_at(stack@[k].0 as int, stack@[k].1 as int)
                        == Square::Unknown);
                    assert(old(self).vis_at(stack@[k].0 as int, stack@[k].1 as int)
                        == Square::Unknown) by {
                        if old(self).vis_at(stack@[k].0 as int, stack@[k].1 as int)
                            != Square::Unknown {
                            assert(self1.vis_at(stack@[k].0 as int, stack@[k].1 as int) == old(
                                self,
                            ).vis_at(stack@[k].0 as int, stack@[k].1 as int));
                            assert(self2.vis_at(stack@[k].0 as int, stack@[k].1 as int)
                                == self1.vis_at(stack@[k].0 as int, stack@[k].1 as int));
                        }
                    }
                    assert(self.vis_at(stack@[k].0 as int, stack@[k].1 as int) == Square::Blank);
                }
            }
        }
    }

    /// Reveal the up-to-three still-hidden cells of row `ri` whose column is
    /// within one of `cc`; with `center` false the cell `(ri, cc)` itself is
    /// skipped.
    fn flood_row(&mut self, stack: &mut Vec<(usize, usize)>, ri: usize, cc: usize, center: bool)
        requires
            old(self).wf(),
            old(self).faithful(),
            ri < old(self).rows,
            cc < old(self).cols,
        ensures
            final(self).wf(),
            final(self).faithful(),
            final(self).rows == old(self).rows,
            final(self).cols == old(self).cols,
            final(self).solution@ == old(self).solution@,
            forall|j: int|
                0 <= j < old(self).cols && -1 <= j - cc <= 1 && (center || j != cc as int)
                    ==> #[trigger] final(self).vis_at(ri as int, j) != Square::Unknown,
            forall|i: int, j: int|
                old(self).in_bounds(i, j) && #[trigger] old(self).vis_at(i, j) != Square::Unknown
                    ==> final(self).vis_at(i, j) == old(self).vis_at(i, j),
            forall|i: int, j: int|
                old(self).in_bounds(i, j) && final(self).vis_at(i, j) != #[trigger] old(self).vis_at(i, j) ==> old(self).vis_at(i, j) == Square::Unknown && final(self).vis_at(i, j) == old(self).sol_at(i, j) && i == ri as int && -1 <= j - cc <= 1,
            !center ==> final(self).vis_at(ri as int, cc as int) == old(self).vis_at(
                ri as int,
                cc as int,
            ),
            forall|k: int|
                0 <= k < old(stack)@.len() ==> final(stack)@[k] == #[trigger] old(stack)@[k],
            final(stack)@.len() >= old(stack)@.len(),
            forall|i: int, j: int|
                old(self).in_bounds(i, j) && final(self).vis_at(i, j) != #[trigger] old(self).vis_at(i, j) && final(self).vis_at(i, j) == Square::Blank ==> final(stack)@.contains((i as usize, j as usize)),
            forall|k: int|
                old(stack)@.len() <= k < final(stack)@.len() ==> (#[trigger] final(stack)@[k]).0
                    < old(self).rows && final(stack)@[k].1 < old(self).cols && final(self).vis_at(
                    final(stack)@[k].0 as int,
                    final(stack)@[k].1 as int,
                ) == Square::Blank && old(self).vis_at(
                    final(stack)@[k].0 as int,
                    final(stack)@[k].1 as int,
                ) == Square::Unknown,
            forall|q: (usize, usize)| #[trigger]
                old(stack)@.contains(q) ==> final(stack)@.contains(q),
            count_unknown(final(self).visible@) <= count_unknown(old(self).visible@),
            final(stack)@.len() > old(stack)@.len() ==> count_unknown(final(self).visible@)
                < count_unknown(old(self).visible@),
    {
        let cols = self.cols;
        if cc > 0 {
            self.flood_step(stack, ri, cc - 1);
        }
        if center {
            self.flood_step(stack, ri, cc);
        }
        if cc + 1 < cols {
            self.flood_step(stack, ri, cc + 1);
        }
    }

    /// Reveal `(r, c)` from the solution. Returns false when the cell is a
    /// mine (the caller must treat that as fatal). A revealed blank floods:
    /// every hidden cell connected through blanks is revealed too.
    pub fn click(&mut self, r: usize, c: usize) -> (ok: bool)
        requires
            old(self).inv(),
            r < old(self).rows,
            c < old(self).cols,
        ensures
            final(self).inv(),
            final(self).rows == old(self).rows,
            final(self).cols == old(self).cols,
            final(self).solution@ == old(self).solution@,
            ok == (old(self).sol_at(r as int, c as int) != Square::Mine),
            final(self).vis_at(r as int, c as int) == old(self).sol_at(r as int, c as int),
            forall|i: int, j: int|
                old(self).in_bounds(i, j) && #[trigger] old(self).vis_at(i, j) != Square::Unknown
                    ==> final(self).vis_at(i, j) == old(self).vis_at(i, j),
            forall|i: int, j: int|
                old(self).in_bounds(i, j) && final(self).vis_at(i, j) != #[trigger] old(self).vis_at(i, j) ==> old(self).vis_at(i, j) == Square::Unknown && final(self).vis_at(i, j) == old(self).sol_at(i, j),
            count_unknown(final(self).visible@) <= count_unknown(old(self).visible@),
            old(self).vis_at(r as int, c as int) == Square::Unknown ==> count_unknown(
                final(self).visible@,
            ) < count_unknown(old(self).visible@),
            // reveals reach no further than the flood: every other revealed
            // cell is connected to (r, c) through revealed blank cells
            forall|i: int, j: int|
                old(self).in_bounds(i, j) && final(self).vis_at(i, j) != #[trigger] old(self).vis_at(i, j) && !(i == r as int && j == c as int) ==> exists|n: nat| #[trigger]
                    blank_reach(*final(self), r as int, c as int, i, j, n),
    {
        let s0 = self.sol(r, c);
        let was_unknown = self.visible(r, c) == Square::Unknown;
        self.set_vis(r, c, s0);
        proof {
            lemma_index(self.rows as int, self.cols as int, r as int, c as int);
            lemma_count_unknown_update(
                old(self).visible@,
                r as int * self.cols as int + c as int,
                s0,
            );
            assert(sol_ok(s0));
            assert forall|i: int, j: int|
                self.in_bounds(i, j) && #[trigger] self.vis_at(i, j)
                    != Square::Unknown implies self.vis_at(i, j) == self.sol_at(i, j) by {
                if !(i == r as int && j == c as int) {
                    assert(self.vis_at(i, j) == old(self).vis_at(i, j));
                }
            }
        }
        if !(s0 == Square::Blank) {
            proof {
                assert forall|rr: int, c2: int, i: int, j: int|
                    self.in_bounds(rr, c2) && self.in_bounds(i, j) && #[trigger] self.vis_at(
                        rr,
                        c2,
                    ) == Square::Blank && near(i, j, rr, c2, 1) implies #[trigger] self.vis_at(
                    i,
                    j,
                ) != Square::Unknown by {
                    assert(self.vis_at(rr, c2) == old(self).vis_at(rr, c2));
                    if i == r as int && j == c as int {
                        assert(self.vis_at(i, j) == s0);
                    } else {
                        assert(self.vis_at(i, j) == old(self).vis_at(i, j));
                    }
                }
            }
            return !(s0 == Square::Mine);
        }
        let mut stack: Vec<(usize, usize)> = Vec::new();
        stack.push((r, c));
        let ghost mid = *self;
        let ghost mut bnd: nat = 0;
        proof {
            assert(stack@[0] == (r, c));
            assert(blank_reach(*self, r as int, c as int, r as int, c as int, 0));
            assert forall|k: int|
                0 <= k < stack@.len() implies blank_reach(
                *self,
                r as int,
                c as int,
                ((#[trigger] stack@[k]).0) as int,
                (stack@[k]).1 as int,
                bnd,
            ) by {
                assert(stack@[k] == (r, c));
            }
            assert forall|rr: int, c2: int, i: int, j: int|
                self.in_bounds(rr, c2) && self.in_bounds(i, j) && #[trigger] self.vis_at(rr, c2)
                    == Square::Blank && near(i, j, rr, c2, 1) && #[trigger] self.vis_at(i, j)
                    == Square::Unknown implies stack@.contains((rr as usize, c2 as usize)) by {
                if rr == r as int && c2 == c as int {
                    assert(stack@[0] == (rr as usize, c2 as usize));
                } else {
                    assert(self.vis_at(rr, c2) == old(self).vis_at(rr, c2));
                    assert(old(self).vis_at(rr, c2) == Square::Blank);
                    if i == r as int && j == c as int {
                        assert(self.vis_at(i, j) == s0);
                        assert(false);
                    } else {
                        assert(self.vis_at(i, j) == old(self).vis_at(i, j));
                        assert(old(self).vis_at(i, j) != Square::Unknown);
                        assert(false);
                    }
                }
            }
        }
        while stack.len() != 0
            invariant
                self.wf(),
                self.faithful(),
                self.rows == old(self).rows,
                self.cols == old(self).cols,
                self.solution@ == old(self).solution@,
                r < self.rows,
                c < self.cols,
                old(self).sol_at(r as int, c as int) == Square::Blank,
                forall|i: int, j: int|
                    old(self).in_bounds(i, j) && #[trigger] old(self).vis_at(i, j)
                        != Square::Unknown ==> self.vis_at(i, j) == old(self).vis_at(i, j),
                forall|i: int, j: int|
                    old(self).in_bounds(i, j) && self.vis_at(i, j) != #[trigger] old(self).vis_at(
                        i,
                        j,
                    ) ==> old(self).vis_at(i, j) == Square::Unknown && self.vis_at(i, j) == old(self).sol_at(i, j),
                self.vis_at(r as int, c as int) == old(self).sol_at(r as int, c as int),
                forall|k: int|
                    0 <= k < stack@.len() ==> (#[trigger] stack@[k]).0 < self.rows && stack@[k].1
                        < self.cols && self.vis_at(stack@[k].0 as int, stack@[k].1 as int)
                        == Square::Blank,
                forall|rr: int, c2: int, i: int, j: int|
                    self.in_bounds(rr, c2) && self.in_bounds(i, j) && #[trigger] self.vis_at(
                        rr,
                        c2,
                    ) == Square::Blank && near(i, j, rr, c2, 1) && #[trigger] self.vis_at(i, j)
                        == Square::Unknown ==> stack@.contains((rr as usize, c2 as usize)),
                forall|i: int, j: int|
                    old(self).in_bounds(i, j) && self.vis_at(i, j) != #[trigger] old(self).vis_at(
                        i,
                        j,
                    ) && !(i == r as int && j == c as int) ==> exists|n: nat| #[trigger]
                        blank_reach(*self, r as int, c as int, i, j, n),
                forall|k: int|
                    0 <= k < stack@.len() ==> blank_reach(
                        *self,
                        r as int,
                        c as int,
                        ((#[trigger] stack@[k]).0) as int,
                        (stack@[k]).1 as int,
                        bnd,
                    ),
                count_unknown(self.visible@) <= count_unknown(mid.visible@),
            decreases count_unknown(self.visible@), stack@.len(),
        {
            let ghost pre_self = *self;
            let ghost pre_stack = stack@;
            let p = stack.pop().unwrap();
            let ghost post_pop = stack@;
            let (cr, cc) = p;
            proof {
                assert(p == pre_stack[pre_stack.len() - 1]);
            }
            self.flood_cell(&mut stack, cr, cc);
            proof {
                assert(pre_self.vis_at(r as int, c as int) != Square::Unknown);
                assert(self.vis_at(r as int, c as int) == pre_self.vis_at(r as int, c as int));
                assert(pre_self.vis_at(cr as int, cc as int) == Square::Blank);
                assert(self.vis_at(cr as int, cc as int) == Square::Blank);
                assert(blank_reach(pre_self, r as int, c as int, cr as int, cc as int, bnd));
                lemma_blank_reach_mono(
                    pre_self,
                    *self,
                    r as int,
                    c as int,
                    cr as int,
                    cc as int,
                    bnd,
                );
                assert forall|i: int, j: int|
                    old(self).in_bounds(i, j) && self.vis_at(i, j) != #[trigger] old(self).vis_at(
                        i,
                        j,
                    ) && !(i == r as int && j == c as int) implies exists|n: nat| #[trigger]
                    blank_reach(*self, r as int, c as int, i, j, n) by {
                    if self.vis_at(i, j) != pre_self.vis_at(i, j) {
                        assert(near(i, j, cr as int, cc as int, 1));
                        assert(self.in_bounds(cr as int, cc as int));
                        assert(self.vis_at(cr as int, cc as int) == Square::Blank);
                        assert(blank_reach(*self, r as int, c as int, i, j, bnd + 1));
                    } else {
                        let nx = choose|n: nat| #[trigger] blank_reach(
                            pre_self,
                            r as int,
                            c as int,
                            i,
                            j,
                            n,
                        );
                        lemma_blank_reach_mono(pre_self, *self, r as int, c as int, i, j, nx);
                    }
                }
                assert forall|k: int|
                    0 <= k < stack@.len() implies blank_reach(
                    *self,
                    r as int,
                    c as int,
                    ((#[trigger] stack@[k]).0) as int,
                    (stack@[k]).1 as int,
                    bnd + 1,
                ) by {
                    if k < post_pop.len() {
                        assert(stack@[k] == post_pop[k]);
                        assert(post_pop[k] == pre_stack[k]);
                        assert(blank_reach(
                            pre_self,
                            r as int,
                            c as int,
                            (pre_stack[k]).0 as int,
                            (pre_stack[k]).1 as int,
                            bnd,
                        ));
                        lemma_blank_reach_mono(
                            pre_self,
                            *self,
                            r as int,
                            c as int,
                            (pre_stack[k]).0 as int,
                            (pre_stack[k]).1 as int,
                            bnd,
                        );
                        lemma_blank_reach_widen(
                            *self,
                            r as int,
                            c as int,
                            (pre_stack[k]).0 as int,
                            (pre_stack[k]).1 as int,
                            bnd,
                            bnd + 1,
                        );
                        assert(blank_reach(
                            *self,
                            r as int,
                            c as int,
                            (stack@[k]).0 as int,
                            (stack@[k]).1 as int,
                            bnd + 1,
                        ));
                    } else {
                        assert(pre_self.vis_at(cr as int, cc as int) == Square::Blank);
                        assert(self.vis_at(cr as int, cc as int) == pre_self.vis_at(
                            cr as int,
                            cc as int,
                        ));
                        assert(self.in_bounds(cr as int, cc as int));
                        assert(pre_self.vis_at((stack@[k]).0 as int, (stack@[k]).1 as int)
                            == Square::Unknown);
                        assert(self.vis_at((stack@[k]).0 as int, (stack@[k]).1 as int)
                            != pre_self.vis_at((stack@[k]).0 as int, (stack@[k]).1 as int));
                        assert(near(
                            (stack@[k]).0 as int,
                            (stack@[k]).1 as int,
                            cr as int,
                            cc as int,
                            1,
                        ));
                        assert(blank_reach(
                            *self,
                            r as int,
                            c as int,
                            (stack@[k]).0 as int,
                            (stack@[k]).1 as int,
                            bnd + 1,
                        ));
                    }
                }
                bnd = bnd + 1;
                assert forall|k: int|
                    0 <= k < stack@.len() implies (#[trigger] stack@[k]).0 < self.rows
                    && stack@[k].1 < self.cols && self.vis_at(
                    stack@[k].0 as int,
                    stack@[k].1 as int,
                ) == Square::Blank by {
                    if k < post_pop.len() {
                        assert(stack@[k] == post_pop[k]);
                        assert(post_pop[k] == pre_stack[k]);
                        assert(pre_self.vis_at(pre_stack[k].0 as int, pre_stack[k].1 as int)
                            == Square::Blank);
                        assert(self.vis_at(stack@[k].0 as int, stack@[k].1 as int)
                            == pre_self.vis_at(stack@[k].0 as int, stack@[k].1 as int));
                    }
                }
                assert forall|rr: int, c2: int, i: int, j: int|
                    self.in_bounds(rr, c2) && self.in_bounds(i, j) && #[trigger] self.vis_at(
                        rr,
                        c2,
                    ) == Square::Blank && near(i, j, rr, c2, 1) && #[trigger] self.vis_at(i, j)
                        == Square::Unknown implies stack@.contains((rr as usize, c2 as usize)) by {
                    assert(pre_self.vis_at(i, j) == Square::Unknown);
                    if rr == cr as int && c2 == cc as int {
                        assert(self.vis_at(i, j) != Square::Unknown);
                    } else if self.vis_at(rr, c2) != pre_self.vis_at(rr, c2) {
                        assert(stack@.contains((rr as usize, c2 as usize)));
                    } else {
                        assert(pre_self.vis_at(rr, c2) == Square::Blank);
                        assert(pre_stack.contains((rr as usize, c2 as usize)));
                        let k = choose|k: int|
                            0 <= k < pre_stack.len() && pre_stack[k] == (
                            rr as usize,
                            c2 as usize,
                        );
                        assert(pre_stack[pre_stack.len() - 1] == (cr, cc));
                        assert(k < pre_stack.len() - 1);
                        assert(post_pop[k] == pre_stack[k]);
                        assert(stack@[k] == post_pop[k]);
                        assert(stack@.contains((rr as usize, c2 as usize)));
                    }
                }
            }
        }
        proof {
            assert forall|rr: int, c2: int, i: int, j: int|
                self.in_bounds(rr, c2) && self.in_bounds(i, j) && #[trigger] self.vis_at(rr, c2)
                    == Square::Blank && near(i, j, rr, c2, 1) implies #[trigger] self.vis_at(i, j)
                != Square::Unknown by {
                if self.vis_at(i, j) == Square::Unknown {
                    assert(stack@.contains((rr as usize, c2 as usize)));
                }
            }
        }
        true
    }

    /// Flag `(r, c)` as a mine, but only when the solution agrees; returns
    /// false (and changes nothing) when the cell is not a mine.
    pub fn mark_mine(&mut self, r: usize, c: usize) -> (ok: bool)
        requires
            old(self).inv(),
            r < old(self).rows,
            c < old(self).cols,
        ensures
            final(self).inv(),
            final(self).rows == old(self).rows,
            final(self).cols == old(self).cols,
            final(self).solution@ == old(self).solution@,
            ok == (old(self).sol_at(r as int, c as int) == Square::Mine),
            !ok ==> *final(self) == *old(self),
            ok ==> final(self).vis_at(r as int, c as int) == Square::Mine,
            forall|i: int, j: int|
                old(self).in_bounds(i, j) && !(i == r as int && j == c as int)
                    ==> final(self).vis_at(i, j) == #[trigger] old(self).vis_at(i, j),
            forall|i: int, j: int|
                old(self).in_bounds(i, j) && #[trigger] old(self).vis_at(i, j) != Square::Unknown
                    ==> final(self).vis_at(i, j) == old(self).vis_at(i, j),
            count_unknown(final(self).visible@) <= count_unknown(old(self).visible@),
            ok && old(self).vis_at(r as int, c as int) == Square::Unknown ==> count_unknown(
                final(self).visible@,
            ) < count_unknown(old(self).visible@),
    {
        let s0 = self.sol(r, c);
        if s0 == Square::Mine {
            self.set_vis(r, c, Square::Mine);
            proof {
                lemma_index(self.rows as int, self.cols as int, r as int, c as int);
                lemma_count_unknown_update(
                    old(self).visible@,
                    r as int * self.cols as int + c as int,
                    Square::Mine,
                );
                assert forall|i: int, j: int|
                    self.in_bounds(i, j) && #[trigger] self.vis_at(i, j)
                        != Square::Unknown implies self.vis_at(i, j) == self.sol_at(i, j) by {
                    if !(i == r as int && j == c as int) {
                        assert(self.vis_at(i, j) == old(self).vis_at(i, j));
                    }
                }
                assert forall|rr: int, c2: int, i: int, j: int|
                    self.in_bounds(rr, c2) && self.in_bounds(i, j) && #[trigger] self.vis_at(
                        rr,
                        c2,
                    ) == Square::Blank && near(i, j, rr, c2, 1) implies #[trigger] self.vis_at(
                    i,
                    j,
                ) != Square::Unknown by {
                    assert(self.vis_at(rr, c2) == old(self).vis_at(rr, c2));
                    if !(i == r as int && j == c as int) {
                        assert(self.vis_at(i, j) == old(self).vis_at(i, j));
                    }
                }
            }
            true
        } else {
            false
        }
    }

    /// All in-bounds cells within Chebyshev distance `rad` of `(r, c)`,
    /// excluding `(r, c)` itself, in row-major order without duplicates.
    fn ring(&self, r: usize, c: usize, rad: usize) -> (v: Vec<(usize, usize)>)
        requires
            self.wf(),
            r < self.rows,
            c < self.cols,
            1 <= rad <= 2,
        ensures
            v@.no_duplicates(),
            forall|k: int|
                0 <= k < v@.len() ==> (#[trigger] v@[k]).0 < self.rows && v@[k].1 < self.cols
                    && near(v@[k].0 as int, v@[k].1 as int, r as int, c as int, rad as int),
            forall|i: int, j: int|
                0 <= i < self.rows && 0 <= j < self.cols && near(i, j, r as int, c as int, rad as int)
                    ==> #[trigger] v@.contains((i as usize, j as usize)),
    {
        let lo_r = if r >= rad { r - rad } else { 0 };
        let hi_r = if self.rows - 1 - r >= rad { r + rad } else { self.rows - 1 };
        let lo_c = if c >= rad { c - rad } else { 0 };
        let hi_c = if self.cols - 1 - c >= rad { c + rad } else { self.cols - 1 };
        let mut v: Vec<(usize, usize)> = Vec::new();
        let mut i = lo_r;
        while i <= hi_r
            invariant
                lo_r <= i <= hi_r + 1,
                lo_r == if r >= rad { r - rad } else { 0 },
                hi_r == if self.rows - 1 - r >= rad { r + rad } else { self.rows - 1 },
                lo_c == if c >= rad { c - rad } else { 0 },
                hi_c == if self.cols - 1 - c >= rad { c + rad } else { self.cols - 1 },
                r < self.rows,
                c < self.cols,
                1 <= rad <= 2,
                hi_r < self.rows,
                hi_c < self.cols,
                v@.no_duplicates(),
                forall|k: int|
                    0 <= k < v@.len() ==> (#[trigger] v@[k]).0 < self.rows && v@[k].1 < self.cols
                        && near(v@[k].0 as int, v@[k].1 as int, r as int, c as int, rad as int),
                forall|k: int| 0 <= k < v@.len() ==> (#[trigger] v@[k]).0 < i,
                forall|ii: int, jj: int|
                    0 <= ii < self.rows && 0 <= jj < self.cols && near(
                        ii,
                        jj,
                        r as int,
                        c as int,
                        rad as int,
                    ) && ii < i ==> #[trigger] v@.contains((ii as usize, jj as usize)),
            decreases hi_r + 1 - i,
        {
            let mut j = lo_c;
            while j <= hi_c
                invariant
                    lo_c <= j <= hi_c + 1,
                    lo_r <= i <= hi_r,
                    lo_r == if r >= rad { r - rad } else { 0 },
                    hi_r == if self.rows - 1 - r >= rad { r + rad } else { self.rows - 1 },
                    lo_c == if c >= rad { c - rad } else { 0 },
                    hi_c == if self.cols - 1 - c >= rad { c + rad } else { self.cols - 1 },
                    r < self.rows,
                    c < self.cols,
                    1 <= rad <= 2,
                    hi_r < self.rows,
                    hi_c < self.cols,
                    v@.no_duplicates(),
                    forall|k: int|
                        0 <= k < v@.len() ==> (#[trigger] v@[k]).0 < self.rows && v@[k].1
                            < self.cols && near(
                            v@[k].0 as int,
                            v@[k].1 as int,
                            r as int,
                            c as int,
                            rad as int,
                        ),
                    forall|k: int|
                        0 <= k < v@.len() ==> (#[trigger] v@[k]).0 < i || (v@[k].0 == i && v@[k].1
                            < j),
                    forall|ii: int, jj: int|
                        0 <= ii < self.rows && 0 <= jj < self.cols && near(
                            ii,
                            jj,
                            r as int,
                            c as int,
                            rad as int,
                        ) && (ii < i || (ii == i && jj < j)) ==> #[trigger] v@.contains(
                            (ii as usize, jj as usize),
                        ),
                decreases hi_c + 1 - j,
            {
                if !(i == r && j == c) {
                    let ghost pre = v@;
                    v.push((i, j));
                    proof {
                        assert(v@[pre.len() as int] == (i, j));
                        assert forall|ii: int, jj: int|
                            0 <= ii < self.rows && 0 <= jj < self.cols && near(
                                ii,
                                jj,
                                r as int,
                                c as int,
                                rad as int,
                            ) && (ii < i || (ii == i && jj < j + 1)) implies #[trigger] v@.contains(
                            (ii as usize, jj as usize),
                        ) by {
                            if ii == i && jj == j {
                                assert(v@[pre.len() as int] == (ii as usize, jj as usize));
                            } else {
                                assert(pre.contains((ii as usize, jj as usize)));
                                let k = choose|k: int|
                                    0 <= k < pre.len() && pre[k] == (ii as usize, jj as usize);
                                assert(v@[k] == (ii as usize, jj as usize));
                            }
                        }
                    }
                } else {
                    proof {
                        assert forall|ii: int, jj: int|
                            0 <= ii < self.rows && 0 <= jj < self.cols && near(
                                ii,
                                jj,
                                r as int,
                                c as int,
                                rad as int,
                            ) && (ii < i || (ii == i && jj < j + 1)) implies #[trigger] v@.contains(
                            (ii as usize, jj as usize),
                        ) by {
                            assert(!(ii == i && jj == j));
                        }
                    }
                }
                j = j + 1;
            }
            i = i + 1;
        }
        v
    }

    /// The up-to-8 in-bounds cells adjacent to `(r, c)`.
    pub fn adj(&self, r: usize, c: usize) -> (v: Vec<(usize, usize)>)
        requires
            self.wf(),
            r < self.rows,
            c < self.cols,
        ensures
            v@.no_duplicates(),
            forall|k: int|
                0 <= k < v@.len() ==> (#[trigger] v@[k]).0 < self.rows && v@[k].1 < self.cols
                    && near(v@[k].0 as int, v@[k].1 as int, r as int, c as int, 1),
            forall|i: int, j: int|
                0 <= i < self.rows && 0 <= j < self.cols && near(i, j, r as int, c as int, 1)
                    ==> #[trigger] v@.contains((i as usize, j as usize)),
    {
        self.ring(r, c, 1)
    }

    /// The up-to-24 in-bounds cells of the 5-by-5 block around `(r, c)`,
    /// the center excluded. Two numbered cells this close can share an
    /// adjacent hidden cell, so their constraints can overlap.
    pub fn adj2(&self, r: usize, c: usize) -> (v: Vec<(usize, usize)>)
        requires
            self.wf(),
            r < self.rows,
            c < self.cols,
        ensures
            v@.no_duplicates(),
            forall|k: int|
                0 <= k < v@.len() ==> (#[trigger] v@[k]).0 < self.rows && v@[k].1 < self.cols
                    && near(v@[k].0 as int, v@[k].1 as int, r as int, c as int, 2),
            forall|i: int, j: int|
                0 <= i < self.rows && 0 <= j < self.cols && near(i, j, r as int, c as int, 2)
                    ==> #[trigger] v@.contains((i as usize, j as usize)),
    {
        self.ring(r, c, 2)
    }

    /// Build a board from a grid of cell codes (0 blank, 1..=8 counts, 9
    /// mine). Rejects empty, ragged, or out-of-range input; every cell
    /// starts hidden.
    pub fn from_sol(solution: Vec<Vec<u8>>) -> (r: Result<Game, SolveError>)
        ensures
            r is Ok <==> input_ok(solution@),
            r is Err ==> r == Err::<Game, SolveError>(SolveError::InvalidInput),
            r is Ok ==> {
                let g = r->Ok_0;
                &&& g.inv()
                &&& g.rows == solution@.len()
                &&& g.cols == solution@[0]@.len()
                &&& forall|i: int, j: int|
                    g.in_bounds(i, j) ==> #[trigger] g.sol_at(i, j) == decode(solution@[i]@[j])
                &&& forall|i: int, j: int|
                    g.in_bounds(i, j) ==> #[trigger] g.vis_at(i, j) == Square::Unknown
            },
    {
        let rows = solution.len();
        if rows == 0 {
            return Err(SolveError::InvalidInput);
        }
        let cols = solution[0].len();
        if cols == 0 {
            return Err(SolveError::InvalidInput);
        }
        let mut sol: Vec<Square> = Vec::new();
        let mut vis: Vec<Square> = Vec::new();
        let mut r: usize = 0;
        while r < rows
            invariant
                rows == solution@.len(),
                cols == solution@[0]@.len(),
                1 <= rows,
                1 <= cols,
                r <= rows,
                sol@.len() == r * cols,
                vis@.len() == r * cols,
                forall|i: int| 0 <= i < r ==> (#[trigger] solution@[i]@).len() == cols,
                forall|i: int, j: int|
                    0 <= i < r && 0 <= j < cols ==> #[trigger] solution@[i]@[j] <= 9,
                forall|i: int, j: int|
                    0 <= i < r && 0 <= j < cols ==> #[trigger] cell(sol@, cols as int, i, j)
                        == decode(solution@[i]@[j]),
                forall|k: int| 0 <= k < vis@.len() ==> vis@[k] == Square::Unknown,
            decreases rows - r,
        {
            if solution[r].len() != cols {
                return Err(SolveError::InvalidInput);
            }
            let mut c: usize = 0;
            while c < cols
                invariant
                    rows == solution@.len(),
                    cols == solution@[0]@.len(),
                    r < rows,
                    c <= cols,
                    solution@[r as int]@.len() == cols,
                    sol@.len() == r * cols + c,
                    vis@.len() == r * cols + c,
                    forall|i: int| 0 <= i < r ==> (#[trigger] solution@[i]@).len() == cols,
                    forall|i: int, j: int|
                        0 <= i < r && 0 <= j < cols ==> #[trigger] solution@[i]@[j] <= 9,
                    forall|j: int| 0 <= j < c ==> #[trigger] solution@[r as int]@[j] <= 9,
                    forall|i: int, j: int|
                        0 <= i < r && 0 <= j < cols ==> #[trigger] cell(sol@, cols as int, i, j)
                            == decode(solution@[i]@[j]),
                    forall|j: int|
                        0 <= j < c ==> #[trigger] cell(sol@, cols as int, r as int, j)
                            == decode(solution@[r as int]@[j]),
                    forall|k: int| 0 <= k < vis@.len() ==> vis@[k] == Square::Unknown,
                decreases cols - c,
            {
                let v = solution[r][c];
                let sq = match Square::from_code(v) {
                    Ok(sq) => sq,
                    Err(e) => {
                        return Err(e);
                    },
                };
                proof {
                    lemma_index(rows as int, cols as int, r as int, c as int);
                    assert(sol@.len() == r * cols + c);
                }
                let ghost old_sol = sol@;
                sol.push(sq);
                vis.push(Square::Unknown);
                proof {
                    assert(sol@ == old_sol.push(sq));
                    assert(cell(sol@, cols as int, r as int, c as int) == decode(
                        solution@[r as int]@[c as int],
                    ));
                    assert forall|i: int, j: int|
                        0 <= i < r && 0 <= j < cols implies #[trigger] cell(
                        sol@,
                        cols as int,
                        i,
                        j,
                    ) == decode(solution@[i]@[j]) by {
                        lemma_index(r as int, cols as int, i, j);
                        assert(cell(old_sol, cols as int, i, j) == decode(solution@[i]@[j]));
                        assert(cell(sol@, cols as int, i, j) == cell(old_sol, cols as int, i, j));
                    }
                    assert forall|j: int| 0 <= j < c implies #[trigger] cell(
                        sol@,
                        cols as int,
                        r as int,
                        j,
                    ) == decode(solution@[r as int]@[j]) by {
                        lemma_index(rows as int, cols as int, r as int, j);
                        assert(cell(old_sol, cols as int, r as int, j) == decode(
                            solution@[r as int]@[j],
                        ));
                        assert(r as int * cols as int + j < old_sol.len());
                    }
                }
                c = c + 1;
            }
            proof {
                assert(r * cols + cols == (r + 1) * cols) by (nonlinear_arith);
            }
            r = r + 1;
        }
        let g = Game { rows, cols, visible: vis, solution: sol };
        proof {
            assert forall|i: int, j: int| g.in_bounds(i, j) implies sol_ok(
                #[trigger] g.sol_at(i, j),
            ) by {
                lemma_index(rows as int, cols as int, i, j);
                assert(cell(sol@, cols as int, i, j) == decode(solution@[i]@[j]));
            }
            assert forall|i: int, j: int| g.in_bounds(i, j) implies #[trigger] g.vis_at(i, j)
                == Square::Unknown by {
                lemma_index(rows as int, cols as int, i, j);
            }
        }
        Ok(g)
    }
}

impl Game {
    /// Solved means every safe cell has been revealed; a fixed point with
    /// hidden safe cells left is "stuck".
    pub open spec fn solved(self) -> bool {
        forall|i: int, j: int|
            self.in_bounds(i, j) && #[trigger] self.sol_at(i, j) != Square::Mine
                ==> self.vis_at(i, j) != Square::Unknown
    }

    /// Report whether every safe cell is revealed.
    pub fn is_solved(&self) -> (r: bool)
        requires
            self.wf(),
        ensures
            r == self.solved(),
    {
        let mut i: usize = 0;
        while i < self.rows
            invariant
                self.wf(),
                i <= self.rows,
                forall|a: int, b: int|
                    0 <= a < i && 0 <= b < self.cols && #[trigger] self.sol_at(a, b)
                        != Square::Mine ==> self.vis_at(a, b) != Square::Unknown,
            decreases self.rows - i,
        {
            let mut j: usize = 0;
            while j < self.cols
                invariant
                    self.wf(),
                    i < self.rows,
                    j <= self.cols,
                    forall|a: int, b: int|
                        0 <= a < i && 0 <= b < self.cols && #[trigger] self.sol_at(a, b)
                            != Square::Mine ==> self.vis_at(a, b) != Square::Unknown,
                    forall|b: int|
                        0 <= b < j && #[trigger] self.sol_at(i as int, b) != Square::Mine
                            ==> self.vis_at(i as int, b) != Square::Unknown,
                decreases self.cols - j,
            {
                let s = self.sol(i, j);
                if !(s == Square::Mine) {
                    if self.visible(i, j) == Square::Unknown {
                        return false;
                    }
                }
                j = j + 1;
            }
            i = i + 1;
        }
        true
    }

    /// Check that the stored solution is a true Minesweeper board: every
    /// non-mine cell's value equals the number of mines adjacent to it.
    pub fn is_consistent(&self) -> (r: bool)
        requires
            self.wf(),
        ensures
            r == self.sol_consistent(),
    {
        broadcast use vstd::seq_lib::seq_to_set_is_finite;

        let ghost sol = self.solution@;
        let ghost rows = self.rows as int;
        let ghost cols = self.cols as int;
        let mut i: usize = 0;
        while i < self.rows
            invariant
                self.wf(),
                sol == self.solution@,
                rows == self.rows as int,
                cols == self.cols as int,
                i <= self.rows,
                forall|a: int, b: int|
                    0 <= a < i && 0 <= b < cols && #[trigger] cell(sol, cols, a, b) != Square::Mine
                        ==> mines_in(sol, rows, cols, ring1(rows, cols, a, b)) == adj_num(
                        cell(sol, cols, a, b),
                    ),
            decreases self.rows - i,
        {
            let mut j: usize = 0;
            while j < self.cols
                invariant
                    self.wf(),
                    sol == self.solution@,
                    rows == self.rows as int,
                    cols == self.cols as int,
                    i < self.rows,
                    j <= self.cols,
                    forall|a: int, b: int|
                        0 <= a < i && 0 <= b < cols && #[trigger] cell(sol, cols, a, b)
                            != Square::Mine ==> mines_in(sol, rows, cols, ring1(rows, cols, a, b))
                            == adj_num(cell(sol, cols, a, b)),
                    forall|b: int|
                        0 <= b < j && #[trigger] cell(sol, cols, i as int, b) != Square::Mine
                            ==> mines_in(sol, rows, cols, ring1(rows, cols, i as int, b))
                            == adj_num(cell(sol, cols, i as int, b)),
                decreases self.cols - j,
            {
                let s = self.sol(i, j);
                if !(s == Square::Mine) {
                    let adjv = self.adj(i, j);
                    let mut cnt: usize = 0;
                    proof {
                        assert(adjv@.take(0).to_set() =~= Set::<(usize, usize)>::empty()) by {
                            if exists|x: (usize, usize)| adjv@.take(0).to_set().contains(x) {
                                let x = choose|x: (usize, usize)|
                                    adjv@.take(0).to_set().contains(x);
                                assert(adjv@.take(0).contains(x));
                            }
                        }
                        assert(Set::<(usize, usize)>::empty().filter(
                            |q: (usize, usize)| mine_at(sol, rows, cols, q),
                        ) =~= Set::<(usize, usize)>::empty());
                    }
                    let mut k: usize = 0;
                    while k < adjv.len()
                        invariant
                            self.wf(),
                            sol == self.solution@,
                            rows == self.rows as int,
                            cols == self.cols as int,
                            i < self.rows,
                            j < self.cols,
                            k <= adjv@.len(),
                            cnt <= k,
                            adjv@.no_duplicates(),
                            forall|m: int|
                                0 <= m < adjv@.len() ==> (#[trigger] adjv@[m]).0 < self.rows
                                    && adjv@[m].1 < self.cols,
                            mines_in(sol, rows, cols, adjv@.take(k as int).to_set()) == cnt,
                        decreases adjv@.len() - k,
                    {
                        let p = adjv[k];
                        let ghost tk = adjv@.take(k as int);
                        proof {
                            assert(adjv@.take(k as int + 1) =~= tk.push(p));
                            crate::group::lemma_push_to_set(tk, p);
                            assert(!tk.contains(p)) by {
                                if tk.contains(p) {
                                    let m = choose|m: int| 0 <= m < k && tk[m] == p;
                                    assert(adjv@[m] == adjv@[k as int]);
                                }
                            }
                            crate::group::lemma_mines_in_insert(sol, rows, cols, tk.to_set(), p);
                        }
                        let ps = self.sol(p.0, p.1);
                        if ps == Square::Mine {
                            proof {
                                assert(mine_at(sol, rows, cols, p));
                            }
                            cnt = cnt + 1;
                        } else {
                            proof {
                                assert(!mine_at(sol, rows, cols, p));
                            }
                        }
                        k = k + 1;
                    }
                    proof {
                        assert(adjv@.take(adjv@.len() as int) =~= adjv@);
                        assert(adjv@.to_set() =~= ring1(rows, cols, i as int, j as int)) by {
                            assert forall|x: (usize, usize)| adjv@.to_set().contains(x) implies ring1(
                                rows,
                                cols,
                                i as int,
                                j as int,
                            ).contains(x) by {
                                let m = choose|m: int| 0 <= m < adjv@.len() && adjv@[m] == x;
                            }
                            assert forall|x: (usize, usize)|
                                ring1(rows, cols, i as int, j as int).contains(x) implies adjv@.to_set().contains(
                                x,
                            ) by {
                                assert(adjv@.contains(
                                    (((x.0 as int)) as usize, ((x.1 as int)) as usize),
                                ));
                                assert(((x.0 as int)) as usize == x.0);
                                assert(((x.1 as int)) as usize == x.1);
                            }
                        }
                    }
                    let target: usize = match s {
                        Square::Blank => 0,
                        Square::Adj(n) => n as usize,
                        _ => 0,
                    };
                    if cnt != target {
                        proof {
                            assert(cell(sol, cols, i as int, j as int) != Square::Mine);
                            assert(mines_in(sol, rows, cols, ring1(rows, cols, i as int, j as int))
                                != adj_num(cell(sol, cols, i as int, j as int)));
                        }
                        return false;
                    }
                }
                j = j + 1;
            }
            i = i + 1;
        }
        true
    }
}

/// `(i, j)` is connected to `(r0, c0)` in at most `n` steps, each step
/// coming from a revealed blank cell: either it is `(r0, c0)` itself, or
/// one of its neighbors is a revealed blank connected to `(r0, c0)`. This
/// is exactly how far a flood reveal started at `(r0, c0)` can spread.
pub open spec fn blank_reach(g: Game, r0: int, c0: int, i: int, j: int, n: nat) -> bool
    decreases n,
{
    (i == r0 && j == c0) || (n > 0 && exists|a: int, b: int|
        g.in_bounds(a, b) && near(i, j, a, b, 1) && #[trigger] g.vis_at(a, b) == Square::Blank
            && blank_reach(g, r0, c0, a, b, (n - 1) as nat))
}

/// Revealing more cells never breaks a blank-connection chain: a grid that
/// preserves every revealed cell preserves reachability.
pub proof fn lemma_blank_reach_mono(
    g1: Game,
    g2: Game,
    r0: int,
    c0: int,
    i: int,
    j: int,
    n: nat,
)
    requires
        g1.rows == g2.rows,
        g1.cols == g2.cols,
        forall|a: int, b: int|
            g1.in_bounds(a, b) && #[trigger] g1.vis_at(a, b) != Square::Unknown ==> g2.vis_at(a, b)
                == g1.vis_at(a, b),
        blank_reach(g1, r0, c0, i, j, n),
    ensures
        blank_reach(g2, r0, c0, i, j, n),
    decreases n,
{
    if !(i == r0 && j == c0) {
        let (a, b) = choose|a: int, b: int|
            g1.in_bounds(a, b) && near(i, j, a, b, 1) && #[trigger] g1.vis_at(a, b)
                == Square::Blank && blank_reach(g1, r0, c0, a, b, (n - 1) as nat);
        lemma_blank_reach_mono(g1, g2, r0, c0, a, b, (n - 1) as nat);
        assert(g2.vis_at(a, b) == Square::Blank);
        assert(g2.in_bounds(a, b) && near(i, j, a, b, 1) && g2.vis_at(a, b) == Square::Blank
            && blank_reach(g2, r0, c0, a, b, (n - 1) as nat));
    }
}

/// A connection within `n` steps is a connection within any larger bound.
pub proof fn lemma_blank_reach_widen(
    g: Game,
    r0: int,
    c0: int,
    i: int,
    j: int,
    n: nat,
    m: nat,
)
    requires
        blank_reach(g, r0, c0, i, j, n),
        n <= m,
    ensures
        blank_reach(g, r0, c0, i, j, m),
    decreases n,
{
    if !(i == r0 && j == c0) {
        let (a, b) = choose|a: int, b: int|
            g.in_bounds(a, b) && near(i, j, a, b, 1) && #[trigger] g.vis_at(a, b)
                == Square::Blank && blank_reach(g, r0, c0, a, b, (n - 1) as nat);
        lemma_blank_reach_widen(g, r0, c0, a, b, (n - 1) as nat, (m - 1) as nat);
        assert(g.in_bounds(a, b) && near(i, j, a, b, 1) && g.vis_at(a, b) == Square::Blank
            && blank_reach(g, r0, c0, a, b, (m - 1) as nat));
    }
}

/// The one character a cell is rendered as: `#` hidden, `X` flagged mine,
/// a space for a blank, the digit for an adjacent-mine count.
pub open spec fn char_of(s: Square) -> char {
    match s {
        Square::Unknown => '#',
        Square::Mine => 'X',
        Square::Blank => ' ',
        Square::Adj(n) => if n == 1 {
            '1'
        } else if n == 2 {
            '2'
        } else if n == 3 {
            '3'
        } else if n == 4 {
            '4'
        } else if n == 5 {
            '5'
        } else if n == 6 {
            '6'
        } else if n == 7 {
            '7'
        } else {
            '8'
        },
    }
}

/// Character `j` of row `i` of a rendered grid whose lines are `cols`
/// cells wide plus a line break.
pub open spec fn out_at(s: Seq<char>, cols: int, i: int, j: int) -> char {
    s[i * (cols + 1) + j]
}

impl Game {
    /// Render the visible grid, one character per cell and a line break
    /// after each row.
    pub fn render(&self) -> (out: Vec<char>)
        requires
            self.wf(),
        ensures
            out@.len() == self.rows * (self.cols as int + 1),
            forall|i: int, j: int|
                self.in_bounds(i, j) ==> #[trigger] out_at(out@, self.cols as int, i, j)
                    == char_of(self.vis_at(i, j)),
            forall|i: int|
                0 <= i < self.rows ==> #[trigger] out_at(out@, self.cols as int, i, self.cols as int)
                    == '\n',
    {
        let ghost cols1 = self.cols as int + 1;
        let mut out: Vec<char> = Vec::new();
        let mut i: usize = 0;
        while i < self.rows
            invariant
                self.wf(),
                cols1 == self.cols as int + 1,
                i <= self.rows,
                out@.len() == i * cols1,
                forall|a: int, b: int|
                    0 <= a < i && 0 <= b < self.cols ==> #[trigger] out_at(
                        out@,
                        self.cols as int,
                        a,
                        b,
                    ) == char_of(self.vis_at(a, b)),
                forall|a: int|
                    0 <= a < i ==> #[trigger] out_at(out@, self.cols as int, a, self.cols as int)
                        == '\n',
            decreases self.rows - i,
        {
            let mut j: usize = 0;
            while j < self.cols
                invariant
                    self.wf(),
                    cols1 == self.cols as int + 1,
                    i < self.rows,
                    j <= self.cols,
                    out@.len() == i * cols1 + j,
                    forall|a: int, b: int|
                        0 <= a < i && 0 <= b < self.cols ==> #[trigger] out_at(
                            out@,
                            self.cols as int,
                            a,
                            b,
                        ) == char_of(self.vis_at(a, b)),
                    forall|a: int|
                        0 <= a < i ==> #[trigger] out_at(
                            out@,
                            self.cols as int,
                            a,
                            self.cols as int,
                        ) == '\n',
                    forall|b: int|
                        0 <= b < j ==> #[trigger] out_at(out@, self.cols as int, i as int, b)
                            == char_of(self.vis_at(i as int, b)),
                decreases self.cols - j,
            {
                let sq = self.visible(i, j);
                let ch = match sq {
                    Square::Unknown => '#',
                    Square::Mine => 'X',
                    Square::Blank => ' ',
                    Square::Adj(n) => {
                        if n == 1 {
                            '1'
                        } else if n == 2 {
                            '2'
                        } else if n == 3 {
                            '3'
                        } else if n == 4 {
                            '4'
                        } else if n == 5 {
                            '5'
                        } else if n == 6 {
                            '6'
                        } else if n == 7 {
                            '7'
                        } else {
                            '8'
                        }
                    },
                };
                proof {
                    lemma_index(self.rows as int, cols1, i as int, j as int);
                }
                let ghost pre = out@;
                out.push(ch);
                proof {
                    assert(out_at(out@, self.cols as int, i as int, j as int) == char_of(
                        self.vis_at(i as int, j as int),
                    ));
                    assert forall|a: int, b: int|
                        0 <= a < i && 0 <= b < self.cols implies #[trigger] out_at(
                        out@,
                        self.cols as int,
                        a,
                        b,
                    ) == char_of(self.vis_at(a, b)) by {
                        lemma_index(i as int, cols1, a, b);
                        assert(out_at(pre, self.cols as int, a, b) == char_of(self.vis_at(a, b)));
                    }
                    assert forall|a: int| 0 <= a < i implies #[trigger] out_at(
                        out@,
                        self.cols as int,
                        a,
                        self.cols as int,
                    ) == '\n' by {
                        lemma_index(i as int, cols1, a, cols1 - 1);
                        assert(out_at(pre, self.cols as int, a, self.cols as int) == '\n');
                    }
                    assert forall|b: int| 0 <= b < j + 1 implies #[trigger] out_at(
                        out@,
                        self.cols as int,
                        i as int,
                        b,
                    ) == char_of(self.vis_at(i as int, b)) by {
                        if b < j {
                            lemma_index(self.rows as int, cols1, i as int, b);
                            assert(out_at(pre, self.cols as int, i as int, b) == char_of(
                                self.vis_at(i as int, b),
                            ));
                        }
                    }
                }
                j = j + 1;
            }
            let ghost pre = out@;
            out.push('\n');
            proof {
                assert(out_at(out@, self.cols as int, i as int, self.cols as int) == '\n');
                assert forall|a: int, b: int|
                    0 <= a < i && 0 <= b < self.cols implies #[trigger] out_at(
                    out@,
                    self.cols as int,
                    a,
                    b,
                ) == char_of(self.vis_at(a, b)) by {
                    lemma_index(i as int, cols1, a, b);
                    assert(out_at(pre, self.cols as int, a, b) == char_of(self.vis_at(a, b)));
                }
                assert forall|a: int| 0 <= a < i implies #[trigger] out_at(
                    out@,
                    self.cols as int,
                    a,
                    self.cols as int,
                ) == '\n' by {
                    lemma_index(i as int, cols1, a, cols1 - 1);
                    assert(out_at(pre, self.cols as int, a, self.cols as int) == '\n');
                }
                assert forall|b: int| 0 <= b < self.cols implies #[trigger] out_at(
                    out@,
                    self.cols as int,
                    i as int,
                    b,
                ) == char_of(self.vis_at(i as int, b)) by {
                    lemma_index(self.rows as int, cols1, i as int, b);
                    assert(out_at(pre, self.cols as int, i as int, b) == char_of(
                        self.vis_at(i as int, b),
                    ));
                }
                assert(i as int * cols1 + cols1 == (i + 1) as int * cols1) by (nonlinear_arith);
            }
            i = i + 1;
        }
        out
    }
}

/// On a mine-free board any revealed cell is blank, so the flood closure
/// reaches the whole grid step by step: walking one cell at a time toward
/// `(i, j)` from the revealed cell, every cell on the way is revealed.
proof fn lemma_reach(g: Game, r0: int, c0: int, i: int, j: int)
    requires
        g.inv(),
        g.in_bounds(r0, c0),
        g.in_bounds(i, j),
        g.vis_at(r0, c0) != Square::Unknown,
        forall|a: int, b: int| g.in_bounds(a, b) ==> #[trigger] g.sol_at(a, b) == Square::Blank,
    ensures
        g.vis_at(i, j) != Square::Unknown,
    decreases (if i >= r0 {
        i - r0
    } else {
        r0 - i
    }) + (if j >= c0 {
        j - c0
    } else {
        c0 - j
    }),
{
    if i == r0 && j == c0 {
    } else {
        let i2: int = if i > r0 {
            i - 1
        } else if i < r0 {
            i + 1
        } else {
            i
        };
        let j2: int = if j > c0 {
            j - 1
        } else if j < c0 {
            j + 1
        } else {
            j
        };
        lemma_reach(g, r0, c0, i2, j2);
        assert(g.vis_at(i2, j2) == g.sol_at(i2, j2));
        assert(g.vis_at(i2, j2) == Square::Blank);
        assert(near(i, j, i2, j2, 1));
    }
}

/// Completeness on trivial boards: on a consistent board without a single
/// mine, once any one cell is revealed, the flood closure has revealed
/// every cell.
pub proof fn lemma_zero_mines_fully_revealed(g: Game, r0: int, c0: int)
    requires
        g.inv(),
        g.sol_consistent(),
        forall|a: int, b: int| g.in_bounds(a, b) ==> #[trigger] g.sol_at(a, b) != Square::Mine,
        g.in_bounds(r0, c0),
        g.vis_at(r0, c0) != Square::Unknown,
    ensures
        forall|i: int, j: int|
            g.in_bounds(i, j) ==> #[trigger] g.vis_at(i, j) != Square::Unknown,
{
    let sol = g.solution@;
    let rows = g.rows as int;
    let cols = g.cols as int;
    assert forall|a: int, b: int| g.in_bounds(a, b) implies #[trigger] g.sol_at(a, b)
        == Square::Blank by {
        let f = |q: (usize, usize)| mine_at(sol, rows, cols, q);
        assert(ring1(rows, cols, a, b).filter(f) =~= Set::<(usize, usize)>::empty()) by {
            if exists|x: (usize, usize)| ring1(rows, cols, a, b).filter(f).contains(x) {
                let x = choose|x: (usize, usize)| ring1(rows, cols, a, b).filter(f).contains(x);
                assert(mine_at(sol, rows, cols, x));
                assert(g.in_bounds(x.0 as int, x.1 as int));
                assert(g.sol_at(x.0 as int, x.1 as int) == Square::Mine);
            }
        }
        assert(mines_in(sol, rows, cols, ring1(rows, cols, a, b)) == 0);
        assert(cell(sol, cols, a, b) != Square::Mine);
        assert(adj_num(g.sol_at(a, b)) == 0);
        assert(sol_ok(g.sol_at(a, b)));
    }
    assert forall|i: int, j: int| g.in_bounds(i, j) implies #[trigger] g.vis_at(i, j)
        != Square::Unknown by {
        lemma_reach(g, r0, c0, i, j);
    }
}

/// A construction input the board accepts: at least one row, at least one
/// column, every row the same length, every cell code at most 9.
pub open spec fn input_ok(inp: Seq<Vec<u8>>) -> bool {
    &&& inp.len() >= 1
    &&& inp[0]@.len() >= 1
    &&& forall|i: int| 0 <= i < inp.len() ==> (#[trigger] inp[i]@).len() == inp[0]@.len()
    &&& forall|i: int, j: int|
        0 <= i < inp.len() && 0 <= j < inp[i]@.len() ==> #[trigger] inp[i]@[j] <= 9
}

} // verus!
