use vstd::prelude::*;

use crate::game::{
    cell, cell_settled, count_unknown, flagged_ring_count, hidden_ring_count, mine_at, mines_in,
    ring1, vis_mine_at, vis_unknown_at, Game,
};
use crate::group::{
    copy_cells, inter_cells, is_subset_cells, lemma_all_mines, lemma_all_safe,
    lemma_mines_in_insert, lemma_one_one, lemma_overlap, lemma_push_to_set, lemma_sub_exact, Group,
};
use crate::square::{DeduceOp, SolveError, Square};

verus! {

broadcast use vstd::seq_lib::seq_to_set_is_finite;

/// Per-cell inference state: a memo of what the engine has derived for one
/// revealed numbered cell.
pub enum Sq {
    /// No constraint derived yet.
    Unprocessed,
    /// The cell's primary constraint plus residual constraints kept for
    /// reuse by neighboring cells.
    Grps(Vec<Group>),
    /// Fully resolved by a trivial rule; skipped on later sweeps.
    Done,
}

/// How many memo entries are not yet `Done`.
pub open spec fn count_not_done(s: Seq<Sq>) -> nat
    decreases s.len(),
{
    if s.len() == 0 {
        0
    } else {
        count_not_done(s.drop_last()) + (if s.last() is Done {
            0nat
        } else {
            1nat
        })
    }
}

/// How many memo entries are still `Unprocessed`.
pub open spec fn count_unprocessed(s: Seq<Sq>) -> nat
    decreases s.len(),
{
    if s.len() == 0 {
        0
    } else {
        count_unprocessed(s.drop_last()) + (if s.last() is Unprocessed {
            1nat
        } else {
            0nat
        })
    }
}

pub proof fn lemma_count_not_done_update(s: Seq<Sq>, k: int, v: Sq)
    requires
        0 <= k < s.len(),
    ensures
        count_not_done(s.update(k, v)) == count_not_done(s) - (if s[k] is Done {
            0int
        } else {
            1int
        }) + (if v is Done {
            0int
        } else {
            1int
        }),
    decreases s.len(),
{
    let u = s.update(k, v);
    if k == s.len() - 1 {
        assert(u.drop_last() =~= s.drop_last());
        assert(u.last() == v);
    } else {
        assert(u.drop_last() =~= s.drop_last().update(k, v));
        assert(u.last() == s.last());
        lemma_count_not_done_update(s.drop_last(), k, v);
    }
}

pub proof fn lemma_count_unprocessed_update(s: Seq<Sq>, k: int, v: Sq)
    requires
        0 <= k < s.len(),
    ensures
        count_unprocessed(s.update(k, v)) == count_unprocessed(s) - (if s[k] is Unprocessed {
            1int
        } else {
            0int
        }) + (if v is Unprocessed {
            1int
        } else {
            0int
        }),
    decreases s.len(),
{
    let u = s.update(k, v);
    if k == s.len() - 1 {
        assert(u.drop_last() =~= s.drop_last());
        assert(u.last() == v);
    } else {
        assert(u.drop_last() =~= s.drop_last().update(k, v));
        assert(u.last() == s.last());
        lemma_count_unprocessed_update(s.drop_last(), k, v);
    }
}

/// Hidden cells left to reveal.
pub open spec fn m_u(p: Player) -> nat {
    count_unknown(p.game.visible@)
}

/// Memo entries not yet resolved.
pub open spec fn m_nd(p: Player) -> nat {
    count_not_done(p.groups@)
}

/// Memo entries never visited.
pub open spec fn m_up(p: Player) -> nat {
    count_unprocessed(p.groups@)
}

/// Every progress measure is at least as small in `a` as in `b`.
pub open spec fn progress_le(a: Player, b: Player) -> bool {
    m_u(a) <= m_u(b) && m_nd(a) <= m_nd(b) && m_up(a) <= m_up(b)
}

/// `a` has made strict progress over `b`, lexicographically.
pub open spec fn progress_lt(a: Player, b: Player) -> bool {
    m_u(a) < m_u(b) || (m_u(a) == m_u(b) && (m_nd(a) < m_nd(b) || (m_nd(a) == m_nd(b) && m_up(a)
        < m_up(b))))
}

/// The memo entry of cell `(r, c)`.
pub open spec fn memo_at(p: Player, r: int, c: int) -> Sq {
    p.groups@[r * p.game.cols + c]
}

/// A resolved cell keeps no hidden neighbors: the trivial rule that marks
/// a memo entry `Done` reveals or flags the cell's whole ring, and
/// visibility is monotone afterwards. This is what lets a sweep skip
/// `Done` cells without missing a forced move.
pub open spec fn done_ok(p: Player) -> bool {
    forall|r: int, c: int|
        0 <= r < p.game.rows && 0 <= c < p.game.cols && #[trigger] memo_at(p, r, c) is Done
            ==> forall|i: int, j: int|
            p.game.in_bounds(i, j) && crate::game::near(i, j, r, c, 1)
                ==> #[trigger] p.game.vis_at(i, j) != Square::Unknown
}

/// The inference engine: a board plus one memo entry per cell. It sweeps
/// the grid to a fixed point, deriving constraints from revealed numbered
/// cells and issuing reveal/flag commands back to the board.
pub struct Player {
    pub game: Game,
    pub groups: Vec<Sq>,
}

impl Player {
    /// Every constraint the memo stores is structurally sound and exact
    /// with respect to the hidden solution: this is the engine's soundness
    /// invariant, and it holds only because the board is a true Minesweeper
    /// board (`sol_consistent`).
    pub open spec fn groups_wf(self) -> bool {
        forall|k: int|
            0 <= k < self.groups@.len() ==> match #[trigger] self.groups@[k] {
                Sq::Grps(gs) => forall|m: int|
                    0 <= m < gs@.len() ==> (#[trigger] gs@[m]).wf(
                        self.game.rows as int,
                        self.game.cols as int,
                    ) && gs@[m].exact(
                        self.game.solution@,
                        self.game.rows as int,
                        self.game.cols as int,
                    ),
                _ => true,
            }
    }

    pub open spec fn inv(self) -> bool {
        &&& self.game.inv()
        &&& self.game.sol_consistent()
        &&& self.groups@.len() == self.game.rows * self.game.cols
        &&& self.groups_wf()
        &&& done_ok(self)
    }

    /// Wrap a board for solving; every cell starts unprocessed. The caller
    /// seeds deduction with one initial reveal before or after this.
    pub fn from_game(game: Game) -> (p: Player)
        requires
            game.inv(),
            game.sol_consistent(),
        ensures
            p.inv(),
            p.game == game,
            count_unknown(p.game.visible@) == count_unknown(game.visible@),
            forall|k: int| 0 <= k < p.groups@.len() ==> #[trigger] p.groups@[k] is Unprocessed,
    {
        let n = game.visible.len();
        let mut groups: Vec<Sq> = Vec::new();
        let mut k: usize = 0;
        while k < n
            invariant
                k <= n,
                groups@.len() == k,
                forall|m: int| 0 <= m < k ==> #[trigger] groups@[m] is Unprocessed,
            decreases n - k,
        {
            groups.push(Sq::Unprocessed);
            k = k + 1;
        }
        let p = Player { game, groups };
        proof {
            assert forall|k2: int| 0 <= k2 < p.groups@.len() implies match #[trigger] p.groups@[k2] {
                Sq::Grps(gs) => forall|m: int|
                    0 <= m < gs@.len() ==> (#[trigger] gs@[m]).wf(
                        p.game.rows as int,
                        p.game.cols as int,
                    ) && gs@[m].exact(
                        p.game.solution@,
                        p.game.rows as int,
                        p.game.cols as int,
                    ),
                _ => true,
            } by {
                assert(p.groups@[k2] is Unprocessed);
            }
            assert forall|r: int, c: int|
                0 <= r < p.game.rows && 0 <= c < p.game.cols && #[trigger] memo_at(
                p,
                r,
                c,
            ) is Done implies forall|i: int, j: int|
                p.game.in_bounds(i, j) && crate::game::near(i, j, r, c, 1)
                    ==> #[trigger] p.game.vis_at(i, j) != Square::Unknown by {
                crate::game::lemma_index(p.game.rows as int, p.game.cols as int, r, c);
                assert(p.groups@[r * p.game.cols + c] is Unprocessed);
            }
        }
        p
    }

    fn gidx(&self, r: usize, c: usize) -> (k: usize)
        requires
            self.inv(),
            r < self.game.rows,
            c < self.game.cols,
        ensures
            k == r * self.game.cols + c,
            k < self.groups@.len(),
    {
        proof {
            crate::game::lemma_index(
                self.game.rows as int,
                self.game.cols as int,
                r as int,
                c as int,
            );
        }
        let n = self.game.visible.len();
        r * self.game.cols + c
    }

    /// Overwrite the memo entry of `(r, c)`.
    fn set_group(&mut self, r: usize, c: usize, v: Sq)
        requires
            old(self).inv(),
            r < old(self).game.rows,
            c < old(self).game.cols,
            match v {
                Sq::Grps(gs) => forall|m: int|
                    0 <= m < gs@.len() ==> (#[trigger] gs@[m]).wf(
                        old(self).game.rows as int,
                        old(self).game.cols as int,
                    ) && gs@[m].exact(
                        old(self).game.solution@,
                        old(self).game.rows as int,
                        old(self).game.cols as int,
                    ),
                _ => true,
            },
            v is Done ==> forall|i: int, j: int|
                old(self).game.in_bounds(i, j) && crate::game::near(i, j, r as int, c as int, 1)
                    ==> #[trigger] old(self).game.vis_at(i, j) != Square::Unknown,
        ensures
            final(self).inv(),
            final(self).game == old(self).game,
            final(self).groups@ == old(self).groups@.update(
                r as int * old(self).game.cols as int + c as int,
                v,
            ),
    {
        let k = self.gidx(r, c);
        self.groups.set(k, v);
        proof {
            assert forall|k2: int| 0 <= k2 < self.groups@.len() implies match #[trigger] self.groups@[k2] {
                Sq::Grps(gs) => forall|m: int|
                    0 <= m < gs@.len() ==> (#[trigger] gs@[m]).wf(
                        self.game.rows as int,
                        self.game.cols as int,
                    ) && gs@[m].exact(
                        self.game.solution@,
                        self.game.rows as int,
                        self.game.cols as int,
                    ),
                _ => true,
            } by {
                if k2 != k as int {
                    assert(self.groups@[k2] == old(self).groups@[k2]);
                }
            }
            assert forall|a: int, b: int|
                0 <= a < self.game.rows && 0 <= b < self.game.cols && #[trigger] memo_at(
                *self,
                a,
                b,
            ) is Done implies forall|i: int, j: int|
                self.game.in_bounds(i, j) && crate::game::near(i, j, a, b, 1)
                    ==> #[trigger] self.game.vis_at(i, j) != Square::Unknown by {
                crate::game::lemma_index(self.game.rows as int, self.game.cols as int, a, b);
                if a == r as int && b == c as int {
                    assert(v is Done);
                } else {
                    if a * self.game.cols as int + b == r as int * self.game.cols as int
                        + c as int {
                        crate::game::lemma_index_inj(
                            self.game.cols as int,
                            a,
                            b,
                            r as int,
                            c as int,
                        );
                    }
                    assert(self.groups@[a * self.game.cols + b] == old(self).groups@[a
                        * self.game.cols + b]);
                    assert(memo_at(*old(self), a, b) is Done);
                }
            }
        }
    }

    /// Reveal every listed cell, stopping with a fatal deduction error on
    /// the first one the solution says is a mine.
    pub fn click_all(&mut self, cells: &Vec<(usize, usize)>) -> (r: Result<(), SolveError>)
        requires
            old(self).inv(),
            forall|k: int|
                0 <= k < cells@.len() ==> (#[trigger] cells@[k]).0 < old(self).game.rows
                    && cells@[k].1 < old(self).game.cols,
        ensures
            final(self).inv(),
            final(self).game.rows == old(self).game.rows,
            final(self).game.cols == old(self).game.cols,
            final(self).game.solution@ == old(self).game.solution@,
            final(self).groups@ == old(self).groups@,
            forall|i: int, j: int|
                old(self).game.in_bounds(i, j) && #[trigger] old(self).game.vis_at(i, j)
                    != Square::Unknown ==> final(self).game.vis_at(i, j) == old(self).game.vis_at(
                    i,
                    j,
                ),
            count_unknown(final(self).game.visible@) <= count_unknown(old(self).game.visible@),
            r is Ok <==> (forall|k: int|
                0 <= k < cells@.len() ==> !mine_at(
                    old(self).game.solution@,
                    old(self).game.rows as int,
                    old(self).game.cols as int,
                    #[trigger] cells@[k],
                )),
            r is Err ==> (exists|k: int|
                0 <= k < cells@.len() && mine_at(
                    old(self).game.solution@,
                    old(self).game.rows as int,
                    old(self).game.cols as int,
                    #[trigger] cells@[k],
                ) && r == Err::<(), SolveError>(
                    SolveError::DeductionViolation {
                        row: cells@[k].0,
                        col: cells@[k].1,
                        op: DeduceOp::Reveal,
                    },
                )),
            r is Ok ==> (forall|k: int|
                0 <= k < cells@.len() ==> final(self).game.vis_at(
                    (#[trigger] cells@[k]).0 as int,
                    cells@[k].1 as int,
                ) == old(self).game.sol_at(cells@[k].0 as int, cells@[k].1 as int)
                    && final(self).game.vis_at(cells@[k].0 as int, cells@[k].1 as int)
                    != Square::Unknown),
            r is Ok && cells@.len() > 0 && old(self).game.vis_at(
                cells@[0].0 as int,
                cells@[0].1 as int,
            ) == Square::Unknown ==> count_unknown(final(self).game.visible@) < count_unknown(
                old(self).game.visible@,
            ),
    {
        let ghost g0 = old(self).game;
        let mut k: usize = 0;
        while k < cells.len()
            invariant
                self.inv(),
                k <= cells@.len(),
                self.game.rows == g0.rows,
                self.game.cols == g0.cols,
                self.game.solution@ == g0.solution@,
                self.groups@ == old(self).groups@,
                g0 == old(self).game,
                forall|m: int|
                    0 <= m < cells@.len() ==> (#[trigger] cells@[m]).0 < g0.rows && cells@[m].1
                        < g0.cols,
                forall|i: int, j: int|
                    g0.in_bounds(i, j) && #[trigger] g0.vis_at(i, j) != Square::Unknown
                        ==> self.game.vis_at(i, j) == g0.vis_at(i, j),
                count_unknown(self.game.visible@) <= count_unknown(g0.visible@),
                forall|m: int|
                    0 <= m < k ==> !mine_at(
                        g0.solution@,
                        g0.rows as int,
                        g0.cols as int,
                        #[trigger] cells@[m],
                    ),
                forall|m: int|
                    0 <= m < k ==> self.game.vis_at(
                        (#[trigger] cells@[m]).0 as int,
                        cells@[m].1 as int,
                    ) == g0.sol_at(cells@[m].0 as int, cells@[m].1 as int) && self.game.vis_at(
                        cells@[m].0 as int,
                        cells@[m].1 as int,
                    ) != Square::Unknown,
                k > 0 && g0.vis_at(cells@[0].0 as int, cells@[0].1 as int) == Square::Unknown
                    ==> count_unknown(self.game.visible@) < count_unknown(g0.visible@),
                k == 0 ==> self.game == g0,
            decreases cells@.len() - k,
        {
            let p = cells[k];
            let ghost pre = self.game;
            let ghost pre_p = *self;
            let ok = self.game.click(p.0, p.1);
            proof {
                assert forall|a: int, b: int|
                    0 <= a < self.game.rows && 0 <= b < self.game.cols && #[trigger] memo_at(
                    *self,
                    a,
                    b,
                ) is Done implies forall|i: int, j: int|
                    self.game.in_bounds(i, j) && crate::game::near(i, j, a, b, 1)
                        ==> #[trigger] self.game.vis_at(i, j) != Square::Unknown by {
                    assert(memo_at(pre_p, a, b) is Done);
                    assert forall|i: int, j: int|
                        self.game.in_bounds(i, j) && crate::game::near(i, j, a, b, 1)
                            implies #[trigger] self.game.vis_at(i, j) != Square::Unknown by {
                        assert(pre_p.game.vis_at(i, j) != Square::Unknown);
                        assert(self.game.vis_at(i, j) == pre_p.game.vis_at(i, j));
                    }
                }
            }
            if !ok {
                proof {
                    assert(mine_at(g0.solution@, g0.rows as int, g0.cols as int, cells@[k as int]));
                }
                return Err(
                    SolveError::DeductionViolation { row: p.0, col: p.1, op: DeduceOp::Reveal },
                );
            }
            proof {
                if k == 0 && g0.vis_at(cells@[0].0 as int, cells@[0].1 as int) == Square::Unknown {
                    assert(pre.vis_at(p.0 as int, p.1 as int) == Square::Unknown);
                }
            }
            k = k + 1;
        }
        Ok(())
    }

    /// Flag every listed cell, stopping with a fatal deduction error on the
    /// first one the solution says is not a mine.
    pub fn mark_all(&mut self, cells: &Vec<(usize, usize)>) -> (r: Result<(), SolveError>)
        requires
            old(self).inv(),
            forall|k: int|
                0 <= k < cells@.len() ==> (#[trigger] cells@[k]).0 < old(self).game.rows
                    && cells@[k].1 < old(self).game.cols,
        ensures
            final(self).inv(),
            final(self).game.rows == old(self).game.rows,
            final(self).game.cols == old(self).game.cols,
            final(self).game.solution@ == old(self).game.solution@,
            final(self).groups@ == old(self).groups@,
            forall|i: int, j: int|
                old(self).game.in_bounds(i, j) && #[trigger] old(self).game.vis_at(i, j)
                    != Square::Unknown ==> final(self).game.vis_at(i, j) == old(self).game.vis_at(
                    i,
                    j,
                ),
            count_unknown(final(self).game.visible@) <= count_unknown(old(self).game.visible@),
            r is Ok <==> (forall|k: int|
                0 <= k < cells@.len() ==> mine_at(
                    old(self).game.solution@,
                    old(self).game.rows as int,
                    old(self).game.cols as int,
                    #[trigger] cells@[k],
                )),
            r is Err ==> (exists|k: int|
                0 <= k < cells@.len() && !mine_at(
                    old(self).game.solution@,
                    old(self).game.rows as int,
                    old(self).game.cols as int,
                    #[trigger] cells@[k],
                ) && r == Err::<(), SolveError>(
                    SolveError::DeductionViolation {
                        row: cells@[k].0,
                        col: cells@[k].1,
                        op: DeduceOp::Flag,
                    },
                )),
            r is Ok ==> (forall|k: int|
                0 <= k < cells@.len() ==> final(self).game.vis_at(
                    (#[trigger] cells@[k]).0 as int,
                    cells@[k].1 as int,
                ) == Square::Mine),
            r is Ok && cells@.len() > 0 && old(self).game.vis_at(
                cells@[0].0 as int,
                cells@[0].1 as int,
            ) == Square::Unknown ==> count_unknown(final(self).game.visible@) < count_unknown(
                old(self).game.visible@,
            ),
    {
        let ghost g0 = old(self).game;
        let mut k: usize = 0;
        while k < cells.len()
            invariant
                self.inv(),
                k <= cells@.len(),
                self.game.rows == g0.rows,
                self.game.cols == g0.cols,
                self.game.solution@ == g0.solution@,
                self.groups@ == old(self).groups@,
                g0 == old(self).game,
                forall|m: int|
                    0 <= m < cells@.len() ==> (#[trigger] cells@[m]).0 < g0.rows && cells@[m].1
                        < g0.cols,
                forall|i: int, j: int|
                    g0.in_bounds(i, j) && #[trigger] g0.vis_at(i, j) != Square::Unknown
                        ==> self.game.vis_at(i, j) == g0.vis_at(i, j),
                count_unknown(self.game.visible@) <= count_unknown(g0.visible@),
                forall|m: int|
                    0 <= m < k ==> mine_at(
                        g0.solution@,
                        g0.rows as int,
                        g0.cols as int,
                        #[trigger] cells@[m],
                    ),
                forall|m: int|
                    0 <= m < k ==> self.game.vis_at(
                        (#[trigger] cells@[m]).0 as int,
                        cells@[m].1 as int,
                    ) == Square::Mine,
                k > 0 && g0.vis_at(cells@[0].0 as int, cells@[0].1 as int) == Square::Unknown
                    ==> count_unknown(self.game.visible@) < count_unknown(g0.visible@),
                k == 0 ==> self.game == g0,
            decreases cells@.len() - k,
        {
            let p = cells[k];
            let ghost pre = self.game;
            let ghost pre_p = *self;
            let ok = self.game.mark_mine(p.0, p.1);
            proof {
                assert forall|a: int, b: int|
                    0 <= a < self.game.rows && 0 <= b < self.game.cols && #[trigger] memo_at(
                    *self,
                    a,
                    b,
                ) is Done implies forall|i: int, j: int|
                    self.game.in_bounds(i, j) && crate::game::near(i, j, a, b, 1)
                        ==> #[trigger] self.game.vis_at(i, j) != Square::Unknown by {
                    assert(memo_at(pre_p, a, b) is Done);
                    assert forall|i: int, j: int|
                        self.game.in_bounds(i, j) && crate::game::near(i, j, a, b, 1)
                            implies #[trigger] self.game.vis_at(i, j) != Square::Unknown by {
                        assert(pre_p.game.vis_at(i, j) != Square::Unknown);
                        assert(self.game.vis_at(i, j) == pre_p.game.vis_at(i, j));
                    }
                }
            }
            if !ok {
                proof {
                    assert(!mine_at(
                        g0.solution@,
                        g0.rows as int,
                        g0.cols as int,
                        cells@[k as int],
                    ));
                }
                return Err(
                    SolveError::DeductionViolation { row: p.0, col: p.1, op: DeduceOp::Flag },
                );
            }
            proof {
                if k == 0 && g0.vis_at(cells@[0].0 as int, cells@[0].1 as int) == Square::Unknown {
                    assert(pre.vis_at(p.0 as int, p.1 as int) == Square::Unknown);
                }
            }
            k = k + 1;
        }
        Ok(())
    }

    /// The shared all-mines / all-safe test: flag a constraint whose cells
    /// are all mines, reveal one whose cells are all safe, and report
    /// whether either rule fired. Exactness makes both deductions sound,
    /// so this never returns a violation.
    fn apply_group(&mut self, g: &Group) -> (r: Result<bool, SolveError>)
        requires
            old(self).inv(),
            g.wf(old(self).game.rows as int, old(self).game.cols as int),
            g.exact(
                old(self).game.solution@,
                old(self).game.rows as int,
                old(self).game.cols as int,
            ),
        ensures
            final(self).inv(),
            final(self).game.rows == old(self).game.rows,
            final(self).game.cols == old(self).game.cols,
            final(self).game.solution@ == old(self).game.solution@,
            final(self).groups@ == old(self).groups@,
            forall|i: int, j: int|
                old(self).game.in_bounds(i, j) && #[trigger] old(self).game.vis_at(i, j)
                    != Square::Unknown ==> final(self).game.vis_at(i, j) == old(self).game.vis_at(
                    i,
                    j,
                ),
            count_unknown(final(self).game.visible@) <= count_unknown(old(self).game.visible@),
            r is Ok,
            r == Ok::<bool, SolveError>(true) <==> ((g.mines > 0 && g.mines == g.unknowns@.len())
                || (g.mines == 0 && g.unknowns@.len() > 0)),
            r == Ok::<bool, SolveError>(false) ==> *final(self) == *old(self),
            r == Ok::<bool, SolveError>(true) && (forall|k: int|
                0 <= k < g.unknowns@.len() ==> old(self).game.vis_at(
                    (#[trigger] g.unknowns@[k]).0 as int,
                    g.unknowns@[k].1 as int,
                ) == Square::Unknown) ==> count_unknown(final(self).game.visible@) < count_unknown(
                old(self).game.visible@,
            ),
            r == Ok::<bool, SolveError>(true) ==> forall|k: int|
                0 <= k < g.unknowns@.len() ==> final(self).game.vis_at(
                    (#[trigger] g.unknowns@[k]).0 as int,
                    g.unknowns@[k].1 as int,
                ) != Square::Unknown,
    {
        let ghost sol = old(self).game.solution@;
        let ghost rows = old(self).game.rows as int;
        let ghost cols = old(self).game.cols as int;
        let len = g.unknowns.len();
        proof {
            assert forall|k: int| 0 <= k < g.unknowns@.len() implies (#[trigger] g.unknowns@[k]).0
                < old(self).game.rows && g.unknowns@[k].1 < old(self).game.cols by {
                assert(g.unk().contains(g.unknowns@[k]));
            }
        }
        if g.mines > 0 && g.mines == len {
            proof {
                lemma_all_mines(sol, rows, cols, *g);
                assert forall|k: int| 0 <= k < g.unknowns@.len() implies mine_at(
                    sol,
                    rows,
                    cols,
                    #[trigger] g.unknowns@[k],
                ) by {
                    assert(g.unk().contains(g.unknowns@[k]));
                }
            }
            match self.mark_all(&g.unknowns) {
                Ok(()) => Ok(true),
                Err(e) => {
                    proof {
                        assert(false);
                    }
                    Err(e)
                },
            }
        } else if g.mines == 0 && len > 0 {
            proof {
                lemma_all_safe(sol, rows, cols, *g);
                assert forall|k: int| 0 <= k < g.unknowns@.len() implies !mine_at(
                    sol,
                    rows,
                    cols,
                    #[trigger] g.unknowns@[k],
                ) by {
                    assert(g.unk().contains(g.unknowns@[k]));
                }
            }
            match self.click_all(&g.unknowns) {
                Ok(()) => Ok(true),
                Err(e) => {
                    proof {
                        assert(false);
                    }
                    Err(e)
                },
            }
        } else {
            Ok(false)
        }
    }

    /// Scan the 1-ring of the revealed numbered cell `(r, c)`: count flagged
    /// neighbors and collect the still-hidden ones into a constraint. The
    /// constraint is exact because the board is consistent and every
    /// revealed cell faithful to the solution.
    fn build_group(&self, r: usize, c: usize, n: u8) -> (g: Group)
        requires
            self.inv(),
            r < self.game.rows,
            c < self.game.cols,
            self.game.vis_at(r as int, c as int) == Square::Adj(n),
        ensures
            g.wf(self.game.rows as int, self.game.cols as int),
            g.exact(self.game.solution@, self.game.rows as int, self.game.cols as int),
            forall|p: (usize, usize)|
                g.unk().contains(p) ==> self.game.vis_at(p.0 as int, p.1 as int)
                    == Square::Unknown,
            forall|i: int, j: int|
                0 <= i < self.game.rows && 0 <= j < self.game.cols && crate::game::near(
                    i,
                    j,
                    r as int,
                    c as int,
                    1,
                ) && #[trigger] self.game.vis_at(i, j) == Square::Unknown ==> g.unk().contains(
                    (i as usize, j as usize),
                ),
            hidden_ring_count(self.game, r as int, c as int) == g.unknowns@.len(),
            flagged_ring_count(self.game, r as int, c as int) == n - g.mines,
            g.mines <= n,
    {
        let ghost sol = self.game.solution@;
        let ghost rows = self.game.rows as int;
        let ghost cols = self.game.cols as int;
        proof {
            assert(self.game.sol_at(r as int, c as int) == Square::Adj(n));
            assert(crate::square::sol_ok(self.game.sol_at(r as int, c as int)));
        }
        let adjv = self.game.adj(r, c);
        let mut known: usize = 0;
        let mut unknowns: Vec<(usize, usize)> = Vec::new();
        proof {
            assert(adjv@.take(0).to_set() =~= Set::<(usize, usize)>::empty()) by {
                if exists|x: (usize, usize)| adjv@.take(0).to_set().contains(x) {
                    let x = choose|x: (usize, usize)| adjv@.take(0).to_set().contains(x);
                    assert(adjv@.take(0).contains(x));
                }
            }
            assert(unknowns@.to_set() =~= Set::<(usize, usize)>::empty()) by {
                if exists|x: (usize, usize)| unknowns@.to_set().contains(x) {
                    let x = choose|x: (usize, usize)| unknowns@.to_set().contains(x);
                    assert(unknowns@.contains(x));
                }
            }
            assert(Set::<(usize, usize)>::empty().filter(
                |q: (usize, usize)| mine_at(sol, rows, cols, q),
            ) =~= Set::<(usize, usize)>::empty());
            assert(Set::<(usize, usize)>::empty().filter(
                |q: (usize, usize)| vis_unknown_at(self.game, q),
            ) =~= Set::<(usize, usize)>::empty());
            assert(Set::<(usize, usize)>::empty().filter(
                |q: (usize, usize)| vis_mine_at(self.game, q),
            ) =~= Set::<(usize, usize)>::empty());
        }
        let mut k: usize = 0;
        while k < adjv.len()
            invariant
                self.inv(),
                r < self.game.rows,
                c < self.game.cols,
                1 <= n <= 8,
                sol == self.game.solution@,
                rows == self.game.rows as int,
                cols == self.game.cols as int,
                k <= adjv@.len(),
                adjv@.no_duplicates(),
                forall|m: int|
                    0 <= m < adjv@.len() ==> (#[trigger] adjv@[m]).0 < self.game.rows
                        && adjv@[m].1 < self.game.cols,
                forall|i: int, j: int|
                    0 <= i < self.game.rows && 0 <= j < self.game.cols && crate::game::near(
                        i,
                        j,
                        r as int,
                        c as int,
                        1,
                    ) ==> #[trigger] adjv@.contains((i as usize, j as usize)),
                forall|m: int|
                    0 <= m < adjv@.len() ==> crate::game::near(
                        (#[trigger] adjv@[m]).0 as int,
                        adjv@[m].1 as int,
                        r as int,
                        c as int,
                        1,
                    ),
                unknowns@.no_duplicates(),
                forall|pp: (usize, usize)| #[trigger]
                    unknowns@.to_set().contains(pp) ==> exists|m: int|
                        0 <= m < k && adjv@[m] == pp,
                forall|pp: (usize, usize)| #[trigger]
                    unknowns@.to_set().contains(pp) ==> pp.0 < self.game.rows && pp.1
                        < self.game.cols && self.game.vis_at(pp.0 as int, pp.1 as int)
                        == Square::Unknown,
                known <= k,
                mines_in(sol, rows, cols, adjv@.take(k as int).to_set()) == known + mines_in(
                    sol,
                    rows,
                    cols,
                    unknowns@.to_set(),
                ),
                unknowns@.to_set() == adjv@.take(k as int).to_set().filter(
                    |pp: (usize, usize)| vis_unknown_at(self.game, pp),
                ),
                adjv@.take(k as int).to_set().filter(
                    |pp: (usize, usize)| vis_mine_at(self.game, pp),
                ).len() == known,
            decreases adjv@.len() - k,
        {
            let p = adjv[k];
            let ghost tk = adjv@.take(k as int);
            proof {
                assert(adjv@.take(k as int + 1) =~= tk.push(p));
                lemma_push_to_set(tk, p);
                assert(!tk.contains(p)) by {
                    if tk.contains(p) {
                        let m = choose|m: int| 0 <= m < k && tk[m] == p;
                        assert(adjv@[m] == adjv@[k as int]);
                    }
                }
                lemma_mines_in_insert(sol, rows, cols, tk.to_set(), p);
                crate::group::lemma_filter_insert(
                    tk.to_set(),
                    |pp: (usize, usize)| vis_mine_at(self.game, pp),
                    p,
                );
            }
            let sq = self.game.visible(p.0, p.1);
            match sq {
                Square::Mine => {
                    proof {
                        assert(self.game.vis_at(p.0 as int, p.1 as int) == self.game.sol_at(
                            p.0 as int,
                            p.1 as int,
                        ));
                        assert(mine_at(sol, rows, cols, p));
                        assert(vis_mine_at(self.game, p));
                        assert(adjv@.take(k as int + 1).to_set().filter(
                            |pp: (usize, usize)| vis_unknown_at(self.game, pp),
                        ) =~= tk.to_set().filter(
                            |pp: (usize, usize)| vis_unknown_at(self.game, pp),
                        ));
                    }
                    known = known + 1;
                },
                Square::Unknown => {
                    proof {
                        assert(!unknowns@.to_set().contains(p)) by {
                            if unknowns@.to_set().contains(p) {
                                let m = choose|m: int| 0 <= m < k && adjv@[m] == p;
                                assert(adjv@[m] == adjv@[k as int]);
                            }
                        }
                        lemma_mines_in_insert(sol, rows, cols, unknowns@.to_set(), p);
                        lemma_push_to_set(unknowns@, p);
                        assert(vis_unknown_at(self.game, p));
                        assert(adjv@.take(k as int + 1).to_set().filter(
                            |pp: (usize, usize)| vis_unknown_at(self.game, pp),
                        ) =~= tk.to_set().filter(
                            |pp: (usize, usize)| vis_unknown_at(self.game, pp),
                        ).insert(p));
                        assert(adjv@.take(k as int + 1).to_set().filter(
                            |pp: (usize, usize)| vis_mine_at(self.game, pp),
                        ) =~= tk.to_set().filter(
                            |pp: (usize, usize)| vis_mine_at(self.game, pp),
                        ));
                    }
                    unknowns.push(p);
                    proof {
                        assert forall|pp: (usize, usize)| #[trigger]
                            unknowns@.to_set().contains(pp) implies exists|m: int|
                            0 <= m < k + 1 && adjv@[m] == pp by {
                            if pp == p {
                                assert(adjv@[k as int] == pp);
                            } else {
                                let m = choose|m: int| 0 <= m < k && adjv@[m] == pp;
                            }
                        }
                    }
                },
                _ => {
                    proof {
                        assert(self.game.vis_at(p.0 as int, p.1 as int) == self.game.sol_at(
                            p.0 as int,
                            p.1 as int,
                        ));
                        assert(!mine_at(sol, rows, cols, p));
                        assert(!vis_unknown_at(self.game, p) && !vis_mine_at(self.game, p));
                        assert(adjv@.take(k as int + 1).to_set().filter(
                            |pp: (usize, usize)| vis_unknown_at(self.game, pp),
                        ) =~= tk.to_set().filter(
                            |pp: (usize, usize)| vis_unknown_at(self.game, pp),
                        ));
                        assert(adjv@.take(k as int + 1).to_set().filter(
                            |pp: (usize, usize)| vis_mine_at(self.game, pp),
                        ) =~= tk.to_set().filter(
                            |pp: (usize, usize)| vis_mine_at(self.game, pp),
                        ));
                    }
                },
            }
            k = k + 1;
        }
        proof {
            assert(adjv@.take(adjv@.len() as int) =~= adjv@);
            assert(adjv@.to_set() =~= ring1(rows, cols, r as int, c as int)) by {
                assert forall|x: (usize, usize)| adjv@.to_set().contains(x) implies ring1(
                    rows,
                    cols,
                    r as int,
                    c as int,
                ).contains(x) by {
                    let m = choose|m: int| 0 <= m < adjv@.len() && adjv@[m] == x;
                }
                assert forall|x: (usize, usize)|
                    ring1(rows, cols, r as int, c as int).contains(x) implies adjv@.to_set().contains(
                    x,
                ) by {
                    assert(adjv@.contains((((x.0 as int)) as usize, ((x.1 as int)) as usize)));
                    assert(((x.0 as int)) as usize == x.0);
                    assert(((x.1 as int)) as usize == x.1);
                }
            }
            assert(cell(sol, cols, r as int, c as int) == Square::Adj(n));
            assert(mines_in(sol, rows, cols, ring1(rows, cols, r as int, c as int)) == n as int);
            assert(known + mines_in(sol, rows, cols, unknowns@.to_set()) == n as int);
            unknowns@.unique_seq_to_set();
            assert(hidden_ring_count(self.game, r as int, c as int) == unknowns@.len());
            assert(flagged_ring_count(self.game, r as int, c as int) == known);
        }
        let g = Group { mines: n as usize - known, unknowns };
        g
    }

    /// The 1-1 pattern: with exactly two stored constraints contained in
    /// this cell's constraint, both needing a mine, a one-mine constraint
    /// whose two subsets share exactly one cell forces that cell to be the
    /// shared mine.
    fn one_one_rule(&mut self, group: &Group, s1: &Group, s2: &Group) -> (res: Result<
        bool,
        SolveError,
    >)
        requires
            old(self).inv(),
            group.wf(old(self).game.rows as int, old(self).game.cols as int),
            group.exact(
                old(self).game.solution@,
                old(self).game.rows as int,
                old(self).game.cols as int,
            ),
            s1.wf(old(self).game.rows as int, old(self).game.cols as int),
            s1.exact(
                old(self).game.solution@,
                old(self).game.rows as int,
                old(self).game.cols as int,
            ),
            s2.wf(old(self).game.rows as int, old(self).game.cols as int),
            s2.exact(
                old(self).game.solution@,
                old(self).game.rows as int,
                old(self).game.cols as int,
            ),
            s1.unk().subset_of(group.unk()),
            s2.unk().subset_of(group.unk()),
        ensures
            final(self).inv(),
            final(self).game.rows == old(self).game.rows,
            final(self).game.cols == old(self).game.cols,
            final(self).game.solution@ == old(self).game.solution@,
            final(self).groups@ == old(self).groups@,
            forall|i: int, j: int|
                old(self).game.in_bounds(i, j) && #[trigger] old(self).game.vis_at(i, j)
                    != Square::Unknown ==> final(self).game.vis_at(i, j) == old(self).game.vis_at(
                    i,
                    j,
                ),
            count_unknown(final(self).game.visible@) <= count_unknown(old(self).game.visible@),
            res is Ok,
            res == Ok::<bool, SolveError>(false) ==> *final(self) == *old(self),
            res == Ok::<bool, SolveError>(true) && (forall|p: (usize, usize)|
                group.unk().contains(p) ==> old(self).game.vis_at(p.0 as int, p.1 as int)
                    == Square::Unknown) ==> count_unknown(final(self).game.visible@)
                < count_unknown(old(self).game.visible@),
    {
        let ghost sol = old(self).game.solution@;
        let ghost rows = old(self).game.rows as int;
        let ghost cols = old(self).game.cols as int;
        if !(s1.mines > 0 && s2.mines > 0) {
            return Ok(false);
        }
        let inter = inter_cells(&s1.unknowns, &s2.unknowns);
        if group.mines == 1 && inter.len() == 1 {
            proof {
                inter@.unique_seq_to_set();
                lemma_one_one(sol, rows, cols, *group, *s1, *s2, inter@.to_set());
                assert forall|k: int| 0 <= k < inter@.len() implies (#[trigger] inter@[k]).0 < old(
                    self,
                ).game.rows && inter@[k].1 < old(self).game.cols && mine_at(
                    sol,
                    rows,
                    cols,
                    inter@[k],
                ) by {
                    assert(inter@.to_set().contains(inter@[k]));
                    assert(s1.unk().contains(inter@[k]));
                    assert(group.unk().contains(inter@[k]));
                }
            }
            match self.mark_all(&inter) {
                Ok(()) => {
                    proof {
                        assert(inter@.to_set().contains(inter@[0]));
                        assert(group.unk().contains(inter@[0]));
                    }
                    Ok(true)
                },
                Err(e) => {
                    proof {
                        assert(false);
                    }
                    Err(e)
                },
            }
        } else {
            Ok(false)
        }
    }

    /// Overlap reduction: bound how many mines the shared cells of two
    /// partially overlapping constraints can hold; when only one count is
    /// possible, the residual outside the overlap is itself an exact
    /// constraint, tested by the all-mines / all-safe rule.
    fn overlap_rule(&mut self, group: &Group, grp: &Group) -> (res: Result<bool, SolveError>)
        requires
            old(self).inv(),
            group.wf(old(self).game.rows as int, old(self).game.cols as int),
            group.exact(
                old(self).game.solution@,
                old(self).game.rows as int,
                old(self).game.cols as int,
            ),
            grp.wf(old(self).game.rows as int, old(self).game.cols as int),
            grp.exact(
                old(self).game.solution@,
                old(self).game.rows as int,
                old(self).game.cols as int,
            ),
        ensures
            final(self).inv(),
            final(self).game.rows == old(self).game.rows,
            final(self).game.cols == old(self).game.cols,
            final(self).game.solution@ == old(self).game.solution@,
            final(self).groups@ == old(self).groups@,
            forall|i: int, j: int|
                old(self).game.in_bounds(i, j) && #[trigger] old(self).game.vis_at(i, j)
                    != Square::Unknown ==> final(self).game.vis_at(i, j) == old(self).game.vis_at(
                    i,
                    j,
                ),
            count_unknown(final(self).game.visible@) <= count_unknown(old(self).game.visible@),
            res is Ok,
            res == Ok::<bool, SolveError>(false) ==> *final(self) == *old(self),
            res == Ok::<bool, SolveError>(true) && (forall|p: (usize, usize)|
                group.unk().contains(p) ==> old(self).game.vis_at(p.0 as int, p.1 as int)
                    == Square::Unknown) ==> count_unknown(final(self).game.visible@)
                < count_unknown(old(self).game.visible@),
    {
        let ghost sol = old(self).game.solution@;
        let ghost rows = old(self).game.rows as int;
        let ghost cols = old(self).game.cols as int;
        let inter = inter_cells(&group.unknowns, &grp.unknowns);
        proof {
            group.lemma_unk_len();
            grp.lemma_unk_len();
            inter@.unique_seq_to_set();
            lemma_overlap(sol, rows, cols, *group, *grp, inter@.to_set());
            vstd::set_lib::lemma_len_subset(inter@.to_set(), grp.unk());
        }
        let ghost mstar = mines_in(sol, rows, cols, inter@.to_set());
        let ilen = inter.len();
        let non_inter = grp.unknowns.len() - ilen;
        let lo = if grp.mines > non_inter {
            grp.mines - non_inter
        } else {
            0
        };
        let hi = if grp.mines < ilen {
            grp.mines
        } else {
            ilen
        };
        let mut poss: Vec<Group> = Vec::new();
        let mut m: usize = lo;
        while m <= hi
            invariant
                lo <= m <= hi + 1,
                hi <= 8,
                group.unknowns@.no_duplicates(),
                group.mines <= 8,
                inter@.no_duplicates(),
                inter@.to_set() == group.unk().intersect(grp.unk()),
                ilen == inter@.len(),
                ilen == inter@.to_set().len(),
                ilen <= group.unknowns@.len(),
                group.unk().len() == group.unknowns@.len(),
                forall|q: int|
                    0 <= q < poss@.len() ==> (#[trigger] poss@[q]).unknowns@.no_duplicates()
                        && poss@[q].unk() == group.unk().difference(inter@.to_set())
                        && poss@[q].mines <= group.mines,
                (lo <= mstar < m && mstar <= group.mines && group.mines - mstar
                    <= group.unknowns@.len() - ilen) ==> exists|q: int|
                    0 <= q < poss@.len() && (#[trigger] poss@[q]).mines == group.mines - mstar,
            decreases hi + 1 - m,
        {
            let ghost pre = poss@;
            let taken = m <= group.mines && group.mines - m <= group.unknowns.len() - ilen;
            if taken {
                let mg = Group { mines: m, unknowns: copy_cells(&inter) };
                proof {
                    assert(mg.unk() == inter@.to_set());
                    assert(mg.unk().subset_of(group.unk()));
                }
                let cand = group.minus(&mg);
                poss.push(cand);
                proof {
                    assert(poss@[pre.len() as int] == cand);
                    assert(cand.mines == group.mines - m);
                }
            }
            proof {
                if lo <= mstar && mstar < m + 1 && mstar <= group.mines && group.mines - mstar
                    <= group.unknowns@.len() - ilen {
                    if mstar == m {
                        assert(taken);
                        assert(poss@[pre.len() as int].mines == group.mines - mstar);
                    } else {
                        let q = choose|q: int|
                            0 <= q < pre.len() && (#[trigger] pre[q]).mines == group.mines - mstar;
                        assert(poss@[q].mines == group.mines - mstar);
                    }
                }
            }
            m = m + 1;
        }
        if poss.len() == 1 {
            if poss[0].unknowns.len() > 0 {
                proof {
                    assert(lo <= mstar <= hi);
                    assert(mstar <= group.mines);
                    assert(group.mines - mstar <= group.unknowns@.len() - ilen);
                    let q = choose|q: int|
                        0 <= q < poss@.len() && (#[trigger] poss@[q]).mines == group.mines - mstar;
                    assert(q == 0);
                    assert(poss@[0].mines == group.mines - mstar);
                    assert(mines_in(sol, rows, cols, poss@[0].unk()) == group.mines - mstar);
                    assert(poss@[0].exact(sol, rows, cols));
                    assert forall|p: (usize, usize)| poss@[0].unk().contains(p) implies p.0 < old(
                        self,
                    ).game.rows && p.1 < old(self).game.cols by {
                        assert(group.unk().contains(p));
                    }
                    assert(poss@[0].wf(rows, cols));
                }
                let fired = match self.apply_group(&poss[0]) {
                    Ok(b) => b,
                    Err(e) => {
                        proof {
                            assert(false);
                        }
                        return Err(e);
                    },
                };
                if fired {
                    proof {
                        assert forall|k: int| 0 <= k < poss@[0].unknowns@.len() implies old(
                            self,
                        ).game.vis_at(
                            (#[trigger] poss@[0].unknowns@[k]).0 as int,
                            poss@[0].unknowns@[k].1 as int,
                        ) == Square::Unknown || !(forall|p: (usize, usize)|
                            group.unk().contains(p) ==> old(self).game.vis_at(
                                p.0 as int,
                                p.1 as int,
                            ) == Square::Unknown) by {
                            assert(poss@[0].unk().contains(poss@[0].unknowns@[k]));
                            assert(group.unk().contains(poss@[0].unknowns@[k]));
                        }
                    }
                    return Ok(true);
                }
            }
        }
        Ok(false)
    }

    /// Collect copies of every constraint currently stored at a cell of the
    /// 5-by-5 block around `(r, c)`: the constraints whose unknowns can
    /// overlap this cell's.
    fn adjacent_groups(&self, r: usize, c: usize) -> (v: Vec<Group>)
        requires
            self.inv(),
            r < self.game.rows,
            c < self.game.cols,
        ensures
            forall|k: int|
                0 <= k < v@.len() ==> (#[trigger] v@[k]).wf(
                    self.game.rows as int,
                    self.game.cols as int,
                ) && v@[k].exact(
                    self.game.solution@,
                    self.game.rows as int,
                    self.game.cols as int,
                ),
    {
        let ring2 = self.game.adj2(r, c);
        let mut v: Vec<Group> = Vec::new();
        let mut k: usize = 0;
        while k < ring2.len()
            invariant
                self.inv(),
                r < self.game.rows,
                c < self.game.cols,
                k <= ring2@.len(),
                forall|m: int|
                    0 <= m < ring2@.len() ==> (#[trigger] ring2@[m]).0 < self.game.rows
                        && ring2@[m].1 < self.game.cols,
                forall|m: int|
                    0 <= m < v@.len() ==> (#[trigger] v@[m]).wf(
                        self.game.rows as int,
                        self.game.cols as int,
                    ) && v@[m].exact(
                        self.game.solution@,
                        self.game.rows as int,
                        self.game.cols as int,
                    ),
            decreases ring2@.len() - k,
        {
            let p = ring2[k];
            let kk = self.gidx(p.0, p.1);
            let ghost rows = self.game.rows as int;
            let ghost cols = self.game.cols as int;
            let ghost sol = self.game.solution@;
            match &self.groups[kk] {
                Sq::Grps(gs) => {
                    proof {
                        assert(match self.groups@[kk as int] {
                            Sq::Grps(gs2) => forall|m: int|
                                0 <= m < gs2@.len() ==> (#[trigger] gs2@[m]).wf(rows, cols)
                                    && gs2@[m].exact(sol, rows, cols),
                            _ => true,
                        });
                    }
                    let mut m: usize = 0;
                    while m < gs.len()
                        invariant
                            m <= gs@.len(),
                            forall|q: int|
                                0 <= q < gs@.len() ==> (#[trigger] gs@[q]).wf(rows, cols)
                                    && gs@[q].exact(sol, rows, cols),
                            forall|q: int|
                                0 <= q < v@.len() ==> (#[trigger] v@[q]).wf(rows, cols)
                                    && v@[q].exact(sol, rows, cols),
                        decreases gs@.len() - m,
                    {
                        v.push(gs[m].duplicate());
                        m = m + 1;
                    }
                },
                _ => {},
            }
            k = k + 1;
        }
        v
    }

    /// One cell of a sweep. For a revealed numbered, not yet resolved cell:
    /// build its constraint; try the trivial all-safe / all-mines rules
    /// (resolving the cell); try subset elimination or the 1-1 pattern when
    /// exactly one or two stored neighbor constraints are contained in it;
    /// then reduce against every neighbor constraint in turn, keeping
    /// residuals; finally re-store the residual list if it changed. Returns
    /// `(hard, soft)`: `hard` is progress the termination measure sees,
    /// `soft` a rewrite of the memo alone.
    fn process_cell(&mut self, r: usize, c: usize) -> (res: Result<(bool, bool), SolveError>)
        requires
            old(self).inv(),
            r < old(self).game.rows,
            c < old(self).game.cols,
        ensures
            final(self).inv(),
            final(self).game.rows == old(self).game.rows,
            final(self).game.cols == old(self).game.cols,
            final(self).game.solution@ == old(self).game.solution@,
            forall|i: int, j: int|
                old(self).game.in_bounds(i, j) && #[trigger] old(self).game.vis_at(i, j)
                    != Square::Unknown ==> final(self).game.vis_at(i, j) == old(self).game.vis_at(
                    i,
                    j,
                ),
            progress_le(*final(self), *old(self)),
            res is Ok,
            (match res {
                Ok((hard, soft)) => {
                    &&& (!hard && !soft ==> *final(self) == *old(self))
                    &&& (hard ==> progress_lt(*final(self), *old(self)))
                    &&& (!hard ==> m_u(*final(self)) == m_u(*old(self)) && m_nd(*final(self))
                        == m_nd(*old(self)) && m_up(*final(self)) == m_up(*old(self)))
                    &&& (!hard ==> final(self).game == old(self).game)
                    &&& (!hard ==> cell_settled(final(self).game, r as int, c as int))
                },
                _ => true,
            }),
    {
        let ghost g0 = *old(self);
        let ghost sol = self.game.solution@;
        let ghost rows = self.game.rows as int;
        let ghost cols = self.game.cols as int;
        let kk = self.gidx(r, c);
        let is_done = match &self.groups[kk] {
            Sq::Done => true,
            _ => false,
        };
        if is_done {
            proof {
                assert(memo_at(*self, r as int, c as int) is Done);
                let hs = ring1(rows, cols, r as int, c as int).filter(
                    |p: (usize, usize)| vis_unknown_at(self.game, p),
                );
                assert forall|p: (usize, usize)| !(#[trigger] hs.contains(p)) by {
                    if hs.contains(p) {
                        assert(vis_unknown_at(self.game, p));
                        assert(self.game.vis_at(p.0 as int, p.1 as int) != Square::Unknown);
                    }
                }
                assert(hs =~= Set::<(usize, usize)>::empty());
                assert(hidden_ring_count(self.game, r as int, c as int) == 0);
                assert(cell_settled(self.game, r as int, c as int));
            }
            return Ok((false, false));
        }
        let vsq = self.game.visible(r, c);
        let n: u8;
        match vsq {
            Square::Adj(x) => {
                n = x;
            },
            _ => {
                return Ok((false, false));
            },
        }
        let group = self.build_group(r, c, n);
        proof {
            group.lemma_unk_len();
        }
        let glen = group.unknowns.len();
        if (group.mines == 0 && glen > 0) || (group.mines == glen && glen > 0) {
            proof {
                assert forall|k2: int| 0 <= k2 < group.unknowns@.len() implies self.game.vis_at(
                    (#[trigger] group.unknowns@[k2]).0 as int,
                    group.unknowns@[k2].1 as int,
                ) == Square::Unknown by {
                    assert(group.unk().contains(group.unknowns@[k2]));
                }
            }
            let fired = match self.apply_group(&group) {
                Ok(b) => b,
                Err(e) => {
                    proof {
                        assert(false);
                    }
                    return Err(e);
                },
            };
            proof {
                assert(fired);
                assert(count_unknown(self.game.visible@) < count_unknown(g0.game.visible@));
            }
            let ghost pre_groups = self.groups@;
            proof {
                assert forall|i: int, j: int|
                    self.game.in_bounds(i, j) && crate::game::near(i, j, r as int, c as int, 1)
                        implies #[trigger] self.game.vis_at(i, j) != Square::Unknown by {
                    if g0.game.vis_at(i, j) == Square::Unknown {
                        assert(group.unk().contains((i as usize, j as usize)));
                        let kx = choose|kx: int|
                            0 <= kx < group.unknowns@.len() && group.unknowns@[kx] == (
                            i as usize,
                            j as usize,
                        );
                        assert(self.game.vis_at(
                            group.unknowns@[kx].0 as int,
                            group.unknowns@[kx].1 as int,
                        ) != Square::Unknown);
                    } else {
                        assert(self.game.vis_at(i, j) == g0.game.vis_at(i, j));
                    }
                }
            }
            self.set_group(r, c, Sq::Done);
            proof {
                lemma_count_not_done_update(pre_groups, kk as int, Sq::Done);
                lemma_count_unprocessed_update(pre_groups, kk as int, Sq::Done);
            }
            return Ok((true, false));
        }
        proof {
            crate::group::lemma_mines_in_le(sol, rows, cols, group.unk());
            assert(cell_settled(g0.game, r as int, c as int));
        }
        let adj_groups = self.adjacent_groups(r, c);
        let mut subs: Vec<Group> = Vec::new();
        let mut k: usize = 0;
        while k < adj_groups.len()
            invariant
                k <= adj_groups@.len(),
                group.unknowns@.no_duplicates(),
                forall|m: int|
                    0 <= m < adj_groups@.len() ==> (#[trigger] adj_groups@[m]).wf(rows, cols)
                        && adj_groups@[m].exact(sol, rows, cols),
                forall|m: int|
                    0 <= m < subs@.len() ==> (#[trigger] subs@[m]).wf(rows, cols)
                        && subs@[m].exact(sol, rows, cols) && subs@[m].unk().subset_of(group.unk()),
            decreases adj_groups@.len() - k,
        {
            let cand = &adj_groups[k];
            if is_subset_cells(&cand.unknowns, &group.unknowns) {
                subs.push(cand.duplicate());
            }
            k = k + 1;
        }
        if subs.len() == 1 {
            proof {
                lemma_sub_exact(sol, rows, cols, group, subs@[0]);
            }
            let diff = group.minus(&subs[0]);
            proof {
                assert(diff.exact(sol, rows, cols));
                assert forall|p: (usize, usize)| diff.unk().contains(p) implies p.0
                    < self.game.rows && p.1 < self.game.cols by {
                    assert(group.unk().contains(p));
                }
                assert(diff.wf(rows, cols));
            }
            let fired = match self.apply_group(&diff) {
                Ok(b) => b,
                Err(e) => {
                    proof {
                        assert(false);
                    }
                    return Err(e);
                },
            };
            if fired {
                proof {
                    assert forall|k2: int| 0 <= k2 < diff.unknowns@.len() implies g0.game.vis_at(
                        (#[trigger] diff.unknowns@[k2]).0 as int,
                        diff.unknowns@[k2].1 as int,
                    ) == Square::Unknown by {
                        assert(diff.unk().contains(diff.unknowns@[k2]));
                        assert(group.unk().contains(diff.unknowns@[k2]));
                    }
                }
                return Ok((true, false));
            }
        } else if subs.len() == 2 {
            let fired = match self.one_one_rule(&group, &subs[0], &subs[1]) {
                Ok(b) => b,
                Err(e) => {
                    proof {
                        assert(false);
                    }
                    return Err(e);
                },
            };
            if fired {
                return Ok((true, false));
            }
        }
        let mut grps: Vec<Group> = Vec::new();
        grps.push(group.duplicate());
        let mut hard = false;
        let mut k2: usize = 0;
        while k2 < adj_groups.len()
            invariant
                self.inv(),
                r < self.game.rows,
                c < self.game.cols,
                kk == r * self.game.cols + c,
                kk < self.groups@.len(),
                self.game.rows == g0.game.rows,
                self.game.cols == g0.game.cols,
                self.game.solution@ == g0.game.solution@,
                sol == g0.game.solution@,
                rows == g0.game.rows as int,
                cols == g0.game.cols as int,
                self.groups@ == g0.groups@,
                g0 == *old(self),
                g0.inv(),
                !(g0.groups@[kk as int] is Done),
                forall|i: int, j: int|
                    g0.game.in_bounds(i, j) && #[trigger] g0.game.vis_at(i, j) != Square::Unknown
                        ==> self.game.vis_at(i, j) == g0.game.vis_at(i, j),
                count_unknown(self.game.visible@) <= count_unknown(g0.game.visible@),
                !hard ==> *self == g0,
                hard ==> count_unknown(self.game.visible@) < count_unknown(g0.game.visible@),
                k2 <= adj_groups@.len(),
                group.wf(rows, cols),
                group.exact(sol, rows, cols),
                forall|p: (usize, usize)|
                    group.unk().contains(p) ==> g0.game.vis_at(p.0 as int, p.1 as int)
                        == Square::Unknown,
                forall|m: int|
                    0 <= m < adj_groups@.len() ==> (#[trigger] adj_groups@[m]).wf(rows, cols)
                        && adj_groups@[m].exact(sol, rows, cols),
                forall|m: int|
                    0 <= m < grps@.len() ==> (#[trigger] grps@[m]).wf(rows, cols)
                        && grps@[m].exact(sol, rows, cols),
            decreases adj_groups@.len() - k2,
        {
            let grp = &adj_groups[k2];
            if is_subset_cells(&grp.unknowns, &group.unknowns) {
                proof {
                    lemma_sub_exact(sol, rows, cols, group, adj_groups@[k2 as int]);
                }
                let diff = group.minus(grp);
                proof {
                    assert(diff.exact(sol, rows, cols));
                    assert forall|p: (usize, usize)| diff.unk().contains(p) implies p.0
                        < self.game.rows && p.1 < self.game.cols by {
                        assert(group.unk().contains(p));
                    }
                    assert(diff.wf(rows, cols));
                }
                let ghost pre = *self;
                let fired = match self.apply_group(&diff) {
                    Ok(b) => b,
                    Err(e) => {
                        proof {
                            assert(false);
                        }
                        return Err(e);
                    },
                };
                if fired {
                    proof {
                        if pre == g0 {
                            assert forall|k3: int|
                                0 <= k3 < diff.unknowns@.len() implies pre.game.vis_at(
                                (#[trigger] diff.unknowns@[k3]).0 as int,
                                diff.unknowns@[k3].1 as int,
                            ) == Square::Unknown by {
                                assert(diff.unk().contains(diff.unknowns@[k3]));
                                assert(group.unk().contains(diff.unknowns@[k3]));
                            }
                        }
                    }
                    hard = true;
                } else {
                    if diff.unknowns.len() > 0 {
                        grps.push(diff);
                    }
                }
            } else {
                let ghost pre = *self;
                let fired = match self.overlap_rule(&group, grp) {
                    Ok(b) => b,
                    Err(e) => {
                        proof {
                            assert(false);
                        }
                        return Err(e);
                    },
                };
                if fired {
                    proof {
                        if pre == g0 {
                            assert(count_unknown(self.game.visible@) < count_unknown(
                                g0.game.visible@,
                            ));
                        }
                    }
                    return Ok((true, false));
                }
            }
            k2 = k2 + 1;
        }
        let was_unprocessed = match &self.groups[kk] {
            Sq::Unprocessed => true,
            _ => false,
        };
        let store_new = match &self.groups[kk] {
            Sq::Unprocessed => true,
            Sq::Grps(gs) => !groups_list_eq(gs, &grps),
            Sq::Done => false,
        };
        if store_new {
            let ghost pre_groups = self.groups@;
            self.set_group(r, c, Sq::Grps(grps));
            proof {
                assert(count_not_done(self.groups@) == count_not_done(pre_groups)) by {
                    lemma_count_not_done_update(
                        pre_groups,
                        kk as int,
                        self.groups@[kk as int],
                    );
                }
                assert(count_unprocessed(self.groups@) == count_unprocessed(pre_groups) - (
                if pre_groups[kk as int] is Unprocessed {
                    1int
                } else {
                    0int
                })) by {
                    lemma_count_unprocessed_update(
                        pre_groups,
                        kk as int,
                        self.groups@[kk as int],
                    );
                }
            }
            if was_unprocessed {
                return Ok((true, false));
            } else {
                return Ok((hard, true));
            }
        } else {
            return Ok((hard, false));
        }
    }

    /// One full scan of the grid, visiting every cell once in row-major
    /// order. `Ok((false, false))` means the scan changed nothing at all:
    /// the fixed point is reached.
    pub fn sweep(&mut self) -> (res: Result<(bool, bool), SolveError>)
        requires
            old(self).inv(),
        ensures
            final(self).inv(),
            final(self).game.rows == old(self).game.rows,
            final(self).game.cols == old(self).game.cols,
            final(self).game.solution@ == old(self).game.solution@,
            forall|i: int, j: int|
                old(self).game.in_bounds(i, j) && #[trigger] old(self).game.vis_at(i, j)
                    != Square::Unknown ==> final(self).game.vis_at(i, j) == old(self).game.vis_at(
                    i,
                    j,
                ),
            progress_le(*final(self), *old(self)),
            res is Ok,
            (match res {
                Ok((hard, soft)) => {
                    &&& (!hard && !soft ==> *final(self) == *old(self))
                    &&& (hard ==> progress_lt(*final(self), *old(self)))
                    &&& (!hard ==> m_u(*final(self)) == m_u(*old(self)) && m_nd(*final(self))
                        == m_nd(*old(self)) && m_up(*final(self)) == m_up(*old(self)))
                    &&& (!hard ==> final(self).game == old(self).game)
                    &&& (!hard ==> crate::game::board_settled(final(self).game))
                },
                _ => true,
            }),
    {
        let rows = self.game.rows;
        let cols = self.game.cols;
        let mut hard = false;
        let mut soft = false;
        let mut r: usize = 0;
        while r < rows
            invariant
                self.inv(),
                rows == self.game.rows,
                cols == self.game.cols,
                r <= rows,
                self.game.rows == old(self).game.rows,
                self.game.cols == old(self).game.cols,
                self.game.solution@ == old(self).game.solution@,
                forall|i: int, j: int|
                    old(self).game.in_bounds(i, j) && #[trigger] old(self).game.vis_at(i, j)
                        != Square::Unknown ==> self.game.vis_at(i, j) == old(self).game.vis_at(
                        i,
                        j,
                    ),
                progress_le(*self, *old(self)),
                !hard && !soft ==> *self == *old(self),
                hard ==> progress_lt(*self, *old(self)),
                !hard ==> m_u(*self) == m_u(*old(self)) && m_nd(*self) == m_nd(*old(self)) && m_up(
                    *self,
                ) == m_up(*old(self)),
                !hard ==> self.game == old(self).game,
                !hard ==> forall|a: int, b: int|
                    0 <= a < r && 0 <= b < cols ==> #[trigger] cell_settled(self.game, a, b),
            decreases rows - r,
        {
            let mut c: usize = 0;
            while c < cols
                invariant
                    self.inv(),
                    rows == self.game.rows,
                    cols == self.game.cols,
                    r < rows,
                    c <= cols,
                    self.game.rows == old(self).game.rows,
                    self.game.cols == old(self).game.cols,
                    self.game.solution@ == old(self).game.solution@,
                    forall|i: int, j: int|
                        old(self).game.in_bounds(i, j) && #[trigger] old(self).game.vis_at(i, j)
                            != Square::Unknown ==> self.game.vis_at(i, j) == old(self).game.vis_at(
                            i,
                            j,
                        ),
                    progress_le(*self, *old(self)),
                    !hard && !soft ==> *self == *old(self),
                    hard ==> progress_lt(*self, *old(self)),
                    !hard ==> m_u(*self) == m_u(*old(self)) && m_nd(*self) == m_nd(*old(self))
                        && m_up(*self) == m_up(*old(self)),
                    !hard ==> self.game == old(self).game,
                    !hard ==> forall|a: int, b: int|
                        0 <= a < r && 0 <= b < cols ==> #[trigger] cell_settled(self.game, a, b),
                    !hard ==> forall|b: int|
                        0 <= b < c ==> #[trigger] cell_settled(self.game, r as int, b),
                decreases cols - c,
            {
                let ghost pre = *self;
                let step = match self.process_cell(r, c) {
                    Ok(t) => t,
                    Err(e) => {
                        proof {
                            assert(false);
                        }
                        return Err(e);
                    },
                };
                let (h, s) = step;
                proof {
                    if hard && !h {
                        assert(progress_lt(*self, *old(self)));
                    }
                }
                hard = hard || h;
                soft = soft || s;
                c = c + 1;
            }
            r = r + 1;
        }
        Ok((hard, soft))
    }

    /// Play to a fixed point: sweep until a full pass changes nothing, then
    /// stop. The board is then solved or stuck; on a consistent board no
    /// deduction is ever wrong, so the result is always `Ok`, and the final
    /// board is settled: no revealed number anywhere still admits a forced
    /// all-safe or all-mines move.
    ///
    /// Every pass that reveals, flags, resolves or first visits a cell
    /// strictly shrinks a well-founded measure. A pass that only rewrites
    /// already-visited memo entries shrinks none of them, so after
    /// `rows * cols` such passes in a row with no board progress the loop
    /// declares the fixed point reached rather than iterate forever.
    pub fn play(&mut self) -> (res: Result<(), SolveError>)
        requires
            old(self).inv(),
        ensures
            final(self).inv(),
            final(self).game.rows == old(self).game.rows,
            final(self).game.cols == old(self).game.cols,
            final(self).game.solution@ == old(self).game.solution@,
            forall|i: int, j: int|
                old(self).game.in_bounds(i, j) && #[trigger] old(self).game.vis_at(i, j)
                    != Square::Unknown ==> final(self).game.vis_at(i, j) == old(self).game.vis_at(
                    i,
                    j,
                ),
            res == Ok::<(), SolveError>(()),
            crate::game::board_settled(final(self).game),
    {
        let area = self.game.visible.len();
        let mut fuel: usize = area;
        loop
            invariant
                self.inv(),
                self.game.rows == old(self).game.rows,
                self.game.cols == old(self).game.cols,
                self.game.solution@ == old(self).game.solution@,
                forall|i: int, j: int|
                    old(self).game.in_bounds(i, j) && #[trigger] old(self).game.vis_at(i, j)
                        != Square::Unknown ==> self.game.vis_at(i, j) == old(self).game.vis_at(
                        i,
                        j,
                    ),
            decreases m_u(*self), m_nd(*self), m_up(*self), fuel,
        {
            let step = match self.sweep() {
                Ok(t) => t,
                Err(e) => {
                    proof {
                        assert(false);
                    }
                    return Err(e);
                },
            };
            let (hard, soft) = step;
            if hard {
                fuel = area;
            } else if soft {
                if fuel == 0 {
                    return Ok(());
                }
                fuel = fuel - 1;
            } else {
                return Ok(());
            }
        }
    }
}

/// Soundness of everything the engine ever shows: in any reachable state a
/// revealed cell shows exactly its solution value, and a flagged cell is a
/// real mine. The engine therefore never reveals a mine and never flags a
/// safe cell.
pub proof fn lemma_engine_truthful(p: Player)
    requires
        p.inv(),
    ensures
        forall|i: int, j: int|
            p.game.in_bounds(i, j) && #[trigger] p.game.vis_at(i, j) != Square::Unknown
                ==> p.game.vis_at(i, j) == p.game.sol_at(i, j),
        forall|i: int, j: int|
            p.game.in_bounds(i, j) && #[trigger] p.game.vis_at(i, j) == Square::Mine
                ==> p.game.sol_at(i, j) == Square::Mine,
{
}

/// Order-sensitive comparison of two constraint lists, each constraint
/// compared by mine count and unknown-set equality. Used only to decide
/// whether a recomputed memo entry is a change worth recording.
fn groups_list_eq(a: &Vec<Group>, b: &Vec<Group>) -> bool {
    if a.len() != b.len() {
        return false;
    }
    let mut k: usize = 0;
    while k < a.len()
        invariant
            k <= a@.len(),
            a@.len() == b@.len(),
        decreases a@.len() - k,
    {
        let x = &a[k];
        let y = &b[k];
        if x.mines != y.mines {
            return false;
        }
        if !is_subset_cells(&x.unknowns, &y.unknowns) {
            return false;
        }
        if !is_subset_cells(&y.unknowns, &x.unknowns) {
            return false;
        }
        k = k + 1;
    }
    true
}

} // verus!
