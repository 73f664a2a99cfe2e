use minesolve::game::Game;
use minesolve::player::Player;
use minesolve::square::{DeduceOp, SolveError, Square};

#[test]
fn from_code_decodes_cell_values() {
    assert_eq!(Square::from_code(0), Ok(Square::Blank));
    assert_eq!(Square::from_code(5), Ok(Square::Adj(5)));
    assert_eq!(Square::from_code(9), Ok(Square::Mine));
    assert_eq!(Square::from_code(12), Err(SolveError::InvalidInput));
}

#[test]
fn from_sol_accepts_valid_input() {
    let g = Game::from_sol(vec![vec![0, 0, 0], vec![0, 0, 0]]).unwrap();
    assert_eq!(g.rows, 2);
    assert_eq!(g.cols, 3);
    for r in 0..2 {
        for c in 0..3 {
            assert_eq!(g.visible(r, c), Square::Unknown);
        }
    }
}

#[test]
fn from_sol_rejects_bad_cell_code() {
    assert_eq!(
        Game::from_sol(vec![vec![0, 10]]).err(),
        Some(SolveError::InvalidInput)
    );
}

#[test]
fn from_sol_rejects_ragged_rows() {
    assert_eq!(
        Game::from_sol(vec![vec![0, 0], vec![0]]).err(),
        Some(SolveError::InvalidInput)
    );
}

#[test]
fn from_sol_rejects_empty_input() {
    assert_eq!(Game::from_sol(vec![]).err(), Some(SolveError::InvalidInput));
    assert_eq!(
        Game::from_sol(vec![vec![]]).err(),
        Some(SolveError::InvalidInput)
    );
}

#[test]
fn click_floods_a_mine_free_board() {
    // Completeness on a trivial board: one reveal leaves nothing hidden.
    let mut g = Game::from_sol(vec![vec![0, 0, 0], vec![0, 0, 0], vec![0, 0, 0]]).unwrap();
    assert!(g.click(1, 1));
    for r in 0..3 {
        for c in 0..3 {
            assert_eq!(g.visible(r, c), Square::Blank);
        }
    }
    assert!(g.is_solved());
}

#[test]
fn click_on_a_mine_returns_false() {
    let mut g = Game::from_sol(vec![vec![9, 1], vec![1, 1]]).unwrap();
    assert!(!g.click(0, 0));
    assert_eq!(g.visible(0, 0), Square::Mine);
}

#[test]
fn mark_mine_only_flags_real_mines() {
    let mut g = Game::from_sol(vec![vec![9, 1], vec![1, 1]]).unwrap();
    assert!(g.mark_mine(0, 0));
    assert_eq!(g.visible(0, 0), Square::Mine);
    assert!(!g.mark_mine(1, 1));
    assert_eq!(g.visible(1, 1), Square::Unknown);
}

#[test]
fn adj_yields_the_in_bounds_ring() {
    let g = Game::from_sol(vec![vec![0, 0, 0], vec![0, 0, 0], vec![0, 0, 0]]).unwrap();
    assert_eq!(g.adj(0, 0).len(), 3);
    assert_eq!(g.adj(1, 1).len(), 8);
    assert!(!g.adj(1, 1).contains(&(1, 1)));
    assert_eq!(g.adj(2, 1).len(), 5);
}

#[test]
fn adj2_yields_the_five_by_five_block() {
    let zeros = vec![vec![0u8; 5]; 5];
    let g = Game::from_sol(zeros).unwrap();
    assert_eq!(g.adj2(2, 2).len(), 24);
    assert!(!g.adj2(2, 2).contains(&(2, 2)));
    assert_eq!(g.adj2(0, 0).len(), 8);
}

#[test]
fn is_consistent_tells_true_boards_apart() {
    let good = Game::from_sol(vec![vec![0, 1, 9]]).unwrap();
    assert!(good.is_consistent());
    let bad = Game::from_sol(vec![vec![1, 2, 1, 9]]).unwrap();
    assert!(!bad.is_consistent());
}

#[test]
fn subset_scenario_flags_the_mine() {
    // 1x3 row [0,1,9]: revealing cell 0 floods cell 1; its single unknown
    // neighbor must then be flagged, ending with no hidden cells.
    let mut g = Game::from_sol(vec![vec![0, 1, 9]]).unwrap();
    assert!(g.is_consistent());
    assert!(g.click(0, 0));
    assert_eq!(g.visible(0, 1), Square::Adj(1));
    let mut p = Player::from_game(g);
    assert_eq!(p.play(), Ok(()));
    assert_eq!(p.game.visible(0, 0), Square::Blank);
    assert_eq!(p.game.visible(0, 1), Square::Adj(1));
    assert_eq!(p.game.visible(0, 2), Square::Mine);
    assert!(p.game.is_solved());
}

#[test]
fn shared_mine_line_is_deduced() {
    // 1x4 row with the mine at index 3: the numbered cells' unknown sets
    // overlap on index 3 alone, and the engine flags exactly that cell.
    let mut g = Game::from_sol(vec![vec![0, 0, 1, 9]]).unwrap();
    assert!(g.is_consistent());
    assert!(g.click(0, 0));
    let mut p = Player::from_game(g);
    assert_eq!(p.play(), Ok(()));
    assert_eq!(p.game.visible(0, 0), Square::Blank);
    assert_eq!(p.game.visible(0, 1), Square::Blank);
    assert_eq!(p.game.visible(0, 2), Square::Adj(1));
    assert_eq!(p.game.visible(0, 3), Square::Mine);
    assert!(p.game.is_solved());
}

#[test]
fn overlapping_constraints_solve_a_two_row_board() {
    // Three numbered cells over a hidden row with one mine: subset
    // elimination between the overlapping constraints pins the mine down.
    let mut g = Game::from_sol(vec![vec![1, 1, 1], vec![1, 9, 1]]).unwrap();
    assert!(g.is_consistent());
    assert!(g.click(0, 0));
    assert!(g.click(0, 1));
    assert!(g.click(0, 2));
    let mut p = Player::from_game(g);
    assert_eq!(p.play(), Ok(()));
    assert_eq!(p.game.visible(1, 1), Square::Mine);
    assert_eq!(p.game.visible(1, 0), Square::Adj(1));
    assert_eq!(p.game.visible(1, 2), Square::Adj(1));
    assert!(p.game.is_solved());
}

#[test]
fn inconsistent_board_yields_a_deduction_violation() {
    // Not a true Minesweeper solution: cell 0 claims one adjacent mine but
    // its only neighbor holds a 2. The first forced flag is refused. This
    // board fails the precondition of `from_game` and `play` (the solver is
    // verified for consistent boards only); the test pins down what the
    // compiled code does outside that domain.
    let mut g = Game::from_sol(vec![vec![1, 2, 1, 9]]).unwrap();
    assert!(!g.is_consistent());
    assert!(g.click(0, 0));
    let mut p = Player::from_game(g);
    assert_eq!(
        p.play(),
        Err(SolveError::DeductionViolation {
            row: 0,
            col: 1,
            op: DeduceOp::Flag
        })
    );
}

#[test]
fn stuck_board_ends_without_error() {
    // The revealed 1 sees two hidden neighbors, either of which could be
    // the mine: the engine stops at the fixed point and reports no error.
    let mut g = Game::from_sol(vec![vec![9, 1, 1, 9]]).unwrap();
    assert!(g.is_consistent());
    assert!(g.click(0, 1));
    let mut p = Player::from_game(g);
    assert_eq!(p.play(), Ok(()));
    assert!(!p.game.is_solved());
    assert_eq!(p.game.visible(0, 0), Square::Unknown);
    assert_eq!(p.game.visible(0, 1), Square::Adj(1));
    assert_eq!(p.game.visible(0, 2), Square::Unknown);
    assert_eq!(p.game.visible(0, 3), Square::Unknown);
}

#[test]
fn replaying_after_the_fixed_point_changes_nothing() {
    let mut g = Game::from_sol(vec![vec![0, 1, 9]]).unwrap();
    assert!(g.click(0, 0));
    let mut p = Player::from_game(g);
    assert_eq!(p.play(), Ok(()));
    let before: Vec<Square> = (0..3).map(|c| p.game.visible(0, c)).collect();
    assert_eq!(p.play(), Ok(()));
    let after: Vec<Square> = (0..3).map(|c| p.game.visible(0, c)).collect();
    assert_eq!(before, after);
}

#[test]
fn replaying_a_stuck_board_changes_nothing() {
    let mut g = Game::from_sol(vec![vec![9, 1, 1, 9]]).unwrap();
    assert!(g.click(0, 1));
    let mut p = Player::from_game(g);
    assert_eq!(p.play(), Ok(()));
    let before: Vec<Square> = (0..4).map(|c| p.game.visible(0, c)).collect();
    assert_eq!(p.play(), Ok(()));
    let after: Vec<Square> = (0..4).map(|c| p.game.visible(0, c)).collect();
    assert_eq!(before, after);
}

#[test]
fn click_all_reports_the_offending_reveal() {
    let g = Game::from_sol(vec![vec![9, 1], vec![1, 1]]).unwrap();
    let mut p = Player::from_game(g);
    assert_eq!(
        p.click_all(&vec![(0, 1), (0, 0)]),
        Err(SolveError::DeductionViolation {
            row: 0,
            col: 0,
            op: DeduceOp::Reveal
        })
    );
}

#[test]
fn mark_all_reports_the_offending_flag() {
    let g = Game::from_sol(vec![vec![9, 1], vec![1, 1]]).unwrap();
    let mut p = Player::from_game(g);
    assert_eq!(
        p.mark_all(&vec![(0, 0), (1, 1)]),
        Err(SolveError::DeductionViolation {
            row: 1,
            col: 1,
            op: DeduceOp::Flag
        })
    );
}

#[test]
fn render_shows_one_char_per_cell() {
    let mut g = Game::from_sol(vec![vec![0, 1, 9]]).unwrap();
    let fresh: String = g.render().into_iter().collect();
    assert_eq!(fresh, "###\n");
    assert!(g.click(0, 0));
    let mut p = Player::from_game(g);
    assert_eq!(p.play(), Ok(()));
    let solved: String = p.game.render().into_iter().collect();
    assert_eq!(solved, " 1X\n");
}

#[test]
fn render_covers_every_digit() {
    // A 3x3 board with the center hidden behind eight mines.
    let mut g = Game::from_sol(vec![vec![9, 9, 9], vec![9, 8, 9], vec![9, 9, 9]]).unwrap();
    assert!(g.is_consistent());
    assert!(g.click(1, 1));
    let out: String = g.render().into_iter().collect();
    assert_eq!(out, "###\n#8#\n###\n");
}

#[test]
fn full_board_solve_is_sound() {
    // A real 20x30 board. The solve must finish without one wrong reveal or
    // flag, and everything it shows must match the hidden solution.
    let sample: Vec<Vec<u8>> = vec![
        vec![1, 1, 2, 9, 2, 1, 0, 0, 1, 9, 1, 0, 1, 9, 2, 9, 1, 2, 9, 2, 0, 0, 0, 0, 1, 1, 1, 2, 9, 2],
        vec![1, 9, 2, 2, 9, 1, 0, 0, 1, 1, 1, 0, 2, 2, 3, 2, 2, 3, 9, 2, 1, 2, 3, 2, 3, 9, 3, 3, 9, 2],
        vec![1, 1, 2, 2, 2, 1, 0, 0, 0, 0, 0, 0, 1, 9, 1, 1, 9, 2, 2, 2, 2, 9, 9, 9, 4, 9, 9, 2, 1, 1],
        vec![0, 0, 1, 9, 1, 0, 0, 1, 1, 1, 0, 0, 2, 3, 3, 2, 1, 1, 1, 9, 2, 2, 4, 5, 9, 5, 3, 1, 0, 0],
        vec![0, 0, 1, 1, 1, 1, 2, 3, 9, 2, 1, 1, 1, 9, 9, 1, 0, 0, 1, 1, 1, 0, 1, 9, 9, 9, 1, 0, 0, 0],
        vec![0, 0, 0, 0, 0, 1, 9, 9, 3, 3, 9, 1, 1, 3, 4, 3, 2, 1, 1, 0, 0, 1, 2, 3, 4, 3, 2, 1, 1, 1],
        vec![0, 0, 0, 0, 1, 2, 4, 3, 3, 9, 2, 1, 0, 1, 9, 9, 3, 9, 1, 1, 1, 3, 9, 4, 3, 9, 2, 2, 9, 1],
        vec![0, 0, 0, 0, 1, 9, 2, 9, 3, 2, 1, 0, 1, 2, 4, 4, 9, 2, 1, 2, 9, 5, 9, 9, 9, 5, 9, 4, 2, 1],
        vec![0, 0, 1, 2, 3, 2, 2, 2, 9, 2, 1, 1, 2, 9, 3, 9, 2, 1, 0, 2, 9, 5, 9, 6, 4, 9, 9, 9, 2, 1],
        vec![0, 0, 1, 9, 9, 1, 0, 1, 2, 3, 9, 1, 2, 9, 3, 1, 2, 2, 2, 2, 1, 3, 9, 3, 9, 3, 3, 2, 3, 9],
        vec![2, 2, 2, 3, 3, 2, 0, 0, 1, 9, 3, 3, 2, 2, 1, 0, 2, 9, 9, 1, 0, 1, 2, 3, 2, 2, 1, 2, 3, 9],
        vec![9, 9, 1, 1, 9, 2, 1, 2, 3, 4, 9, 2, 9, 2, 2, 3, 4, 9, 3, 1, 1, 2, 3, 9, 1, 1, 9, 3, 9, 3],
        vec![2, 2, 1, 1, 2, 3, 9, 3, 9, 9, 2, 2, 1, 2, 9, 9, 9, 2, 2, 2, 4, 9, 9, 2, 2, 2, 3, 9, 4, 9],
        vec![0, 0, 0, 0, 1, 9, 3, 5, 9, 4, 1, 1, 2, 4, 5, 6, 4, 2, 2, 9, 9, 9, 3, 1, 1, 9, 3, 3, 9, 2],
        vec![1, 1, 1, 0, 2, 2, 3, 9, 9, 2, 0, 1, 9, 9, 9, 9, 9, 1, 3, 9, 9, 3, 1, 0, 1, 3, 9, 4, 3, 3],
        vec![1, 9, 2, 1, 3, 9, 3, 2, 2, 1, 0, 1, 3, 4, 4, 3, 3, 2, 4, 9, 4, 1, 0, 1, 1, 4, 9, 4, 9, 9],
        vec![1, 1, 2, 9, 3, 9, 2, 1, 1, 2, 1, 1, 1, 9, 2, 1, 2, 9, 5, 9, 3, 0, 0, 1, 9, 3, 9, 3, 2, 2],
        vec![0, 0, 1, 1, 2, 1, 1, 1, 9, 2, 9, 2, 2, 3, 9, 1, 3, 9, 5, 9, 2, 1, 2, 3, 3, 3, 2, 1, 0, 0],
        vec![0, 0, 1, 1, 1, 0, 0, 2, 3, 4, 2, 2, 9, 2, 2, 2, 3, 9, 3, 1, 1, 2, 9, 9, 2, 9, 3, 2, 1, 0],
        vec![0, 0, 1, 9, 1, 0, 0, 1, 9, 9, 1, 1, 1, 1, 1, 9, 2, 1, 1, 0, 0, 2, 9, 3, 2, 2, 9, 9, 1, 0],
    ];
    let expected = sample.clone();
    let mut g = Game::from_sol(sample).unwrap();
    assert!(g.is_consistent());
    assert!(g.click(0, 6));
    let mut p = Player::from_game(g);
    assert_eq!(p.play(), Ok(()));
    for r in 0..20 {
        for c in 0..30 {
            match p.game.visible(r, c) {
                Square::Unknown => {}
                Square::Mine => assert_eq!(expected[r][c], 9),
                Square::Blank => assert_eq!(expected[r][c], 0),
                Square::Adj(n) => assert_eq!(expected[r][c], n),
            }
        }
    }
}
