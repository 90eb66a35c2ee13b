use tictactoe::solver::StrategyAlphaBeta;
use tictactoe::types::{Action, GameState, Score};

fn put(s: GameState, cell: u16) -> GameState {
    s.perform(Action::Put { mask: 1 << cell })
}

fn from_cells(cells: &[u16]) -> GameState {
    let mut s = GameState::default();
    for &c in cells {
        s = put(s, c);
    }
    s
}

#[test]
fn empty_board_solves_to_draw() {
    let mut solver = StrategyAlphaBeta::default();
    let (score, mask) = solver.play_with_score(&GameState::default());
    assert_eq!(score, Score::Draw);
    assert_eq!(mask, 1);
}

#[test]
fn solving_twice_gives_the_same_answer() {
    let mut solver = StrategyAlphaBeta::new();
    let s = from_cells(&[4, 0]);
    let first = solver.play_with_score(&s);
    let second = solver.play_with_score(&s);
    assert_eq!(first, second);
    let mut fresh = StrategyAlphaBeta::new();
    assert_eq!(fresh.play_with_score(&s), first);
}

#[test]
fn solver_takes_an_immediate_win() {
    // X: 0 1, O: 3 4, X to move: cell 2 wins at once and is the lowest win
    let s = from_cells(&[0, 3, 1, 4]);
    let mut solver = StrategyAlphaBeta::new();
    assert_eq!(solver.play_with_score(&s), (Score::Player1Wins, 1 << 2));
    assert_eq!(solver.play(&s), Action::Put { mask: 1 << 2 });
}

#[test]
fn solver_plays_lowest_winning_cell() {
    // X: 0 1 8, O: 3 4, O to move: cell 5 wins at once, but cell 2 (a
    // double threat) already wins for O and comes first
    let s = from_cells(&[0, 3, 1, 4, 8]);
    let mut solver = StrategyAlphaBeta::new();
    assert_eq!(solver.play_with_score(&s), (Score::Player2Wins, 1 << 2));
}

#[test]
fn solver_blocks_a_threat() {
    // X: 0 1, O: 4, O to move; O must block at 2 to avoid losing
    let s = from_cells(&[0, 4, 1]);
    let mut solver = StrategyAlphaBeta::new();
    let (score, mask) = solver.play_with_score(&s);
    assert_eq!(mask, 1 << 2);
    assert_eq!(score, Score::Draw);
}

#[test]
fn solver_reports_a_forced_loss() {
    // X: 0 8 6, O: 4 2, O to move; X threatens both 3 and 7, so every
    // move loses and the first empty cell is kept
    let s = from_cells(&[0, 4, 8, 2, 6]);
    let mut solver = StrategyAlphaBeta::new();
    assert_eq!(solver.play_with_score(&s), (Score::Player1Wins, 1 << 1));
}

#[test]
fn full_board_leaves_solver_undecided() {
    let s = from_cells(&[0, 1, 2, 4, 3, 5, 7, 6, 8]);
    let mut solver = StrategyAlphaBeta::new();
    assert_eq!(solver.play_with_score(&s), (Score::Undecided, 0));
}

#[test]
fn solver_moves_are_legal_along_a_game() {
    let mut solver = StrategyAlphaBeta::new();
    let mut s = GameState::default();
    while s.score() == Score::Undecided {
        let Action::Put { mask } = solver.play(&s);
        assert_eq!(mask.count_ones(), 1);
        assert_eq!(s.legal_moves().occupied & mask, 0);
        s = s.perform(Action::Put { mask });
    }
    assert_eq!(s.score(), Score::Draw);
}
