use tictactoe::types::{Action, GameState, Score};

fn put(s: GameState, cell: u16) -> GameState {
    s.perform(Action::Put { mask: 1 << cell })
}

fn play_cells(cells: &[u16]) -> GameState {
    let mut s = GameState::default();
    for &c in cells {
        s = put(s, c);
    }
    s
}

#[test]
fn default_is_empty_board_player1_to_move() {
    let s = GameState::default();
    assert_eq!(s.player1, 0xFE00);
    assert_eq!(s.player2, 0xFE00);
    assert!(s.is_player1);
    assert_eq!(s.legal_moves().occupied.count_zeros(), 9);
    assert_eq!(s.score(), Score::Undecided);
    assert!(s.is_well_formed());
}

#[test]
fn perform_marks_mover_and_passes_turn() {
    let s = put(GameState::default(), 4);
    assert_eq!(s.player1, 0xFE00 | 0x010);
    assert_eq!(s.player2, 0xFE00);
    assert!(!s.is_player1);
    let t = put(s, 0);
    assert_eq!(t.player1, 0xFE00 | 0x010);
    assert_eq!(t.player2, 0xFE00 | 0x001);
    assert!(t.is_player1);
    assert_eq!(t.legal_moves().occupied, 0xFE00 | 0x011);
}

#[test]
fn perform_leaves_original_unchanged() {
    let s = GameState::default();
    let _ = s.perform(Action::Put { mask: 1 });
    assert_eq!(s, GameState::default());
}

#[test]
fn row_win_detected_before_board_full() {
    // X: 0 1 2, O: 3 4
    let s = play_cells(&[0, 3, 1, 4, 2]);
    assert_eq!(s.score(), Score::Player1Wins);
}

#[test]
fn column_win_for_player2() {
    // X: 0 2 6, O: 1 4 7 (the middle column)
    let s = play_cells(&[0, 1, 2, 4, 6, 7]);
    assert_eq!(s.score(), Score::Player2Wins);
}

#[test]
fn diagonal_wins() {
    let s = play_cells(&[0, 1, 4, 2, 8]);
    assert_eq!(s.score(), Score::Player1Wins);
    let t = play_cells(&[0, 2, 1, 4, 8, 6]);
    assert_eq!(t.score(), Score::Player2Wins);
}

#[test]
fn full_board_without_line_is_draw() {
    // X O X / X O O / O X X
    let s = play_cells(&[0, 1, 2, 4, 3, 5, 7, 6, 8]);
    assert_eq!(s.legal_moves().occupied, 0xFFFF);
    assert_eq!(s.score(), Score::Draw);
}

#[test]
fn full_board_with_line_is_a_win() {
    // X X X / O O X / X O O : X has the top row on the ninth move
    let s = play_cells(&[0, 3, 1, 4, 5, 7, 6, 8, 2]);
    assert_eq!(s.legal_moves().occupied, 0xFFFF);
    assert_eq!(s.score(), Score::Player1Wins);
}

#[test]
fn unfinished_board_is_undecided() {
    let s = play_cells(&[0, 4, 8]);
    assert_eq!(s.score(), Score::Undecided);
}

#[test]
fn both_lines_report_player1_first() {
    let s = GameState { player1: 0xFE00 | 0x007, player2: 0xFE00 | 0x038, is_player1: true };
    assert_eq!(s.score(), Score::Player1Wins);
}

#[test]
fn ill_formed_position_is_recognized() {
    let s = GameState { player1: 0, player2: 0, is_player1: true };
    assert!(!s.is_well_formed());
    let t = GameState { player1: 0xFE01, player2: 0xFE01, is_player1: true };
    assert!(!t.is_well_formed());
}

#[test]
fn image_marks_each_player() {
    let s = play_cells(&[0, 4]);
    assert_eq!(s.image(1), 'X');
    assert_eq!(s.image(1 << 4), 'O');
    assert_eq!(s.image(1 << 8), '.');
}
