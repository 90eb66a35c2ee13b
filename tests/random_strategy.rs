use tictactoe::random::{count_free, pick_free, StrategyRandom};
use tictactoe::types::{Action, GameState, Score};

#[test]
fn count_free_counts_clear_bits() {
    assert_eq!(count_free(0xFE00), 9);
    assert_eq!(count_free(0xFFFF), 0);
    assert_eq!(count_free(0), 16);
    assert_eq!(count_free(0xFE00 | 0x011), 7);
}

#[test]
fn pick_free_takes_the_nth_clear_bit() {
    let occ: u16 = 0xFE00 | 0x011; // cells 0 and 4 taken
    assert_eq!(pick_free(occ, 0), 1 << 1);
    assert_eq!(pick_free(occ, 1), 1 << 2);
    assert_eq!(pick_free(occ, 2), 1 << 3);
    assert_eq!(pick_free(occ, 3), 1 << 5);
    assert_eq!(pick_free(occ, 6), 1 << 8);
}

#[test]
fn random_moves_are_legal() {
    let mut rng = rand::thread_rng();
    let mut player = StrategyRandom::default();
    assert_eq!(player.name(), "Random");
    for _ in 0..200 {
        let mut s = GameState::default();
        while s.score() == Score::Undecided {
            let Action::Put { mask } = player.play(&s, &mut rng);
            assert_eq!(mask.count_ones(), 1);
            assert!(mask < 0x200);
            assert_eq!(s.legal_moves().occupied & mask, 0);
            s = s.perform(Action::Put { mask });
        }
    }
}

#[test]
fn random_with_one_cell_left_plays_it() {
    // eight cells filled without a line, cell 8 left
    let mut s = GameState::default();
    for c in [0u16, 1, 2, 4, 3, 5, 7, 6] {
        s = s.perform(Action::Put { mask: 1 << c });
    }
    assert_eq!(s.score(), Score::Undecided);
    let mut rng = rand::thread_rng();
    let mut player = StrategyRandom::new();
    assert_eq!(player.play(&s, &mut rng), Action::Put { mask: 1 << 8 });
}
