use tictactoe::random::StrategyRandom;
use tictactoe::solver::StrategyAlphaBeta;
use tictactoe::types::{Action, GameState, Score};

/// Plays one game; `mover` chooses each move, for whichever side is to move.
fn one_game(mover: &mut dyn FnMut(&GameState) -> Action) -> Score {
    let mut s = GameState::default();
    loop {
        let a = mover(&s);
        s = s.perform(a);
        let score = s.score();
        if score != Score::Undecided {
            return score;
        }
    }
}

#[test]
fn solver_against_solver_always_draws() {
    let mut p1 = StrategyAlphaBeta::new();
    let mut p2 = StrategyAlphaBeta::new();
    for _ in 0..100 {
        let r = one_game(&mut |s| if s.is_player1 { p1.play(s) } else { p2.play(s) });
        assert_eq!(r, Score::Draw);
    }
}

#[test]
fn solver_first_never_loses_to_random() {
    let mut rng = rand::thread_rng();
    let mut p1 = StrategyAlphaBeta::new();
    let mut p2 = StrategyRandom::new();
    for _ in 0..20000 {
        let r = one_game(&mut |s| if s.is_player1 { p1.play(s) } else { p2.play(s, &mut rng) });
        assert_ne!(r, Score::Player2Wins);
    }
}

#[test]
fn solver_second_never_loses_to_random() {
    let mut rng = rand::thread_rng();
    let mut p1 = StrategyRandom::new();
    let mut p2 = StrategyAlphaBeta::new();
    for _ in 0..20000 {
        let r = one_game(&mut |s| if s.is_player1 { p1.play(s, &mut rng) } else { p2.play(s) });
        assert_ne!(r, Score::Player1Wins);
    }
}

#[test]
fn random_against_random_matches_known_rates() {
    let mut rng = rand::thread_rng();
    let mut p1 = StrategyRandom::new();
    let mut p2 = StrategyRandom::new();
    let total = 1_000_000u32;
    let (mut w1, mut w2, mut d) = (0u32, 0u32, 0u32);
    for _ in 0..total {
        match one_game(&mut |s| {
            if s.is_player1 {
                p1.play(s, &mut rng)
            } else {
                p2.play(s, &mut rng)
            }
        }) {
            Score::Player1Wins => w1 += 1,
            Score::Player2Wins => w2 += 1,
            _ => d += 1,
        }
    }
    let pct = |n: u32| n as f64 / total as f64 * 100.0;
    assert!((pct(w1) - 58.49).abs() < 0.5);
    assert!((pct(w2) - 28.81).abs() < 0.5);
    assert!((pct(d) - 12.70).abs() < 0.5);
}
