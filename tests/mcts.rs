use tictactoe::mcts::StrategyMCTS;
use tictactoe::types::{Action, GameState, Score};

fn ucb1(parent_visits: u32, child: (u32, u32)) -> f32 {
    let (wins, visited) = child;
    wins as f32 / visited as f32 + 1.4 * ((parent_visits as f32).ln() / visited as f32).sqrt()
}

fn ucb1_prefers(parent_visits: u32, cand: (u32, u32), best: (u32, u32)) -> bool {
    ucb1(parent_visits, cand) > ucb1(parent_visits, best)
}

fn put(s: GameState, cell: u16) -> GameState {
    s.perform(Action::Put { mask: 1 << cell })
}

#[test]
fn mcts_first_move_is_legal_and_counted() {
    let mut rng = rand::thread_rng();
    let mut m = StrategyMCTS::default();
    assert_eq!(m.name(), "MonteCarlo");
    let s = GameState::default();
    let Action::Put { mask } = m.play(&s, &mut rng, &ucb1_prefers);
    assert_eq!(mask.count_ones(), 1);
    assert!(mask < 0x200);
    let root = m.node_id(&s).unwrap();
    let (visited, wins) = m.stats(root);
    assert_eq!(visited, 30000);
    assert!(wins <= visited);
    let cell = mask.trailing_zeros() as usize;
    let chosen = m.child(root, cell).unwrap();
    let (cv, cw) = m.stats(chosen);
    assert!(cv > 0);
    for i in 0..9 {
        if let Some(c) = m.child(root, i) {
            let (v, w) = m.stats(c);
            assert!(w <= v);
            if v > 0 {
                assert!((w as u64) * (cv as u64) <= (cw as u64) * (v as u64));
            }
        }
    }
}

#[test]
fn mcts_counters_never_decrease() {
    let mut rng = rand::thread_rng();
    let mut m = StrategyMCTS::new();
    let s = GameState::default();
    m.play(&s, &mut rng, &ucb1_prefers);
    let n = m.node_count();
    let before: Vec<(u32, u32)> = (0..n).map(|i| m.stats(i)).collect();
    for (_, w) in before.iter().zip(before.iter()) {
        assert!(w.1 <= w.0);
    }
    let next = put(s, 4);
    m.play(&next, &mut rng, &ucb1_prefers);
    m.play(&s, &mut rng, &ucb1_prefers);
    assert!(m.node_count() >= n);
    for (i, &(v, w)) in before.iter().enumerate() {
        let (v2, w2) = m.stats(i);
        assert!(v2 >= v);
        assert!(w2 >= w);
        assert!(w2 <= v2);
    }
}

#[test]
fn mcts_later_call_runs_short_budget() {
    let mut rng = rand::thread_rng();
    let mut m = StrategyMCTS::new();
    let s = GameState::default();
    m.play(&s, &mut rng, &ucb1_prefers);
    let root = m.node_id(&s).unwrap();
    assert_eq!(m.stats(root).0, 30000);
    // the root is past the cap of reachable positions: no more search
    m.play(&s, &mut rng, &ucb1_prefers);
    assert_eq!(m.stats(root).0, 30000);
}

#[test]
fn mcts_transpositions_share_one_node() {
    let mut rng = rand::thread_rng();
    let mut m = StrategyMCTS::new();
    let s = GameState::default();
    m.play(&s, &mut rng, &ucb1_prefers);
    let mut shared = 0;
    for a in 0..9u16 {
        for c in (a + 1)..9u16 {
            for b in 0..9u16 {
                if b == a || b == c {
                    continue;
                }
                let via_a = m
                    .node_id(&put(s, a))
                    .and_then(|n| m.child(n, b as usize))
                    .and_then(|n| m.child(n, c as usize));
                let via_c = m
                    .node_id(&put(s, c))
                    .and_then(|n| m.child(n, b as usize))
                    .and_then(|n| m.child(n, a as usize));
                if let (Some(x), Some(y)) = (via_a, via_c) {
                    assert_eq!(x, y);
                    let end = put(put(put(s, a), b), c);
                    assert_eq!(m.node_id(&end), Some(x));
                    shared += 1;
                }
            }
        }
    }
    assert!(shared > 0);
}

#[test]
fn mcts_plays_a_whole_game_legally() {
    let mut rng = rand::thread_rng();
    let mut m = StrategyMCTS::new();
    let mut s = GameState::default();
    while s.score() == Score::Undecided {
        let Action::Put { mask } = m.play(&s, &mut rng, &ucb1_prefers);
        assert_eq!(mask.count_ones(), 1);
        assert_eq!(s.legal_moves().occupied & mask, 0);
        s = s.perform(Action::Put { mask });
    }
}
