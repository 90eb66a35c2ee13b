use std::collections::HashMap;
use vstd::map_lib::lemma_submap_of_trans;
use vstd::prelude::*;

use crate::types::{
    cell, lemma_after_grows, lemma_after_wf, lemma_cells, lemma_free_cell, score_of, win_for,
    Action, GameState, Grid, Score, ALL,
};

verus! {

/// How one child's value changes the running best of a scan. The first
/// component is true when the scan stops at once with the second.
pub open spec fn pick(is_player1: bool, v: Score, best: (Score, Grid), mask: Grid) -> (bool, (
    Score,
    Grid,
)) {
    if v == win_for(is_player1) {
        (true, (v, mask))
    } else if v == win_for(!is_player1) {
        if best.0 == Score::Undecided {
            (false, (v, mask))
        } else {
            (false, best)
        }
    } else if v == Score::Draw {
        if best.0 == Score::Undecided || best.0 == win_for(!is_player1) {
            (false, (Score::Draw, mask))
        } else {
            (false, best)
        }
    } else {
        (false, best)
    }
}

/// The value of the position reached by playing cell `i`: its outcome if
/// the game ends there, else its solved outcome.
pub open spec fn child_value(s: GameState, i: int) -> Score
    decreases ALL - s.occupied(), 0int,
{
    if 0 <= i < 9 && s.occupied() & cell(i) == 0 {
        let c = s.after(cell(i));
        if score_of(c) == Score::Undecided {
            proof {
                lemma_cells();
                lemma_after_grows(s, cell(i));
            }
            solve(c).0
        } else {
            score_of(c)
        }
    } else {
        Score::Undecided
    }
}

/// The scan over cells `i..9` in increasing order, starting from `best`.
pub open spec fn scan(s: GameState, i: int, best: (Score, Grid)) -> (Score, Grid)
    decreases ALL - s.occupied(), 10 - i,
{
    if i < 0 || i >= 9 {
        best
    } else if s.occupied() & cell(i) != 0 {
        scan(s, i + 1, best)
    } else {
        let p = pick(s.is_player1, child_value(s, i), best, cell(i));
        if p.0 {
            p.1
        } else {
            scan(s, i + 1, p.1)
        }
    }
}

/// The solved outcome of a position and the move that reaches it.
pub open spec fn solve(s: GameState) -> (Score, Grid)
    decreases ALL - s.occupied(), 11int,
{
    scan(s, 0, (Score::Undecided, 0))
}

/// The key under which a position is stored: both masks and the turn.
pub open spec fn key_of(s: GameState) -> u64 {
    (s.player1 as u64) | ((s.player2 as u64) << 16u64) | ((if s.is_player1 {
        1u64
    } else {
        0u64
    }) << 32u64)
}

/// Distinct positions have distinct keys.
pub proof fn lemma_key_injective(a: GameState, b: GameState)
    requires
        key_of(a) == key_of(b),
    ensures
        a == b,
{
    let ta: u64 = if a.is_player1 { 1 } else { 0 };
    let tb: u64 = if b.is_player1 { 1 } else { 0 };
    let a1 = a.player1;
    let a2 = a.player2;
    let b1 = b.player1;
    let b2 = b.player2;
    assert(ta <= 1 && tb <= 1 && (a1 as u64) | ((a2 as u64) << 16u64) | (ta << 32u64) == (
    b1 as u64) | ((b2 as u64) << 16u64) | (tb << 32u64) ==> a1 == b1 && a2 == b2 && ta == tb)
        by (bit_vector);
}

pub(crate) fn key(s: &GameState) -> (k: u64)
    ensures
        k == key_of(*s),
{
    let t: u64 = if s.is_player1 { 1 } else { 0 };
    (s.player1 as u64) | ((s.player2 as u64) << 16) | (t << 32)
}

/// The exhaustive solver, with a table of the positions it has solved.
pub struct StrategyAlphaBeta {
    cache: HashMap<u64, (Score, Grid)>,
}

impl StrategyAlphaBeta {
    /// The solved positions, by key.
    pub closed spec fn memo(self) -> Map<u64, (Score, Grid)> {
        self.cache@
    }

    /// Every stored entry is the solved value of its position.
    pub open spec fn inv(self) -> bool {
        forall|s: GameState| #[trigger]
            self.memo().contains_key(key_of(s)) ==> self.memo()[key_of(s)] == solve(s)
    }

    /// The optimal move for the player to move: the move of
    /// `play_with_score`. On a position with an empty cell it is legal.
    pub fn play(&mut self, state: &GameState) -> (r: Action)
        requires
            old(self).inv(),
            state.wf(),
        ensures
            final(self).inv(),
            r == (Action::Put { mask: solve(*state).1 }),
            !state.is_full() ==> state.is_legal(solve(*state).1),
    {
        let (_, m) = self.play_with_score(state);
        proof {
            if !state.is_full() {
                lemma_solve_decided(*state);
                lemma_scan_move_legal(*state, 0, (Score::Undecided, 0));
            }
        }
        Action::Put { mask: m }
    }

    /// A solver with an empty table.
    pub fn new() -> (r: StrategyAlphaBeta)
        ensures
            r.inv(),
            r.memo() == Map::<u64, (Score, Grid)>::empty(),
    {
        StrategyAlphaBeta { cache: HashMap::new() }
    }

    /// The solved outcome of `state` for optimal play on both sides, and the
    /// move that achieves it: cells are tried in increasing order, and the
    /// first that wins for the mover is taken at once.
    pub fn play_with_score(&mut self, state: &GameState) -> (r: (Score, Grid))
        requires
            old(self).inv(),
            state.wf(),
        ensures
            final(self).inv(),
            r == solve(*state),
            old(self).memo().submap_of(final(self).memo()),
            old(self).memo().contains_key(key_of(*state)) ==> final(self).memo() == old(
                self,
            ).memo(),
            r.0 != win_for(state.is_player1) ==> final(self).memo().contains_key(key_of(*state)),
        decreases ALL - state.occupied(),
    {
        let k = key(state);
        if let Some(b) = self.cache.get(&k) {
            assert(self.memo().contains_key(key_of(*state)));
            return *b;
        }
        let legal = state.legal_moves();
        let mut best_score: Score = Score::Undecided;
        let mut best_play_mask: Grid = 0;
        let mut current: u16 = 0;
        while current < 9
            invariant
                self.inv(),
                state.wf(),
                current <= 9,
                legal.occupied == state.occupied(),
                old(self).memo().submap_of(self.memo()),
                !old(self).memo().contains_key(key_of(*state)),
                solve(*state) == scan(*state, current as int, (best_score, best_play_mask)),
                best_score != win_for(state.is_player1),
            decreases 9 - current,
        {
            let mask: Grid = 1 << current;
            proof {
                lemma_cells();
            }
            assert(mask == cell(current as int));
            if (legal.occupied & mask) == 0 {
                let next_state = state.perform(Action::Put { mask });
                proof {
                    lemma_after_grows(*state, mask);
                }
                let mut score = next_state.score();
                if let Score::Undecided = score {
                    let ghost before = self.memo();
                    let (s, _) = self.play_with_score(&next_state);
                    proof {
                        lemma_submap_of_trans(old(self).memo(), before, self.memo());
                    }
                    score = s;
                }
                assert(score == child_value(*state, current as int));
                match (state.is_player1, score, best_score) {
                    (true, Score::Player1Wins, _) => {
                        return (Score::Player1Wins, mask);
                    },
                    (false, Score::Player1Wins, Score::Undecided) => {
                        best_score = Score::Player1Wins;
                        best_play_mask = mask;
                    },
                    (true, Score::Player2Wins, Score::Undecided) => {
                        best_score = Score::Player2Wins;
                        best_play_mask = mask;
                    },
                    (false, Score::Player2Wins, _) => {
                        return (Score::Player2Wins, mask);
                    },
                    (true, Score::Draw, Score::Player2Wins)
                    | (false, Score::Draw, Score::Player1Wins)
                    | (_, Score::Draw, Score::Undecided) => {
                        // a draw beats a loss
                        best_score = Score::Draw;
                        best_play_mask = mask;
                    },
                    (false, Score::Player1Wins, _)
                    | (true, Score::Player2Wins, _)
                    | (_, Score::Draw, _) => {
                        // what was found before is at least as good
                    },
                    (_, Score::Undecided, _) => {
                        // cannot happen: every empty cell of a well-formed
                        // position has a decided value
                        proof {
                            lemma_after_wf(*state, mask);
                            lemma_child_decided(*state, current as int);
                            assert(false);
                        }
                    },
                }
            }
            current += 1;
        }
        proof {
            assert forall|s: GameState| #[trigger]
                self.memo().insert(k, (best_score, best_play_mask)).contains_key(key_of(s))
                implies self.memo().insert(k, (best_score, best_play_mask))[key_of(s)] == solve(
                s,
            ) by {
                if key_of(s) == k {
                    lemma_key_injective(s, *state);
                }
            }
        }
        self.cache.insert(k, (best_score, best_play_mask));
        (best_score, best_play_mask)
    }
}

/// Cell `i` is empty and marking it wins the game for the player to move.
pub open spec fn wins_at_once(s: GameState, i: int) -> bool {
    &&& 0 <= i < 9
    &&& s.occupied() & cell(i) == 0
    &&& score_of(s.after(cell(i))) == win_for(s.is_player1)
}

proof fn lemma_scan_win(s: GameState, j: int, best: (Score, Grid), i: int)
    requires
        0 <= j <= i,
        wins_at_once(s, i),
    ensures
        scan(s, j, best).0 == win_for(s.is_player1),
        (forall|k: int|
            j <= k < i && s.occupied() & cell(k) == 0 ==> #[trigger] child_value(s, k) != win_for(
                s.is_player1,
            )) ==> scan(s, j, best) == (win_for(s.is_player1), cell(i)),
    decreases i - j,
{
    lemma_cells();
    if j < i {
        if s.occupied() & cell(j) != 0 {
            lemma_scan_win(s, j + 1, best, i);
        } else {
            let p = pick(s.is_player1, child_value(s, j), best, cell(j));
            if !p.0 {
                lemma_scan_win(s, j + 1, p.1, i);
            }
        }
    }
}

/// When the player to move can win at once, the solver reports a win for
/// that player; it plays the winning cell itself unless a lower cell also
/// leads to a win for that player (that lower cell is played instead).
pub proof fn lemma_solver_takes_win(s: GameState, i: int)
    requires
        wins_at_once(s, i),
    ensures
        solve(s).0 == win_for(s.is_player1),
        (forall|k: int|
            0 <= k < i && s.occupied() & cell(k) == 0 ==> #[trigger] child_value(s, k) != win_for(
                s.is_player1,
            )) ==> solve(s) == (win_for(s.is_player1), cell(i)),
{
    lemma_scan_win(s, 0, (Score::Undecided, 0), i);
}

/// A decided result of the solver comes with a legal move.
proof fn lemma_scan_move_legal(s: GameState, i: int, best: (Score, Grid))
    requires
        0 <= i <= 9,
        best.0 == Score::Undecided || s.is_legal(best.1),
    ensures
        scan(s, i, best).0 == Score::Undecided || s.is_legal(scan(s, i, best).1),
    decreases 10 - i,
{
    lemma_cells();
    if i < 9 {
        if s.occupied() & cell(i) != 0 {
            lemma_scan_move_legal(s, i + 1, best);
        } else {
            let p = pick(s.is_player1, child_value(s, i), best, cell(i));
            if !p.0 {
                lemma_scan_move_legal(s, i + 1, p.1);
            }
        }
    }
}

/// Every entry of the solver's table is the solved value of its position,
/// so a second call on a position answers what the first one did.
pub proof fn lemma_solver_idempotent(solver: StrategyAlphaBeta, s: GameState)
    requires
        solver.inv(),
        solver.memo().contains_key(key_of(s)),
    ensures
        solver.memo()[key_of(s)] == solve(s),
{
}

/// Once a scan holds a decided best, or an empty cell remains ahead of it,
/// it ends decided.
proof fn lemma_scan_decided(s: GameState, i: int, best: (Score, Grid))
    requires
        s.wf(),
        0 <= i <= 9,
        best.0 != Score::Undecided || exists|j: int|
            i <= j < 9 && #[trigger] (s.occupied() & cell(j)) == 0,
    ensures
        scan(s, i, best).0 != Score::Undecided,
    decreases ALL - s.occupied(), 10 - i,
{
    lemma_cells();
    if i < 9 {
        if s.occupied() & cell(i) != 0 {
            lemma_scan_decided(s, i + 1, best);
        } else {
            lemma_child_decided(s, i);
            let p = pick(s.is_player1, child_value(s, i), best, cell(i));
            if !p.0 {
                lemma_scan_decided(s, i + 1, p.1);
            }
        }
    }
}

/// Every empty cell of a well-formed position has a decided value.
proof fn lemma_child_decided(s: GameState, i: int)
    requires
        s.wf(),
        0 <= i < 9,
        s.occupied() & cell(i) == 0,
    ensures
        child_value(s, i) != Score::Undecided,
    decreases ALL - s.occupied(), 0int,
{
    lemma_cells();
    let c = s.after(cell(i));
    lemma_after_wf(s, cell(i));
    if score_of(c) == Score::Undecided {
        lemma_solve_decided(c);
    }
}

/// The solver never leaves a well-formed position with an empty cell
/// undecided.
pub proof fn lemma_solve_decided(s: GameState)
    requires
        s.wf(),
        !s.is_full(),
    ensures
        solve(s).0 != Score::Undecided,
    decreases ALL - s.occupied(), 11int,
{
    lemma_free_cell(s);
    lemma_scan_decided(s, 0, (Score::Undecided, 0));
}

impl Default for StrategyAlphaBeta {
    fn default() -> (r: StrategyAlphaBeta)
        ensures
            r.inv(),
            r.memo() == Map::<u64, (Score, Grid)>::empty(),
    {
        StrategyAlphaBeta::new()
    }
}

} // verus!
