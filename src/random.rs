use rand::rngs::ThreadRng;
use vstd::prelude::*;

use crate::rng::random_below;
use crate::types::{Action, GameState, Grid, OFF_BOARD};

verus! {

/// The mask of bit `i` of a grid.
pub open spec fn bit(i: int) -> Grid {
    (1u16 << (i as u16)) as u16
}

/// The number of clear bits of `occ` at positions `i..16`.
pub open spec fn zeros_from(occ: Grid, i: int) -> nat
    decreases 16 - i,
{
    if i < 0 || i >= 16 {
        0
    } else if occ & bit(i) == 0 {
        1 + zeros_from(occ, i + 1)
    } else {
        zeros_from(occ, i + 1)
    }
}

/// The position of the clear bit of `occ` that has `k` clear bits before
/// it, counting from position `i`; 16 when there is none.
pub open spec fn nth_free(occ: Grid, k: nat, i: int) -> int
    decreases 16 - i,
{
    if i < 0 || i >= 16 {
        16
    } else if occ & bit(i) == 0 {
        if k == 0 {
            i
        } else {
            nth_free(occ, (k - 1) as nat, i + 1)
        }
    } else {
        nth_free(occ, k, i + 1)
    }
}

proof fn lemma_nth_free_found(occ: Grid, k: nat, i: int)
    requires
        0 <= i <= 16,
        k < zeros_from(occ, i),
    ensures
        i <= nth_free(occ, k, i) < 16,
        occ & bit(nth_free(occ, k, i)) == 0,
    decreases 16 - i,
{
    if i < 16 {
        if occ & bit(i) == 0 {
            if k > 0 {
                lemma_nth_free_found(occ, (k - 1) as nat, i + 1);
            }
        } else {
            lemma_nth_free_found(occ, k, i + 1);
        }
    }
}

/// The number of clear bits of a grid.
pub fn count_free(occ: Grid) -> (r: u32)
    ensures
        r == zeros_from(occ, 0),
{
    let mut n: u32 = 0;
    let mut i: u16 = 16;
    while i > 0
        invariant
            i <= 16,
            n == zeros_from(occ, i as int),
            n <= 16 - i,
        decreases i,
    {
        i -= 1;
        let b: Grid = 1 << i;
        assert(b == bit(i as int));
        if occ & b == 0 {
            n += 1;
        }
    }
    n
}

/// The clear bit of `occ` that has `choice` clear bits below it.
pub fn pick_free(occ: Grid, choice: u32) -> (r: Grid)
    requires
        choice < zeros_from(occ, 0),
    ensures
        r == bit(nth_free(occ, choice as nat, 0)),
        occ & r == 0,
{
    proof {
        lemma_nth_free_found(occ, choice as nat, 0);
    }
    let mut k: u32 = choice;
    let mut current: Grid = 1;
    let ghost mut i: int = 0;
    assert(1u16 == 1u16 << 0u16) by (bit_vector);
    loop
        invariant
            0 <= i < 16,
            current == bit(i),
            k < zeros_from(occ, i),
            nth_free(occ, k as nat, i) == nth_free(occ, choice as nat, 0),
        decreases 16 - i,
    {
        if (occ & current) == 0 {
            if k == 0 {
                return current;
            }
            k -= 1;
        }
        proof {
            lemma_nth_free_found(occ, k as nat, i + 1);
            let iu = i as u16;
            assert(iu < 15 ==> ((1u16 << iu) * 2) as u16 == 1u16 << ((iu + 1) as u16))
                by (bit_vector);
            assert(iu < 15 ==> (1u16 << iu) < 0x8000) by (bit_vector);
            i = i + 1;
        }
        current = current * 2;
    }
}

/// The bits of a well-formed position's clear cells lie on the board.
proof fn lemma_free_on_board(occ: Grid, j: int)
    requires
        0 <= j < 16,
        occ & OFF_BOARD == OFF_BOARD,
        occ & bit(j) == 0,
    ensures
        j < 9,
        crate::types::is_cell(bit(j)),
{
    let ju = j as u16;
    assert(ju < 16 && occ & 0xFE00 == 0xFE00 && occ & (1u16 << ju) == 0 ==> ju < 9) by (bit_vector);
    assert(ju < 9 ==> crate::types::is_cell(1u16 << ju)) by (bit_vector);
}

/// The baseline player: a uniform choice among the empty cells.
#[derive(Clone, Copy, Debug, PartialEq, Eq, Structural)]
pub struct StrategyRandom {}

impl Default for StrategyRandom {
    fn default() -> (r: StrategyRandom) {
        StrategyRandom {}
    }
}

impl StrategyRandom {
    pub fn new() -> StrategyRandom {
        StrategyRandom {}
    }

    pub fn name(&self) -> (r: &'static str)
        ensures
            r@ == "Random"@,
    {
        "Random"
    }

    /// Draws the number of one empty cell and plays it. The position must
    /// have an empty cell.
    pub fn play(&mut self, state: &GameState, rng: &mut ThreadRng) -> (r: Action)
        requires
            state.wf(),
            !state.is_full(),
        ensures
            exists|choice: nat|
                choice < zeros_from(state.occupied(), 0) && r == (Action::Put {
                    mask: bit(nth_free(state.occupied(), choice, 0)),
                }),
            match r { Action::Put { mask } => state.is_legal(mask) },
    {
        let legal = state.legal_moves();
        let n = count_free(legal.occupied);
        proof {
            crate::types::lemma_free_cell(*state);
            let i = choose|i: int| 0 <= i < 9 && #[trigger] (state.occupied() & crate::types::cell(i)) == 0;
            lemma_zero_counted(legal.occupied, i, 0);
        }
        let choice = random_below(rng, n);
        let mask = pick_free(legal.occupied, choice);
        proof {
            lemma_nth_free_found(legal.occupied, choice as nat, 0);
            let p1 = state.player1;
            let p2 = state.player2;
            assert(p1 & 0xFE00 == 0xFE00 ==> (p1 | p2) & 0xFE00 == 0xFE00) by (bit_vector);
            lemma_free_on_board(legal.occupied, nth_free(legal.occupied, choice as nat, 0));
        }
        Action::Put { mask }
    }
}

proof fn lemma_zero_counted(occ: Grid, j: int, i: int)
    requires
        0 <= i <= j < 16,
        occ & bit(j) == 0,
    ensures
        zeros_from(occ, i) > 0,
    decreases j - i,
{
    if i < j {
        lemma_zero_counted(occ, j, i + 1);
    }
}

} // verus!
