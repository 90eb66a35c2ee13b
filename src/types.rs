use vstd::prelude::*;

verus! {

/// One bit per cell; bit `i` is cell `i` (row-major, cells 0 to 8).
pub type Grid = u16;

/// The bits of a mask that lie outside the 3x3 board.
pub const OFF_BOARD: Grid = 0xFE00;

/// A mask with every bit set: every cell occupied.
pub const ALL: Grid = 0xFFFF;

/// A single move: put the mover's mark on the cell given by `mask`.
#[derive(Clone, Copy, Debug, PartialEq, Eq, Structural)]
pub enum Action {
    Put { mask: Grid },
}

/// Classification of a position.
#[derive(Clone, Copy, Debug, PartialEq, Eq, Structural)]
pub enum Score {
    Player1Wins,
    Player2Wins,
    Draw,
    Undecided,
}

/// The occupied cells of a position: a cell is legal when its bit is clear.
#[derive(Clone, Copy, Debug, PartialEq, Eq, Structural)]
pub struct LegalMoves {
    pub occupied: Grid,
}

/// A position: the cells of each player, and whose turn it is.
#[derive(Clone, Copy, Debug, PartialEq, Eq, Hash, Structural)]
pub struct GameState {
    pub player1: Grid,
    pub player2: Grid,
    pub is_player1: bool,
}

/// True when `m` holds all three cells of some row, column or diagonal.
pub open spec fn has_line(m: Grid) -> bool {
    ||| m & 0x007 == 0x007
    ||| m & 0x038 == 0x038
    ||| m & 0x1c0 == 0x1c0
    ||| m & 0x124 == 0x124
    ||| m & 0x092 == 0x092
    ||| m & 0x049 == 0x049
    ||| m & 0x111 == 0x111
    ||| m & 0x054 == 0x054
}

/// The outcome of a position. Player 1's lines are looked at first.
pub open spec fn score_of(s: GameState) -> Score {
    if has_line(s.player1) {
        Score::Player1Wins
    } else if has_line(s.player2) {
        Score::Player2Wins
    } else if s.player1 | s.player2 == ALL {
        Score::Draw
    } else {
        Score::Undecided
    }
}

/// The mask of cell `i`.
pub open spec fn cell(i: int) -> Grid {
    (1u16 << (i as u16)) as u16
}

/// True when `mask` is the mask of one of the nine cells.
pub open spec fn is_cell(mask: Grid) -> bool {
    ||| mask == 0x001
    ||| mask == 0x002
    ||| mask == 0x004
    ||| mask == 0x008
    ||| mask == 0x010
    ||| mask == 0x020
    ||| mask == 0x040
    ||| mask == 0x080
    ||| mask == 0x100
}

/// The outcome that is a win for the player to move.
pub open spec fn win_for(is_player1: bool) -> Score {
    if is_player1 {
        Score::Player1Wins
    } else {
        Score::Player2Wins
    }
}

impl GameState {
    /// The union of both players' cells.
    pub open spec fn occupied(self) -> Grid {
        self.player1 | self.player2
    }

    /// A position as play builds it: the off-board bits are set in both
    /// masks, and no cell of the board belongs to both players.
    pub open spec fn wf(self) -> bool {
        &&& self.player1 & OFF_BOARD == OFF_BOARD
        &&& self.player2 & OFF_BOARD == OFF_BOARD
        &&& self.player1 & self.player2 == OFF_BOARD
    }

    /// Every cell of the board is occupied.
    pub open spec fn is_full(self) -> bool {
        self.occupied() == ALL
    }

    /// `mask` names one cell, and that cell is empty.
    pub open spec fn is_legal(self, mask: Grid) -> bool {
        is_cell(mask) && self.occupied() & mask == 0
    }

    /// The position after the player to move marks the cells of `mask`.
    pub open spec fn after(self, mask: Grid) -> GameState {
        if self.is_player1 {
            GameState { player1: self.player1 | mask, player2: self.player2, is_player1: false }
        } else {
            GameState { player1: self.player1, player2: self.player2 | mask, is_player1: true }
        }
    }

    /// Applies `action` for the player to move and hands the turn over.
    /// The cell is not checked: a move onto an occupied cell is the caller's
    /// mistake, and the result no longer describes a game.
    pub fn perform(&self, action: Action) -> (r: GameState)
        ensures
            r == self.after(match action { Action::Put { mask } => mask }),
            match action { Action::Put { mask } => self.wf() && self.is_legal(mask) ==> r.wf() },
    {
        match action {
            Action::Put { mask } => {
                proof {
                    if self.wf() && self.is_legal(mask) {
                        lemma_after_wf(*self, mask);
                    }
                }
                if self.is_player1 {
                    GameState { player1: self.player1 | mask, player2: self.player2, is_player1: false }
                } else {
                    GameState { player1: self.player1, player2: self.player2 | mask, is_player1: true }
                }
            },
        }
    }

    /// The mark on the cells of `bit`: 'X' for player 1, 'O' for player 2,
    /// '.' when empty.
    pub fn image(&self, bit: Grid) -> (r: char)
        ensures
            r == (if self.player1 & bit != 0 {
                'X'
            } else if self.player2 & bit != 0 {
                'O'
            } else {
                '.'
            }),
    {
        if self.player1 & bit != 0 {
            'X'
        } else if self.player2 & bit != 0 {
            'O'
        } else {
            '.'
        }
    }

    /// Tells whether the position is well formed (see `wf`).
    pub fn is_well_formed(&self) -> (r: bool)
        ensures
            r == self.wf(),
    {
        self.player1 & OFF_BOARD == OFF_BOARD && self.player2 & OFF_BOARD == OFF_BOARD
            && self.player1 & self.player2 == OFF_BOARD
    }

    /// The occupied cells, from which the legal moves are read.
    pub fn legal_moves(&self) -> (r: LegalMoves)
        ensures
            r.occupied == self.occupied(),
    {
        LegalMoves { occupied: self.player1 | self.player2 }
    }

    /// Classifies the position: a line of player 1, else a line of player 2,
    /// else a full board (draw), else undecided.
    pub fn score(&self) -> (r: Score)
        ensures
            r == score_of(*self),
    {
        let p1 = self.player1;
        let p2 = self.player2;
        if p1 & 0x007 == 0x007 || p1 & 0x038 == 0x038 || p1 & 0x1c0 == 0x1c0 || p1 & 0x124 == 0x124
            || p1 & 0x092 == 0x092 || p1 & 0x049 == 0x049 || p1 & 0x111 == 0x111 || p1 & 0x054
            == 0x054 {
            Score::Player1Wins
        } else if p2 & 0x007 == 0x007 || p2 & 0x038 == 0x038 || p2 & 0x1c0 == 0x1c0 || p2 & 0x124
            == 0x124 || p2 & 0x092 == 0x092 || p2 & 0x049 == 0x049 || p2 & 0x111 == 0x111 || p2
            & 0x054 == 0x054 {
            Score::Player2Wins
        } else if (p1 | p2) == ALL {
            Score::Draw
        } else {
            Score::Undecided
        }
    }
}

impl Default for GameState {
    /// The empty board, player 1 to move.
    fn default() -> (r: GameState)
        ensures
            r == empty_board(),
    {
        GameState { player1: OFF_BOARD, player2: OFF_BOARD, is_player1: true }
    }
}

/// The empty board, player 1 to move.
pub open spec fn empty_board() -> GameState {
    GameState { player1: OFF_BOARD, player2: OFF_BOARD, is_player1: true }
}

/// A legal move keeps a position well formed.
pub proof fn lemma_after_wf(s: GameState, mask: Grid)
    requires
        s.wf(),
        s.is_legal(mask),
    ensures
        s.after(mask).wf(),
        s.after(mask).occupied() == s.occupied() | mask,
        s.after(mask).occupied() > s.occupied(),
{
    let p1 = s.player1;
    let p2 = s.player2;
    assert(is_cell(mask) ==> mask & OFF_BOARD == 0 && mask != 0) by (bit_vector);
    assert(p1 & OFF_BOARD == OFF_BOARD && p2 & OFF_BOARD == OFF_BOARD && p1 & p2 == OFF_BOARD
        && (p1 | p2) & mask == 0 && mask & OFF_BOARD == 0 && mask != 0 ==> {
        &&& (p1 | mask) & OFF_BOARD == OFF_BOARD
        &&& (p2 | mask) & OFF_BOARD == OFF_BOARD
        &&& (p1 | mask) & p2 == OFF_BOARD
        &&& p1 & (p2 | mask) == OFF_BOARD
        &&& (p1 | mask) | p2 == (p1 | p2) | mask
        &&& p1 | (p2 | mask) == (p1 | p2) | mask
        &&& (p1 | p2) | mask > p1 | p2
    }) by (bit_vector);
}

/// Marking an empty cell makes the occupied mask strictly larger.
pub proof fn lemma_after_grows(s: GameState, mask: Grid)
    requires
        mask != 0,
        s.occupied() & mask == 0,
    ensures
        s.after(mask).occupied() > s.occupied(),
{
    let p1 = s.player1;
    let p2 = s.player2;
    assert((p1 | p2) & mask == 0 && mask != 0 ==> {
        &&& (p1 | mask) | p2 > p1 | p2
        &&& p1 | (p2 | mask) > p1 | p2
    }) by (bit_vector);
}

/// The masks of the cells, in index order.
pub proof fn lemma_cells()
    ensures
        cell(0) == 0x001,
        cell(1) == 0x002,
        cell(2) == 0x004,
        cell(3) == 0x008,
        cell(4) == 0x010,
        cell(5) == 0x020,
        cell(6) == 0x040,
        cell(7) == 0x080,
        cell(8) == 0x100,
        forall|i: int| 0 <= i < 9 ==> is_cell(#[trigger] cell(i)),
{
    assert(1u16 << 0u16 == 0x001) by (bit_vector);
    assert(1u16 << 1u16 == 0x002) by (bit_vector);
    assert(1u16 << 2u16 == 0x004) by (bit_vector);
    assert(1u16 << 3u16 == 0x008) by (bit_vector);
    assert(1u16 << 4u16 == 0x010) by (bit_vector);
    assert(1u16 << 5u16 == 0x020) by (bit_vector);
    assert(1u16 << 6u16 == 0x040) by (bit_vector);
    assert(1u16 << 7u16 == 0x080) by (bit_vector);
    assert(1u16 << 8u16 == 0x100) by (bit_vector);
}

/// A well-formed position that is not full has an empty cell on the board.
pub proof fn lemma_free_cell(s: GameState)
    requires
        s.wf(),
        !s.is_full(),
    ensures
        exists|i: int| 0 <= i < 9 && #[trigger] (s.occupied() & cell(i)) == 0,
{
    let o = s.occupied();
    let p1 = s.player1;
    let p2 = s.player2;
    lemma_cells();
    assert(p1 & OFF_BOARD == OFF_BOARD && p2 & OFF_BOARD == OFF_BOARD && (p1 | p2) != ALL ==> {
        ||| (p1 | p2) & 0x001 == 0
        ||| (p1 | p2) & 0x002 == 0
        ||| (p1 | p2) & 0x004 == 0
        ||| (p1 | p2) & 0x008 == 0
        ||| (p1 | p2) & 0x010 == 0
        ||| (p1 | p2) & 0x020 == 0
        ||| (p1 | p2) & 0x040 == 0
        ||| (p1 | p2) & 0x080 == 0
        ||| (p1 | p2) & 0x100 == 0
    }) by (bit_vector);
    if o & cell(0) == 0 {
    } else if o & cell(1) == 0 {
    } else if o & cell(2) == 0 {
    } else if o & cell(3) == 0 {
    } else if o & cell(4) == 0 {
    } else if o & cell(5) == 0 {
    } else if o & cell(6) == 0 {
    } else if o & cell(7) == 0 {
    } else {
        assert(o & cell(8) == 0);
    }
}

/// `s` arises from the empty board by `n` legal moves, none of them made
/// after the game was over.
pub open spec fn reachable_in(s: GameState, n: nat) -> bool
    decreases n,
{
    if n == 0 {
        s == empty_board()
    } else {
        exists|prev: GameState, mask: Grid|
            #![trigger prev.after(mask)]
            reachable_in(prev, (n - 1) as nat) && score_of(prev) == Score::Undecided
                && prev.is_legal(mask) && s == prev.after(mask)
    }
}

/// In a position that play can reach, at most one player holds a line, so
/// `score` says a player wins exactly when that player holds a line: the
/// two wins exclude each other, and the order in which they are looked at
/// never matters.
pub proof fn lemma_reachable_wins_exclusive(s: GameState, n: nat)
    requires
        reachable_in(s, n),
    ensures
        s.wf(),
        !(has_line(s.player1) && has_line(s.player2)),
        score_of(s) == Score::Player1Wins <==> has_line(s.player1),
        score_of(s) == Score::Player2Wins <==> has_line(s.player2),
    decreases n,
{
    if n == 0 {
        assert(OFF_BOARD & OFF_BOARD == OFF_BOARD) by (bit_vector);
        assert(!has_line(OFF_BOARD)) by (bit_vector);
    } else {
        let (prev, mask) = choose|prev: GameState, mask: Grid|
            #![trigger prev.after(mask)]
            reachable_in(prev, (n - 1) as nat) && score_of(prev) == Score::Undecided
                && prev.is_legal(mask) && s == prev.after(mask);
        lemma_reachable_wins_exclusive(prev, (n - 1) as nat);
        lemma_after_wf(prev, mask);
    }
}

/// On a well-formed position, `score` is decided by the lines as soon as
/// one player holds one, whether or not the board is full; a full board
/// without a line is a draw, and anything else is undecided.
pub proof fn lemma_score_cases(s: GameState)
    requires
        s.wf(),
    ensures
        has_line(s.player1) && !has_line(s.player2) ==> score_of(s) == Score::Player1Wins,
        has_line(s.player2) && !has_line(s.player1) ==> score_of(s) == Score::Player2Wins,
        !has_line(s.player1) && !has_line(s.player2) && s.occupied() & 0x1ff == 0x1ff
            ==> score_of(s) == Score::Draw,
        !has_line(s.player1) && !has_line(s.player2) && s.occupied() & 0x1ff != 0x1ff
            ==> score_of(s) == Score::Undecided,
{
    let p1 = s.player1;
    let p2 = s.player2;
    assert(p1 & OFF_BOARD == OFF_BOARD ==> ((p1 | p2) == ALL <==> (p1 | p2) & 0x1ff == 0x1ff))
        by (bit_vector);
}

} // verus!
