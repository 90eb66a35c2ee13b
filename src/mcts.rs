use rand::rngs::ThreadRng;
use std::collections::HashMap;
use vstd::map_lib::lemma_submap_of_trans;
use vstd::prelude::*;

use crate::rng::shuffle;
use crate::solver::{key, key_of, lemma_key_injective};
use crate::types::{
    cell, lemma_after_wf, lemma_cells, lemma_free_cell, score_of, Action,
    GameState, Grid, Score, ALL,
};

verus! {

/// The statistics of one position of the search graph.
#[derive(Clone, Copy)]
struct Node {
    /// How many descents passed through this position.
    visited: u32,
    /// How many of those ended well for the side being optimized.
    wins: u32,
    /// The node reached by each cell, once that move has been tried.
    moves: [Option<usize>; 9],
}

/// Monte Carlo tree search over a graph with one node per position: two
/// move orders that reach the same position share its node.
pub struct StrategyMCTS {
    nodes: Vec<Node>,
    tree: HashMap<u64, usize>,
    states: Ghost<Seq<GameState>>,
}

/// The number of positions of tic-tac-toe that play can reach; a node
/// visited this often is not searched further.
pub const REACHABLE_POSITIONS: u32 = 5477;

/// The descents run on the first call, when the graph is still empty.
pub const FIRST_BUDGET: u32 = 30000;

/// The descents run on each later call.
pub const LATER_BUDGET: u32 = 100;

/// What a finished game is worth to the side being optimized: 1 for its
/// win or a draw, 0 for a loss.
pub open spec fn result_value(perspective_is_player1: bool, s: Score) -> u32 {
    match s {
        Score::Player1Wins => if perspective_is_player1 { 1 } else { 0 },
        Score::Player2Wins => if perspective_is_player1 { 0 } else { 1 },
        _ => 1,
    }
}

/// Node `n` is one of the nodes of `path`.
pub open spec fn on_path(path: Seq<usize>, n: int) -> bool {
    exists|k: int| 0 <= k < path.len() && path[k] as int == n
}

/// The cells, in index order, as a sequence.
pub open spec fn all_cells() -> Seq<usize> {
    Seq::new(9, |i: int| i as usize)
}

impl StrategyMCTS {
    /// The number of nodes.
    pub closed spec fn len(self) -> int {
        self.nodes@.len() as int
    }

    /// The position of node `n`.
    pub closed spec fn position(self, n: int) -> GameState {
        self.states@[n]
    }

    /// How many descents went through node `n`.
    pub closed spec fn visits(self, n: int) -> u32 {
        self.nodes@[n].visited
    }

    /// How many of them ended well.
    pub closed spec fn win_count(self, n: int) -> u32 {
        self.nodes@[n].wins
    }

    /// The node reached from node `n` by cell `i`, once that move was tried.
    pub closed spec fn link(self, n: int, i: int) -> Option<usize> {
        self.nodes@[n].moves@[i]
    }

    /// The node of each position, by the position's key.
    pub closed spec fn index(self) -> Map<u64, usize> {
        self.tree@
    }

    /// The node of `s`, if the graph has one.
    pub open spec fn node_of(self, s: GameState) -> Option<usize> {
        if self.index().contains_key(key_of(s)) {
            Some(self.index()[key_of(s)])
        } else {
            None
        }
    }

    /// The shape of the graph: one node per position, each indexed under its
    /// position's key, each link leading to the node of the position that
    /// its move reaches, and never more wins than visits.
    pub closed spec fn graph_ok(self) -> bool {
        &&& self.nodes@.len() == self.states@.len()
        &&& forall|k: u64| #[trigger]
            self.tree@.contains_key(k) ==> (self.tree@[k] as int) < self.len() && key_of(
                self.states@[self.tree@[k] as int],
            ) == k
        &&& forall|n: int|
            0 <= n < self.len() ==> self.tree@.contains_key(key_of(#[trigger] self.states@[n]))
                && self.tree@[key_of(self.states@[n])] == n && self.states@[n].wf()
        &&& forall|n: int| 0 <= n < self.len() ==> (#[trigger] self.nodes@[n]).wins <= self.nodes@[n].visited
        &&& forall|n: int, i: int|
            0 <= n < self.len() && 0 <= i < 9 && (#[trigger] self.nodes@[n].moves@[i]).is_some()
                ==> {
                let c = self.nodes@[n].moves@[i].unwrap() as int;
                &&& c < self.len()
                &&& self.states@[n].occupied() & cell(i) == 0
                &&& self.states@[c] == self.states@[n].after(cell(i))
            }
    }

    /// A graph at rest, between two calls: every node has been visited.
    pub open spec fn inv(self) -> bool {
        &&& self.graph_ok()
        &&& forall|n: int| 0 <= n < self.len() ==> #[trigger] self.visits(n) >= 1
        &&& forall|n: int| 0 <= n < self.len() ==> #[trigger] self.fed(n)
    }

    /// An empty graph.
    pub fn new() -> (r: StrategyMCTS)
        ensures
            r.inv(),
            r.len() == 0,
    {
        StrategyMCTS { nodes: Vec::new(), tree: HashMap::new(), states: Ghost(Seq::empty()) }
    }

    /// A node that was visited and is not over has a visited child.
    pub open spec fn fed(self, n: int) -> bool {
        self.visits(n) >= 1 && score_of(self.position(n)) == Score::Undecided ==> exists|i: int|
            0 <= i < 9 && #[trigger] self.link(n, i).is_some() && self.visits(
                self.link(n, i).unwrap() as int,
            ) >= 1
    }

    /// Some move of node `a` leads to node `b`.
    pub open spec fn links_to(self, a: int, b: usize) -> bool {
        exists|i: int| 0 <= i < 9 && #[trigger] self.link(a, i) == Some(b)
    }

    /// `next` is `self` after more search: nodes are only added, positions
    /// and links stay, and no counter goes down.
    pub open spec fn extends(self, next: StrategyMCTS) -> bool {
        &&& self.len() <= next.len()
        &&& forall|n: int|
            0 <= n < self.len() ==> {
                &&& #[trigger] next.position(n) == self.position(n)
                &&& next.visits(n) >= self.visits(n)
                &&& next.win_count(n) >= self.win_count(n)
            }
        &&& forall|n: int, i: int|
            0 <= n < self.len() && 0 <= i < 9 && #[trigger] self.link(n, i).is_some() ==> next.link(
                n,
                i,
            ) == self.link(n, i)
        &&& self.index().submap_of(next.index())
    }

    /// True when a descent must try cell `i` of node `n` before any other:
    /// the move was never tried, or the node itself was never visited.
    pub open spec fn eager(self, n: int, i: int) -> bool {
        self.link(n, i).is_none() || self.visits(n) == 0
    }

    /// Picks the cell that a descent from node `n` takes next, as its place
    /// in `order`. Cells are looked at in that order; an eager cell beats any
    /// other, so the first eager empty cell is taken when there is one;
    /// between two tried cells `ucb_prefers` decides, from the node's visits
    /// and each child's wins and visits.
    fn select<F: Fn(u32, (u32, u32), (u32, u32)) -> bool>(
        &self,
        n: usize,
        occupied: Grid,
        order: &Vec<usize>,
        ucb_prefers: &F,
    ) -> (j: usize)
        requires
            self.graph_ok(),
            n < self.len(),
            order@.len() == 9,
            forall|k: int| 0 <= k < 9 ==> order@[k] < 9,
            exists|k: int| 0 <= k < 9 && #[trigger] (occupied & cell(order@[k] as int)) == 0,
            forall|p: u32, a: (u32, u32), b: (u32, u32)| ucb_prefers.requires((p, a, b)),
        ensures
            j < 9,
            occupied & cell(order@[j as int] as int) == 0,
            (exists|k: int|
                0 <= k < 9 && #[trigger] (occupied & cell(order@[k] as int)) == 0 && self.eager(
                    n as int,
                    order@[k] as int,
                )) ==> {
                &&& self.eager(n as int, order@[j as int] as int)
                &&& forall|k: int|
                    0 <= k < j ==> !(#[trigger] (occupied & cell(order@[k] as int)) == 0
                        && self.eager(n as int, order@[k] as int))
            },
    {
        let node = self.nodes[n];
        let parent_visits = node.visited;
        let mut found = false;
        let mut best: usize = 0;
        let mut best_eager = false;
        let mut best_stats: (u32, u32) = (0, 0);
        let mut j: usize = 0;
        while j < 9
            invariant
                self.graph_ok(),
                n < self.len(),
                node == self.nodes@[n as int],
                parent_visits == node.visited,
                order@.len() == 9,
                forall|k: int| 0 <= k < 9 ==> order@[k] < 9,
                j <= 9,
                found ==> best < j && occupied & cell(order@[best as int] as int) == 0
                    && best_eager == self.eager(n as int, order@[best as int] as int),
                (exists|k: int| 0 <= k < j && #[trigger] (occupied & cell(order@[k] as int)) == 0) ==> found,
                (exists|k: int|
                    0 <= k < j && #[trigger] (occupied & cell(order@[k] as int)) == 0
                        && self.eager(n as int, order@[k] as int)) ==> {
                    &&& found
                    &&& best_eager
                    &&& forall|k: int|
                        0 <= k < best ==> !(#[trigger] (occupied & cell(order@[k] as int)) == 0
                            && self.eager(n as int, order@[k] as int))
                },
                forall|p: u32, a: (u32, u32), b: (u32, u32)| ucb_prefers.requires((p, a, b)),
            decreases 9 - j,
        {
            let idx = order[j];
            proof {
                lemma_cells();
            }
            let mask: Grid = 1 << (idx as u16);
            assert(mask == cell(idx as int));
            if occupied & mask == 0 {
                let (eager, stats) = match node.moves[idx] {
                    None => (true, (0u32, 0u32)),
                    Some(c) => (parent_visits == 0, (self.nodes[c].wins, self.nodes[c].visited)),
                };
                let take = if !found {
                    true
                } else if eager {
                    !best_eager
                } else if best_eager {
                    false
                } else {
                    ucb_prefers(parent_visits, stats, best_stats)
                };
                if take {
                    found = true;
                    best = j;
                    best_eager = eager;
                    best_stats = stats;
                }
            }
            j += 1;
        }
        best
    }

    /// Adds a node for `s`, which has none yet, with no visits and no links.
    fn add_node(&mut self, s: &GameState) -> (c: usize)
        requires
            old(self).graph_ok(),
            s.wf(),
            !old(self).index().contains_key(key_of(*s)),
        ensures
            final(self).graph_ok(),
            c == old(self).len(),
            final(self).len() == old(self).len() + 1,
            final(self).position(c as int) == *s,
            final(self).visits(c as int) == 0,
            final(self).win_count(c as int) == 0,
            forall|i: int| 0 <= i < 9 ==> #[trigger] final(self).link(c as int, i).is_none(),
            final(self).index() == old(self).index().insert(key_of(*s), c),
            old(self).extends(*final(self)),
            forall|n: int|
                0 <= n < old(self).len() ==> #[trigger] final(self).nodes@[n] == old(self).nodes@[n],
    {
        let k = key(s);
        let c = self.nodes.len();
        self.nodes.push(
            Node {
                visited: 0,
                wins: 0,
                moves: [None, None, None, None, None, None, None, None, None],
            },
        );
        self.tree.insert(k, c);
        proof {
            self.states@ = self.states@.push(*s);
            let before = *old(self);
            assert forall|k2: u64| #[trigger]
                self.tree@.contains_key(k2) implies (self.tree@[k2] as int) < self.len() && key_of(
                self.states@[self.tree@[k2] as int],
            ) == k2 by {
                if k2 != k {
                    assert(before.tree@.contains_key(k2));
                }
            }
            assert forall|n: int| 0 <= n < self.len() implies self.tree@.contains_key(
                key_of(#[trigger] self.states@[n]),
            ) && self.tree@[key_of(self.states@[n])] == n && self.states@[n].wf() by {
                if n < c {
                    assert(before.states@[n] == self.states@[n]);
                    if key_of(self.states@[n]) == k {
                        lemma_key_injective(self.states@[n], *s);
                    }
                }
            }
            assert forall|n: int| 0 <= n < self.len() implies (#[trigger] self.nodes@[n]).wins
                <= self.nodes@[n].visited by {
                if n < c {
                    assert(before.nodes@[n] == self.nodes@[n]);
                }
            }
            assert forall|n: int, i: int|
                0 <= n < self.len() && 0 <= i < 9 && (#[trigger] self.nodes@[n].moves@[i]).is_some()
                    implies {
                    let c2 = self.nodes@[n].moves@[i].unwrap() as int;
                    &&& c2 < self.len()
                    &&& self.states@[n].occupied() & cell(i) == 0
                    &&& self.states@[c2] == self.states@[n].after(cell(i))
                } by {
                if n == c {
                    assert(self.nodes@[n].moves@[i].is_none());
                }
                assert(before.nodes@[n] == self.nodes@[n]);
            }
            assert forall|n: int| 0 <= n < before.len() implies #[trigger] self.position(n)
                == before.position(n) && self.visits(n) >= before.visits(n) && self.win_count(n)
                >= before.win_count(n) by {
                assert(before.nodes@[n] == self.nodes@[n]);
            }
            assert forall|n: int, i: int|
                0 <= n < before.len() && 0 <= i < 9 && #[trigger] before.link(n, i).is_some()
                    implies self.link(n, i) == before.link(n, i) by {
                assert(before.nodes@[n] == self.nodes@[n]);
            }
        }
        c
    }

    /// Records that cell `i` of node `n` leads to node `c`.
    fn attach(&mut self, n: usize, i: usize, c: usize)
        requires
            old(self).graph_ok(),
            n < old(self).len(),
            i < 9,
            c < old(self).len(),
            old(self).link(n as int, i as int).is_none(),
            old(self).position(n as int).occupied() & cell(i as int) == 0,
            old(self).position(c as int) == old(self).position(n as int).after(cell(i as int)),
        ensures
            final(self).graph_ok(),
            final(self).len() == old(self).len(),
            final(self).index() == old(self).index(),
            final(self).link(n as int, i as int) == Some(c),
            old(self).extends(*final(self)),
            forall|m: int|
                0 <= m < old(self).len() ==> #[trigger] final(self).visits(m) == old(self).visits(m)
                    && final(self).win_count(m) == old(self).win_count(m),
            forall|m: int, j: int|
                0 <= m < old(self).len() && 0 <= j < 9 && !(m == n && j == i)
                    ==> #[trigger] final(self).link(m, j) == old(self).link(m, j),
    {
        let mut nd = self.nodes[n];
        nd.moves[i] = Some(c);
        self.nodes.set(n, nd);
        proof {
            let before = *old(self);
            assert(self.nodes@ == before.nodes@.update(n as int, nd));
            assert(nd.moves@ == before.nodes@[n as int].moves@.update(i as int, Some(c)));
            assert forall|m: int, j: int|
                0 <= m < self.len() && 0 <= j < 9 && (#[trigger] self.nodes@[m].moves@[j]).is_some()
                    implies {
                    let c2 = self.nodes@[m].moves@[j].unwrap() as int;
                    &&& c2 < self.len()
                    &&& self.states@[m].occupied() & cell(j) == 0
                    &&& self.states@[c2] == self.states@[m].after(cell(j))
                } by {
                if !(m == n && j == i) {
                    assert(self.nodes@[m].moves@[j] == before.nodes@[m].moves@[j]);
                }
            }
            assert forall|m: int| 0 <= m < self.len() implies (#[trigger] self.nodes@[m]).wins
                <= self.nodes@[m].visited by {
                assert(before.nodes@[m].wins <= before.nodes@[m].visited);
            }
            assert forall|m: int, j: int|
                0 <= m < before.len() && 0 <= j < 9 && #[trigger] before.link(m, j).is_some()
                    implies self.link(m, j) == before.link(m, j) by {
                if m == n && j == i {
                } else {
                    assert(self.nodes@[m].moves@[j] == before.nodes@[m].moves@[j]);
                }
            }
            assert forall|m: int, j: int|
                0 <= m < before.len() && 0 <= j < 9 && !(m == n && j == i) implies #[trigger] self.link(
                m,
                j,
            ) == before.link(m, j) by {
                assert(self.nodes@[m].moves@[j] == before.nodes@[m].moves@[j]);
            }
        }
    }

    /// Adds one descent's result along `path`, deepest node first: each node
    /// gains a visit, and a win when `result` is 1.
    fn backpropagate(&mut self, path: &Vec<usize>, result: u32)
        requires
            old(self).graph_ok(),
            result <= 1,
            path@.len() >= 1,
            forall|k: int| 0 <= k < path@.len() ==> (path@[k] as int) < old(self).len(),
            forall|k: int|
                0 <= k < path@.len() - 1 ==> #[trigger] old(self).links_to(path@[k] as int, path@[k + 1]),
            score_of(old(self).position(path@.last() as int)) != Score::Undecided,
            forall|n: int| 0 <= n < old(self).len() ==> #[trigger] old(self).fed(n),
        ensures
            final(self).graph_ok(),
            old(self).extends(*final(self)),
            final(self).len() == old(self).len(),
            final(self).index() == old(self).index(),
            forall|k: int| 0 <= k < path@.len() ==> final(self).visits(#[trigger] path@[k] as int) >= 1,
            forall|n: int| 0 <= n < final(self).len() ==> #[trigger] final(self).fed(n),
            forall|n: int|
                0 <= n < old(self).len() && !on_path(path@, n) ==> #[trigger] final(self).visits(n)
                    == old(self).visits(n) && final(self).win_count(n) == old(self).win_count(n),
    {
        let mut j: usize = path.len();
        while j > 0
            invariant
                self.graph_ok(),
                old(self).extends(*self),
                self.len() == old(self).len(),
                self.index() == old(self).index(),
                j <= path@.len(),
                result <= 1,
                forall|k: int| 0 <= k < path@.len() ==> (path@[k] as int) < old(self).len(),
                forall|k: int|
                    0 <= k < path@.len() - 1 ==> #[trigger] old(self).links_to(path@[k] as int, path@[k + 1]),
                score_of(old(self).position(path@.last() as int)) != Score::Undecided,
                forall|k: int| j <= k < path@.len() ==> self.visits(#[trigger] path@[k] as int) >= 1,
                forall|n: int| 0 <= n < self.len() ==> #[trigger] self.fed(n),
                forall|n: int|
                    0 <= n < old(self).len() && !on_path(path@, n) ==> self.visits(n)
                        == old(self).visits(n) && self.win_count(n) == old(self).win_count(n),
            decreases j,
        {
            j -= 1;
            let p = path[j];
            let ghost prev = *self;
            let mut nd = self.nodes[p];
            nd.visited = nd.visited.saturating_add(1);
            nd.wins = nd.wins.saturating_add(result);
            self.nodes.set(p, nd);
            proof {
                assert(self.nodes@ == prev.nodes@.update(p as int, nd));
                assert forall|n: int| 0 <= n < old(self).len() implies #[trigger] self.position(n)
                    == old(self).position(n) && self.visits(n) >= old(self).visits(n)
                    && self.win_count(n) >= old(self).win_count(n) by {
                    assert(prev.position(n) == old(self).position(n));
                }
                assert forall|n: int, i: int|
                    0 <= n < old(self).len() && 0 <= i < 9 && #[trigger] old(self).link(n, i).is_some()
                        implies self.link(n, i) == old(self).link(n, i) by {
                    assert(prev.link(n, i) == old(self).link(n, i));
                }
                assert(self.states@ == prev.states@);
                assert forall|x: int, i: int| 0 <= x < self.len() && 0 <= i < 9 implies #[trigger] self.link(x, i) == prev.link(x, i) by {
                    if x == p {
                        assert(self.nodes@[x] == nd);
                    }
                }
                assert forall|x: int| 0 <= x < self.len() implies #[trigger] self.visits(x) >= prev.visits(x) by {
                    if x == p {
                        assert(self.nodes@[x] == nd);
                    }
                }
                assert forall|n: int| 0 <= n < self.len() implies #[trigger] self.fed(n) by {
                    assert(prev.fed(n));
                    if self.visits(n) >= 1 && score_of(self.position(n)) == Score::Undecided {
                        if n == p && prev.visits(n) == 0 {
                            assert(j < path@.len() - 1);
                            assert(old(self).links_to(path@[j as int] as int, path@[j + 1]));
                            let i = choose|i: int|
                                0 <= i < 9 && #[trigger] old(self).link(path@[j as int] as int, i)
                                    == Some(path@[j + 1]);
                            assert(old(self).link(n, i).is_some());
                            assert(prev.link(n, i) == old(self).link(n, i));
                            assert(self.link(n, i) == Some(path@[j + 1]));
                            assert(self.visits(path@[j + 1] as int) >= 1);
                        } else {
                            let i = choose|i: int|
                                0 <= i < 9 && #[trigger] prev.link(n, i).is_some() && prev.visits(
                                    prev.link(n, i).unwrap() as int,
                                ) >= 1;
                            assert(self.link(n, i) == prev.link(n, i));
                        }
                    }
                }
                assert forall|n: int|
                    0 <= n < old(self).len() && !on_path(path@, n) implies self.visits(n)
                        == old(self).visits(n) && self.win_count(n) == old(self).win_count(n) by {
                    if n == p {
                        assert(path@[j as int] as int == n);
                    }
                }
            }
        }
    }

    /// One descent from `state`, whose node is `root`, down to a finished
    /// game: at each node the cells are shuffled and `select` picks one; the
    /// node of the position reached is attached, or created when the graph
    /// has none; last, the result is added along the path. Returns 1 when the
    /// game ended in a win for `perspective_is_player1`'s side or a draw.
    #[verifier::rlimit(50)]
    fn search_one<F: Fn(u32, (u32, u32), (u32, u32)) -> bool>(
        &mut self,
        state: &GameState,
        root: usize,
        perspective_is_player1: bool,
        rng: &mut ThreadRng,
        ucb_prefers: &F,
    ) -> (r: u32)
        requires
            old(self).graph_ok(),
            root < old(self).len(),
            old(self).position(root as int) == *state,
            score_of(*state) == Score::Undecided,
            forall|n: int| 0 <= n < old(self).len() ==> #[trigger] old(self).fed(n),
            forall|n: int|
                0 <= n < old(self).len() && #[trigger] old(self).visits(n) == 0 ==> n == root,
            forall|p: u32, a: (u32, u32), b: (u32, u32)| ucb_prefers.requires((p, a, b)),
        ensures
            final(self).graph_ok(),
            old(self).extends(*final(self)),
            r <= 1,
            exists|t: int|
                0 <= t < final(self).len() && score_of(#[trigger] final(self).position(t))
                    != Score::Undecided && r == result_value(
                    perspective_is_player1,
                    score_of(final(self).position(t)),
                ),
            forall|n: int| 0 <= n < final(self).len() ==> #[trigger] final(self).fed(n),
            forall|n: int|
                0 <= n < final(self).len() && #[trigger] final(self).visits(n) == 0 ==> n == root,
            exists|i: int|
                0 <= i < 9 && #[trigger] final(self).link(root as int, i).is_some()
                    && final(self).visits(final(self).link(root as int, i).unwrap() as int) >= 1,
    {
        let mut path: Vec<usize> = Vec::new();
        let mut cur: usize = root;
        let mut cur_state: GameState = *state;
        let mut result: u32 = 0;
        loop
            invariant_except_break
                forall|n: int|
                    0 <= n < self.len() && #[trigger] self.visits(n) == 0 ==> self.position(
                        n,
                    ).occupied() <= cur_state.occupied(),
                path@.len() == 0 ==> cur == root,
                path@.len() > 0 ==> cur == path@.last(),
            invariant
                self.graph_ok(),
                old(self).extends(*self),
                old(self).position(root as int) == *state,
                cur < self.len(),
                self.position(cur as int) == cur_state,
                score_of(cur_state) == Score::Undecided,
                cur_state.wf(),
                root < old(self).len(),
                state.occupied() <= cur_state.occupied(),
                forall|n: int| 0 <= n < self.len() ==> #[trigger] self.fed(n),
                forall|n: int|
                    0 <= n < self.len() && #[trigger] self.visits(n) == 0 ==> n == root
                        || on_path(path@, n),
                forall|k: int| 0 <= k < path@.len() ==> (path@[k] as int) < self.len(),
                forall|k: int| 0 <= k < path@.len() ==> path@[k] != root,
                path@.len() > 0 ==> self.links_to(root as int, path@[0]),
                forall|k: int|
                    0 <= k < path@.len() - 1 ==> #[trigger] self.links_to(path@[k] as int, path@[k + 1]),
                forall|p: u32, a: (u32, u32), b: (u32, u32)| ucb_prefers.requires((p, a, b)),
            ensures
                self.graph_ok(),
                old(self).extends(*self),
                result <= 1,
                path@.len() >= 1,
                result == result_value(
                    perspective_is_player1,
                    score_of(self.position(path@.last() as int)),
                ),
                score_of(self.position(path@.last() as int)) != Score::Undecided,
                forall|n: int| 0 <= n < self.len() ==> #[trigger] self.fed(n),
                forall|n: int|
                    0 <= n < self.len() && #[trigger] self.visits(n) == 0 ==> n == root
                        || on_path(path@, n),
                forall|k: int| 0 <= k < path@.len() ==> (path@[k] as int) < self.len(),
                forall|k: int| 0 <= k < path@.len() ==> path@[k] != root,
                self.links_to(root as int, path@[0]),
                forall|k: int|
                    0 <= k < path@.len() - 1 ==> #[trigger] self.links_to(path@[k] as int, path@[k + 1]),
            decreases ALL - cur_state.occupied(),
        {
            let mut order: Vec<usize> = vec![0usize, 1, 2, 3, 4, 5, 6, 7, 8];
            proof {
                assert(order@ == all_cells());
            }
            shuffle(&mut order, rng);
            let occupied = cur_state.legal_moves().occupied;
            proof {
                lemma_shuffled(order@);
                lemma_free_cell(cur_state);
                let f = choose|f: int| 0 <= f < 9 && #[trigger] (cur_state.occupied() & cell(f)) == 0;
                assert(all_cells()[f] == f as usize);
                assert(order@.contains(f as usize));
                let k = choose|k: int| 0 <= k < order@.len() && order@[k] == f as usize;
                assert(occupied & cell(order@[k] as int) == 0);
            }
            let ghost top = *self;
            let j = self.select(cur, occupied, &order, ucb_prefers);
            let idx = order[j];
            proof {
                lemma_cells();
            }
            let mask: Grid = 1 << (idx as u16);
            assert(mask == cell(idx as int));
            let next_state = cur_state.perform(Action::Put { mask });
            proof {
                lemma_after_wf(cur_state, mask);
            }
            let child = match self.nodes[cur].moves[idx] {
                Some(c) => c,
                None => {
                    let k = key(&next_state);
                    let c = match self.tree.get(&k) {
                        Some(c) => {
                            let c = *c;
                            proof {
                                lemma_key_injective(self.states@[c as int], next_state);
                                // a node met again by another move order was
                                // already reached by a finished descent
                                assert(self.visits(c as int) >= 1);
                            }
                            c
                        },
                        None => self.add_node(&next_state),
                    };
                    self.attach(cur, idx, c);
                    c
                },
            };
            proof {
                assert(self.link(cur as int, idx as int) == Some(child));
                assert(self.position(child as int) == next_state);
                assert(self.position(root as int) == old(self).position(root as int));
                assert(next_state.occupied() > cur_state.occupied());
                assert(next_state.occupied() != state.occupied());
                if child == root {
                    assert(next_state == *state);
                }
                assert(self.links_to(cur as int, child));
                assert(self.len() == top.len() || (self.len() == top.len() + 1 && child == top.len()));
                assert forall|n: int| 0 <= n < top.len() implies #[trigger] self.visits(n) == top.visits(n)
                    && self.win_count(n) == top.win_count(n) by {}
                lemma_extends_trans(*old(self), top, *self);
                assert forall|n: int| 0 <= n < self.len() implies #[trigger] self.fed(n) by {
                    if n < top.len() {
                        assert(top.fed(n));
                        assert(self.position(n) == top.position(n));
                        if self.visits(n) >= 1 && score_of(self.position(n)) == Score::Undecided {
                            let i = choose|i: int|
                                0 <= i < 9 && #[trigger] top.link(n, i).is_some() && top.visits(
                                    top.link(n, i).unwrap() as int,
                                ) >= 1;
                            assert(self.link(n, i) == top.link(n, i));
                            assert(self.visits(self.link(n, i).unwrap() as int) >= 1);
                        }
                    }
                }
            }
            let ghost old_path = path@;
            path.push(child);
            proof {
                assert(path@ == old_path.push(child));
                if old_path.len() == 0 {
                    assert(path@[0] == child);
                } else {
                    assert(top.links_to(root as int, old_path[0]));
                    let i = choose|i: int| 0 <= i < 9 && #[trigger] top.link(root as int, i) == Some(old_path[0]);
                    assert(top.link(root as int, i).is_some());
                    assert(self.link(root as int, i) == top.link(root as int, i));
                    assert(self.links_to(root as int, path@[0]));
                }
                assert forall|k: int| 0 <= k < path@.len() - 1 implies #[trigger] self.links_to(path@[k] as int, path@[k + 1]) by {
                    if k == path@.len() - 2 {
                        assert(path@[k] == cur);
                        assert(path@[k + 1] == child);
                    } else {
                        assert(top.links_to(old_path[k] as int, old_path[k + 1]));
                        let i = choose|i: int| 0 <= i < 9 && #[trigger] top.link(old_path[k] as int, i) == Some(old_path[k + 1]);
                        assert(top.link(old_path[k] as int, i).is_some());
                        assert(self.link(path@[k] as int, i) == top.link(path@[k] as int, i));
                    }
                }
                assert forall|n: int|
                    0 <= n < self.len() && #[trigger] self.visits(n) == 0 implies n == root
                        || on_path(path@, n) by {
                    if n < top.len() {
                        assert(top.visits(n) == 0);
                        if n != root {
                            assert(on_path(old_path, n));
                            let k = choose|k: int| 0 <= k < old_path.len() && old_path[k] as int == n;
                            assert(path@[k] as int == n);
                        }
                    } else {
                        assert(path@[path@.len() - 1] as int == n);
                    }
                }
            }
            let outcome = next_state.score();
            match outcome {
                Score::Undecided => {
                    proof {
                        assert forall|n: int|
                            0 <= n < self.len() && #[trigger] self.visits(n) == 0 implies self.position(
                                n,
                            ).occupied() <= next_state.occupied() by {
                            if n < top.len() {
                                assert(top.visits(n) == 0);
                            }
                        }
                    }
                    cur_state = next_state;
                    cur = child;
                },
                _ => {
                    result = match (perspective_is_player1, outcome) {
                        (true, Score::Player1Wins) | (false, Score::Player2Wins) => 1,
                        (_, Score::Player2Wins) | (_, Score::Player1Wins) => 0,
                        _ => 1,
                    };
                    break ;
                },
            }
        }
        let ghost pre = *self;
        self.backpropagate(&path, result);
        proof {
            lemma_extends_trans(*old(self), pre, *self);
            let t = path@.last() as int;
            assert(self.position(t) == pre.position(t));
            assert forall|n: int|
                0 <= n < self.len() && #[trigger] self.visits(n) == 0 implies n == root by {
                if on_path(path@, n) {
                    let k = choose|k: int| 0 <= k < path@.len() && path@[k] as int == n;
                    assert(self.visits(path@[k] as int) >= 1);
                } else {
                    assert(pre.visits(n) == 0);
                }
            }
            assert(pre.links_to(root as int, path@[0]));
            let i = choose|i: int| 0 <= i < 9 && #[trigger] pre.link(root as int, i) == Some(path@[0]);
            assert(pre.link(root as int, i).is_some());
            assert(self.link(root as int, i) == pre.link(root as int, i));
            assert(self.visits(path@[0] as int) >= 1);
            assert(!path@.contains(root));
        }
        result
    }

    /// Adds one finished descent to node `n`'s own counters.
    fn record(&mut self, n: usize, result: u32)
        requires
            old(self).graph_ok(),
            n < old(self).len(),
            result <= 1,
        ensures
            final(self).graph_ok(),
            old(self).extends(*final(self)),
            final(self).len() == old(self).len(),
            final(self).index() == old(self).index(),
            final(self).visits(n as int) >= 1,
            forall|m: int, i: int|
                0 <= m < final(self).len() && 0 <= i < 9 ==> #[trigger] final(self).link(m, i)
                    == old(self).link(m, i),
            forall|m: int|
                0 <= m < final(self).len() && m != n ==> #[trigger] final(self).visits(m)
                    == old(self).visits(m),
    {
        let mut nd = self.nodes[n];
        nd.visited = nd.visited.saturating_add(1);
        nd.wins = nd.wins.saturating_add(result);
        self.nodes.set(n, nd);
        proof {
            let before = *old(self);
            assert(self.nodes@ == before.nodes@.update(n as int, nd));
            assert forall|m: int, i: int| 0 <= m < self.len() && 0 <= i < 9 implies #[trigger] self.link(
                m,
                i,
            ) == before.link(m, i) by {
                if m == n {
                    assert(self.nodes@[m] == nd);
                }
            }
            assert forall|m: int| 0 <= m < before.len() implies #[trigger] self.position(m)
                == before.position(m) && self.visits(m) >= before.visits(m) && self.win_count(m)
                >= before.win_count(m) by {
                if m == n {
                    assert(self.nodes@[m] == nd);
                }
            }
        }
    }

    /// Cell `i` of node `n` leads to a visited child whose share of wins is
    /// the highest of all of `n`'s visited children, and strictly higher
    /// than that of every such child at a lower cell.
    pub open spec fn is_best_move(self, n: int, i: int) -> bool {
        &&& 0 <= i < 9
        &&& self.link(n, i).is_some()
        &&& self.visits(self.link(n, i).unwrap() as int) > 0
        &&& forall|j: int|
            0 <= j < 9 && #[trigger] self.link(n, j).is_some() && self.visits(
                self.link(n, j).unwrap() as int,
            ) > 0 ==> {
                let c = self.link(n, i).unwrap() as int;
                let d = self.link(n, j).unwrap() as int;
                &&& ratio_le(self.win_count(d), self.visits(d), self.win_count(c), self.visits(c))
                &&& j < i ==> ratio_lt(
                    self.win_count(d),
                    self.visits(d),
                    self.win_count(c),
                    self.visits(c),
                )
            }
    }

    /// Searches from `state` and plays the cell whose child has the highest
    /// share of wins (the lowest such cell on a tie). The first call on an
    /// empty graph runs a long search, later calls a short one, and a node
    /// already visited as often as the game has positions is not searched
    /// further.
    pub fn play<F: Fn(u32, (u32, u32), (u32, u32)) -> bool>(
        &mut self,
        state: &GameState,
        rng: &mut ThreadRng,
        ucb_prefers: &F,
    ) -> (r: Action)
        requires
            old(self).inv(),
            state.wf(),
            score_of(*state) == Score::Undecided,
            forall|p: u32, a: (u32, u32), b: (u32, u32)| ucb_prefers.requires((p, a, b)),
        ensures
            final(self).inv(),
            old(self).extends(*final(self)),
            final(self).node_of(*state).is_some(),
            exists|i: int|
                final(self).is_best_move(final(self).node_of(*state).unwrap() as int, i) && r
                    == (Action::Put { mask: cell(i) }),
            match r { Action::Put { mask } => state.is_legal(mask) },
    {
        let iterations: u32 = if self.tree.is_empty() { FIRST_BUDGET } else { LATER_BUDGET };
        let k = key(state);
        let root = match self.tree.get(&k) {
            Some(n) => {
                let n = *n;
                proof {
                    lemma_key_injective(self.states@[n as int], *state);
                }
                n
            },
            None => self.add_node(state),
        };
        proof {
            assert forall|n: int| 0 <= n < self.len() implies #[trigger] self.fed(n) by {
                if n < old(self).len() {
                    assert(old(self).fed(n));
                    assert(old(self).visits(n) >= 1);
                    let i = choose|i: int|
                        0 <= i < 9 && #[trigger] old(self).link(n, i).is_some() && old(self).visits(
                            old(self).link(n, i).unwrap() as int,
                        ) >= 1;
                    assert(self.link(n, i) == old(self).link(n, i));
                    assert(self.position(n) == old(self).position(n));
                }
            }
            assert forall|n: int|
                0 <= n < self.len() && #[trigger] self.visits(n) == 0 implies n == root by {
                if n < old(self).len() {
                    assert(old(self).visits(n) >= 1);
                }
            }
        }
        if self.nodes[root].visited < REACHABLE_POSITIONS {
            let mut t: u32 = 0;
            while t < iterations
                invariant
                    self.graph_ok(),
                    old(self).extends(*self),
                    root < self.len(),
                    self.position(root as int) == *state,
                    score_of(*state) == Score::Undecided,
                    self.index().contains_key(key_of(*state)),
                    self.index()[key_of(*state)] == root,
                    forall|n: int| 0 <= n < self.len() ==> #[trigger] self.fed(n),
                    forall|n: int|
                        0 <= n < self.len() && #[trigger] self.visits(n) == 0 ==> n == root,
                    t > 0 ==> self.visits(root as int) >= 1,
                    iterations >= 1,
                    forall|p: u32, a: (u32, u32), b: (u32, u32)| ucb_prefers.requires((p, a, b)),
                decreases iterations - t,
            {
                let ghost s0 = *self;
                let result = self.search_one(state, root, state.is_player1, rng, ucb_prefers);
                let ghost s1 = *self;
                self.record(root, result);
                proof {
                    lemma_extends_trans(s0, s1, *self);
                    lemma_extends_trans(*old(self), s0, *self);
                    assert(s0.position(root as int) == *state);
                    assert(s0.index().submap_of(self.index()));
                    assert(s0.index().dom().contains(key_of(*state)));
                    assert(self.index().dom().contains(key_of(*state)));
                    assert(self.index()[key_of(*state)] == root);
                    assert forall|n: int| 0 <= n < self.len() implies #[trigger] self.fed(n) by {
                        assert(s1.fed(n));
                        assert(self.position(n) == s1.position(n));
                        if n == root || (self.visits(n) >= 1 && score_of(self.position(n))
                            == Score::Undecided) {
                            let i = choose|i: int|
                                0 <= i < 9 && #[trigger] s1.link(n, i).is_some() && s1.visits(
                                    s1.link(n, i).unwrap() as int,
                                ) >= 1;
                            assert(self.link(n, i) == s1.link(n, i));
                            let c = s1.link(n, i).unwrap() as int;
                            if c != root {
                                assert(self.visits(c) == s1.visits(c));
                            }
                            assert(self.visits(self.link(n, i).unwrap() as int) >= 1);
                        }
                    }
                    assert forall|n: int|
                        0 <= n < self.len() && #[trigger] self.visits(n) == 0 implies n == root by {
                        if n != root {
                            assert(s1.visits(n) == 0);
                        }
                    }
                }
                t += 1;
            }
        }
        proof {
            assert(self.fed(root as int));
        }
        let best = self.best_child(root);
        let mask: Grid = 1 << (best as u16);
        proof {
            lemma_cells();
            assert(self.link(root as int, best as int).is_some());
            assert(mask == cell(best as int));
            assert(self.node_of(*state) == Some(root));
            assert(self.is_best_move(self.node_of(*state).unwrap() as int, best as int));
        }
        Action::Put { mask }
    }

    /// The cell of node `n`'s best visited child; node `n` must have one.
    fn best_child(&self, n: usize) -> (best: usize)
        requires
            self.graph_ok(),
            n < self.len(),
            exists|i: int|
                0 <= i < 9 && #[trigger] self.link(n as int, i).is_some() && self.visits(
                    self.link(n as int, i).unwrap() as int,
                ) >= 1,
        ensures
            self.is_best_move(n as int, best as int),
    {
        let node = self.nodes[n];
        let mut found = false;
        let mut best: usize = 0;
        let mut bw: u32 = 0;
        let mut bv: u32 = 0;
        let mut idx: usize = 0;
        while idx < 9
            invariant
                self.graph_ok(),
                n < self.len(),
                node == self.nodes@[n as int],
                idx <= 9,
                found ==> {
                    &&& best < idx
                    &&& self.link(n as int, best as int).is_some()
                    &&& bv == self.visits(self.link(n as int, best as int).unwrap() as int)
                    &&& bw == self.win_count(self.link(n as int, best as int).unwrap() as int)
                    &&& bv > 0
                },
                forall|j: int|
                    0 <= j < idx && #[trigger] self.link(n as int, j).is_some() && self.visits(
                        self.link(n as int, j).unwrap() as int,
                    ) > 0 ==> {
                        let d = self.link(n as int, j).unwrap() as int;
                        &&& found
                        &&& ratio_le(self.win_count(d), self.visits(d), bw, bv)
                        &&& j < best ==> ratio_lt(self.win_count(d), self.visits(d), bw, bv)
                    },
            decreases 9 - idx,
        {
            match node.moves[idx] {
                None => {},
                Some(c) => {
                    let w = self.nodes[c].wins;
                    let v = self.nodes[c].visited;
                    proof {
                        lemma_product_fits(w, bv);
                        lemma_product_fits(bw, v);
                    }
                    if v > 0 && (!found || (w as u64) * (bv as u64) > (bw as u64) * (v as u64)) {
                        proof {
                            assert forall|j: int|
                                0 <= j < idx && #[trigger] self.link(n as int, j).is_some()
                                    && self.visits(self.link(n as int, j).unwrap() as int) > 0
                                    implies {
                                    let d = self.link(n as int, j).unwrap() as int;
                                    &&& ratio_le(self.win_count(d), self.visits(d), w, v)
                                    &&& ratio_lt(self.win_count(d), self.visits(d), w, v)
                                } by {
                                let d = self.link(n as int, j).unwrap() as int;
                                lemma_ratio_trans(self.win_count(d), self.visits(d), bw, bv, w, v);
                            }
                        }
                        best = idx;
                        found = true;
                        bw = w;
                        bv = v;
                    }
                },
            }
            idx += 1;
        }
        best
    }

    pub fn name(&self) -> (r: &'static str)
        ensures
            r@ == "MonteCarlo"@,
    {
        "MonteCarlo"
    }

    /// The node of `state`, if the search has met that position.
    pub fn node_id(&self, state: &GameState) -> (r: Option<usize>)
        requires
            self.graph_ok(),
        ensures
            r == self.node_of(*state),
    {
        let k = key(state);
        match self.tree.get(&k) {
            Some(n) => Some(*n),
            None => None,
        }
    }

    /// The visits and wins of node `n`.
    pub fn stats(&self, n: usize) -> (r: (u32, u32))
        requires
            self.graph_ok(),
            n < self.len(),
        ensures
            r == (self.visits(n as int), self.win_count(n as int)),
    {
        (self.nodes[n].visited, self.nodes[n].wins)
    }

    /// The node that cell `cell` of node `n` leads to, once that move was
    /// tried.
    pub fn child(&self, n: usize, cell: usize) -> (r: Option<usize>)
        requires
            self.graph_ok(),
            n < self.len(),
            cell < 9,
        ensures
            r == self.link(n as int, cell as int),
    {
        self.nodes[n].moves[cell]
    }

    /// The number of nodes.
    pub fn node_count(&self) -> (r: usize)
        ensures
            r == self.len(),
    {
        self.nodes.len()
    }
}

impl Default for StrategyMCTS {
    fn default() -> (r: StrategyMCTS)
        ensures
            r.inv(),
            r.len() == 0,
    {
        StrategyMCTS::new()
    }
}

/// Two moves that reach the same position, from the same node or from two
/// different ones, lead to one shared node: what is recorded through one
/// move order is seen through the other.
pub proof fn lemma_transpositions_share(t: StrategyMCTS, a: int, i: int, b: int, j: int)
    requires
        t.graph_ok(),
        0 <= a < t.len(),
        0 <= b < t.len(),
        0 <= i < 9,
        0 <= j < 9,
        t.link(a, i).is_some(),
        t.link(b, j).is_some(),
        t.position(a).after(cell(i)) == t.position(b).after(cell(j)),
    ensures
        t.link(a, i) == t.link(b, j),
{
    assert(t.nodes@[a].moves@[i].is_some());
    assert(t.nodes@[b].moves@[j].is_some());
}

/// No node ever counts more wins than visits.
pub proof fn lemma_wins_within_visits(t: StrategyMCTS, n: int)
    requires
        t.graph_ok(),
        0 <= n < t.len(),
    ensures
        t.win_count(n) <= t.visits(n),
{
    assert(t.nodes@[n].wins <= t.nodes@[n].visited);
}

/// More search never lowers a node's counters, and never forgets a node or
/// a link: `extends` is kept along any run of calls.
pub proof fn lemma_counts_never_decrease(a: StrategyMCTS, b: StrategyMCTS, c: StrategyMCTS, n: int)
    requires
        a.extends(b),
        b.extends(c),
        0 <= n < a.len(),
    ensures
        a.extends(c),
        c.visits(n) >= a.visits(n),
        c.win_count(n) >= a.win_count(n),
{
    lemma_extends_trans(a, b, c);
    assert(c.position(n) == a.position(n));
}

/// `w1 / v1 <= w2 / v2`, for positive `v1` and `v2`.
pub open spec fn ratio_le(w1: u32, v1: u32, w2: u32, v2: u32) -> bool {
    w1 * v2 <= w2 * v1
}

/// `w1 / v1 < w2 / v2`, for positive `v1` and `v2`.
pub open spec fn ratio_lt(w1: u32, v1: u32, w2: u32, v2: u32) -> bool {
    w1 * v2 < w2 * v1
}

proof fn lemma_ratio_trans(w1: u32, v1: u32, w2: u32, v2: u32, w3: u32, v3: u32)
    requires
        v1 > 0,
        v2 > 0,
        v3 > 0,
        ratio_le(w1, v1, w2, v2),
        ratio_lt(w2, v2, w3, v3),
    ensures
        ratio_lt(w1, v1, w3, v3),
{
    let (a1, b1, a2, b2, a3, b3) = (w1 as int, v1 as int, w2 as int, v2 as int, w3 as int, v3 as int);
    assert((a1 * b2) * b3 <= (a2 * b1) * b3) by (nonlinear_arith)
        requires
            a1 * b2 <= a2 * b1,
            b3 > 0,
    ;
    assert((a2 * b3) * b1 < (a3 * b2) * b1) by (nonlinear_arith)
        requires
            a2 * b3 < a3 * b2,
            b1 > 0,
    ;
    assert((a2 * b1) * b3 == (a2 * b3) * b1) by (nonlinear_arith);
    assert((a1 * b3) * b2 == (a1 * b2) * b3) by (nonlinear_arith);
    assert((a3 * b1) * b2 == (a3 * b2) * b1) by (nonlinear_arith);
    assert(a1 * b3 < a3 * b1) by (nonlinear_arith)
        requires
            (a1 * b3) * b2 < (a3 * b1) * b2,
            b2 > 0,
    ;
}

/// The product of two `u32` values fits in a `u64`.
proof fn lemma_product_fits(a: u32, b: u32)
    ensures
        (a as int) * (b as int) <= u64::MAX,
{
    assert((a as int) * (b as int) <= 0xffff_ffff * 0xffff_ffff) by (nonlinear_arith)
        requires
            0 <= a <= 0xffff_ffff,
            0 <= b <= 0xffff_ffff,
    ;
}

proof fn lemma_extends_trans(a: StrategyMCTS, b: StrategyMCTS, c: StrategyMCTS)
    requires
        a.extends(b),
        b.extends(c),
    ensures
        a.extends(c),
{
    assert forall|n: int, i: int|
        0 <= n < a.len() && 0 <= i < 9 && #[trigger] a.link(n, i).is_some() implies c.link(n, i)
        == a.link(n, i) by {
        assert(b.link(n, i) == a.link(n, i));
    }
    assert forall|n: int| 0 <= n < a.len() implies #[trigger] c.position(n) == a.position(n)
        && c.visits(n) >= a.visits(n) && c.win_count(n) >= a.win_count(n) by {
        assert(b.position(n) == a.position(n));
    }
    lemma_submap_of_trans(a.index(), b.index(), c.index());
}

/// A shuffle of the nine cells holds each cell once.
proof fn lemma_shuffled(s: Seq<usize>)
    requires
        s.to_multiset() == all_cells().to_multiset(),
    ensures
        s.len() == 9,
        forall|k: int| 0 <= k < 9 ==> s[k] < 9,
        forall|x: usize| all_cells().contains(x) ==> s.contains(x),
{
    s.to_multiset_ensures();
    all_cells().to_multiset_ensures();
    assert forall|k: int| 0 <= k < 9 implies s[k] < 9 by {
        assert(s.contains(s[k]));
        assert(s.to_multiset().count(s[k]) > 0);
        assert(all_cells().contains(s[k]));
    }
    assert forall|x: usize| all_cells().contains(x) implies s.contains(x) by {
        assert(all_cells().to_multiset().count(x) > 0);
    }
}

} // verus!
