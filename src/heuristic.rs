use vstd::prelude::*;
use crate::coords::MAX_CELLS;
use crate::game::{BoardModel, GameY, PlayerId, PlayerSet, marked_upto};

verus! {

/// Score of a board won by the player it is scored for.
pub const WIN_SCORE: i32 = 2147483646;

/// Score of a board won by the other player.
pub const LOSS_SCORE: i32 = -2147483647;

/// A static evaluator of boards that are not yet decided.
pub trait Heuristic {
    /// The score that `evaluate` gives `board` from `player`'s side. Evaluators
    /// verified in this library define it; one written outside verified code keeps
    /// this neutral default, and nothing is proved of it.
    open spec fn score_of(&self, board: BoardModel, player: PlayerId) -> int {
        0
    }

    /// Scores a board without a winner; the result stays strictly between the loss
    /// and win scores, so that a decided board always outranks it.
    fn evaluate(&self, board: &GameY, player: PlayerId) -> (r: i32)
        requires
            board.wf(),
            board@.winner is None,
        ensures
            r == self.score_of(board@, player),
            LOSS_SCORE < r < WIN_SCORE,
    ;
}

/// Number of board sides that a group touches.
pub open spec fn sides_of(s: PlayerSet) -> int {
    (if s.touches_side_a { 1int } else { 0int }) + (if s.touches_side_b { 1int } else { 0int }) + (
    if s.touches_side_c {
        1int
    } else {
        0int
    })
}

/// The largest `(sides, size)` pair, in lexicographic order, among the first `k`
/// groups, or `(0, 0)` when there are none.
pub open spec fn best_upto(sets: Seq<PlayerSet>, k: nat) -> (int, int)
    decreases k,
{
    if k == 0 {
        (0, 0)
    } else {
        let prev = best_upto(sets, (k - 1) as nat);
        let cur = (sides_of(sets[k - 1]), sets[k - 1].size as int);
        if cur.0 > prev.0 || (cur.0 == prev.0 && cur.1 >= prev.1) {
            cur
        } else {
            prev
        }
    }
}

/// Score of the best group: ten per side touched, plus its size.
pub open spec fn set_score(sets: Seq<PlayerSet>) -> int {
    let best = best_upto(sets, sets.len());
    best.0 * 10 + best.1
}

proof fn lemma_best_bounds(sets: Seq<PlayerSet>, k: nat, bound: int)
    requires
        k <= sets.len(),
        forall|j: int| 0 <= j < sets.len() ==> sets[j].size <= bound,
        0 <= bound,
    ensures
        0 <= best_upto(sets, k).0 <= 3,
        0 <= best_upto(sets, k).1 <= bound,
    decreases k,
{
    if k > 0 {
        lemma_best_bounds(sets, (k - 1) as nat, bound);
    }
}

proof fn lemma_marked_bound(g: Seq<bool>, k: nat)
    ensures
        marked_upto(g, k) <= k,
    decreases k,
{
    if k > 0 {
        lemma_marked_bound(g, (k - 1) as nat);
    }
}

proof fn lemma_reach_len(b: BoardModel, p: PlayerId, s: nat, k: nat)
    ensures
        b.reach(p, s, k).len() == b.cells.len(),
    decreases k,
{
    if k > 0 {
        lemma_reach_len(b, p, s, (k - 1) as nat);
    }
}

proof fn lemma_sets_bound(b: BoardModel, p: PlayerId, k: nat)
    requires
        b.cells.len() <= MAX_CELLS,
    ensures
        forall|j: int| 0 <= j < b.sets_upto(p, k).len() ==> b.sets_upto(p, k)[j].size <= b.cells.len(),
    decreases k,
{
    if k > 0 {
        lemma_sets_bound(b, p, (k - 1) as nat);
        let g = b.group(p, (k - 1) as nat);
        lemma_reach_len(b, p, (k - 1) as nat, b.cells.len());
        lemma_marked_bound(g, g.len());
        assert(b.set_of(g).size <= b.cells.len());
        let prev = b.sets_upto(p, (k - 1) as nat);
        if b.is_first_of_group(p, (k - 1) as nat) {
            assert(b.sets_upto(p, k) == prev.push(b.set_of(g)));
        }
    }
}

/// Scores a player by their best connected group: sides touched first, then size.
pub struct SetBasedHeuristic;

impl Heuristic for SetBasedHeuristic {
    open spec fn score_of(&self, board: BoardModel, player: PlayerId) -> int {
        set_score(board.player_sets(player))
    }

    fn evaluate(&self, board: &GameY, player: PlayerId) -> (r: i32) {
        let sets = board.sets_of_player(player);
        proof {
            board.lemma_wf();
            lemma_sets_bound(board@, player, board@.cells.len());
        }
        let mut best_sides: i32 = 0;
        let mut best_size: i32 = 0;
        let mut i: usize = 0;
        while i < sets.len()
            invariant
                i <= sets@.len(),
                forall|j: int| 0 <= j < sets@.len() ==> sets@[j].size <= MAX_CELLS,
                best_upto(sets@, i as nat) == (best_sides as int, best_size as int),
            decreases sets@.len() - i,
        {
            let s = sets[i];
            let sides: i32 = (if s.touches_side_a { 1i32 } else { 0i32 }) + (if s.touches_side_b {
                1i32
            } else {
                0i32
            }) + (if s.touches_side_c { 1i32 } else { 0i32 });
            let size = s.size as i32;
            if sides > best_sides || (sides == best_sides && size >= best_size) {
                best_sides = sides;
                best_size = size;
            }
            i = i + 1;
        }
        proof {
            lemma_best_bounds(sets@, sets@.len(), MAX_CELLS as int);
        }
        best_sides * 10 + best_size
    }
}

} // verus!
