use vstd::prelude::*;
use crate::coords::{Coordinates, MAX_CELLS, lemma_coords_of, lemma_index_round_trip};
use crate::game::{BoardModel, GameY, Movement, PlayerId, lemma_avail_elems, lemma_placed_avail};
use crate::heuristic::{Heuristic, LOSS_SCORE, WIN_SCORE};

verus! {

/// Score of a board where the search stops: the win or loss score once the game is
/// decided, the heuristic's score otherwise.
pub open spec fn leaf_value<H: Heuristic>(h: H, b: BoardModel, player: PlayerId) -> int {
    match b.winner {
        Some(w) => if w == player {
            WIN_SCORE as int
        } else {
            LOSS_SCORE as int
        },
        None => h.score_of(b, player),
    }
}

/// Minimax value of `b` for `player` at `depth`: a leaf at the depth bound, on a
/// finished board or an invalid one, else the best child for the player to
/// move: the highest when that is `player`, the lowest otherwise.
pub open spec fn search_value<H: Heuristic>(
    h: H,
    b: BoardModel,
    player: PlayerId,
    depth: nat,
    max_depth: nat,
) -> int
    decreases b.available().len(), 1nat, 0nat,
{
    if depth == max_depth || b.game_over() || !b.valid() {
        leaf_value(h, b, player)
    } else {
        best_child(h, b, player, depth, max_depth, b.available().len())
    }
}

/// Combination of the values of the children reached through the first `k` empty
/// cells, starting from the lowest (or highest) `i32`.
pub open spec fn best_child<H: Heuristic>(
    h: H,
    b: BoardModel,
    player: PlayerId,
    depth: nat,
    max_depth: nat,
    k: nat,
) -> int
    decreases b.available().len(), 0nat, k,
    via best_child_decreases::<H>
{
    let maximize = b.turn == player;
    if k == 0 || k > b.available().len() || !b.valid() {
        if maximize {
            i32::MIN as int
        } else {
            i32::MAX as int
        }
    } else {
        let prev = best_child(h, b, player, depth, max_depth, (k - 1) as nat);
        let child = b.placed(b.available()[k - 1] as nat, b.turn);
        let v = search_value(h, child, player, depth + 1, max_depth);
        if maximize {
            if v > prev {
                v
            } else {
                prev
            }
        } else {
            if v < prev {
                v
            } else {
                prev
            }
        }
    }
}

#[via_fn]
proof fn best_child_decreases<H: Heuristic>(
    h: H,
    b: BoardModel,
    player: PlayerId,
    depth: nat,
    max_depth: nat,
    k: nat,
) {
    if k == 0 || k > b.available().len() || !b.valid() {
    } else {
        crate::coords::lemma_tri_bound(b.size);
        lemma_avail_elems(b, b.cells.len());
        let i = b.available()[k - 1] as nat;
        lemma_placed_avail(b, i, b.turn, b.cells.len());
    }
}

/// Best score and position among `available()` after the first `k` candidates of
/// the root: a candidate replaces the best only with a strictly greater score.
pub open spec fn choice_upto<H: Heuristic>(h: H, b: BoardModel, max_depth: nat, k: nat) -> (
    int,
    Option<nat>,
)
    decreases k,
{
    if k == 0 || k > b.available().len() {
        (i32::MIN as int, None)
    } else {
        let prev = choice_upto(h, b, max_depth, (k - 1) as nat);
        let child = b.placed(b.available()[k - 1] as nat, b.turn);
        let v = search_value(h, child, b.turn, 1, max_depth);
        if v > prev.0 {
            (v, Some((k - 1) as nat))
        } else {
            prev
        }
    }
}

/// The move chosen on `b`: none once the game is over, else the candidate with the
/// greatest search value, the first one among equals.
pub open spec fn choice<H: Heuristic>(h: H, b: BoardModel, max_depth: nat) -> Option<Coordinates> {
    if b.next_player() is None {
        None
    } else {
        match choice_upto(h, b, max_depth, b.available().len()).1 {
            Some(k) => Some(b.coord(b.available()[k as int] as int)),
            None => None,
        }
    }
}

/// The candidate moves of `b`: its empty cells as coordinates, in index order.
pub open spec fn moves_of(b: BoardModel) -> Seq<Coordinates> {
    b.available().map_values(|i: u32| b.coord(i as int))
}

/// A bot that picks moves by exhaustive minimax search to a bounded depth.
pub struct MinimaxBot<H: Heuristic> {
    heuristic: H,
    max_depth: u32,
}

impl<H: Heuristic> MinimaxBot<H> {
    pub closed spec fn spec_heuristic(&self) -> H {
        self.heuristic
    }

    pub closed spec fn spec_max_depth(&self) -> nat {
        self.max_depth as nat
    }

    pub fn new(heuristic: H, max_depth: u32) -> (r: Self)
        ensures
            r.spec_heuristic() == heuristic,
            r.spec_max_depth() == max_depth,
    {
        Self { heuristic, max_depth }
    }

    pub fn name(&self) -> (r: &'static str)
        ensures
            r@ == "minimax_bot"@,
    {
        "minimax_bot"
    }

    /// The empty cells of `board` as coordinates, in increasing index order.
    pub fn generate_moves(board: &GameY) -> (r: Vec<Coordinates>)
        requires
            board.wf(),
        ensures
            r@ == moves_of(board@),
    {
        let cells = board.available_cells();
        let size = board.board_size();
        proof {
            board.lemma_wf();
            lemma_avail_elems(board@, board@.cells.len());
        }
        let mut r: Vec<Coordinates> = Vec::new();
        let mut k: usize = 0;
        while k < cells.len()
            invariant
                board.wf(),
                board@.valid(),
                size == board@.size,
                cells@ == board@.available(),
                k <= cells@.len(),
                forall|j: int| 0 <= j < cells@.len() ==> (#[trigger] cells@[j]) < board@.cells.len(),
                r@ == moves_of(board@).subrange(0, k as int),
            decreases cells@.len() - k,
        {
            assert(cells@[k as int] < board@.cells.len());
            r.push(Coordinates::from_index(cells[k], size));
            k = k + 1;
            proof {
                assert(r@ =~= moves_of(board@).subrange(0, k as int));
            }
        }
        proof {
            assert(r@ =~= moves_of(board@));
        }
        r
    }

    /// Score of a board where the search stops.
    pub fn evaluate(&self, board: &GameY, player: PlayerId) -> (r: i32)
        requires
            board.wf(),
        ensures
            r == leaf_value(self.spec_heuristic(), board@, player),
            LOSS_SCORE <= r <= WIN_SCORE,
    {
        if let Some(winner) = board.winner() {
            if winner == player {
                WIN_SCORE
            } else {
                LOSS_SCORE
            }
        } else {
            self.heuristic.evaluate(board, player)
        }
    }
    /// Minimax value of `board` for the root player `player`, searching from `depth`
    /// down to `max_depth`.
    pub fn minimax(&self, board: &GameY, player: PlayerId, depth: u32, max_depth: u32) -> (r: i32)
        requires
            board.wf(),
            depth <= u32::MAX - MAX_CELLS,
        ensures
            r == search_value(self.spec_heuristic(), board@, player, depth as nat, max_depth as nat),
            LOSS_SCORE <= r <= WIN_SCORE,
    {
        proof {
            board.lemma_wf();
            lemma_avail_elems(board@, board@.cells.len());
        }
        self.search_from(board, player, depth, max_depth)
    }

    /// The recursion of `minimax`: each level fills one more cell and goes one deeper.
    fn search_from(&self, board: &GameY, player: PlayerId, depth: u32, max_depth: u32) -> (r: i32)
        requires
            board.wf(),
            depth + board@.available().len() <= u32::MAX,
        ensures
            r == search_value(self.spec_heuristic(), board@, player, depth as nat, max_depth as nat),
            LOSS_SCORE <= r <= WIN_SCORE,
        decreases board@.available().len(),
    {
        if depth == max_depth || board.check_game_over() {
            return self.evaluate(board, player);
        }
        let moves = Self::generate_moves(board);
        if moves.len() == 0 {
            return self.evaluate(board, player);
        }
        let current_player = board.next_player().unwrap();
        let maximize = current_player == player;
        let ghost b = board@;
        proof {
            board.lemma_wf();
            lemma_avail_elems(b, b.cells.len());
        }
        let mut best_score: i32 = if maximize {
            i32::MIN
        } else {
            i32::MAX
        };
        let mut k: usize = 0;
        while k < moves.len()
            invariant
                board.wf(),
                b == board@,
                b.valid(),
                b.cells.len() <= MAX_CELLS,
                !b.game_over(),
                current_player == b.turn,
                maximize == (current_player == player),
                depth != max_depth,
                depth + b.available().len() <= u32::MAX,
                moves@ == moves_of(b),
                k <= moves@.len(),
                forall|j: int|
                    0 <= j < b.available().len() ==> {
                        &&& (#[trigger] b.available()[j]) < b.cells.len()
                        &&& b.cells[b.available()[j] as int] is None
                    },
                best_score == best_child(self.spec_heuristic(), b, player, depth as nat, max_depth as nat, k as nat),
                k > 0 ==> LOSS_SCORE <= best_score <= WIN_SCORE,
            decreases moves@.len() - k,
        {
            let ghost i = b.available()[k as int] as nat;
            proof {
                assert(moves@[k as int] == b.coord(i as int));
                lemma_index_round_trip(i, b.size);
                lemma_coords_of(i, b.size);
                lemma_placed_avail(b, i, current_player, b.cells.len());
            }
            let mut new_board = board.duplicate();
            new_board.add_move(Movement::Placement { player: current_player, coords: moves[k] }).unwrap();
            let score = self.search_from(&new_board, player, depth + 1, max_depth);
            if maximize {
                if score > best_score {
                    best_score = score;
                }
            } else {
                if score < best_score {
                    best_score = score;
                }
            }
            k = k + 1;
        }
        best_score
    }

    /// The move to play on `board`: none once the game is over, else the empty cell
    /// whose search value is greatest, the first one among equals.
    pub fn choose_move(&self, board: &GameY) -> (r: Option<Coordinates>)
        requires
            board.wf(),
        ensures
            r == choice(self.spec_heuristic(), board@, self.spec_max_depth()),
            r is Some <==> board@.next_player() is Some,
    {
        let player = match board.next_player() {
            Some(p) => p,
            None => {
                return None;
            },
        };
        let moves = Self::generate_moves(board);
        let ghost b = board@;
        proof {
            board.lemma_wf();
            lemma_avail_elems(b, b.cells.len());
        }
        let mut best_score: i32 = i32::MIN;
        let mut best_move: Option<Coordinates> = None;
        let mut k: usize = 0;
        while k < moves.len()
            invariant
                board.wf(),
                b == board@,
                b.valid(),
                b.cells.len() <= MAX_CELLS,
                !b.game_over(),
                player == b.turn,
                b.available().len() <= b.cells.len(),
                moves@ == moves_of(b),
                k <= moves@.len(),
                forall|j: int|
                    0 <= j < b.available().len() ==> {
                        &&& (#[trigger] b.available()[j]) < b.cells.len()
                        &&& b.cells[b.available()[j] as int] is None
                    },
                best_score == choice_upto(self.spec_heuristic(), b, self.spec_max_depth(), k as nat).0,
                match choice_upto(self.spec_heuristic(), b, self.spec_max_depth(), k as nat).1 {
                    Some(j) => j < k && best_move == Some(moves@[j as int]),
                    None => best_move is None,
                },
                k > 0 ==> best_move is Some,
            decreases moves@.len() - k,
        {
            let ghost i = b.available()[k as int] as nat;
            proof {
                assert(moves@[k as int] == b.coord(i as int));
                lemma_index_round_trip(i, b.size);
                lemma_coords_of(i, b.size);
                lemma_placed_avail(b, i, player, b.cells.len());
            }
            let mv = moves[k];
            let mut new_board = board.duplicate();
            new_board.add_move(Movement::Placement { player, coords: mv }).unwrap();
            let score = self.minimax(&new_board, player, 1, self.max_depth);
            if score > best_score {
                best_score = score;
                best_move = Some(mv);
            }
            k = k + 1;
        }
        best_move
    }
}

/// At the depth bound, a board without a winner is worth exactly its heuristic score,
/// whatever the heuristic.
pub proof fn lemma_cutoff_is_heuristic<H: Heuristic>(
    h: H,
    b: BoardModel,
    player: PlayerId,
    max_depth: nat,
)
    requires
        b.winner is None,
    ensures
        search_value(h, b, player, max_depth, max_depth) == h.score_of(b, player),
{
}

/// A decided board scores the win score for its winner and the loss score for anyone
/// else, whatever the heuristic; the search stops there at every depth.
pub proof fn lemma_decided_board<H: Heuristic>(
    h: H,
    b: BoardModel,
    player: PlayerId,
    depth: nat,
    max_depth: nat,
)
    requires
        b.winner is Some,
    ensures
        leaf_value(h, b, player) == if b.winner == Some(player) {
            WIN_SCORE as int
        } else {
            LOSS_SCORE as int
        },
        search_value(h, b, player, depth, max_depth) == leaf_value(h, b, player),
{
}

/// A board without an empty cell gets no move.
pub proof fn lemma_full_board_no_move<H: Heuristic>(h: H, b: BoardModel, max_depth: nat)
    requires
        b.available().len() == 0,
    ensures
        choice(h, b, max_depth) is None,
{
}

proof fn lemma_ties_prefix<H: Heuristic>(h: H, b: BoardModel, max_depth: nat, v: int, k: nat)
    requires
        1 <= k <= b.available().len(),
        v > i32::MIN,
        forall|j: int|
            0 <= j < b.available().len() ==> search_value(
                h,
                #[trigger] b.placed(b.available()[j] as nat, b.turn),
                b.turn,
                1,
                max_depth,
            ) == v,
    ensures
        choice_upto(h, b, max_depth, k) == (v, Some(0nat)),
    decreases k,
{
    let c = b.placed(b.available()[k - 1] as nat, b.turn);
    assert(search_value(h, c, b.turn, 1, max_depth) == v);
    if k > 1 {
        lemma_ties_prefix(h, b, max_depth, v, (k - 1) as nat);
    } else {
        assert(choice_upto(h, b, max_depth, 0) == (i32::MIN as int, None::<nat>));
    }
}

/// When every candidate move of a board in play has the same search value, the first
/// empty cell in index order is chosen.
pub proof fn lemma_ties_pick_first<H: Heuristic>(h: H, b: BoardModel, max_depth: nat, v: int)
    requires
        b.next_player() is Some,
        v > i32::MIN,
        forall|j: int|
            0 <= j < b.available().len() ==> search_value(
                h,
                #[trigger] b.placed(b.available()[j] as nat, b.turn),
                b.turn,
                1,
                max_depth,
            ) == v,
    ensures
        choice(h, b, max_depth) == Some(b.coord(b.available()[0] as int)),
{
    lemma_ties_prefix(h, b, max_depth, v, b.available().len());
}

/// Number of positions at which the search from `b` consults the heuristic: the leaves
/// of the search tree that have no winner.
pub open spec fn heuristic_calls(b: BoardModel, depth: nat, max_depth: nat) -> nat
    decreases b.available().len(), 1nat, 0nat,
{
    if depth == max_depth || b.game_over() || !b.valid() {
        if b.winner is None {
            1
        } else {
            0
        }
    } else {
        children_calls(b, depth, max_depth, b.available().len())
    }
}

/// Heuristic consultations under the children reached through the first `k` empty cells.
pub open spec fn children_calls(b: BoardModel, depth: nat, max_depth: nat, k: nat) -> nat
    decreases b.available().len(), 0nat, k,
    via children_calls_decreases
{
    if k == 0 || k > b.available().len() || !b.valid() {
        0
    } else {
        children_calls(b, depth, max_depth, (k - 1) as nat) + heuristic_calls(
            b.placed(b.available()[k - 1] as nat, b.turn),
            depth + 1,
            max_depth,
        )
    }
}

#[via_fn]
proof fn children_calls_decreases(b: BoardModel, depth: nat, max_depth: nat, k: nat) {
    if k == 0 || k > b.available().len() || !b.valid() {
    } else {
        crate::coords::lemma_tri_bound(b.size);
        lemma_avail_elems(b, b.cells.len());
        let i = b.available()[k - 1] as nat;
        lemma_placed_avail(b, i, b.turn, b.cells.len());
    }
}

/// No board reached from `b` in at most `k` moves has a winner.
pub open spec fn undecided_within(b: BoardModel, k: nat) -> bool
    decreases k,
{
    &&& b.winner is None
    &&& k > 0 ==> forall|j: int|
        0 <= j < b.available().len() ==> undecided_within(
            #[trigger] b.placed(b.available()[j] as nat, b.turn),
            (k - 1) as nat,
        )
}

/// `n * (n - 1) * ... * (n - d + 1)`.
pub open spec fn falling(n: nat, d: nat) -> nat
    decreases d,
{
    if d == 0 {
        1
    } else {
        n * falling((n - 1) as nat, (d - 1) as nat)
    }
}

proof fn lemma_placed_valid(b: BoardModel, i: nat, p: PlayerId)
    requires
        b.valid(),
        p.id < 2,
        i < b.cells.len(),
    ensures
        b.placed(i, p).valid(),
{
}

proof fn lemma_children_calls(b: BoardModel, depth: nat, max_depth: nat, k: nat)
    requires
        b.valid(),
        depth < max_depth,
        max_depth - depth <= b.available().len(),
        undecided_within(b, (max_depth - depth) as nat),
        k <= b.available().len(),
    ensures
        children_calls(b, depth, max_depth, k) == k * falling(
            (b.available().len() - 1) as nat,
            (max_depth - depth - 1) as nat,
        ),
    decreases b.available().len(), 0nat, k,
{
    if k > 0 {
        lemma_children_calls(b, depth, max_depth, (k - 1) as nat);
        crate::coords::lemma_tri_bound(b.size);
        lemma_avail_elems(b, b.cells.len());
        let i = b.available()[k - 1] as nat;
        lemma_placed_avail(b, i, b.turn, b.cells.len());
        let c = b.placed(i, b.turn);
        lemma_placed_valid(b, i, b.turn);
        assert(undecided_within(c, (max_depth - depth - 1) as nat));
        lemma_node_count(c, depth + 1, max_depth);
        let f = falling((b.available().len() - 1) as nat, (max_depth - depth - 1) as nat);
        assert(heuristic_calls(c, depth + 1, max_depth) == f);
        assert(children_calls(b, depth, max_depth, k) == children_calls(
            b,
            depth,
            max_depth,
            (k - 1) as nat,
        ) + heuristic_calls(c, depth + 1, max_depth));
        assert((k - 1) * f + f == k * f) by (nonlinear_arith);
    } else {
        let f = falling((b.available().len() - 1) as nat, (max_depth - depth - 1) as nat);
        assert(0 * f == 0) by (nonlinear_arith);
    }
}

/// With no decided board in reach, the search from `depth` to `max_depth` on a board
/// with `n` empty cells consults the heuristic `n * (n - 1) * ... * (n - d + 1)` times,
/// `d` being the depth left: every branch is searched in full.
pub proof fn lemma_node_count(b: BoardModel, depth: nat, max_depth: nat)
    requires
        b.valid(),
        depth <= max_depth,
        max_depth - depth <= b.available().len(),
        undecided_within(b, (max_depth - depth) as nat),
    ensures
        heuristic_calls(b, depth, max_depth) == falling(
            b.available().len(),
            (max_depth - depth) as nat,
        ),
    decreases b.available().len(), 1nat, 0nat,
{
    if depth < max_depth {
        lemma_children_calls(b, depth, max_depth, b.available().len());
    }
}

} // verus!
