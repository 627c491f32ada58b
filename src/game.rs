use vstd::prelude::*;
use crate::coords::{
    Coordinates, coords_of, index_of, valid_on, tri, MAX_BOARD_SIZE, lemma_coords_round_trip,
    lemma_tri_bound, MAX_CELLS,
};

verus! {

/// A participant; the board knows players `0` and `1`, and `0` moves first.
#[derive(Clone, Copy, Debug, PartialEq, Eq, Structural)]
pub struct PlayerId {
    pub id: u32,
}

impl PlayerId {
    pub fn new(id: u32) -> (r: PlayerId)
        ensures
            r.id == id,
    {
        PlayerId { id }
    }

    pub fn id(&self) -> (r: u32)
        ensures
            r == self.id,
    {
        self.id
    }
}

/// The player who moves after `p`.
pub open spec fn other(p: PlayerId) -> PlayerId {
    PlayerId { id: if p.id == 0 { 1 } else { 0 } }
}

/// An action on the board.
#[derive(Clone, Copy, Debug, PartialEq, Eq, Structural)]
pub enum Movement {
    Placement { player: PlayerId, coords: Coordinates },
}

/// Why a movement was refused.
#[derive(Clone, Copy, Debug, PartialEq, Eq, Structural)]
pub enum GameYError {
    GameOver,
    UnknownPlayer,
    InvalidCoordinates,
    Occupied,
}

/// Summary of one maximal connected group of a player's stones.
#[derive(Clone, Copy, Debug, PartialEq, Eq, Structural)]
pub struct PlayerSet {
    pub touches_side_a: bool,
    pub touches_side_b: bool,
    pub touches_side_c: bool,
    pub size: u32,
}

/// Mathematical model of a board: its size, the owner of each cell, whose turn it
/// is and the winner, if any.
pub struct BoardModel {
    pub size: nat,
    pub cells: Seq<Option<PlayerId>>,
    pub turn: PlayerId,
    pub winner: Option<PlayerId>,
}

pub open spec fn abs_diff(a: u32, b: u32) -> int {
    if a >= b {
        a - b
    } else {
        b - a
    }
}

/// Two cells are neighbours when one coordinate grows by one and another shrinks by one.
pub open spec fn adjacent(a: Coordinates, b: Coordinates) -> bool {
    abs_diff(a.x, b.x) + abs_diff(a.y, b.y) + abs_diff(a.z, b.z) == 2
}

/// Number of marked entries among the first `k`.
pub open spec fn marked_upto(g: Seq<bool>, k: nat) -> nat
    decreases k,
{
    if k == 0 {
        0
    } else {
        marked_upto(g, (k - 1) as nat) + if g[k - 1] {
            1nat
        } else {
            0nat
        }
    }
}

impl BoardModel {
    pub open spec fn valid(self) -> bool {
        &&& 1 <= self.size <= MAX_BOARD_SIZE
        &&& self.cells.len() == tri(self.size)
        &&& self.turn.id < 2
    }

    pub open spec fn coord(self, i: int) -> Coordinates {
        coords_of(i as nat, self.size)
    }

    /// Empty cells among the first `k`, in increasing order.
    pub open spec fn avail_upto(self, k: nat) -> Seq<u32>
        decreases k,
    {
        if k == 0 {
            seq![]
        } else {
            let prev = self.avail_upto((k - 1) as nat);
            if self.cells[k - 1] is None {
                prev.push((k - 1) as u32)
            } else {
                prev
            }
        }
    }

    /// Every empty cell, in increasing order.
    pub open spec fn available(self) -> Seq<u32> {
        self.avail_upto(self.cells.len())
    }

    pub open spec fn game_over(self) -> bool {
        self.winner is Some || self.available().len() == 0
    }

    pub open spec fn next_player(self) -> Option<PlayerId> {
        if self.game_over() {
            None
        } else {
            Some(self.turn)
        }
    }

    /// One step of growth: a cell of `p` joins when it neighbours a marked cell.
    pub open spec fn spread(self, p: PlayerId, m: Seq<bool>) -> Seq<bool> {
        Seq::new(
            m.len(),
            |i: int|
                m[i] || (self.cells[i] == Some(p) && exists|j: int|
                    0 <= j < m.len() && m[j] && #[trigger] adjacent(self.coord(j), self.coord(i))),
        )
    }

    /// Cells of `p` reached from cell `s` in at most `k` steps.
    pub open spec fn reach(self, p: PlayerId, s: nat, k: nat) -> Seq<bool>
        decreases k,
    {
        if k == 0 {
            Seq::new(self.cells.len(), |i: int| i == s && self.cells[i] == Some(p))
        } else {
            self.spread(p, self.reach(p, s, (k - 1) as nat))
        }
    }

    /// The connected group of `p` that holds cell `s`: no path in it is longer than
    /// the number of cells.
    pub open spec fn group(self, p: PlayerId, s: nat) -> Seq<bool> {
        self.reach(p, s, self.cells.len())
    }

    pub open spec fn set_of(self, g: Seq<bool>) -> PlayerSet {
        PlayerSet {
            touches_side_a: exists|i: int| 0 <= i < g.len() && g[i] && self.coord(i).x == 0,
            touches_side_b: exists|i: int| 0 <= i < g.len() && g[i] && self.coord(i).y == 0,
            touches_side_c: exists|i: int| 0 <= i < g.len() && g[i] && self.coord(i).z == 0,
            size: marked_upto(g, g.len()) as u32,
        }
    }

    /// Cell `s` is the lowest cell of its group of `p`.
    pub open spec fn is_first_of_group(self, p: PlayerId, s: nat) -> bool {
        &&& self.cells[s as int] == Some(p)
        &&& forall|j: int| 0 <= j < s ==> !self.group(p, s)[j]
    }

    pub open spec fn sets_upto(self, p: PlayerId, k: nat) -> Seq<PlayerSet>
        decreases k,
    {
        if k == 0 {
            seq![]
        } else {
            let prev = self.sets_upto(p, (k - 1) as nat);
            if self.is_first_of_group(p, (k - 1) as nat) {
                prev.push(self.set_of(self.group(p, (k - 1) as nat)))
            } else {
                prev
            }
        }
    }

    /// The groups of `p`, each listed once, ordered by their lowest cell.
    pub open spec fn player_sets(self, p: PlayerId) -> Seq<PlayerSet> {
        self.sets_upto(p, self.cells.len())
    }

    /// The group of `p` through cell `s` touches all three sides.
    pub open spec fn connects(self, p: PlayerId, s: nat) -> bool {
        let ps = self.set_of(self.group(p, s));
        ps.touches_side_a && ps.touches_side_b && ps.touches_side_c
    }

    /// The board after `p` takes the empty cell `i` of a board without a winner.
    pub open spec fn placed(self, i: nat, p: PlayerId) -> BoardModel {
        let b = BoardModel {
            size: self.size,
            cells: self.cells.update(i as int, Some(p)),
            turn: other(p),
            winner: None,
        };
        BoardModel {
            winner: if b.connects(p, i) {
                Some(p)
            } else {
                None
            },
            ..b
        }
    }

    /// Outcome of a movement on this board.
    pub open spec fn apply(self, m: Movement) -> Result<BoardModel, GameYError> {
        match m {
            Movement::Placement { player, coords } => {
                if self.game_over() {
                    Err(GameYError::GameOver)
                } else if player.id >= 2 {
                    Err(GameYError::UnknownPlayer)
                } else if !valid_on(coords, self.size) {
                    Err(GameYError::InvalidCoordinates)
                } else if self.cells[index_of(coords, self.size) as int] is Some {
                    Err(GameYError::Occupied)
                } else {
                    Ok(self.placed(index_of(coords, self.size), player))
                }
            },
        }
    }
}

/// A triangular Y board.
pub struct GameY {
    size: u32,
    coords: Vec<Coordinates>,
    cells: Vec<Option<PlayerId>>,
    turn: PlayerId,
    winner: Option<PlayerId>,
}

impl View for GameY {
    type V = BoardModel;

    closed spec fn view(&self) -> BoardModel {
        BoardModel {
            size: self.size as nat,
            cells: self.cells@,
            turn: self.turn,
            winner: self.winner,
        }
    }
}

fn abs_diff_exec(a: u32, b: u32) -> (r: u64)
    ensures
        r == abs_diff(a, b),
{
    if a >= b {
        (a - b) as u64
    } else {
        (b - a) as u64
    }
}

fn adjacent_exec(a: &Coordinates, b: &Coordinates) -> (r: bool)
    ensures
        r == adjacent(*a, *b),
{
    abs_diff_exec(a.x, b.x) + abs_diff_exec(a.y, b.y) + abs_diff_exec(a.z, b.z) == 2
}

impl GameY {
    /// Internal consistency: the model is valid and the coordinate table matches it.
    pub closed spec fn wf(&self) -> bool {
        &&& self@.valid()
        &&& self.coords@.len() == self.cells@.len()
        &&& forall|i: int| 0 <= i < self.coords@.len() ==> self.coords@[i] == coords_of(i as nat, self.size as nat)
    }

    pub proof fn lemma_wf(&self)
        requires
            self.wf(),
        ensures
            self@.valid(),
            self@.cells.len() <= MAX_CELLS,
    {
        lemma_tri_bound(self.size as nat);
    }

    /// An empty board of the given size, with player `0` to move.
    pub fn new(size: u32) -> (r: GameY)
        requires
            1 <= size <= MAX_BOARD_SIZE,
        ensures
            r.wf(),
            r@.size == size,
            r@.cells == Seq::new(tri(size as nat), |i: int| None::<PlayerId>),
            r@.turn == (PlayerId { id: 0 }),
            r@.winner is None,
    {
        proof {
            lemma_tri_bound(size as nat);
            crate::coords::lemma_tri_closed(size as nat);
        }
        let n: u64 = (size as u64) * (size as u64 + 1) / 2;
        let mut coords: Vec<Coordinates> = Vec::new();
        let mut cells: Vec<Option<PlayerId>> = Vec::new();
        let mut i: u64 = 0;
        while i < n
            invariant
                n == tri(size as nat),
                n <= MAX_CELLS,
                i <= n,
                1 <= size <= MAX_BOARD_SIZE,
                coords@.len() == i,
                cells@ == Seq::new(i as nat, |k: int| None::<PlayerId>),
                forall|k: int| 0 <= k < i ==> coords@[k] == coords_of(k as nat, size as nat),
            decreases n - i,
        {
            coords.push(Coordinates::from_index(i as u32, size));
            cells.push(None);
            i = i + 1;
            proof {
                assert(cells@ =~= Seq::new(i as nat, |k: int| None::<PlayerId>));
            }
        }
        GameY { size, coords, cells, turn: PlayerId { id: 0 }, winner: None }
    }

    pub fn board_size(&self) -> (r: u32)
        ensures
            r == self@.size,
    {
        self.size
    }

    /// Indices of the empty cells, in increasing order.
    pub fn available_cells(&self) -> (r: Vec<u32>)
        requires
            self.wf(),
        ensures
            r@ == self@.available(),
    {
        proof {
            self.lemma_wf();
        }
        let mut r: Vec<u32> = Vec::new();
        let mut i: usize = 0;
        while i < self.cells.len()
            invariant
                self.wf(),
                self.cells@.len() <= MAX_CELLS,
                i <= self.cells@.len(),
                r@ == self@.avail_upto(i as nat),
            decreases self.cells@.len() - i,
        {
            if self.cells[i].is_none() {
                r.push(i as u32);
            }
            i = i + 1;
        }
        r
    }

    pub fn winner(&self) -> (r: Option<PlayerId>)
        ensures
            r == self@.winner,
    {
        self.winner
    }

    pub fn check_game_over(&self) -> (r: bool)
        requires
            self.wf(),
        ensures
            r == self@.game_over(),
    {
        self.winner.is_some() || self.available_cells().len() == 0
    }

    /// The player to move, or `None` once the game is over.
    pub fn next_player(&self) -> (r: Option<PlayerId>)
        requires
            self.wf(),
        ensures
            r == self@.next_player(),
    {
        if self.check_game_over() {
            None
        } else {
            Some(self.turn)
        }
    }
}

impl GameY {
    fn owned_by(&self, i: usize, p: PlayerId) -> (r: bool)
        requires
            i < self.cells@.len(),
        ensures
            r == (self@.cells[i as int] == Some(p)),
    {
        match self.cells[i] {
            Some(q) => q == p,
            None => false,
        }
    }

    fn spread(&self, p: PlayerId, m: &Vec<bool>) -> (r: Vec<bool>)
        requires
            self.wf(),
            m@.len() == self@.cells.len(),
        ensures
            r@ == self@.spread(p, m@),
    {
        proof {
            self.lemma_wf();
        }
        let n = self.cells.len();
        let mut r: Vec<bool> = Vec::new();
        let mut i: usize = 0;
        while i < n
            invariant
                self.wf(),
                n == self.cells@.len(),
                n == m@.len(),
                i <= n,
                r@.len() == i,
                forall|k: int| 0 <= k < i ==> r@[k] == self@.spread(p, m@)[k],
            decreases n - i,
        {
            let mut v = m[i];
            if !v && self.owned_by(i, p) {
                let mut j: usize = 0;
                while j < n
                    invariant
                        self.wf(),
                        n == self.cells@.len(),
                        n == m@.len(),
                        i < n,
                        j <= n,
                        v == exists|k: int|
                            0 <= k < j && m@[k] && #[trigger] adjacent(self@.coord(k), self@.coord(i as int)),
                    decreases n - j,
                {
                    proof {
                        assert(self.coords@[j as int] == self@.coord(j as int));
                        assert(self.coords@[i as int] == self@.coord(i as int));
                    }
                    if m[j] && adjacent_exec(&self.coords[j], &self.coords[i]) {
                        v = true;
                    }
                    j = j + 1;
                }
            }
            r.push(v);
            i = i + 1;
        }
        proof {
            assert(r@ =~= self@.spread(p, m@));
        }
        r
    }

    /// The group of `p` through cell `s`, as a mark per cell.
    fn group_of(&self, p: PlayerId, s: usize) -> (r: Vec<bool>)
        requires
            self.wf(),
            s < self@.cells.len(),
        ensures
            r@ == self@.group(p, s as nat),
            r@.len() == self@.cells.len(),
    {
        proof {
            self.lemma_wf();
        }
        let n = self.cells.len();
        let mut m: Vec<bool> = Vec::new();
        let mut i: usize = 0;
        while i < n
            invariant
                self.wf(),
                n == self.cells@.len(),
                s < n,
                i <= n,
                m@ == Seq::new(i as nat, |k: int| k == s && self@.cells[k] == Some(p)),
            decreases n - i,
        {
            let v = i == s && self.owned_by(i, p);
            m.push(v);
            i = i + 1;
            proof {
                assert(m@ =~= Seq::new(i as nat, |k: int| k == s && self@.cells[k] == Some(p)));
            }
        }
        proof {
            assert(m@ =~= self@.reach(p, s as nat, 0));
        }
        let mut k: usize = 0;
        while k < n
            invariant
                self.wf(),
                n == self.cells@.len(),
                k <= n,
                m@ == self@.reach(p, s as nat, k as nat),
                m@.len() == n,
            decreases n - k,
        {
            m = self.spread(p, &m);
            k = k + 1;
        }
        m
    }

    /// Sides touched and size of the group marked in `g`.
    fn set_stats(&self, g: &Vec<bool>) -> (r: PlayerSet)
        requires
            self.wf(),
            g@.len() == self@.cells.len(),
        ensures
            r == self@.set_of(g@),
    {
        proof {
            self.lemma_wf();
        }
        let n = g.len();
        let mut a = false;
        let mut b = false;
        let mut c = false;
        let mut size: u32 = 0;
        let mut i: usize = 0;
        while i < n
            invariant
                self.wf(),
                n == g@.len(),
                n == self.cells@.len(),
                n <= MAX_CELLS,
                i <= n,
                size == marked_upto(g@, i as nat),
                size <= i,
                a == exists|k: int| 0 <= k < i && g@[k] && self@.coord(k).x == 0,
                b == exists|k: int| 0 <= k < i && g@[k] && self@.coord(k).y == 0,
                c == exists|k: int| 0 <= k < i && g@[k] && self@.coord(k).z == 0,
            decreases n - i,
        {
            if g[i] {
                let co = self.coords[i];
                a = a || co.x == 0;
                b = b || co.y == 0;
                c = c || co.z == 0;
                size = size + 1;
            }
            i = i + 1;
        }
        PlayerSet { touches_side_a: a, touches_side_b: b, touches_side_c: c, size }
    }

    /// The groups of `p`, each once, ordered by their lowest cell.
    pub fn sets_of_player(&self, p: PlayerId) -> (r: Vec<PlayerSet>)
        requires
            self.wf(),
        ensures
            r@ == self@.player_sets(p),
    {
        let n = self.cells.len();
        let mut r: Vec<PlayerSet> = Vec::new();
        let mut s: usize = 0;
        while s < n
            invariant
                self.wf(),
                n == self.cells@.len(),
                s <= n,
                r@ == self@.sets_upto(p, s as nat),
            decreases n - s,
        {
            if self.owned_by(s, p) {
                let g = self.group_of(p, s);
                let mut first = true;
                let mut j: usize = 0;
                while j < s
                    invariant
                        s < n,
                        g@.len() == n,
                        j <= s,
                        first == forall|k: int| 0 <= k < j ==> !g@[k],
                    decreases s - j,
                {
                    if g[j] {
                        first = false;
                    }
                    j = j + 1;
                }
                if first {
                    r.push(self.set_stats(&g));
                }
            }
            s = s + 1;
        }
        r
    }

    /// Applies a movement. It is refused when the game is over, the player is unknown,
    /// the coordinates lie off the board or the cell is taken; the board is then unchanged.
    pub fn add_move(&mut self, m: Movement) -> (r: Result<(), GameYError>)
        requires
            old(self).wf(),
        ensures
            final(self).wf(),
            match old(self)@.apply(m) {
                Ok(b) => r is Ok && final(self)@ == b,
                Err(e) => r == Err::<(), GameYError>(e) && final(self)@ == old(self)@,
            },
    {
        let Movement::Placement { player, coords } = m;
        if self.check_game_over() {
            return Err(GameYError::GameOver);
        }
        if player.id >= 2 {
            return Err(GameYError::UnknownPlayer);
        }
        if coords.x as u64 + coords.y as u64 + coords.z as u64 != self.size as u64 - 1 {
            return Err(GameYError::InvalidCoordinates);
        }
        proof {
            lemma_coords_round_trip(coords, self.size as nat);
        }
        let i = coords.to_index(self.size) as usize;
        if self.cells[i].is_some() {
            return Err(GameYError::Occupied);
        }
        self.cells.set(i, Some(player));
        self.turn = PlayerId { id: if player.id == 0 { 1 } else { 0 } };
        self.winner = None;
        let g = self.group_of(player, i);
        let st = self.set_stats(&g);
        if st.touches_side_a && st.touches_side_b && st.touches_side_c {
            self.winner = Some(player);
        }
        Ok(())
    }
}

/// Each listed empty cell is an empty cell below `k`.
pub proof fn lemma_avail_elems(b: BoardModel, k: nat)
    requires
        k <= b.cells.len(),
        b.cells.len() <= MAX_CELLS,
    ensures
        b.avail_upto(k).len() <= k,
        forall|j: int|
            0 <= j < b.avail_upto(k).len() ==> {
                &&& (#[trigger] b.avail_upto(k)[j]) < k
                &&& b.cells[b.avail_upto(k)[j] as int] is None
            },
    decreases k,
{
    if k > 0 {
        lemma_avail_elems(b, (k - 1) as nat);
    }
}

/// Taking an empty cell leaves one empty cell fewer.
pub proof fn lemma_placed_avail(b: BoardModel, i: nat, p: PlayerId, k: nat)
    requires
        i < b.cells.len(),
        b.cells[i as int] is None,
        k <= b.cells.len(),
    ensures
        k <= i ==> b.placed(i, p).avail_upto(k).len() == b.avail_upto(k).len(),
        k > i ==> b.placed(i, p).avail_upto(k).len() + 1 == b.avail_upto(k).len(),
    decreases k,
{
    if k > 0 {
        lemma_placed_avail(b, i, p, (k - 1) as nat);
    }
}

impl GameY {
    /// An independent copy of the board.
    pub fn duplicate(&self) -> (r: GameY)
        requires
            self.wf(),
        ensures
            r.wf(),
            r@ == self@,
    {
        let mut coords: Vec<Coordinates> = Vec::new();
        let mut cells: Vec<Option<PlayerId>> = Vec::new();
        let n = self.cells.len();
        let mut i: usize = 0;
        while i < n
            invariant
                self.wf(),
                n == self.cells@.len(),
                i <= n,
                coords@ == self.coords@.subrange(0, i as int),
                cells@ == self.cells@.subrange(0, i as int),
            decreases n - i,
        {
            coords.push(self.coords[i]);
            cells.push(self.cells[i]);
            i = i + 1;
            proof {
                assert(coords@ =~= self.coords@.subrange(0, i as int));
                assert(cells@ =~= self.cells@.subrange(0, i as int));
            }
        }
        proof {
            assert(coords@ =~= self.coords@);
            assert(cells@ =~= self.cells@);
        }
        GameY { size: self.size, coords, cells, turn: self.turn, winner: self.winner }
    }
}

} // verus!
