use vstd::prelude::*;

verus! {

/// Largest board size accepted: keeps every cell count and index in `u32`.
pub const MAX_BOARD_SIZE: u32 = 1000;

/// Number of cells of a board of the largest accepted size.
pub const MAX_CELLS: u32 = 500500;

/// Number of cells in the first `r` rows of a triangular board.
pub open spec fn tri(r: nat) -> nat
    decreases r,
{
    if r == 0 {
        0
    } else {
        tri((r - 1) as nat) + r
    }
}

/// Row and column of the cell `i` cells past the start of row `r`.
pub open spec fn row_col(i: nat, r: nat) -> (nat, nat)
    decreases i,
{
    if i <= r {
        (r, i)
    } else {
        row_col((i - (r + 1)) as nat, r + 1)
    }
}

/// A cell position in barycentric form: `x + y + z == size - 1`.
#[derive(Clone, Copy, Debug, PartialEq, Eq, Structural)]
pub struct Coordinates {
    pub x: u32,
    pub y: u32,
    pub z: u32,
}

/// Coordinates of linear cell `i` on a board of the given size; rows run from the
/// corner where `x == size - 1` down to the side `x == 0`.
pub open spec fn coords_of(i: nat, size: nat) -> Coordinates {
    let (r, c) = row_col(i, 0);
    Coordinates { x: (size - 1 - r) as u32, y: c as u32, z: (r - c) as u32 }
}

/// Linear index of valid coordinates.
pub open spec fn index_of(c: Coordinates, size: nat) -> nat {
    tri((size - 1 - c.x) as nat) + c.y as nat
}

/// The coordinates lie on a board of the given size.
pub open spec fn valid_on(c: Coordinates, size: nat) -> bool {
    c.x + c.y + c.z == size - 1
}

pub proof fn lemma_tri_closed(r: nat)
    ensures
        2 * tri(r) == r * (r + 1),
    decreases r,
{
    if r > 0 {
        let p = (r - 1) as nat;
        lemma_tri_closed(p);
        assert(tri(r) == tri(p) + r);
        assert(r * (r + 1) == p * (p + 1) + 2 * r) by (nonlinear_arith)
            requires
                p + 1 == r,
        ;
    } else {
        assert(r * (r + 1) == 0) by (nonlinear_arith)
            requires
                r == 0,
        ;
    }
}

/// Every board of an accepted size has at most this many cells.
pub proof fn lemma_tri_bound(size: nat)
    requires
        size <= MAX_BOARD_SIZE,
    ensures
        tri(size) <= MAX_CELLS,
{
    lemma_tri_closed(size);
    assert(size * (size + 1) <= 1000 * 1001) by (nonlinear_arith)
        requires
            size <= 1000,
    ;
}

pub proof fn lemma_tri_monotone(a: nat, b: nat)
    requires
        a <= b,
    ensures
        tri(a) + (b - a) <= tri(b),
    decreases b,
{
    if a < b {
        lemma_tri_monotone(a, (b - 1) as nat);
    }
}

proof fn lemma_row_col(i: nat, r0: nat)
    ensures
        row_col(i, r0).1 <= row_col(i, r0).0,
        row_col(i, r0).0 >= r0,
        tri(r0) + i == tri(row_col(i, r0).0) + row_col(i, r0).1,
    decreases i,
{
    if i > r0 {
        lemma_row_col((i - (r0 + 1)) as nat, r0 + 1);
    }
}

/// Row of a cell index on a board is below the board size.
pub proof fn lemma_coords_of(i: nat, size: nat)
    requires
        i < tri(size),
        size <= MAX_BOARD_SIZE,
    ensures
        row_col(i, 0).0 < size,
        valid_on(coords_of(i, size), size),
        coords_of(i, size).x < size,
        coords_of(i, size).y < size,
        coords_of(i, size).z < size,
{
    lemma_row_col(i, 0);
    let r = row_col(i, 0).0;
    if r >= size {
        lemma_tri_monotone(size, r);
    }
}

/// For every cell index of a board, converting it to coordinates and back gives the
/// index again.
pub proof fn lemma_index_round_trip(i: nat, size: nat)
    requires
        i < tri(size),
        size <= MAX_BOARD_SIZE,
    ensures
        index_of(coords_of(i, size), size) == i,
{
    lemma_row_col(i, 0);
    lemma_coords_of(i, size);
}

/// Valid coordinates name a cell of the board, and converting back recovers them.
pub proof fn lemma_coords_round_trip(c: Coordinates, size: nat)
    requires
        valid_on(c, size),
        1 <= size <= MAX_BOARD_SIZE,
    ensures
        index_of(c, size) < tri(size),
        coords_of(index_of(c, size), size) == c,
{
    let r = (size - 1 - c.x) as nat;
    lemma_tri_monotone(r + 1, size);
    lemma_row_col_at(r, c.y as nat, 0);
}

proof fn lemma_row_col_at(r: nat, c: nat, r0: nat)
    requires
        c <= r,
        r0 <= r,
    ensures
        row_col((tri(r) - tri(r0) + c) as nat, r0) == (r, c),
    decreases r - r0,
{
    lemma_tri_monotone(r0, r);
    if r0 < r {
        lemma_row_col_at(r, c, r0 + 1);
        lemma_tri_monotone(r0 + 1, r);
        assert(tri(r0 + 1) == tri(r0) + r0 + 1);
        let i = (tri(r) - tri(r0) + c) as nat;
        assert(i > r0);
        assert(row_col(i, r0) == row_col((i - (r0 + 1)) as nat, r0 + 1));
    }
}

impl Coordinates {
    pub fn new(x: u32, y: u32, z: u32) -> (r: Coordinates)
        ensures
            r == (Coordinates { x, y, z }),
    {
        Coordinates { x, y, z }
    }

    /// The coordinates of linear cell `idx` on a board of size `board_size`.
    pub fn from_index(idx: u32, board_size: u32) -> (r: Coordinates)
        requires
            idx < tri(board_size as nat),
            board_size <= MAX_BOARD_SIZE,
        ensures
            r == coords_of(idx as nat, board_size as nat),
    {
        proof {
            lemma_coords_of(idx as nat, board_size as nat);
            lemma_row_col(idx as nat, 0);
        }
        let mut r: u32 = 0;
        let mut rem: u32 = idx;
        while rem > r
            invariant
                row_col(rem as nat, r as nat) == row_col(idx as nat, 0),
                r <= row_col(idx as nat, 0).0,
                row_col(idx as nat, 0).0 < board_size,
                board_size <= MAX_BOARD_SIZE,
            decreases rem,
        {
            proof {
                lemma_row_col((rem - (r + 1)) as nat, (r + 1) as nat);
            }
            rem = rem - (r + 1);
            r = r + 1;
        }
        Coordinates { x: board_size - 1 - r, y: rem, z: r - rem }
    }

    /// The linear index of these coordinates on a board of size `board_size`.
    pub fn to_index(&self, board_size: u32) -> (r: u32)
        requires
            valid_on(*self, board_size as nat),
            1 <= board_size <= MAX_BOARD_SIZE,
        ensures
            r == index_of(*self, board_size as nat),
            r < tri(board_size as nat),
    {
        proof {
            lemma_coords_round_trip(*self, board_size as nat);
        }
        let r: u64 = (board_size - 1 - self.x) as u64;
        proof {
            lemma_tri_closed(r as nat);
            assert(r * (r + 1) <= 1000 * 1001) by (nonlinear_arith)
                requires
                    r < 1000,
            ;
        }
        let start: u64 = r * (r + 1) / 2;
        (start + self.y as u64) as u32
    }
}

} // verus!
