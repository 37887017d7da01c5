//! Board coordinates: a square as (file, rank), and the direction tables of
//! the pieces.

use vstd::prelude::*;

verus! {

/// A square or a displacement on the board: `x` is the file, `y` the rank.
#[derive(Clone, Copy, Debug, PartialEq, Eq, Structural, PartialOrd, Ord)]
pub struct Vector {
    pub x: i8,
    pub y: i8,
}

/// Square of packed index `i` (`i = file + 8 * rank`).
pub open spec fn square(i: int) -> Vector {
    Vector { x: (i % 8) as i8, y: (i / 8) as i8 }
}

/// Packed index of the square at (x, y).
pub open spec fn sq(x: int, y: int) -> int {
    x + 8 * y
}

/// The vector (x, y), each component taken as an `i8`.
pub open spec fn vec_of(x: int, y: int) -> Vector {
    Vector { x: x as i8, y: y as i8 }
}

pub open spec fn knight_offsets() -> Seq<Vector> {
    seq![
        vec_of(1, 2),
        vec_of(2, 1),
        vec_of(2, -1),
        vec_of(1, -2),
        vec_of(-1, -2),
        vec_of(-2, -1),
        vec_of(-2, 1),
        vec_of(-1, 2),
    ]
}

pub open spec fn rook_offsets() -> Seq<Vector> {
    seq![vec_of(1, 0), vec_of(0, 1), vec_of(-1, 0), vec_of(0, -1)]
}

pub open spec fn bishop_offsets() -> Seq<Vector> {
    seq![vec_of(1, 1), vec_of(-1, 1), vec_of(-1, -1), vec_of(1, -1)]
}

pub open spec fn queen_offsets() -> Seq<Vector> {
    seq![
        vec_of(1, 0),
        vec_of(1, 1),
        vec_of(0, 1),
        vec_of(-1, 1),
        vec_of(-1, 0),
        vec_of(-1, -1),
        vec_of(0, -1),
        vec_of(1, -1),
    ]
}

/// Two squares of the board with one packed index are one square.
pub proof fn lemma_idx_injective(a: Vector, b: Vector)
    requires
        a.on_board(),
        b.on_board(),
        a.idx() == b.idx(),
    ensures
        a == b,
{
}

/// The square of a packed index is on the board and has that index.
pub proof fn lemma_square(i: int)
    requires
        0 <= i < 64,
    ensures
        square(i).on_board(),
        square(i).idx() == i,
{
}

impl Vector {
    pub open spec fn on_board(self) -> bool {
        0 <= self.x < 8 && 0 <= self.y < 8
    }

    /// Packed index of this square.
    pub open spec fn idx(self) -> int {
        self.x + 8 * self.y
    }

    pub open spec fn sum(self, d: Vector) -> Vector {
        vec_of(self.x + d.x, self.y + d.y)
    }

    /// Adding `d` stays within the range of `i8` on both axes.
    pub open spec fn fits_sum(self, d: Vector) -> bool {
        -128 <= self.x + d.x < 128 && -128 <= self.y + d.y < 128
    }

    pub fn from_usize(x: usize, y: usize) -> (r: Self)
        ensures
            r.x == x as i8,
            r.y == y as i8,
    {
        Self { x: x as i8, y: y as i8 }
    }

    pub fn from_int(x: i8, y: i8) -> (r: Self)
        ensures
            r.x == x,
            r.y == y,
    {
        Self { x, y }
    }

    pub fn from_num(n: usize) -> (r: Self)
        requires
            n < 64,
        ensures
            r == square(n as int),
            r.on_board(),
            r.idx() == n,
    {
        Self { x: (n % 8) as i8, y: (n / 8) as i8 }
    }

    pub fn as_num(&self) -> (r: usize)
        requires
            self.on_board(),
        ensures
            r == self.idx(),
            r < 64,
            square(r as int) == *self,
    {
        (self.x as usize) + (self.y as usize) * 8
    }

    pub fn in_bounds(&self) -> (r: bool)
        ensures
            r == self.on_board(),
    {
        self.x >= 0 && self.x < 8 && self.y >= 0 && self.y < 8
    }

    /// Component-wise sum of two vectors.
    pub fn plus(self, d: Vector) -> (r: Vector)
        requires
            self.fits_sum(d),
        ensures
            r == self.sum(d),
            r.x == self.x + d.x,
            r.y == self.y + d.y,
    {
        Vector { x: self.x + d.x, y: self.y + d.y }
    }

    /// The 64 squares in order of their packed index.
    pub fn board_pos_iter() -> (r: Vec<Self>)
        ensures
            r@.len() == 64,
            forall|i: int| 0 <= i < 64 ==> #[trigger] r@[i] == square(i),
    {
        let mut r: Vec<Self> = Vec::new();
        let mut n: usize = 0;
        while n < 64
            invariant
                n <= 64,
                r@.len() == n,
                forall|i: int| 0 <= i < n ==> #[trigger] r@[i] == square(i),
            decreases 64 - n,
        {
            r.push(Self::from_num(n));
            n = n + 1;
        }
        r
    }

    pub fn knight_dirs() -> (r: Vec<Self>)
        ensures
            r@ == knight_offsets(),
    {
        let r = vec![
            Self::from_int(1, 2),
            Self::from_int(2, 1),
            Self::from_int(2, -1),
            Self::from_int(1, -2),
            Self::from_int(-1, -2),
            Self::from_int(-2, -1),
            Self::from_int(-2, 1),
            Self::from_int(-1, 2),
        ];
        assert(r@ =~= knight_offsets());
        r
    }

    pub fn rook_dirs() -> (r: Vec<Self>)
        ensures
            r@ == rook_offsets(),
    {
        let r = vec![
            Self::from_int(1, 0),
            Self::from_int(0, 1),
            Self::from_int(-1, 0),
            Self::from_int(0, -1),
        ];
        assert(r@ =~= rook_offsets());
        r
    }

    pub fn bishop_dirs() -> (r: Vec<Self>)
        ensures
            r@ == bishop_offsets(),
    {
        let r = vec![
            Self::from_int(1, 1),
            Self::from_int(-1, 1),
            Self::from_int(-1, -1),
            Self::from_int(1, -1),
        ];
        assert(r@ =~= bishop_offsets());
        r
    }

    pub fn queen_dirs() -> (r: Vec<Self>)
        ensures
            r@ == queen_offsets(),
    {
        let r = vec![
            Self::from_int(1, 0),
            Self::from_int(1, 1),
            Self::from_int(0, 1),
            Self::from_int(-1, 1),
            Self::from_int(-1, 0),
            Self::from_int(-1, -1),
            Self::from_int(0, -1),
            Self::from_int(1, -1),
        ];
        assert(r@ =~= queen_offsets());
        r
    }

    pub fn king_dirs() -> (r: Vec<Self>)
        ensures
            r@ == queen_offsets(),
    {
        Self::queen_dirs()
    }
}

} // verus!
