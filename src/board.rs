//! Pieces, colours and the 64-square board.

use vstd::prelude::*;
use crate::vector::{Vector, square};
use crate::bitboard::aligned;

verus! {

#[derive(Copy, Clone, Debug, PartialEq, Eq, Structural, PartialOrd, Ord)]
pub enum Soldier {
    Pawn,
    Knight,
    Bishop,
    Rook,
    Queen,
    King,
}

#[derive(Copy, Clone, Debug, PartialEq, Eq, Structural, PartialOrd, Ord)]
pub enum Color {
    White,
    Black,
}

pub open spec fn other(c: Color) -> Color {
    match c {
        Color::White => Color::Black,
        Color::Black => Color::White,
    }
}

impl Color {
    pub fn opposite(&self) -> (r: Color)
        ensures
            r == other(*self),
    {
        match self {
            Color::White => Color::Black,
            Color::Black => Color::White,
        }
    }
}

pub type Piece = (Soldier, Color);

pub open spec fn kind_of(p: Piece) -> Soldier {
    p.0
}

pub open spec fn color_of(p: Piece) -> Color {
    p.1
}

/// What a board holds, square by square in order of packed index.
pub type Cells = Seq<Option<Piece>>;

/// The square holds a piece of colour `c`.
pub open spec fn has_color(b: Cells, i: int, c: Color) -> bool {
    b[i] is Some && color_of(b[i].unwrap()) == c
}

/// The square holds a piece of kind `s` and colour `c`.
pub open spec fn holds(b: Cells, i: int, s: Soldier, c: Color) -> bool {
    b[i] == Some((s, c))
}

pub open spec fn same_color(b: Cells, i: int, j: int) -> bool {
    b[i] is Some && b[j] is Some && color_of(b[i].unwrap()) == color_of(b[j].unwrap())
}

pub open spec fn enemy_color(b: Cells, i: int, j: int) -> bool {
    b[i] is Some && b[j] is Some && color_of(b[i].unwrap()) != color_of(b[j].unwrap())
}

pub open spec fn sliding(p: Option<Piece>) -> bool {
    p is Some && (kind_of(p.unwrap()) == Soldier::Bishop || kind_of(p.unwrap()) == Soldier::Rook || kind_of(p.unwrap())
        == Soldier::Queen)
}

/// Index of the first square of `b` that holds the king of colour `c`.
pub open spec fn first_king(b: Cells, c: Color) -> int {
    choose|i: int|
        0 <= i < 64 && holds(b, i, Soldier::King, c) && forall|j: int|
            0 <= j < i ==> !holds(b, j, Soldier::King, c)
}

pub open spec fn has_king(b: Cells, c: Color) -> bool {
    exists|i: int| 0 <= i < 64 && holds(b, i, Soldier::King, c)
}

/// The first king square exists when a king does.
pub proof fn lemma_first_king(b: Cells, c: Color, n: int)
    requires
        has_king(b, c),
        0 <= n <= 64,
        forall|j: int| 0 <= j < n ==> !holds(b, j, Soldier::King, c),
    ensures
        0 <= first_king(b, c) < 64,
        holds(b, first_king(b, c), Soldier::King, c),
    decreases 64 - n,
{
    if n == 64 {
        let i = choose|i: int| 0 <= i < 64 && holds(b, i, Soldier::King, c);
        assert(!holds(b, i, Soldier::King, c));
    } else if holds(b, n, Soldier::King, c) {
        assert(0 <= n < 64 && holds(b, n, Soldier::King, c) && forall|j: int|
            0 <= j < n ==> !holds(b, j, Soldier::King, c));
    } else {
        lemma_first_king(b, c, n + 1);
    }
}

#[derive(Clone, Copy)]
pub struct Board([Option<Piece>; 64]);

impl View for Board {
    type V = Cells;

    closed spec fn view(&self) -> Cells {
        self.0@
    }
}

impl Board {
    pub proof fn lemma_len(&self)
        ensures
            self@.len() == 64,
    {
    }

    pub fn new() -> (r: Board)
        ensures
            r@ == Seq::new(64, |i: int| None::<Piece>),
    {
        let r = Board([None; 64]);
        assert(r@ =~= Seq::new(64, |i: int| None::<Piece>));
        r
    }

    /// The cells in order of packed index.
    pub fn iter(&self) -> (r: &[Option<Piece>])
        ensures
            r@ == self@,
    {
        vstd::array::array_as_slice(&self.0)
    }

    pub fn get(&self, pos: Vector) -> (r: &Option<Piece>)
        requires
            pos.on_board(),
        ensures
            *r == self@[pos.idx()],
    {
        &self.0[pos.as_num()]
    }

    /// Puts `piece` on `pos` and returns what stood there.
    pub fn set(&mut self, pos: Vector, piece: Option<Piece>) -> (r: Option<Piece>)
        requires
            pos.on_board(),
        ensures
            r == old(self)@[pos.idx()],
            final(self)@ == old(self)@.update(pos.idx(), piece),
    {
        let n = pos.as_num();
        let prev = self.0[n];
        self.0[n] = piece;
        prev
    }

    pub fn remove(&mut self, pos: Vector) -> (r: Option<Piece>)
        requires
            pos.on_board(),
        ensures
            r == old(self)@[pos.idx()],
            final(self)@ == old(self)@.update(pos.idx(), None),
    {
        self.set(pos, None)
    }

    pub fn is_same_color(&self, u: Vector, w: Vector) -> (r: bool)
        requires
            u.on_board(),
            w.on_board(),
        ensures
            r == same_color(self@, u.idx(), w.idx()),
    {
        match (self.get(u), self.get(w)) {
            (Some((_, c1)), Some((_, c2))) => *c1 == *c2,
            _ => false,
        }
    }

    pub fn is_enemy_color(&self, u: Vector, w: Vector) -> (r: bool)
        requires
            u.on_board(),
            w.on_board(),
        ensures
            r == enemy_color(self@, u.idx(), w.idx()),
    {
        match (self.get(u), self.get(w)) {
            (Some((_, c1)), Some((_, c2))) => *c1 != *c2,
            _ => false,
        }
    }

    /// Takes the king of colour `color` off the board and returns its square.
    pub fn remove_king(&mut self, color: Color) -> (r: Vector)
        requires
            has_king(old(self)@, color),
        ensures
            r.on_board(),
            r.idx() == first_king(old(self)@, color),
            holds(old(self)@, r.idx(), Soldier::King, color),
            final(self)@ == old(self)@.update(r.idx(), None),
    {
        let mut n: usize = 0;
        while n < 64
            invariant
                n <= 64,
                self@ == old(self)@,
                has_king(self@, color),
                forall|j: int| 0 <= j < n ==> !holds(self@, j, Soldier::King, color),
            decreases 64 - n,
        {
            let v = Vector::from_num(n);
            if let Some((Soldier::King, c)) = self.get(v) {
                if *c == color {
                    proof {
                        let i = first_king(self@, color);
                        assert(0 <= n < 64 && holds(self@, n as int, Soldier::King, color) && forall|j: int|
                            0 <= j < n ==> !holds(self@, j, Soldier::King, color));
                        if i < n {
                        } else if i > n {
                        }
                        assert(i == n);
                    }
                    self.set(v, None);
                    return v;
                }
            }
            n = n + 1;
        }
        proof {
            let i = choose|i: int| 0 <= i < 64 && holds(self@, i, Soldier::King, color);
            assert(!holds(self@, i, Soldier::King, color));
        }
        Vector::from_num(0)
    }

    pub fn is_sliding_piece(p: &Option<Piece>) -> (r: bool)
        ensures
            r == sliding(*p),
    {
        matches!(
            p,
            Some((Soldier::Bishop, _)) | Some((Soldier::Rook, _)) | Some((Soldier::Queen, _))
        )
    }

    pub fn is_aligned(u: Vector, w: Vector) -> (r: bool)
        ensures
            r == aligned(u, w),
    {
        let dx: i16 = u.x as i16 - w.x as i16;
        let dy: i16 = u.y as i16 - w.y as i16;
        let ax: i16 = if dx < 0 { -dx } else { dx };
        let ay: i16 = if dy < 0 { -dy } else { dy };
        u.x == w.x || u.y == w.y || ax == ay
    }
}

} // verus!
