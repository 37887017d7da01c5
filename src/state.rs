//! A position, and the making and unmaking of moves on it.

use vstd::prelude::*;
use crate::vector::{Vector, sq, vec_of};
use crate::board::{Board, Cells, Color, Piece, Soldier, other, kind_of, color_of, holds, has_king};
use crate::bitboard::abs;
use crate::moves::{Move, forward, pawns_ok};

verus! {

/// What is needed to take a move back.
#[derive(Clone, Copy, Debug)]
pub struct Reversion {
    pub mv: Move,
    pub captured_piece: Option<Piece>,
    pub white_castle_kingside: bool,
    pub white_castle_queenside: bool,
    pub black_castle_kingside: bool,
    pub black_castle_queenside: bool,
    pub en_passant_square: Option<Vector>,
}

pub struct State {
    pub board: Board,
    pub turn: Color,
    pub white_castle_kingside: bool,
    pub white_castle_queenside: bool,
    pub black_castle_kingside: bool,
    pub black_castle_queenside: bool,
    pub en_passant_square: Option<Vector>,
    /// How to return to each earlier position, the latest last.
    pub reversions: Vec<Reversion>,
}

/// A position as values.
pub struct PositionView {
    pub board: Cells,
    pub turn: Color,
    pub wk: bool,
    pub wq: bool,
    pub bk: bool,
    pub bq: bool,
    pub ep: Option<Vector>,
    pub reversions: Seq<Reversion>,
}

impl View for State {
    type V = PositionView;

    open spec fn view(&self) -> PositionView {
        PositionView {
            board: self.board@,
            turn: self.turn,
            wk: self.white_castle_kingside,
            wq: self.white_castle_queenside,
            bk: self.black_castle_kingside,
            bq: self.black_castle_queenside,
            ep: self.en_passant_square,
            reversions: self.reversions@,
        }
    }
}

pub open spec fn is_at(v: Vector, x: int, y: int) -> bool {
    v.x == x && v.y == y
}

/// Square of the pawn that an en-passant capture onto `ev` by `c` removes.
pub open spec fn behind(ev: Vector, c: Color) -> int {
    sq(ev.x as int, ev.y - forward(c))
}

/// The kind that stands on `to` after `m`.
pub open spec fn landing_kind(b: Cells, m: Move) -> Soldier {
    if m.promotion is Some {
        m.promotion.unwrap()
    } else {
        kind_of(b[m.from.idx()].unwrap())
    }
}

/// Board after the piece itself moved and, for a castle, the rook.
pub open spec fn board_moved(v: PositionView, m: Move) -> Cells {
    let b = v.board;
    let s = landing_kind(b, m);
    let c = color_of(b[m.from.idx()].unwrap());
    let y = m.from.y as int;
    let dx = m.to.x - m.from.x;
    let b1 = b.update(m.from.idx(), None).update(m.to.idx(), Some((s, c)));
    if s == Soldier::King && dx == 2 {
        b1.update(sq(7, y), None).update(sq(5, y), Some((Soldier::Rook, v.turn)))
    } else if s == Soldier::King && dx == -2 {
        b1.update(sq(0, y), None).update(sq(3, y), Some((Soldier::Rook, v.turn)))
    } else {
        b1
    }
}

/// `m` captures en passant.
pub open spec fn takes_ep(v: PositionView, m: Move) -> bool {
    v.ep is Some && landing_kind(v.board, m) == Soldier::Pawn && m.to == v.ep.unwrap()
}

/// The position after `m`.
pub open spec fn made(v: PositionView, m: Move) -> PositionView {
    let b = v.board;
    let s = landing_kind(b, m);
    let b2 = board_moved(v, m);
    let ep_sq = behind(v.ep.unwrap(), v.turn);
    let king_moved = s == Soldier::King;
    let captured = if takes_ep(v, m) {
        b2[ep_sq]
    } else {
        b.update(m.from.idx(), None)[m.to.idx()]
    };
    PositionView {
        board: if takes_ep(v, m) {
            b2.update(ep_sq, None)
        } else {
            b2
        },
        turn: other(v.turn),
        wk: v.wk && !(king_moved && v.turn == Color::White) && !is_at(m.from, 7, 0) && !is_at(m.to, 7, 0),
        wq: v.wq && !(king_moved && v.turn == Color::White) && !is_at(m.from, 0, 0) && !is_at(m.to, 0, 0),
        bk: v.bk && !(king_moved && v.turn == Color::Black) && !is_at(m.from, 7, 7) && !is_at(m.to, 7, 7),
        bq: v.bq && !(king_moved && v.turn == Color::Black) && !is_at(m.from, 0, 7) && !is_at(m.to, 0, 7),
        ep: if s == Soldier::Pawn && abs(m.from.y - m.to.y) == 2 {
            Some(vec_of(m.from.x as int, m.to.y - forward(v.turn)))
        } else {
            None
        },
        reversions: v.reversions.push(
            Reversion {
                mv: m,
                captured_piece: captured,
                white_castle_kingside: v.wk,
                white_castle_queenside: v.wq,
                black_castle_kingside: v.bk,
                black_castle_queenside: v.bq,
                en_passant_square: v.ep,
            },
        ),
    }
}

/// `make` can be applied: both squares on the board, a piece on `from`,
/// and the square behind an en-passant target on the board.
pub open spec fn can_make(v: PositionView, m: Move) -> bool {
    &&& m.from.on_board()
    &&& m.to.on_board()
    &&& v.board[m.from.idx()] is Some
    &&& v.ep is Some ==> 0 <= v.ep.unwrap().y - forward(v.turn) < 8
}

/// The position that `unmake` returns to.
pub open spec fn unmade(v: PositionView) -> PositionView {
    let r = v.reversions.last();
    let m = r.mv;
    let turn = other(v.turn);
    let (s0, c) = v.board[m.to.idx()].unwrap();
    let s = if m.promotion is Some {
        Soldier::Pawn
    } else {
        s0
    };
    let y = m.from.y as int;
    let dx = m.to.x - m.from.x;
    let b1 = v.board.update(m.to.idx(), None).update(m.from.idx(), Some((s, c)));
    let b2 = if r.en_passant_square is Some && s == Soldier::Pawn && m.to == r.en_passant_square.unwrap() {
        b1.update(behind(r.en_passant_square.unwrap(), turn), r.captured_piece)
    } else {
        b1.update(m.to.idx(), r.captured_piece)
    };
    let b3 = if s == Soldier::King && dx == 2 {
        b2.update(sq(5, y), None).update(sq(7, y), Some((Soldier::Rook, c)))
    } else if s == Soldier::King && dx == -2 {
        b2.update(sq(3, y), None).update(sq(0, y), Some((Soldier::Rook, c)))
    } else {
        b2
    };
    PositionView {
        board: b3,
        turn,
        wk: r.white_castle_kingside,
        wq: r.white_castle_queenside,
        bk: r.black_castle_kingside,
        bq: r.black_castle_queenside,
        ep: r.en_passant_square,
        reversions: v.reversions.drop_last(),
    }
}

/// `unmake` can be applied: a reversion to pop, whose squares are on the
/// board, a piece on its destination, and the captured pawn's square on the
/// board.
pub open spec fn can_unmake(v: PositionView) -> bool {
    let r = v.reversions.last();
    &&& v.reversions.len() > 0
    &&& r.mv.from.on_board()
    &&& r.mv.to.on_board()
    &&& v.board[r.mv.to.idx()] is Some
    &&& r.en_passant_square is Some ==> 0 <= r.en_passant_square.unwrap().y - forward(other(v.turn)) < 8
}

/// Exactly one king of colour `c` stands on the board.
pub open spec fn one_king(b: Cells, c: Color) -> bool {
    &&& has_king(b, c)
    &&& forall|i: int, j: int|
        0 <= i < 64 && 0 <= j < 64 && #[trigger] holds(b, i, Soldier::King, c) && #[trigger] holds(
            b,
            j,
            Soldier::King,
            c,
        ) ==> i == j
}

/// The en-passant target is empty, on the rank behind a pawn that has just
/// made a double push, and that pawn stands in front of it.
pub open spec fn ep_consistent(v: PositionView) -> bool {
    let e = v.ep.unwrap();
    &&& e.on_board()
    &&& e.y == (if v.turn == Color::White {
        5int
    } else {
        2int
    })
    &&& v.board[e.idx()] is None
    &&& holds(v.board, behind(e, v.turn), Soldier::Pawn, other(v.turn))
}

/// A position the generator and `make` / `unmake` work on: one king per
/// colour, no pawn on its last rank, castling rights only with king and rook
/// on their home squares, and a consistent en-passant target.
pub open spec fn valid(v: PositionView) -> bool {
    let b = v.board;
    &&& b.len() == 64
    &&& one_king(b, Color::White)
    &&& one_king(b, Color::Black)
    &&& pawns_ok(b, Color::White)
    &&& pawns_ok(b, Color::Black)
    &&& v.wk ==> holds(b, 4, Soldier::King, Color::White) && holds(b, 7, Soldier::Rook, Color::White)
    &&& v.wq ==> holds(b, 4, Soldier::King, Color::White) && holds(b, 0, Soldier::Rook, Color::White)
    &&& v.bk ==> holds(b, 60, Soldier::King, Color::Black) && holds(b, 63, Soldier::Rook, Color::Black)
    &&& v.bq ==> holds(b, 60, Soldier::King, Color::Black) && holds(b, 56, Soldier::Rook, Color::Black)
    &&& v.ep is Some ==> ep_consistent(v)
}

/// The piece kind of file `f` on a back rank of the starting position.
pub open spec fn back_rank(f: int) -> Soldier {
    if f == 0 || f == 7 {
        Soldier::Rook
    } else if f == 1 || f == 6 {
        Soldier::Knight
    } else if f == 2 || f == 5 {
        Soldier::Bishop
    } else if f == 3 {
        Soldier::Queen
    } else {
        Soldier::King
    }
}

/// The board of the starting position.
pub open spec fn start_cells() -> Cells {
    Seq::new(
        64,
        |i: int|
            if i < 8 {
                Some((back_rank(i), Color::White))
            } else if i < 16 {
                Some((Soldier::Pawn, Color::White))
            } else if i >= 56 {
                Some((back_rank(i - 56), Color::Black))
            } else if i >= 48 {
                Some((Soldier::Pawn, Color::Black))
            } else {
                None
            },
    )
}

fn back_rank_piece(f: i8) -> (r: Soldier)
    ensures
        r == back_rank(f as int),
{
    if f == 0 || f == 7 {
        Soldier::Rook
    } else if f == 1 || f == 6 {
        Soldier::Knight
    } else if f == 2 || f == 5 {
        Soldier::Bishop
    } else if f == 3 {
        Soldier::Queen
    } else {
        Soldier::King
    }
}

impl State {
    /// The starting position, White to move with all castling rights.
    pub fn new() -> (r: State)
        ensures
            r@ == (PositionView {
                board: start_cells(),
                turn: Color::White,
                wk: true,
                wq: true,
                bk: true,
                bq: true,
                ep: None,
                reversions: Seq::empty(),
            }),
    {
        let mut board = Board::new();
        let mut f: i8 = 0;
        while f < 8
            invariant
                0 <= f <= 8,
                board@.len() == 64,
                forall|i: int|
                    0 <= i < 64 ==> #[trigger] board@[i] == (if 0 <= i % 8 < f && (i < 16 || i >= 48) {
                        start_cells()[i]
                    } else {
                        None
                    }),
            decreases 8 - f,
        {
            let k = back_rank_piece(f);
            board.set(Vector::from_int(f, 0), Some((k, Color::White)));
            board.set(Vector::from_int(f, 1), Some((Soldier::Pawn, Color::White)));
            board.set(Vector::from_int(f, 6), Some((Soldier::Pawn, Color::Black)));
            board.set(Vector::from_int(f, 7), Some((k, Color::Black)));
            f = f + 1;
        }
        assert(board@ =~= start_cells());
        let st = State {
            board,
            turn: Color::White,
            white_castle_kingside: true,
            white_castle_queenside: true,
            black_castle_kingside: true,
            black_castle_queenside: true,
            en_passant_square: None,
            reversions: Vec::new(),
        };
        assert(st@.reversions =~= Seq::<Reversion>::empty());
        st
    }

    /// The castling rights (kingside, queenside) of the side to move.
    pub fn castling_rights_for_color(&self) -> (r: (bool, bool))
        ensures
            self.turn == Color::White ==> r == (self.white_castle_kingside, self.white_castle_queenside),
            self.turn == Color::Black ==> r == (self.black_castle_kingside, self.black_castle_queenside),
    {
        match self.turn {
            Color::White => (self.white_castle_kingside, self.white_castle_queenside),
            Color::Black => (self.black_castle_kingside, self.black_castle_queenside),
        }
    }

    /// Clears the rights that a king move of the side to move, or a move from
    /// or onto a corner, takes away.
    fn update_castling_rights(&mut self, mv: Move, king_moved: bool)
        ensures
            final(self).board == old(self).board,
            final(self).turn == old(self).turn,
            final(self).en_passant_square == old(self).en_passant_square,
            final(self).reversions == old(self).reversions,
            final(self).white_castle_kingside == (old(self).white_castle_kingside && !(king_moved
                && old(self).turn == Color::White) && !is_at(mv.from, 7, 0) && !is_at(mv.to, 7, 0)),
            final(self).white_castle_queenside == (old(self).white_castle_queenside && !(king_moved
                && old(self).turn == Color::White) && !is_at(mv.from, 0, 0) && !is_at(mv.to, 0, 0)),
            final(self).black_castle_kingside == (old(self).black_castle_kingside && !(king_moved
                && old(self).turn == Color::Black) && !is_at(mv.from, 7, 7) && !is_at(mv.to, 7, 7)),
            final(self).black_castle_queenside == (old(self).black_castle_queenside && !(king_moved
                && old(self).turn == Color::Black) && !is_at(mv.from, 0, 7) && !is_at(mv.to, 0, 7)),
    {
        if king_moved {
            match self.turn {
                Color::White => {
                    self.white_castle_kingside = false;
                    self.white_castle_queenside = false;
                },
                Color::Black => {
                    self.black_castle_kingside = false;
                    self.black_castle_queenside = false;
                },
            }
        }
        if (mv.from.x == 7 && mv.from.y == 0) || (mv.to.x == 7 && mv.to.y == 0) {
            self.white_castle_kingside = false;
        }
        if (mv.from.x == 0 && mv.from.y == 0) || (mv.to.x == 0 && mv.to.y == 0) {
            self.white_castle_queenside = false;
        }
        if (mv.from.x == 7 && mv.from.y == 7) || (mv.to.x == 7 && mv.to.y == 7) {
            self.black_castle_kingside = false;
        }
        if (mv.from.x == 0 && mv.from.y == 7) || (mv.to.x == 0 && mv.to.y == 7) {
            self.black_castle_queenside = false;
        }
    }

    /// Makes `mv` and records how to take it back.
    pub fn push(&mut self, mv: Move)
        requires
            can_make(old(self)@, mv),
        ensures
            final(self)@ == made(old(self)@, mv),
    {
        let ghost v = self@;
        let (mut s, c) = self.board.remove(mv.from).unwrap();
        if let Some(promotion_piece) = mv.promotion {
            s = promotion_piece;
        }
        let captured_piece = self.board.set(mv.to, Some((s, c)));
        assert(s == landing_kind(v.board, mv));
        assert(captured_piece == v.board.update(mv.from.idx(), None)[mv.to.idx()]);
        let mut reversion = Reversion {
            mv,
            captured_piece,
            white_castle_kingside: self.white_castle_kingside,
            white_castle_queenside: self.white_castle_queenside,
            black_castle_kingside: self.black_castle_kingside,
            black_castle_queenside: self.black_castle_queenside,
            en_passant_square: self.en_passant_square,
        };
        let is_king = match s {
            Soldier::King => true,
            _ => false,
        };
        let is_pawn = match s {
            Soldier::Pawn => true,
            _ => false,
        };
        self.update_castling_rights(mv, is_king);
        if is_king {
            let dx = mv.to.x - mv.from.x;
            if dx == 2 {
                self.board.remove(Vector::from_int(7, mv.from.y));
                self.board.set(Vector::from_int(5, mv.from.y), Some((Soldier::Rook, self.turn)));
            } else if dx == -2 {
                self.board.remove(Vector::from_int(0, mv.from.y));
                self.board.set(Vector::from_int(3, mv.from.y), Some((Soldier::Rook, self.turn)));
            }
        }
        assert(self.board@ == board_moved(v, mv));
        assert(is_king == (landing_kind(v.board, mv) == Soldier::King));
        assert(is_pawn == (landing_kind(v.board, mv) == Soldier::Pawn));
        let dy: i8 = match self.turn {
            Color::White => -1,
            Color::Black => 1,
        };
        if let Some(ev) = self.en_passant_square {
            if is_pawn && mv.to == ev {
                reversion.captured_piece = self.board.remove(Vector::from_int(ev.x, ev.y + dy));
            }
            self.en_passant_square = None;
        }
        let dist = mv.from.y - mv.to.y;
        if is_pawn && (dist == 2 || dist == -2) {
            self.en_passant_square = Some(Vector::from_int(mv.from.x, mv.to.y + dy));
        }
        assert(self.board@ == made(v, mv).board);
        assert(self.en_passant_square == made(v, mv).ep);
        assert(reversion.captured_piece == made(v, mv).reversions.last().captured_piece);
        self.turn = self.turn.opposite();
        self.reversions.push(reversion);
        assert(self@.reversions =~= made(v, mv).reversions);
    }

    /// Takes back the last move made.
    pub fn pop(&mut self)
        requires
            can_unmake(old(self)@),
        ensures
            final(self)@ == unmade(old(self)@),
    {
        let ghost v = self@;
        let reversion = self.reversions.pop().unwrap();
        self.white_castle_kingside = reversion.white_castle_kingside;
        self.white_castle_queenside = reversion.white_castle_queenside;
        self.black_castle_kingside = reversion.black_castle_kingside;
        self.black_castle_queenside = reversion.black_castle_queenside;
        self.en_passant_square = reversion.en_passant_square;
        self.turn = self.turn.opposite();
        let (mut s, c) = self.board.remove(reversion.mv.to).unwrap();
        if reversion.mv.promotion.is_some() {
            s = Soldier::Pawn;
        }
        self.board.set(reversion.mv.from, Some((s, c)));
        let is_pawn = match s {
            Soldier::Pawn => true,
            _ => false,
        };
        let dy: i8 = match self.turn {
            Color::White => -1,
            Color::Black => 1,
        };
        match reversion.en_passant_square {
            Some(ev) => {
                if is_pawn && reversion.mv.to == ev {
                    self.board.set(Vector::from_int(ev.x, ev.y + dy), reversion.captured_piece);
                } else {
                    self.board.set(reversion.mv.to, reversion.captured_piece);
                }
            },
            None => {
                self.board.set(reversion.mv.to, reversion.captured_piece);
            },
        }
        let is_king = match s {
            Soldier::King => true,
            _ => false,
        };
        if is_king {
            let dx = reversion.mv.to.x - reversion.mv.from.x;
            if dx == 2 {
                self.board.remove(Vector::from_int(5, reversion.mv.from.y));
                self.board.set(Vector::from_int(7, reversion.mv.from.y), Some((Soldier::Rook, c)));
            } else if dx == -2 {
                self.board.remove(Vector::from_int(3, reversion.mv.from.y));
                self.board.set(Vector::from_int(0, reversion.mv.from.y), Some((Soldier::Rook, c)));
            }
        }
        assert(self@.reversions =~= unmade(v).reversions);
    }
}

} // verus!
