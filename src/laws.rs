//! Laws that tie the generator to `make` and `unmake`.

use vstd::prelude::*;
use crate::vector::{Vector, square, sq, lemma_idx_injective, lemma_square, queen_offsets};
use crate::board::{Color, Soldier, other, has_color, holds, kind_of, color_of};
use crate::moves::{
    piece_attacks, slide_attacks, ray_reach, ray_x, ray_y, ray_sq, unblocked, unit, offsets_of,
    is_slider_kind, overlay, checkers_of, attacked_by,
    Move, legal_move, legal_dests, king_index, king_dests, leaper_moves, castles, piece_moves,
    promotes, kingside_right, queenside_right, in_range,
};
use crate::state::{PositionView, valid, made, unmade, can_make, can_unmake, behind};

verus! {

/// No legal destination holds a piece of the side to move.
proof fn lemma_dest_not_own(v: PositionView, m: Move)
    requires
        valid(v),
        legal_move(v, m),
    ensures
        !has_color(v.board, m.to.idx(), v.turn),
        m.to.idx() != m.from.idx(),
{
    let b = v.board;
    let f = m.from.idx();
    let t = m.to.idx();
    let k = king_index(b, v.turn);
    assert(legal_dests(v, f).contains(t));
    if f == k {
    } else {
        assert(piece_moves(b, f, v.ep).contains(t));
        if v.ep is Some {
            assert(b[v.ep.unwrap().idx()] is None);
        }
    }
}

/// A king move of two files is a castle with the right kept, the squares
/// between king and rook empty and the rook on its corner.
proof fn lemma_castle(v: PositionView, m: Move)
    requires
        valid(v),
        legal_move(v, m),
        kind_of(v.board[m.from.idx()].unwrap()) == Soldier::King,
        m.to.x - m.from.x == 2 || m.to.x - m.from.x == -2,
    ensures
        m.from.idx() == king_index(v.board, v.turn),
        m.to.y == m.from.y,
        m.from.x == 4,
        m.from.y == (if v.turn == Color::White { 0int } else { 7int }),
        m.to.x - m.from.x == 2 ==> v.board[sq(5, m.from.y as int)] is None && holds(
            v.board,
            sq(7, m.from.y as int),
            Soldier::Rook,
            v.turn,
        ),
        m.to.x - m.from.x == -2 ==> v.board[sq(3, m.from.y as int)] is None && holds(
            v.board,
            sq(0, m.from.y as int),
            Soldier::Rook,
            v.turn,
        ),
        crate::moves::checkers_of(v.board, v.turn).len() == 0,
        m.to.x - m.from.x == 2 ==> kingside_right(v) && !crate::moves::attacked_by(v.board, v.turn).contains(
            sq(5, m.from.y as int),
        ) && !crate::moves::attacked_by(v.board, v.turn).contains(sq(6, m.from.y as int)),
        m.to.x - m.from.x == -2 ==> queenside_right(v) && !crate::moves::attacked_by(v.board, v.turn).contains(
            sq(3, m.from.y as int),
        ) && !crate::moves::attacked_by(v.board, v.turn).contains(sq(2, m.from.y as int)),
{
    let b = v.board;
    let f = m.from.idx();
    let t = m.to.idx();
    let k = king_index(b, v.turn);
    assert(holds(b, f, Soldier::King, v.turn));
    assert(holds(b, k, Soldier::King, v.turn));
    assert(f == k);
    let p = square(k);
    lemma_square(k);
    lemma_idx_injective(p, m.from);
    let att = crate::moves::attacked_by(b, v.turn);
    let chk = crate::moves::checkers_of(b, v.turn).len() > 0;
    assert(king_dests(b, p, att, chk, kingside_right(v), queenside_right(v)).contains(t));
    if leaper_moves(b, p, queen_offsets(), att).contains(t) {
        let n = choose|n: int|
            0 <= n < queen_offsets().len() && in_range(p.x + queen_offsets()[n].x, p.y + queen_offsets()[n].y)
                && t == #[trigger] sq(p.x + queen_offsets()[n].x, p.y + queen_offsets()[n].y);
        let q = Vector { x: (p.x + queen_offsets()[n].x) as i8, y: (p.y + queen_offsets()[n].y) as i8 };
        lemma_idx_injective(q, m.to);
        assert(false);
    }
    assert(castles(b, p, att, chk, kingside_right(v), queenside_right(v)).contains(t));
    let home = if v.turn == Color::White { 4int } else { 60int };
    if kingside_right(v) || queenside_right(v) {
        assert(holds(b, home, Soldier::King, v.turn));
        assert(home == k);
    }
    let q2 = Vector { x: (p.x + 2) as i8, y: p.y };
    let q3 = Vector { x: (p.x - 2) as i8, y: p.y };
    if t == sq(p.x + 2, p.y as int) {
        lemma_idx_injective(q2, m.to);
    } else {
        lemma_idx_injective(q3, m.to);
    }
}

/// Castling is legal only out of check and only when neither square the
/// king crosses or lands on is attacked: a king move of two files is never
/// generated when one of them is attacked.
pub proof fn lemma_no_castling_through_check(v: PositionView, m: Move)
    requires
        valid(v),
        legal_move(v, m),
        kind_of(v.board[m.from.idx()].unwrap()) == Soldier::King,
        m.to.x - m.from.x == 2 || m.to.x - m.from.x == -2,
    ensures
        crate::moves::checkers_of(v.board, v.turn).len() == 0,
        !crate::moves::attacked_by(v.board, v.turn).contains(m.to.idx()),
        !crate::moves::attacked_by(v.board, v.turn).contains(sq((m.from.x + m.to.x) / 2, m.from.y as int)),
{
    lemma_castle(v, m);
}

/// A king move never lands on a square the opponent attacks, counting the
/// squares behind the king along a checking ray.
pub proof fn lemma_king_avoids_attacked(v: PositionView, m: Move)
    requires
        valid(v),
        legal_move(v, m),
        m.from.idx() == king_index(v.board, v.turn),
    ensures
        !crate::moves::attacked_by(v.board, v.turn).contains(m.to.idx()),
{
    let b = v.board;
    let k = king_index(b, v.turn);
    crate::board::lemma_first_king(b, v.turn, 0);
    if m.to.x - m.from.x == 2 || m.to.x - m.from.x == -2 {
        lemma_castle(v, m);
    } else {
        let p = square(k);
        lemma_square(k);
        lemma_idx_injective(p, m.from);
        let att = crate::moves::attacked_by(b, v.turn);
        let chk = crate::moves::checkers_of(b, v.turn).len() > 0;
        if castles(b, p, att, chk, kingside_right(v), queenside_right(v)).contains(m.to.idx()) {
            let q2 = Vector { x: (p.x + 2) as i8, y: p.y };
            let q3 = Vector { x: (p.x - 2) as i8, y: p.y };
            if m.to.idx() == sq(p.x + 2, p.y as int) {
                lemma_idx_injective(q2, m.to);
            } else {
                lemma_idx_injective(q3, m.to);
            }
        }
    }
}

/// Two squares of one ray on the board are one square only for one step.
proof fn lemma_ray_distinct(p: Vector, d: Vector, j: int, k: int)
    requires
        unit(d),
        1 <= j < k,
        in_range(ray_x(p, d, k), ray_y(p, d, k)),
        p.on_board(),
    ensures
        in_range(ray_x(p, d, j), ray_y(p, d, j)),
        ray_sq(p, d, j) != ray_sq(p, d, k),
{
}

/// Emptying a square `t` that a piece attacks does not take the attack on `t` away,
/// read backwards: an attack on `t` with `t` empty is an attack with `t` as it was.
proof fn lemma_attack_without_target(b: Seq<Option<(Soldier, Color)>>, i: int, t: int)
    requires
        b.len() == 64,
        0 <= i < 64,
        0 <= t < 64,
        i != t,
        b[i] is Some,
        piece_attacks(b.update(t, None), i).contains(t),
    ensures
        piece_attacks(b, i).contains(t),
{
    let b2 = b.update(t, None);
    let s = kind_of(b[i].unwrap());
    assert(b2[i] == b[i]);
    if is_slider_kind(s) {
        let p = square(i);
        lemma_square(i);
        let ds = offsets_of(s);
        crate::moves::lemma_offsets_unit(s);
        let n = choose|n: int| 0 <= n < ds.len() && #[trigger] ray_reach(b2, p, ds[n]).contains(t);
        let d = ds[n];
        assert(unit(d));
        let k = choose|k: int|
            k >= 1 && in_range(ray_x(p, d, k), ray_y(p, d, k)) && unblocked(b2, p, d, k) && t == #[trigger] ray_sq(p, d, k);
        assert forall|j: int| 1 <= j < k implies #[trigger] b[ray_sq(p, d, j)] is None by {
            lemma_ray_distinct(p, d, j, k);
            assert(b2[ray_sq(p, d, j)] is None);
        }
        assert(unblocked(b, p, d, k));
        assert(ray_reach(b, p, d).contains(t));
        assert(slide_attacks(b, p, ds).contains(t));
    }
}

/// A king step that is not a castle never leaves the mover's king attacked:
/// after it, no opponent piece attacks the king.
pub proof fn lemma_king_step_leaves_no_check(v: PositionView, m: Move)
    requires
        valid(v),
        legal_move(v, m),
        m.from.idx() == king_index(v.board, v.turn),
        m.to.x - m.from.x != 2,
        m.to.x - m.from.x != -2,
    ensures
        checkers_of(made(v, m).board, v.turn) == Set::<int>::empty(),
{
    let b = v.board;
    let c = v.turn;
    let f = m.from.idx();
    let t = m.to.idx();
    crate::board::lemma_first_king(b, c, 0);
    lemma_king_avoids_attacked(v, m);
    lemma_dest_not_own(v, m);
    let w = made(v, m).board;
    assert(m.promotion is None);
    assert(w == b.update(f, None).update(t, Some((Soldier::King, c))));
    assert forall|i: int| 0 <= i < 64 && #[trigger] holds(w, i, Soldier::King, c) implies i == t by {
        if i != t {
            assert(holds(b, i, Soldier::King, c));
            assert(i == f);
        }
    }
    assert(holds(w, t, Soldier::King, c));
    assert(crate::board::has_king(w, c));
    crate::board::lemma_first_king(w, c, 0);
    assert(king_index(w, c) == t);
    let ovb = overlay(b, c);
    let ovw = overlay(w, c);
    assert(ovw =~= ovb.update(t, None));
    assert forall|i: int| !(#[trigger] checkers_of(w, c).contains(i)) by {
        if checkers_of(w, c).contains(i) {
            assert(i != t);
            assert(ovw[i] == ovb[i]);
            lemma_attack_without_target(ovb, i, t);
            assert(attacked_by(b, c).contains(t));
        }
    }
    assert(checkers_of(w, c) =~= Set::<int>::empty());
}

/// The board after castling, with the king taken off, has no opponent attack
/// on the king's new square that the board before (king taken off) lacks: the
/// only square it empties is the rook's corner, which no ray crosses on its
/// way to that square.
proof fn lemma_attack_after_castle(ovb: Seq<Option<(Soldier, Color)>>, i: int, y: int, east: bool, c: Color)
    requires
        ovb.len() == 64,
        0 <= y < 8,
        0 <= i < 64,
        ovb[i] is Some,
        i != (if east { sq(6, y) } else { sq(2, y) }),
        i != (if east { sq(7, y) } else { sq(0, y) }),
        i != (if east { sq(5, y) } else { sq(3, y) }),
        piece_attacks(
            ovb.update(if east { sq(6, y) } else { sq(2, y) }, None).update(
                if east { sq(7, y) } else { sq(0, y) },
                None,
            ).update(if east { sq(5, y) } else { sq(3, y) }, Some((Soldier::Rook, c))),
            i,
        ).contains(if east { sq(6, y) } else { sq(2, y) }),
    ensures
        piece_attacks(ovb, i).contains(if east { sq(6, y) } else { sq(2, y) }),
{
    let t = if east { sq(6, y) } else { sq(2, y) };
    let corner = if east { sq(7, y) } else { sq(0, y) };
    let rd = if east { sq(5, y) } else { sq(3, y) };
    let ovw = ovb.update(t, None).update(corner, None).update(rd, Some((Soldier::Rook, c)));
    let s = kind_of(ovb[i].unwrap());
    assert(ovw[i] == ovb[i]);
    if is_slider_kind(s) {
        let p = square(i);
        lemma_square(i);
        let ds = offsets_of(s);
        crate::moves::lemma_offsets_unit(s);
        let n = choose|n: int| 0 <= n < ds.len() && #[trigger] ray_reach(ovw, p, ds[n]).contains(t);
        let d = ds[n];
        assert(unit(d));
        let k = choose|k: int|
            k >= 1 && in_range(ray_x(p, d, k), ray_y(p, d, k)) && unblocked(ovw, p, d, k) && t == #[trigger] ray_sq(p, d, k);
        assert forall|j: int| 1 <= j < k implies #[trigger] ovb[ray_sq(p, d, j)] is None by {
            lemma_ray_distinct(p, d, j, k);
            let q = ray_sq(p, d, j);
            assert(ovw[q] is None);
            assert(q != corner);
        }
        assert(unblocked(ovb, p, d, k));
        assert(ray_reach(ovb, p, d).contains(t));
        assert(slide_attacks(ovb, p, ds).contains(t));
    }
}

/// A castle never leaves the mover's king attacked: after it, no opponent
/// piece attacks the king.
pub proof fn lemma_castle_leaves_no_check(v: PositionView, m: Move)
    requires
        valid(v),
        legal_move(v, m),
        m.from.idx() == king_index(v.board, v.turn),
        m.to.x - m.from.x == 2 || m.to.x - m.from.x == -2,
    ensures
        checkers_of(made(v, m).board, v.turn) == Set::<int>::empty(),
{
    let b = v.board;
    let c = v.turn;
    let f = m.from.idx();
    let t = m.to.idx();
    crate::board::lemma_first_king(b, c, 0);
    lemma_castle(v, m);
    lemma_no_castling_through_check(v, m);
    let y = m.from.y as int;
    let east = m.to.x - m.from.x == 2;
    assert(t == (if east { sq(6, y) } else { sq(2, y) }));
    let corner = if east { sq(7, y) } else { sq(0, y) };
    let rd = if east { sq(5, y) } else { sq(3, y) };
    let w = made(v, m).board;
    assert(m.promotion is None);
    assert(w == b.update(f, None).update(t, Some((Soldier::King, c))).update(corner, None).update(
        rd,
        Some((Soldier::Rook, c)),
    ));
    assert forall|i: int| 0 <= i < 64 && #[trigger] holds(w, i, Soldier::King, c) implies i == t by {
        if i != t {
            assert(holds(b, i, Soldier::King, c));
            assert(i == f);
        }
    }
    assert(holds(w, t, Soldier::King, c));
    assert(crate::board::has_king(w, c));
    crate::board::lemma_first_king(w, c, 0);
    assert(king_index(w, c) == t);
    let ovb = overlay(b, c);
    let ovw = overlay(w, c);
    assert(ovw =~= ovb.update(t, None).update(corner, None).update(rd, Some((Soldier::Rook, c))));
    assert forall|i: int| !(#[trigger] checkers_of(w, c).contains(i)) by {
        if checkers_of(w, c).contains(i) {
            assert(ovw[i] == ovb[i]);
            lemma_attack_after_castle(ovb, i, y, east, c);
            assert(attacked_by(b, c).contains(t));
        }
    }
    assert(checkers_of(w, c) =~= Set::<int>::empty());
}

/// In double check only the king moves.
pub proof fn lemma_double_check_king_only(v: PositionView, m: Move)
    requires
        valid(v),
        legal_move(v, m),
        crate::moves::checkers_of(v.board, v.turn).len() >= 2,
    ensures
        m.from.idx() == king_index(v.board, v.turn),
        kind_of(v.board[m.from.idx()].unwrap()) == Soldier::King,
{
    crate::board::lemma_first_king(v.board, v.turn, 0);
}

/// Making a legal move and then unmaking it gives back the position as it
/// was: board, side to move, castling rights, en-passant target and the
/// stack of reversions.
pub proof fn lemma_make_unmake(v: PositionView, m: Move)
    requires
        valid(v),
        legal_move(v, m),
    ensures
        can_make(v, m),
        can_unmake(made(v, m)),
        unmade(made(v, m)) == v,
{
    let b = v.board;
    let f = m.from.idx();
    let t = m.to.idx();
    lemma_dest_not_own(v, m);
    let w = made(v, m);
    let u = unmade(w);
    let s = kind_of(b[f].unwrap());
    let c = color_of(b[f].unwrap());
    assert(c == v.turn);
    assert(m.promotion is Some ==> promotes(s, m.to));
    if s == Soldier::King && (m.to.x - m.from.x == 2 || m.to.x - m.from.x == -2) {
        lemma_castle(v, m);
    }
    if v.ep is Some {
        let e = v.ep.unwrap();
        assert(holds(b, behind(e, v.turn), Soldier::Pawn, other(v.turn)));
        assert(behind(e, v.turn) != f);
    }
    assert(u.reversions =~= v.reversions);
    assert(u.board =~= b);
}

/// Each legal move starts on a square that holds a piece of the side to move.
pub proof fn lemma_moves_from_own_piece(v: PositionView, m: Move)
    requires
        legal_move(v, m),
    ensures
        m.from.on_board(),
        has_color(v.board, m.from.idx(), v.turn),
{
}

/// A legal move carries a promotion exactly when a pawn reaches the first or
/// the last rank, and then to a queen, rook, bishop or knight.
pub proof fn lemma_promotions(v: PositionView, m: Move)
    requires
        legal_move(v, m),
    ensures
        m.promotion is Some <==> (kind_of(v.board[m.from.idx()].unwrap()) == Soldier::Pawn && (m.to.y == 0
            || m.to.y == 7)),
        m.promotion is Some ==> crate::moves::promotion_kind(m.promotion.unwrap()),
{
}

} // verus!
