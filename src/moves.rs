//! Legal move generation: pseudo-legal move and attack sets per piece, then
//! the check, pin and en-passant rules that cut them down to legal moves.

use vstd::prelude::*;
use crate::vector::{Vector, square, lemma_idx_injective, lemma_square, sq, knight_offsets, rook_offsets, bishop_offsets, queen_offsets};
use crate::bitboard::{BitBoard, step, all_squares, aligned, line_between};
use crate::board::{
    Board, Cells, Color, Piece, Soldier, other, has_color, holds, same_color, enemy_color,
    kind_of, color_of, first_king, sliding,
};
use crate::state::{State, PositionView, valid};

verus! {

/// A move from `from` to `to`; `promotion` is the kind a pawn becomes.
/// Castling is a king move of two files, en passant a pawn move onto the
/// en-passant target.
#[derive(Clone, Copy, Debug, PartialEq, Eq, PartialOrd, Ord)]
pub struct Move {
    pub from: Vector,
    pub to: Vector,
    pub promotion: Option<Soldier>,
}

/// (x, y) is a square of the board.
pub open spec fn in_range(x: int, y: int) -> bool {
    0 <= x < 8 && 0 <= y < 8
}

/// A direction of a sliding piece: one step or none on each axis, not both none.
pub open spec fn unit(d: Vector) -> bool {
    -1 <= d.x <= 1 && -1 <= d.y <= 1 && (d.x != 0 || d.y != 0)
}

/// Squares reached from `p` by one jump of `ds`.
pub open spec fn leaper_targets(p: Vector, ds: Seq<Vector>) -> Set<int> {
    Set::new(
        |i: int|
            exists|n: int|
                0 <= n < ds.len() && in_range(p.x + ds[n].x, p.y + ds[n].y) && i == #[trigger] sq(
                    p.x + ds[n].x,
                    p.y + ds[n].y,
                ),
    )
}

/// Jump targets that do not hold a piece of the mover's colour and are not in `avoid`.
pub open spec fn leaper_moves(b: Cells, p: Vector, ds: Seq<Vector>, avoid: Set<int>) -> Set<int> {
    Set::new(
        |i: int| leaper_targets(p, ds).contains(i) && !same_color(b, p.idx(), i) && !avoid.contains(i),
    )
}

pub open spec fn ray_x(p: Vector, d: Vector, k: int) -> int {
    step(p.x as int, d.x as int, k)
}

pub open spec fn ray_y(p: Vector, d: Vector, k: int) -> int {
    step(p.y as int, d.y as int, k)
}

/// The `k`-th square from `p` along `d`.
pub open spec fn ray_sq(p: Vector, d: Vector, k: int) -> int {
    sq(ray_x(p, d, k), ray_y(p, d, k))
}

/// The squares strictly between `p` and its `k`-th square along `d` are empty.
pub open spec fn unblocked(b: Cells, p: Vector, d: Vector, k: int) -> bool {
    forall|j: int| 1 <= j < k ==> #[trigger] b[ray_sq(p, d, j)] is None
}

/// Squares a slider on `p` touches along `d`: up to and including the first
/// occupied square, or to the edge of the board.
pub open spec fn ray_reach(b: Cells, p: Vector, d: Vector) -> Set<int> {
    Set::new(
        |i: int|
            exists|k: int|
                k >= 1 && in_range(ray_x(p, d, k), ray_y(p, d, k)) && unblocked(b, p, d, k) && i
                    == #[trigger] ray_sq(p, d, k),
    )
}

pub open spec fn slide_attacks(b: Cells, p: Vector, ds: Seq<Vector>) -> Set<int> {
    Set::new(|i: int| exists|n: int| 0 <= n < ds.len() && #[trigger] ray_reach(b, p, ds[n]).contains(i))
}

pub open spec fn slide_moves(b: Cells, p: Vector, ds: Seq<Vector>, side: Color) -> Set<int> {
    Set::new(|i: int| slide_attacks(b, p, ds).contains(i) && !has_color(b, i, side))
}

pub open spec fn offsets_of(s: Soldier) -> Seq<Vector> {
    match s {
        Soldier::Bishop => bishop_offsets(),
        Soldier::Rook => rook_offsets(),
        _ => queen_offsets(),
    }
}

/// Rank step of a pawn of colour `c`.
pub open spec fn forward(c: Color) -> int {
    match c {
        Color::White => 1,
        Color::Black => -1,
    }
}

pub open spec fn start_rank(c: Color) -> int {
    match c {
        Color::White => 1,
        Color::Black => 6,
    }
}

/// The two squares diagonally ahead of a pawn, where on the board.
pub open spec fn pawn_targets(p: Vector, c: Color) -> Set<int> {
    Set::new(
        |i: int|
            exists|dx: int|
                (dx == 1 || dx == -1) && in_range(p.x + dx, p.y + forward(c)) && i == #[trigger] sq(
                    p.x + dx,
                    p.y + forward(c),
                ),
    )
}

pub open spec fn is_ep(ep: Option<Vector>, i: int) -> bool {
    ep is Some && ep.unwrap().idx() == i
}

/// Pushes, the double push from the start rank, captures and the
/// en-passant capture of a pawn of colour `c` on `p`.
pub open spec fn pawn_dests(b: Cells, p: Vector, c: Color, ep: Option<Vector>) -> Set<int> {
    let one = sq(p.x as int, p.y + forward(c));
    let two = sq(p.x as int, p.y + 2 * forward(c));
    Set::new(
        |i: int|
            (i == one && b[one] is None) || (p.y == start_rank(c) && b[one] is None && b[two] is None
                && i == two) || (pawn_targets(p, c).contains(i) && (enemy_color(b, p.idx(), i)
                || is_ep(ep, i))),
    )
}

/// The castling destinations of a king on `p`.
pub open spec fn castles(
    b: Cells,
    p: Vector,
    attacked: Set<int>,
    in_check: bool,
    kingside: bool,
    queenside: bool,
) -> Set<int> {
    let y = p.y as int;
    let x = p.x as int;
    Set::new(
        |i: int|
            !in_check && ((kingside && b[sq(x + 1, y)] is None && b[sq(x + 2, y)] is None
                && !attacked.contains(sq(x + 1, y)) && !attacked.contains(sq(x + 2, y)) && i == sq(
                x + 2,
                y,
            )) || (queenside && b[sq(x - 1, y)] is None && b[sq(x - 2, y)] is None && b[sq(x - 3, y)] is None
                && !attacked.contains(sq(x - 1, y)) && !attacked.contains(sq(x - 2, y)) && i == sq(
                x - 2,
                y,
            ))),
    )
}

pub open spec fn king_dests(
    b: Cells,
    p: Vector,
    attacked: Set<int>,
    in_check: bool,
    kingside: bool,
    queenside: bool,
) -> Set<int> {
    leaper_moves(b, p, queen_offsets(), attacked).union(
        castles(b, p, attacked, in_check, kingside, queenside),
    )
}

/// Pseudo-legal destinations of the piece on square `i` (castling left out).
pub open spec fn piece_moves(b: Cells, i: int, ep: Option<Vector>) -> Set<int> {
    let p = square(i);
    let (s, c) = b[i].unwrap();
    match s {
        Soldier::Pawn => pawn_dests(b, p, c, ep),
        Soldier::Knight => leaper_moves(b, p, knight_offsets(), Set::empty()),
        Soldier::King => leaper_moves(b, p, queen_offsets(), Set::empty()),
        _ => slide_moves(b, p, offsets_of(s), c),
    }
}

/// Squares the piece on square `i` attacks or defends.
pub open spec fn piece_attacks(b: Cells, i: int) -> Set<int> {
    let p = square(i);
    let (s, c) = b[i].unwrap();
    match s {
        Soldier::Pawn => pawn_targets(p, c),
        Soldier::Knight => leaper_targets(p, knight_offsets()),
        Soldier::King => leaper_targets(p, queen_offsets()),
        _ => slide_attacks(b, p, offsets_of(s)),
    }
}

/// No pawn of colour `c` stands on the rank where it would promote.
pub open spec fn pawns_ok(b: Cells, c: Color) -> bool {
    forall|i: int|
        0 <= i < 64 && #[trigger] holds(b, i, Soldier::Pawn, c) ==> in_range(
            square(i).x as int,
            square(i).y + forward(c),
        )
}

pub open spec fn ep_ok(ep: Option<Vector>) -> bool {
    ep is Some ==> ep.unwrap().on_board()
}

/// Where a piece may go and what it attacks.
pub struct MovesResult {
    pub moves: BitBoard,
    pub attacks: BitBoard,
}

/// Jumps of a knight or a king from `pos`: `attacks` are all targets on the
/// board, `moves` those without a piece of the mover's colour and outside
/// `avoid`.
fn leaper(bd: &Board, pos: Vector, dirs: &Vec<Vector>, avoid: BitBoard) -> (r: MovesResult)
    requires
        pos.on_board(),
        forall|n: int| 0 <= n < dirs@.len() ==> -2 <= #[trigger] dirs@[n].x <= 2 && -2 <= dirs@[n].y <= 2,
    ensures
        r.attacks@ == leaper_targets(pos, dirs@),
        r.moves@ == leaper_moves(bd@, pos, dirs@, avoid@),
{
    let mut attacks = BitBoard::new_empty();
    let mut moves = BitBoard::new_empty();
    let mut n: usize = 0;
    while n < dirs.len()
        invariant
            pos.on_board(),
            forall|m: int| 0 <= m < dirs@.len() ==> -2 <= #[trigger] dirs@[m].x <= 2 && -2 <= dirs@[m].y <= 2,
            n <= dirs@.len(),
            attacks@ == leaper_targets(pos, dirs@.take(n as int)),
            moves@ == leaper_moves(bd@, pos, dirs@.take(n as int), avoid@),
        decreases dirs@.len() - n,
    {
        let d = dirs[n];
        assert(-2 <= dirs@[n as int].x <= 2 && -2 <= dirs@[n as int].y <= 2);
        let offset = pos.plus(d);
        let ghost old_a = attacks@;
        let ghost old_m = moves@;
        let ghost ds = dirs@.take(n as int + 1);
        assert(dirs@.take(n as int) =~= ds.take(n as int));
        if offset.in_bounds() {
            attacks.set(offset);
            if !bd.is_same_color(pos, offset) && !avoid.get(offset) {
                moves.set(offset);
            }
        }
        assert(attacks@ =~= leaper_targets(pos, ds)) by {
            assert forall|i: int| #[trigger] leaper_targets(pos, ds).contains(i) implies attacks@.contains(i) by {
                let m = choose|m: int|
                    0 <= m < ds.len() && in_range(pos.x + ds[m].x, pos.y + ds[m].y) && i == #[trigger] sq(
                        pos.x + ds[m].x,
                        pos.y + ds[m].y,
                    );
                if m < n {
                    assert(ds.take(n as int)[m] == ds[m]);
                    assert(old_a.contains(i));
                }
            }
            assert forall|i: int| attacks@.contains(i) implies #[trigger] leaper_targets(pos, ds).contains(i) by {
                if old_a.contains(i) {
                    let m = choose|m: int|
                        0 <= m < n && in_range(pos.x + dirs@.take(n as int)[m].x, pos.y + dirs@.take(n as int)[m].y)
                            && i == #[trigger] sq(pos.x + dirs@.take(n as int)[m].x, pos.y + dirs@.take(n as int)[m].y);
                    assert(ds[m] == dirs@.take(n as int)[m]);
                } else {
                    assert(ds[n as int] == d);
                    assert(i == sq(pos.x + ds[n as int].x, pos.y + ds[n as int].y));
                }
            }
        }
        assert(moves@ =~= leaper_moves(bd@, pos, ds, avoid@));
        n = n + 1;
    }
    assert(dirs@.take(dirs@.len() as int) =~= dirs@);
    MovesResult { moves, attacks }
}

pub fn knight_moves(bd: &Board, pos: Vector) -> (r: MovesResult)
    requires
        pos.on_board(),
    ensures
        r.attacks@ == leaper_targets(pos, knight_offsets()),
        r.moves@ == leaper_moves(bd@, pos, knight_offsets(), Set::empty()),
{
    let dirs = Vector::knight_dirs();
    let r = leaper(bd, pos, &dirs, BitBoard::new_empty());
    r
}


/// Squares of the ray that do not hold a piece of colour `side`.
pub open spec fn ray_moves(b: Cells, p: Vector, d: Vector, side: Color) -> Set<int> {
    Set::new(|i: int| ray_reach(b, p, d).contains(i) && !has_color(b, i, side))
}

/// One ray of a slider on `pos`, walked square by square.
fn slide_ray(bd: &Board, pos: Vector, dir: Vector, side: Color) -> (r: MovesResult)
    requires
        pos.on_board(),
        unit(dir),
    ensures
        r.attacks@ == ray_reach(bd@, pos, dir),
        r.moves@ == ray_moves(bd@, pos, dir, side),
{
    let mut attacks = BitBoard::new_empty();
    let mut moves = BitBoard::new_empty();
    let mut curr = pos.plus(dir);
    let ghost mut k: int = 1;
    let mut done = false;
    let ghost b = bd@;
    while !done && curr.in_bounds()
        invariant
            pos.on_board(),
            unit(dir),
            b == bd@,
            1 <= k <= 8,
            curr.x == ray_x(pos, dir, k),
            curr.y == ray_y(pos, dir, k),
            forall|j: int| 1 <= j < k ==> #[trigger] in_range(ray_x(pos, dir, j), ray_y(pos, dir, j)),
            !done ==> unblocked(b, pos, dir, k),
            !done ==> attacks@ == Set::new(|i: int| exists|j: int| 1 <= j < k && i == #[trigger] ray_sq(pos, dir, j)),
            !done ==> moves@ == Set::new(|i: int| (exists|j: int| 1 <= j < k && i == #[trigger] ray_sq(pos, dir, j)) && !has_color(b, i, side)),
            done ==> attacks@ == ray_reach(b, pos, dir),
            done ==> moves@ == ray_moves(b, pos, dir, side),
        decreases 9 - k - (if done { 1int } else { 0int }),
    {
        let ghost old_a = attacks@;
        let ghost old_m = moves@;
        let ghost cs = ray_sq(pos, dir, k);
        assert(curr.idx() == cs);
        attacks.set(curr);
        let ghost upto = Set::new(|i: int| exists|j: int| 1 <= j < k + 1 && i == #[trigger] ray_sq(pos, dir, j));
        assert(attacks@ =~= upto) by {
            assert forall|i: int| upto.contains(i) implies attacks@.contains(i) by {
                let j = choose|j: int| 1 <= j < k + 1 && i == #[trigger] ray_sq(pos, dir, j);
                if j < k {
                    assert(old_a.contains(i));
                }
            }
        }
        match bd.get(curr) {
            Some((_, c)) => {
                if *c != side {
                    moves.set(curr);
                }
                done = true;
                proof {
                    assert(ray_reach(b, pos, dir) =~= upto) by {
                        assert forall|i: int| ray_reach(b, pos, dir).contains(i) implies upto.contains(i) by {
                            let j = choose|j: int|
                                j >= 1 && in_range(ray_x(pos, dir, j), ray_y(pos, dir, j)) && unblocked(b, pos, dir, j) && i
                                    == #[trigger] ray_sq(pos, dir, j);
                            if j > k {
                                assert(b[ray_sq(pos, dir, k)] is None);
                            }
                        }
                        assert forall|i: int| upto.contains(i) implies ray_reach(b, pos, dir).contains(i) by {
                            let j = choose|j: int| 1 <= j < k + 1 && i == #[trigger] ray_sq(pos, dir, j);
                            assert(in_range(ray_x(pos, dir, j), ray_y(pos, dir, j)));
                            assert(unblocked(b, pos, dir, j));
                        }
                    }
                    assert(moves@ =~= ray_moves(b, pos, dir, side));
                }
            },
            None => {
                moves.set(curr);
                proof {
                    assert(moves@ =~= Set::new(|i: int| (exists|j: int| 1 <= j < k + 1 && i == #[trigger] ray_sq(pos, dir, j)) && !has_color(b, i, side))) by {
                        assert forall|i: int| (exists|j: int| 1 <= j < k + 1 && i == #[trigger] ray_sq(pos, dir, j)) && !has_color(b, i, side) implies moves@.contains(i) by {
                            let j = choose|j: int| 1 <= j < k + 1 && i == #[trigger] ray_sq(pos, dir, j);
                            if j < k {
                                assert(old_m.contains(i));
                            }
                        }
                    }
                    assert(unblocked(b, pos, dir, k + 1));
                }
                curr = curr.plus(dir);
                proof {
                    k = k + 1;
                }
            },
        }
    }
    proof {
        if !done {
            assert(ray_reach(b, pos, dir) =~= Set::new(|i: int| exists|j: int| 1 <= j < k && i == #[trigger] ray_sq(pos, dir, j))) by {
                assert forall|i: int| ray_reach(b, pos, dir).contains(i) implies exists|j: int| 1 <= j < k && i == #[trigger] ray_sq(pos, dir, j) by {
                    let j = choose|j: int|
                        j >= 1 && in_range(ray_x(pos, dir, j), ray_y(pos, dir, j)) && unblocked(b, pos, dir, j) && i
                            == #[trigger] ray_sq(pos, dir, j);
                    assert(j < k);
                }
                assert forall|i: int| (exists|j: int| 1 <= j < k && i == #[trigger] ray_sq(pos, dir, j)) implies ray_reach(b, pos, dir).contains(i) by {
                    let j = choose|j: int| 1 <= j < k && i == #[trigger] ray_sq(pos, dir, j);
                    assert(in_range(ray_x(pos, dir, j), ray_y(pos, dir, j)));
                    assert(unblocked(b, pos, dir, j));
                }
            }
            assert(moves@ =~= ray_moves(b, pos, dir, side));
        }
    }
    MovesResult { moves, attacks }
}


pub open spec fn is_slider_kind(s: Soldier) -> bool {
    s == Soldier::Bishop || s == Soldier::Rook || s == Soldier::Queen
}

pub fn sliding_piece_directions(s: &Soldier) -> (r: Vec<Vector>)
    requires
        is_slider_kind(*s),
    ensures
        r@ == offsets_of(*s),
{
    match s {
        Soldier::Bishop => Vector::bishop_dirs(),
        Soldier::Rook => Vector::rook_dirs(),
        _ => Vector::queen_dirs(),
    }
}

pub proof fn lemma_offsets_unit(s: Soldier)
    ensures
        forall|n: int| 0 <= n < offsets_of(s).len() ==> #[trigger] unit(offsets_of(s)[n]),
{
    assert(unit(offsets_of(s)[0]));
    assert(unit(offsets_of(s)[1]));
    assert(unit(offsets_of(s)[2]));
    assert(unit(offsets_of(s)[3]));
    if offsets_of(s).len() == 8 {
        assert(unit(offsets_of(s)[4]));
        assert(unit(offsets_of(s)[5]));
        assert(unit(offsets_of(s)[6]));
        assert(unit(offsets_of(s)[7]));
    }
}

/// Moves and attacks of a bishop, rook or queen of colour `side` on `pos`.
pub fn sliding_moves(bd: &Board, pos: Vector, soldier: Soldier, side: Color) -> (r: MovesResult)
    requires
        pos.on_board(),
        is_slider_kind(soldier),
    ensures
        r.attacks@ == slide_attacks(bd@, pos, offsets_of(soldier)),
        r.moves@ == slide_moves(bd@, pos, offsets_of(soldier), side),
{
    let mut attacks = BitBoard::new_empty();
    let mut moves = BitBoard::new_empty();
    let dirs = sliding_piece_directions(&soldier);
    proof {
        lemma_offsets_unit(soldier);
    }
    let ghost ds = dirs@;
    let mut n: usize = 0;
    while n < dirs.len()
        invariant
            pos.on_board(),
            ds == dirs@,
            ds == offsets_of(soldier),
            forall|m: int| 0 <= m < ds.len() ==> #[trigger] unit(ds[m]),
            n <= ds.len(),
            attacks@ == Set::new(|i: int| exists|m: int| 0 <= m < n && #[trigger] ray_reach(bd@, pos, ds[m]).contains(i)),
            moves@ == Set::new(|i: int| (exists|m: int| 0 <= m < n && #[trigger] ray_reach(bd@, pos, ds[m]).contains(i)) && !has_color(bd@, i, side)),
        decreases ds.len() - n,
    {
        let d = dirs[n];
        assert(unit(ds[n as int]));
        let ray = slide_ray(bd, pos, d, side);
        let ghost old_a = attacks@;
        let ghost old_m = moves@;
        attacks = attacks.union(&ray.attacks);
        moves = moves.union(&ray.moves);
        assert(attacks@ =~= Set::new(|i: int| exists|m: int| 0 <= m < n + 1 && #[trigger] ray_reach(bd@, pos, ds[m]).contains(i))) by {
            assert forall|i: int| (exists|m: int| 0 <= m < n + 1 && #[trigger] ray_reach(bd@, pos, ds[m]).contains(i)) implies attacks@.contains(i) by {
                let m = choose|m: int| 0 <= m < n + 1 && #[trigger] ray_reach(bd@, pos, ds[m]).contains(i);
                if m < n {
                    assert(old_a.contains(i));
                }
            }
        }
        assert(moves@ =~= Set::new(|i: int| (exists|m: int| 0 <= m < n + 1 && #[trigger] ray_reach(bd@, pos, ds[m]).contains(i)) && !has_color(bd@, i, side))) by {
            assert forall|i: int| (exists|m: int| 0 <= m < n + 1 && #[trigger] ray_reach(bd@, pos, ds[m]).contains(i)) && !has_color(bd@, i, side) implies moves@.contains(i) by {
                let m = choose|m: int| 0 <= m < n + 1 && #[trigger] ray_reach(bd@, pos, ds[m]).contains(i);
                if m < n {
                    assert(old_m.contains(i));
                }
            }
        }
        n = n + 1;
    }
    assert(attacks@ =~= slide_attacks(bd@, pos, offsets_of(soldier)));
    assert(moves@ =~= slide_moves(bd@, pos, offsets_of(soldier), side));
    MovesResult { attacks, moves }
}


/// The diagonal step `dx` of a pawn: the target joins `attacks` when it is on
/// the board, and `moves` when it also holds an enemy or is the en-passant
/// target.
fn pawn_capture(
    bd: &Board,
    pos: Vector,
    dx: i8,
    fy: i8,
    ep: Option<Vector>,
    moves: &mut BitBoard,
    attacks: &mut BitBoard,
)
    requires
        pos.on_board(),
        dx == 1 || dx == -1,
        fy == 1 || fy == -1,
        ep_ok(ep),
    ensures
        in_range(pos.x + dx, pos.y + fy) ==> final(attacks)@ == old(attacks)@.insert(sq(pos.x + dx, pos.y + fy)),
        !in_range(pos.x + dx, pos.y + fy) ==> final(attacks)@ == old(attacks)@,
        in_range(pos.x + dx, pos.y + fy) && (enemy_color(bd@, pos.idx(), sq(pos.x + dx, pos.y + fy))
            || is_ep(ep, sq(pos.x + dx, pos.y + fy))) ==> final(moves)@ == old(moves)@.insert(sq(pos.x + dx, pos.y + fy)),
        !(in_range(pos.x + dx, pos.y + fy) && (enemy_color(bd@, pos.idx(), sq(pos.x + dx, pos.y + fy))
            || is_ep(ep, sq(pos.x + dx, pos.y + fy)))) ==> final(moves)@ == old(moves)@,
{
    let offset = pos.plus(Vector::from_int(dx, fy));
    if offset.in_bounds() {
        attacks.set(offset);
        let hits_ep = match ep {
            Some(ev) => ev == offset,
            None => false,
        };
        if bd.is_enemy_color(pos, offset) || hits_ep {
            moves.set(offset);
        }
    }
}

/// Moves and attacks of a pawn of colour `side` on `pos`.
pub fn pawn_moves(bd: &Board, pos: Vector, side: Color, enpassant_square: Option<Vector>) -> (r: MovesResult)
    requires
        pos.on_board(),
        in_range(pos.x as int, pos.y + forward(side)),
        ep_ok(enpassant_square),
    ensures
        r.attacks@ == pawn_targets(pos, side),
        r.moves@ == pawn_dests(bd@, pos, side, enpassant_square),
{
    let mut attacks = BitBoard::new_empty();
    let mut moves = BitBoard::new_empty();
    let fy: i8 = match side {
        Color::White => 1,
        Color::Black => -1,
    };
    let is_start = match side {
        Color::White => pos.y == 1,
        Color::Black => pos.y == 6,
    };
    let push_dir = Vector::from_int(0, fy);
    let one = pos.plus(push_dir);
    if bd.get(one).is_none() {
        moves.set(one);
        if is_start {
            let two = one.plus(push_dir);
            if bd.get(two).is_none() {
                moves.set(two);
            }
        }
    }
    let ghost m0 = moves@;
    pawn_capture(bd, pos, -1, fy, enpassant_square, &mut moves, &mut attacks);
    pawn_capture(bd, pos, 1, fy, enpassant_square, &mut moves, &mut attacks);
    proof {
        let b = bd@;
        let t1 = sq(pos.x - 1, pos.y + fy);
        let t2 = sq(pos.x + 1, pos.y + fy);
        assert(attacks@ =~= pawn_targets(pos, side)) by {
            assert forall|i: int| pawn_targets(pos, side).contains(i) implies attacks@.contains(i) by {
                let dx = choose|dx: int|
                    (dx == 1 || dx == -1) && in_range(pos.x + dx, pos.y + forward(side)) && i == #[trigger] sq(
                        pos.x + dx,
                        pos.y + forward(side),
                    );
                if dx == 1 {
                } else {
                }
            }
            assert forall|i: int| attacks@.contains(i) implies pawn_targets(pos, side).contains(i) by {
                if i == t1 {
                    assert(i == sq(pos.x + (-1), pos.y + forward(side)));
                } else {
                    assert(i == sq(pos.x + 1, pos.y + forward(side)));
                }
            }
        }
        assert(moves@ =~= pawn_dests(b, pos, side, enpassant_square)) by {
            assert forall|i: int| pawn_dests(b, pos, side, enpassant_square).contains(i) implies moves@.contains(i) by {
                if pawn_targets(pos, side).contains(i) && (enemy_color(b, pos.idx(), i) || is_ep(enpassant_square, i)) {
                    let dx = choose|dx: int|
                        (dx == 1 || dx == -1) && in_range(pos.x + dx, pos.y + forward(side)) && i == #[trigger] sq(
                            pos.x + dx,
                            pos.y + forward(side),
                        );
                    if dx == 1 {
                    } else {
                    }
                }
            }
            assert forall|i: int| moves@.contains(i) implies pawn_dests(b, pos, side, enpassant_square).contains(i) by {
                if m0.contains(i) {
                } else if i == t1 {
                    assert(i == sq(pos.x + (-1), pos.y + forward(side)));
                    assert(pawn_targets(pos, side).contains(i));
                } else {
                    assert(i == sq(pos.x + 1, pos.y + forward(side)));
                    assert(pawn_targets(pos, side).contains(i));
                }
            }
        }
    }
    MovesResult { attacks, moves }
}

/// Moves and attacks of a king on `pos`: steps onto squares outside
/// `attacked` that hold no piece of its colour, and, when it is not in
/// check, castling on each side it keeps the right for.
pub fn king_moves(
    bd: &Board,
    pos: Vector,
    attacked: BitBoard,
    king_in_check: bool,
    kingside_rights: bool,
    queenside_rights: bool,
) -> (r: MovesResult)
    requires
        pos.on_board(),
        kingside_rights ==> pos.x + 2 < 8,
        queenside_rights ==> pos.x >= 3,
    ensures
        r.attacks@ == leaper_targets(pos, queen_offsets()),
        r.moves@ == king_dests(bd@, pos, attacked@, king_in_check, kingside_rights, queenside_rights),
{
    let dirs = Vector::king_dirs();
    let r = leaper(bd, pos, &dirs, attacked);
    let mut moves = r.moves;
    let ghost m0 = moves@;
    if !king_in_check {
        if kingside_rights {
            let e1 = Vector::from_int(pos.x + 1, pos.y);
            let e2 = Vector::from_int(pos.x + 2, pos.y);
            if bd.get(e1).is_none() && bd.get(e2).is_none() && !attacked.get(e1) && !attacked.get(e2) {
                moves.set(e2);
            }
        }
        if queenside_rights {
            let w1 = Vector::from_int(pos.x - 1, pos.y);
            let w2 = Vector::from_int(pos.x - 2, pos.y);
            let w3 = Vector::from_int(pos.x - 3, pos.y);
            if bd.get(w1).is_none() && bd.get(w2).is_none() && bd.get(w3).is_none() && !attacked.get(w1)
                && !attacked.get(w2) {
                moves.set(w2);
            }
        }
    }
    assert(moves@ =~= king_dests(bd@, pos, attacked@, king_in_check, kingside_rights, queenside_rights));
    MovesResult { moves, attacks: r.attacks }
}


/// The result of `pseudo_legal_moves` for square `i`.
pub open spec fn pseudo_entry(b: Cells, side: Color, ep: Option<Vector>, e: Option<MovesResult>, i: int) -> bool {
    &&& (e is Some <==> has_color(b, i, side))
    &&& (e is Some ==> e.unwrap().moves@ == piece_moves(b, i, ep) && e.unwrap().attacks@ == piece_attacks(b, i))
}

/// For each square, the moves and attacks of the piece of colour `side` on
/// it, or `None` where no such piece stands.
pub fn pseudo_legal_moves(bd: &Board, side: Color, enpassant_square: Option<Vector>) -> (r: Vec<Option<MovesResult>>)
    requires
        pawns_ok(bd@, side),
        ep_ok(enpassant_square),
    ensures
        r@.len() == 64,
        forall|i: int| 0 <= i < 64 ==> pseudo_entry(bd@, side, enpassant_square, #[trigger] r@[i], i),
{
    let mut move_sets: Vec<Option<MovesResult>> = Vec::new();
    let mut n: usize = 0;
    while n < 64
        invariant
            n <= 64,
            pawns_ok(bd@, side),
            ep_ok(enpassant_square),
            move_sets@.len() == n,
            forall|i: int| 0 <= i < n ==> pseudo_entry(bd@, side, enpassant_square, #[trigger] move_sets@[i], i),
        decreases 64 - n,
    {
        let pos = Vector::from_num(n);
        let entry = match bd.get(pos) {
            Some((soldier, c)) => {
                if *c != side {
                    None
                } else {
                    match soldier {
                        Soldier::Pawn => {
                            assert(holds(bd@, n as int, Soldier::Pawn, side));
                            Some(pawn_moves(bd, pos, side, enpassant_square))
                        },
                        Soldier::Knight => Some(knight_moves(bd, pos)),
                        Soldier::King => {
                            let r = king_moves(bd, pos, BitBoard::new_empty(), true, false, false);
                            assert(r.moves@ =~= leaper_moves(bd@, pos, queen_offsets(), Set::empty()));
                            Some(r)
                        },
                        _ => Some(sliding_moves(bd, pos, *soldier, side)),
                    }
                }
            },
            None => None,
        };
        move_sets.push(entry);
        n = n + 1;
    }
    move_sets
}


/// A pawn reaching `to` promotes.
pub open spec fn promotes(s: Soldier, to: Vector) -> bool {
    s == Soldier::Pawn && (to.y == 0 || to.y == 7)
}

pub open spec fn promotion_kind(k: Soldier) -> bool {
    k == Soldier::Queen || k == Soldier::Rook || k == Soldier::Bishop || k == Soldier::Knight
}

/// `m` is one of the moves written for a piece of kind `s` on `from` with
/// destinations `dests`.
pub open spec fn emitted(s: Soldier, from: Vector, dests: Set<int>, m: Move) -> bool {
    &&& m.from == from
    &&& m.to.on_board()
    &&& dests.contains(m.to.idx())
    &&& if promotes(s, m.to) {
        m.promotion is Some && promotion_kind(m.promotion.unwrap())
    } else {
        m.promotion is None
    }
}

pub open spec fn no_dups(ms: Seq<Move>) -> bool {
    forall|i: int, j: int| 0 <= i < j < ms.len() ==> ms[i] != ms[j]
}

impl Move {
    /// The four promotions of a pawn moving from `from` to `to`.
    pub fn promotion_moves(from: Vector, to: Vector) -> (r: Vec<Move>)
        ensures
            r@ == seq![
                Move { from, to, promotion: Some(Soldier::Queen) },
                Move { from, to, promotion: Some(Soldier::Rook) },
                Move { from, to, promotion: Some(Soldier::Bishop) },
                Move { from, to, promotion: Some(Soldier::Knight) },
            ],
    {
        let mut moves: Vec<Move> = Vec::new();
        moves.push(Move { from, to, promotion: Some(Soldier::Queen) });
        moves.push(Move { from, to, promotion: Some(Soldier::Rook) });
        moves.push(Move { from, to, promotion: Some(Soldier::Bishop) });
        moves.push(Move { from, to, promotion: Some(Soldier::Knight) });
        assert(moves@ =~= seq![
            Move { from, to, promotion: Some(Soldier::Queen) },
            Move { from, to, promotion: Some(Soldier::Rook) },
            Move { from, to, promotion: Some(Soldier::Bishop) },
            Move { from, to, promotion: Some(Soldier::Knight) },
        ]);
        moves
    }

    /// One move for each destination in `to`, four where a pawn promotes.
    pub fn from_bitboard(s: Soldier, from: Vector, to: BitBoard) -> (r: Vec<Self>)
        ensures
            no_dups(r@),
            forall|m: Move| r@.contains(m) <==> emitted(s, from, to@, m),
    {
        let mut moves: Vec<Move> = Vec::new();
        let mut n: usize = 0;
        while n < 64
            invariant
                n <= 64,
                no_dups(moves@),
                forall|m: Move| moves@.contains(m) <==> (emitted(s, from, to@, m) && m.to.idx() < n),
            decreases 64 - n,
        {
            let pos = Vector::from_num(n);
            let ghost old_moves = moves@;
            if to.get(pos) {
                let is_pawn = match s {
                    Soldier::Pawn => true,
                    _ => false,
                };
                if is_pawn && (pos.y == 0 || pos.y == 7) {
                    let mut extra = Self::promotion_moves(from, pos);
                    let ghost ex = extra@;
                    moves.append(&mut extra);
                    assert(moves@ == old_moves + ex);
                    assert forall|m: Move| moves@.contains(m) <==> (emitted(s, from, to@, m) && m.to.idx() < n + 1) by {
                        if emitted(s, from, to@, m) && m.to.idx() < n {
                            assert(old_moves.contains(m));
                            let i = choose|i: int| 0 <= i < old_moves.len() && old_moves[i] == m;
                            assert(moves@[i] == m);
                        }
                        if emitted(s, from, to@, m) && m.to.idx() == n {
                            lemma_idx_injective(m.to, pos);
                            assert(m.to == pos);
                            let k = if m.promotion == Some(Soldier::Queen) { 0int } else if m.promotion == Some(Soldier::Rook) { 1int } else if m.promotion == Some(Soldier::Bishop) { 2int } else { 3int };
                            assert(moves@[old_moves.len() + k] == m);
                        }
                        if moves@.contains(m) {
                            let i = choose|i: int| 0 <= i < moves@.len() && moves@[i] == m;
                            if i < old_moves.len() {
                                assert(old_moves[i] == m);
                                assert(old_moves.contains(m));
                            } else {
                                assert(ex[i - old_moves.len()] == m);
                                assert(m.to == pos);
                            }
                        }
                    }
                    assert forall|i: int, j: int| 0 <= i < j < moves@.len() implies moves@[i] != moves@[j] by {
                        if j >= old_moves.len() && i < old_moves.len() {
                            assert(old_moves.contains(moves@[i]));
                        }
                    }
                } else {
                    let m = Move { from, to: pos, promotion: None };
                    moves.push(m);
                    assert(moves@ == old_moves.push(m));
                    assert forall|mm: Move| moves@.contains(mm) <==> (emitted(s, from, to@, mm) && mm.to.idx() < n + 1) by {
                        if emitted(s, from, to@, mm) && mm.to.idx() < n {
                            assert(old_moves.contains(mm));
                            let i = choose|i: int| 0 <= i < old_moves.len() && old_moves[i] == mm;
                            assert(moves@[i] == mm);
                        }
                        if emitted(s, from, to@, mm) && mm.to.idx() == n {
                            lemma_idx_injective(mm.to, pos);
                            assert(mm.to == pos);
                            assert(moves@[old_moves.len() as int] == mm);
                        }
                        if moves@.contains(mm) {
                            let i = choose|i: int| 0 <= i < moves@.len() && moves@[i] == mm;
                            if i < old_moves.len() {
                                assert(old_moves[i] == mm);
                                assert(old_moves.contains(mm));
                            }
                        }
                    }
                    assert forall|i: int, j: int| 0 <= i < j < moves@.len() implies moves@[i] != moves@[j] by {
                        if j == old_moves.len() {
                            assert(old_moves.contains(moves@[i]));
                        }
                    }
                }
            } else {
                assert forall|mm: Move| moves@.contains(mm) <==> (emitted(s, from, to@, mm) && mm.to.idx() < n + 1) by {
                    if emitted(s, from, to@, mm) && mm.to.idx() == n {
                        lemma_idx_injective(mm.to, pos);
                    }
                }
            }
            n = n + 1;
        }
        moves
    }
}


/// Squares where a move must land to resolve a check given by the piece on
/// `checker` to the king on `king`: the checker itself, and for a slider
/// the squares between them.
pub open spec fn check_block(b: Cells, checker: Vector, king: Vector) -> Set<int> {
    if is_slider_kind(kind_of(b[checker.idx()].unwrap())) && aligned(checker, king) && checker != king {
        line_between(checker, king)
    } else {
        set![checker.idx()]
    }
}

/// Given the square of a piece that checks the king, the squares on which a
/// move resolves the check.
pub fn get_checker_mask(bd: &Board, checker_pos: Vector, king_pos: Vector) -> (r: BitBoard)
    requires
        checker_pos.on_board(),
        king_pos.on_board(),
        bd@[checker_pos.idx()] is Some,
    ensures
        r@ == check_block(bd@, checker_pos, king_pos),
{
    let slider = match bd.get(checker_pos) {
        Some((Soldier::Bishop, _)) | Some((Soldier::Rook, _)) | Some((Soldier::Queen, _)) => true,
        _ => false,
    };
    if slider && Board::is_aligned(checker_pos, king_pos) && checker_pos != king_pos {
        BitBoard::make_line(checker_pos, king_pos)
    } else {
        let mut mask = BitBoard::new_empty();
        mask.set(checker_pos);
        assert(mask@ =~= set![checker_pos.idx()]);
        mask
    }
}

/// The pieces on rank `rank`, met from file `f` onward in steps of `dir`.
pub open spec fn pieces_from(b: Cells, rank: int, f: int, dir: int) -> Seq<Piece>
    decreases
            (if dir > 0 {
                8 - f
            } else {
                f + 1
            }),
{
    if !(0 <= f < 8) || !(dir == 1 || dir == -1) {
        Seq::empty()
    } else {
        let rest = pieces_from(b, rank, f + dir, dir);
        match b[sq(f, rank)] {
            Some(p) => seq![p] + rest,
            None => rest,
        }
    }
}

/// The first three pieces are a pawn of each colour and then an enemy rook
/// or queen of `side`.
pub open spec fn ep_pattern(ps: Seq<Piece>, side: Color) -> bool {
    &&& ps.len() >= 3
    &&& kind_of(ps[0]) == Soldier::Pawn
    &&& kind_of(ps[1]) == Soldier::Pawn
    &&& color_of(ps[0]) != color_of(ps[1])
    &&& (kind_of(ps[2]) == Soldier::Rook || kind_of(ps[2]) == Soldier::Queen)
    &&& color_of(ps[2]) == other(side)
}

/// On rank `rank`, a king of `side` has next to it, in one direction, a pawn
/// of each colour and then an enemy rook or queen: an en-passant capture
/// there would take both pawns off the line and expose the king.
pub open spec fn ep_pin_rank(b: Cells, side: Color, rank: int) -> bool {
    exists|kf: int|
        0 <= kf < 8 && #[trigger] holds(b, sq(kf, rank), Soldier::King, side) && (ep_pattern(
            pieces_from(b, rank, kf + 1, 1),
            side,
        ) || ep_pattern(pieces_from(b, rank, kf - 1, -1), side))
}

/// Up to the first three pieces on `rank` from file `start` in steps of `dir`.
fn first_pieces(bd: &Board, rank: i8, start: i8, dir: i8) -> (r: Vec<Piece>)
    requires
        0 <= rank < 8,
        -1 <= start <= 8,
        dir == 1 || dir == -1,
    ensures
        r@.len() <= 3,
        r@.len() < 3 ==> r@ == pieces_from(bd@, rank as int, start as int, dir as int),
        r@.len() == 3 ==> r@ == pieces_from(bd@, rank as int, start as int, dir as int).take(3)
            && pieces_from(bd@, rank as int, start as int, dir as int).len() >= 3,
{
    let mut found: Vec<Piece> = Vec::new();
    let mut f: i8 = start;
    while 0 <= f && f < 8 && found.len() < 3
        invariant
            0 <= rank < 8,
            -1 <= f <= 8,
            dir == 1 || dir == -1,
            found@.len() <= 3,
            found@ + pieces_from(bd@, rank as int, f as int, dir as int) == pieces_from(bd@, rank as int, start as int, dir as int),
        decreases
            (if dir > 0 {
                8 - f
            } else {
                f + 1
            }),
    {
        let ghost old_found = found@;
        let ghost rest = pieces_from(bd@, rank as int, f + dir, dir as int);
        assert(pieces_from(bd@, rank as int, f as int, dir as int) == (match bd@[sq(f as int, rank as int)] {
            Some(p) => seq![p] + rest,
            None => rest,
        }));
        match bd.get(Vector::from_int(f, rank)) {
            Some(p) => {
                found.push(*p);
                assert(found@ + rest =~= old_found + (seq![*p] + rest));
            },
            None => {},
        }
        f = f + dir;
    }
    proof {
        let full = pieces_from(bd@, rank as int, start as int, dir as int);
        if found@.len() < 3 {
            assert(pieces_from(bd@, rank as int, f as int, dir as int) == Seq::<Piece>::empty());
            assert(found@ =~= full);
        } else {
            assert(full.take(3) =~= found@);
        }
    }
    found
}

fn ep_pattern_exec(ps: &Vec<Piece>, side: Color) -> (r: bool)
    requires
        ps@.len() <= 3,
    ensures
        r == ep_pattern(ps@, side),
{
    if ps.len() < 3 {
        return false;
    }
    let (s0, c0) = ps[0];
    let (s1, c1) = ps[1];
    let (s2, c2) = ps[2];
    let pawns = match (s0, s1) {
        (Soldier::Pawn, Soldier::Pawn) => c0 != c1,
        _ => false,
    };
    let heavy = match s2 {
        Soldier::Rook | Soldier::Queen => c2 != side,
        _ => false,
    };
    pawns && heavy
}

/// Whether an en-passant capture with both pawns on rank `rank` would leave
/// the king of `side` open to an enemy rook or queen along that rank.
pub fn is_enpassant_pin_rank(bd: &Board, side: Color, rank: i8) -> (r: bool)
    requires
        0 <= rank < 8,
    ensures
        r == ep_pin_rank(bd@, side, rank as int),
{
    let mut file: i8 = 0;
    while file < 8
        invariant
            0 <= rank < 8,
            0 <= file <= 8,
            forall|kf: int|
                0 <= kf < file ==> !(#[trigger] holds(bd@, sq(kf, rank as int), Soldier::King, side) && (ep_pattern(
                    pieces_from(bd@, rank as int, kf + 1, 1),
                    side,
                ) || ep_pattern(pieces_from(bd@, rank as int, kf - 1, -1), side))),
        decreases 8 - file,
    {
        let is_king = match bd.get(Vector::from_int(file, rank)) {
            Some((Soldier::King, c)) => *c == side,
            _ => false,
        };
        if is_king {
            let high = first_pieces(bd, rank, file + 1, 1);
            let low = first_pieces(bd, rank, file - 1, -1);
            let found = ep_pattern_exec(&high, side) || ep_pattern_exec(&low, side);
            proof {
                let h = pieces_from(bd@, rank as int, file + 1, 1);
                let l = pieces_from(bd@, rank as int, file - 1, -1);
                if high@.len() == 3 {
                    assert(high@[0] == h[0] && high@[1] == h[1] && high@[2] == h[2]);
                    assert(ep_pattern(high@, side) == ep_pattern(h, side));
                }
                if low@.len() == 3 {
                    assert(low@[0] == l[0] && low@[1] == l[1] && low@[2] == l[2]);
                    assert(ep_pattern(low@, side) == ep_pattern(l, side));
                }
            }
            if found {
                assert(holds(bd@, sq(file as int, rank as int), Soldier::King, side));
                return true;
            }
        }
        file = file + 1;
    }
    false
}


// ---------------------------------------------------------------------------
// The legal moves of a position, as sets.

/// Square of the king of the side `c`.
pub open spec fn king_index(b: Cells, c: Color) -> int {
    first_king(b, c)
}

/// The board with the king of `c` taken off, so that rays run through its square.
pub open spec fn overlay(b: Cells, c: Color) -> Cells {
    b.update(king_index(b, c), None)
}

/// Squares attacked by the opponent of `c`, the king of `c` taken off.
pub open spec fn attacked_by(b: Cells, c: Color) -> Set<int> {
    Set::new(
        |j: int|
            exists|i: int|
                0 <= i < 64 && has_color(overlay(b, c), i, other(c)) && #[trigger] piece_attacks(
                    overlay(b, c),
                    i,
                ).contains(j),
    )
}

/// The square holds an opponent piece that attacks the king of `c`.
pub open spec fn is_checker(b: Cells, c: Color, i: int) -> bool {
    0 <= i < 64 && has_color(overlay(b, c), i, other(c)) && piece_attacks(overlay(b, c), i).contains(
        king_index(b, c),
    )
}

pub open spec fn checkers_of(b: Cells, c: Color) -> Set<int> {
    Set::new(|i: int| is_checker(b, c, i))
}

/// Own pieces (or empty squares) that lie both on a ray of the slider on `i`
/// towards the king of `c` and on the king's own rays.
pub open spec fn pinned_by(b: Cells, c: Color, i: int) -> Set<int> {
    let k = square(king_index(b, c));
    line_between(square(i), k).intersect(piece_moves(overlay(b, c), i, None)).intersect(
        slide_moves(overlay(b, c), k, queen_offsets(), other(c)),
    )
}

/// The opponent slider on `i` pins exactly one square to the king of `c`.
pub open spec fn pins(b: Cells, c: Color, i: int) -> bool {
    &&& has_color(overlay(b, c), i, other(c))
    &&& sliding(b[i])
    &&& aligned(square(i), square(king_index(b, c)))
    &&& pinned_by(b, c, i).len() == 1
}

/// The pin mask of every square after the sliders on the squares below `n`
/// were looked at: the line from the slider to the king for a pinned square,
/// all squares otherwise.
pub open spec fn pin_masks(b: Cells, c: Color, n: int) -> Seq<Set<int>>
    decreases n,
{
    if n <= 0 {
        Seq::new(64, |i: int| all_squares())
    } else {
        let m = pin_masks(b, c, n - 1);
        if pins(b, c, n - 1) {
            m.update(
                pinned_by(b, c, n - 1).choose(),
                line_between(square(n - 1), square(king_index(b, c))),
            )
        } else {
            m
        }
    }
}

/// Rank of the pawn that an en-passant capture would remove.
pub open spec fn ep_rank(v: PositionView) -> int {
    v.ep.unwrap().y - forward(v.turn)
}

/// Takes the en-passant target out of the masks of the two squares beside
/// the pawn that would be captured.
pub open spec fn clear_ep(m: Seq<Set<int>>, e: Vector, rank: int) -> Seq<Set<int>> {
    let m1 = if in_range(e.x - 1, rank) {
        m.update(sq(e.x - 1, rank), m[sq(e.x - 1, rank)].remove(e.idx()))
    } else {
        m
    };
    if in_range(e.x + 1, rank) {
        m1.update(sq(e.x + 1, rank), m1[sq(e.x + 1, rank)].remove(e.idx()))
    } else {
        m1
    }
}

/// Pin masks of the position, the en-passant exception included.
pub open spec fn final_pins(v: PositionView) -> Seq<Set<int>> {
    let m = pin_masks(v.board, v.turn, 64);
    if v.ep is Some && ep_pin_rank(v.board, v.turn, ep_rank(v)) {
        clear_ep(m, v.ep.unwrap(), ep_rank(v))
    } else {
        m
    }
}

pub open spec fn kingside_right(v: PositionView) -> bool {
    if v.turn == Color::White {
        v.wk
    } else {
        v.bk
    }
}

pub open spec fn queenside_right(v: PositionView) -> bool {
    if v.turn == Color::White {
        v.wq
    } else {
        v.bq
    }
}

/// Squares where a non-king move of the piece on `i` must land given the
/// checks on the king: all squares when not in check; under one check the
/// checker or the squares between it and the king, and for a pawn the
/// en-passant target too when the checker is a pawn.
pub open spec fn check_mask(v: PositionView, i: int) -> Set<int> {
    let b = v.board;
    let cs = checkers_of(b, v.turn);
    if cs.len() == 1 {
        let c = cs.choose();
        let base = check_block(b, square(c), square(king_index(b, v.turn)));
        if v.ep is Some && kind_of(b[c].unwrap()) == Soldier::Pawn && kind_of(b[i].unwrap())
            == Soldier::Pawn {
            base.insert(v.ep.unwrap().idx())
        } else {
            base
        }
    } else {
        all_squares()
    }
}

/// Legal destinations of the piece of the side to move on square `i`.
pub open spec fn legal_dests(v: PositionView, i: int) -> Set<int> {
    let b = v.board;
    let k = king_index(b, v.turn);
    if i == k {
        king_dests(
            b,
            square(k),
            attacked_by(b, v.turn),
            checkers_of(b, v.turn).len() > 0,
            kingside_right(v),
            queenside_right(v),
        )
    } else {
        piece_moves(b, i, v.ep).intersect(check_mask(v, i)).intersect(final_pins(v)[i])
    }
}

/// `m` is a legal move in `v`.
pub open spec fn legal_move(v: PositionView, m: Move) -> bool {
    let b = v.board;
    &&& m.from.on_board()
    &&& has_color(b, m.from.idx(), v.turn)
    &&& checkers_of(b, v.turn).len() > 1 ==> m.from.idx() == king_index(b, v.turn)
    &&& emitted(kind_of(b[m.from.idx()].unwrap()), m.from, legal_dests(v, m.from.idx()), m)
}


/// Walks the opponent's pseudo-legal table: the union of its attacks, the
/// number of its pieces attacking `kv`, and the square of the last of them.
fn scan_attacks(
    opp_moves: &Vec<Option<MovesResult>>,
    kv: Vector,
    Ghost(b): Ghost<Cells>,
    Ghost(c): Ghost<Color>,
) -> (r: (BitBoard, usize, Option<Vector>))
    requires
        opp_moves@.len() == 64,
        forall|i: int| 0 <= i < 64 ==> pseudo_entry(overlay(b, c), other(c), None, #[trigger] opp_moves@[i], i),
        kv.on_board(),
        kv.idx() == king_index(b, c),
    ensures
        r.0@ == attacked_by(b, c),
        checkers_of(b, c).finite(),
        r.1 == checkers_of(b, c).len(),
        r.1 > 0 ==> r.2 is Some && r.2.unwrap().on_board() && checkers_of(b, c).contains(r.2.unwrap().idx()),
        r.1 == 0 ==> r.2 is None,
{
    let ghost ov = overlay(b, c);
    let mut attacked = BitBoard::new_empty();
    let mut num_checkers: usize = 0;
    let mut checker_pos: Option<Vector> = None;
    let ghost mut seen: Set<int> = Set::empty();
    let mut n: usize = 0;
    while n < 64
        invariant
            n <= 64,
            opp_moves@.len() == 64,
            forall|i: int| 0 <= i < 64 ==> pseudo_entry(ov, other(c), None, #[trigger] opp_moves@[i], i),
            ov == overlay(b, c),
            kv.on_board(),
            kv.idx() == king_index(b, c),
            attacked@ == Set::new(
                |j: int|
                    exists|i: int|
                        0 <= i < n && has_color(ov, i, other(c)) && #[trigger] piece_attacks(ov, i).contains(j),
            ),
            seen == checkers_of(b, c).filter(|i: int| i < n),
            seen.finite(),
            num_checkers == seen.len(),
            num_checkers <= n,
            num_checkers == 0 ==> checker_pos is None,
            num_checkers > 0 ==> checker_pos is Some && checker_pos.unwrap().on_board() && seen.contains(
                checker_pos.unwrap().idx(),
            ),
        decreases 64 - n,
    {
        let ghost old_a = attacked@;
        let ghost old_seen = seen;
        assert(pseudo_entry(ov, other(c), None, opp_moves@[n as int], n as int));
        match &opp_moves[n] {
            Some(mr) => {
                let pv = Vector::from_num(n);
                if mr.attacks.get(kv) {
                    num_checkers = num_checkers + 1;
                    checker_pos = Some(pv);
                    proof {
                        seen = seen.insert(n as int);
                    }
                }
                attacked = attacked.union(&mr.attacks);
            },
            None => {},
        }
        n = n + 1;
        assert(seen =~= checkers_of(b, c).filter(|i: int| i < n));
        assert(attacked@ =~= Set::new(
            |j: int|
                exists|i: int|
                    0 <= i < n && has_color(ov, i, other(c)) && #[trigger] piece_attacks(ov, i).contains(j),
        )) by {
            assert forall|j: int|
                (exists|i: int|
                    0 <= i < n && has_color(ov, i, other(c)) && #[trigger] piece_attacks(ov, i).contains(j))
                implies attacked@.contains(j) by {
                let i = choose|i: int|
                    0 <= i < n && has_color(ov, i, other(c)) && #[trigger] piece_attacks(ov, i).contains(j);
                if i < n - 1 {
                    assert(old_a.contains(j));
                }
            }
        }
    }
    assert(seen =~= checkers_of(b, c));
    assert(attacked@ =~= attacked_by(b, c));
    (attacked, num_checkers, checker_pos)
}


proof fn lemma_singleton_choose(s: Set<int>, a: int)
    requires
        s.finite(),
        s.len() == 1,
        s.contains(a),
    ensures
        s.choose() == a,
{
    Set::lemma_is_singleton(s);
    assert(s.contains(s.choose()));
}

/// The pin mask of every square: for each opponent slider in line with the
/// king that pins exactly one square, that square's mask is the line from
/// the slider to the king.
fn find_pins(
    bd: &Board,
    opp_moves: &Vec<Option<MovesResult>>,
    pin_lines: &BitBoard,
    kv: Vector,
    Ghost(c): Ghost<Color>,
) -> (r: Vec<BitBoard>)
    requires
        opp_moves@.len() == 64,
        forall|i: int|
            0 <= i < 64 ==> pseudo_entry(overlay(bd@, c), other(c), None, #[trigger] opp_moves@[i], i),
        kv.on_board(),
        kv.idx() == king_index(bd@, c),
        kv == square(king_index(bd@, c)),
        pin_lines@ == slide_moves(overlay(bd@, c), kv, queen_offsets(), other(c)),
    ensures
        r@.len() == 64,
        pin_masks(bd@, c, 64).len() == 64,
        forall|j: int| 0 <= j < 64 ==> (#[trigger] r@[j])@ == pin_masks(bd@, c, 64)[j],
{
    let ghost b = bd@;
    let ghost ov = overlay(b, c);
    proof {
        bd.lemma_len();
    }
    let mut pinned_mask: Vec<BitBoard> = Vec::new();
    let mut k: usize = 0;
    while k < 64
        invariant
            k <= 64,
            pinned_mask@.len() == k,
            forall|j: int| 0 <= j < k ==> (#[trigger] pinned_mask@[j])@ == all_squares(),
        decreases 64 - k,
    {
        pinned_mask.push(BitBoard::new_full());
        k = k + 1;
    }
    assert(pin_masks(b, c, 0) == Seq::new(64, |i: int| all_squares()));
    let mut n: usize = 0;
    while n < 64
        invariant
            n <= 64,
            b == bd@,
            b.len() == 64,
            ov == overlay(b, c),
            opp_moves@.len() == 64,
            forall|i: int| 0 <= i < 64 ==> pseudo_entry(ov, other(c), None, #[trigger] opp_moves@[i], i),
            kv.on_board(),
            kv.idx() == king_index(b, c),
            kv == square(king_index(b, c)),
            pin_lines@ == slide_moves(ov, kv, queen_offsets(), other(c)),
            pinned_mask@.len() == 64,
            pin_masks(b, c, n as int).len() == 64,
            forall|j: int| 0 <= j < 64 ==> (#[trigger] pinned_mask@[j])@ == pin_masks(b, c, n as int)[j],
        decreases 64 - n,
    {
        let pos = Vector::from_num(n);
        let piece = bd.get(pos);
        assert(pseudo_entry(ov, other(c), None, opp_moves@[n as int], n as int));
        let ghost before = pin_masks(b, c, n as int);
        match &opp_moves[n] {
            Some(mr) => {
                if Board::is_sliding_piece(piece) && Board::is_aligned(pos, kv) {
                    assert(ov[n as int] is Some);
                    assert(ov[kv.idx()] is None);
                    let line = BitBoard::make_line(pos, kv);
                    let pinned = line.intersection(&mr.moves).intersection(pin_lines);
                    assert(pinned@ == pinned_by(b, c, n as int));
                    if pinned.num_set() == 1 {
                        let j = pinned.lowest_set();
                        proof {
                            pinned.lemma_on_board();
                            lemma_singleton_choose(pinned@, j as int);
                        }
                        pinned_mask[j] = line;
                        assert(pins(b, c, n as int));
                    } else {
                        assert(!pins(b, c, n as int));
                    }
                } else {
                    assert(!pins(b, c, n as int));
                }
            },
            None => {
                assert(!pins(b, c, n as int));
            },
        }
        n = n + 1;
        assert(pin_masks(b, c, n as int) == (if pins(b, c, n - 1) {
            before.update(pinned_by(b, c, n - 1).choose(), line_between(square(n - 1), square(king_index(b, c))))
        } else {
            before
        }));
    }
    pinned_mask
}


proof fn lemma_extend(
    v: PositionView,
    old: Seq<Move>,
    ms: Seq<Move>,
    all: Seq<Move>,
    n: int,
    s: Soldier,
    pos: Vector,
    dests: Set<int>,
)
    requires
        no_dups(old),
        forall|m: Move| old.contains(m) <==> (legal_move(v, m) && m.from.idx() < n),
        no_dups(ms),
        forall|m: Move| ms.contains(m) <==> emitted(s, pos, dests, m),
        pos.idx() == n,
        forall|m: Move| (legal_move(v, m) && m.from.idx() == n) <==> emitted(s, pos, dests, m),
        all == old + ms,
    ensures
        no_dups(all),
        forall|m: Move| #[trigger] all.contains(m) <==> (legal_move(v, m) && m.from.idx() < n + 1),
{
    assert forall|m: Move| all.contains(m) <==> (legal_move(v, m) && m.from.idx() < n + 1) by {
        if all.contains(m) {
            let i = choose|i: int| 0 <= i < all.len() && all[i] == m;
            if i < old.len() {
                assert(old[i] == m);
                assert(old.contains(m));
            } else {
                assert(ms[i - old.len()] == m);
                assert(ms.contains(m));
            }
        }
        if legal_move(v, m) && m.from.idx() < n {
            assert(old.contains(m));
            let i = choose|i: int| 0 <= i < old.len() && old[i] == m;
            assert(all[i] == m);
        }
        if legal_move(v, m) && m.from.idx() == n {
            assert(ms.contains(m));
            let i = choose|i: int| 0 <= i < ms.len() && ms[i] == m;
            assert(all[old.len() + i] == m);
        }
    }
    assert forall|i: int, j: int| 0 <= i < j < all.len() implies all[i] != all[j] by {
        if i < old.len() && j >= old.len() {
            assert(old.contains(old[i]));
            assert(ms.contains(ms[j - old.len()]));
            assert(all[j] == ms[j - old.len()]);
        } else if i >= old.len() {
            assert(all[i] == ms[i - old.len()]);
            assert(all[j] == ms[j - old.len()]);
        }
    }
}

/// Every legal move of the side to move.
pub fn legal_moves(st: &State) -> (r: Vec<Move>)
    requires
        valid(st@),
    ensures
        no_dups(r@),
        forall|m: Move| r@.contains(m) <==> legal_move(st@, m),
{
    let ghost v = st@;
    let ghost b = st.board@;
    proof {
        st.board.lemma_len();
    }
    let turn = st.turn;
    let opp_turn = turn.opposite();
    let mut opp_board = st.board;
    let kv = opp_board.remove_king(turn);
    let ghost k = king_index(b, turn);
    proof {
        lemma_square(k);
        lemma_idx_injective(kv, square(k));
        assert(opp_board@ == overlay(b, turn));
        assert forall|i: int| 0 <= i < 64 && #[trigger] holds(opp_board@, i, Soldier::Pawn, opp_turn) implies in_range(
            square(i).x as int,
            square(i).y + forward(opp_turn),
        ) by {
            assert(holds(b, i, Soldier::Pawn, opp_turn));
        }
    }
    let opp_moves = pseudo_legal_moves(&opp_board, opp_turn, None);
    let (attacked_squares, num_checkers, checker_pos) = scan_attacks(&opp_moves, kv, Ghost(b), Ghost(turn));
    let (ks, qs) = st.castling_rights_for_color();
    proof {
        if ks || qs {
            let home = if turn == Color::White { 4int } else { 60int };
            assert(holds(b, home, Soldier::King, turn));
            assert(holds(b, k, Soldier::King, turn));
            assert(k == home);
        }
    }
    let king_moves = king_moves(&st.board, kv, attacked_squares, num_checkers > 0, ks, qs);
    assert(king_moves.moves@ == legal_dests(v, k));
    assert forall|m: Move| (legal_move(v, m) && m.from.idx() == k) <==> emitted(Soldier::King, kv, king_moves.moves@, m) by {
        if emitted(Soldier::King, kv, king_moves.moves@, m) {
            assert(has_color(b, k, turn));
        }
    }
    if num_checkers > 1 {
        let r = Move::from_bitboard(Soldier::King, kv, king_moves.moves);
        assert forall|m: Move| r@.contains(m) <==> legal_move(v, m) by {
            if legal_move(v, m) {
                assert(m.from.idx() == k);
            }
        }
        return r;
    }
    let checker_mask = if num_checkers == 1 {
        get_checker_mask(&st.board, checker_pos.unwrap(), kv)
    } else {
        BitBoard::new_full()
    };
    let checker_is_pawn = match checker_pos {
        Some(cv) => match st.board.get(cv) {
            Some((Soldier::Pawn, _)) => true,
            _ => false,
        },
        None => false,
    };
    proof {
        if num_checkers == 1 {
            let cv = checker_pos.unwrap();
            let cs = checkers_of(b, turn);
            lemma_singleton_choose(cs, cv.idx());
            lemma_square(cv.idx());
            lemma_idx_injective(cv, square(cv.idx()));
        }
    }
    let pin_lines_from_king = sliding_moves(&opp_board, kv, Soldier::Queen, opp_turn);
    let mut pinned_mask = find_pins(&st.board, &opp_moves, &pin_lines_from_king.moves, kv, Ghost(turn));
    let ghost m0 = pin_masks(b, turn, 64);
    if let Some(ev) = st.en_passant_square {
        let dy: i8 = match turn {
            Color::White => -1,
            Color::Black => 1,
        };
        let rank = ev.y + dy;
        assert(rank == ep_rank(v));
        if is_enpassant_pin_rank(&st.board, turn, rank) {
            let ghost mut cur = m0;
            if ev.x >= 1 {
                let i = Vector::from_int(ev.x - 1, rank).as_num();
                let mut m = pinned_mask[i];
                m.unset(ev);
                pinned_mask[i] = m;
                proof {
                    cur = cur.update(i as int, cur[i as int].remove(ev.idx()));
                }
            }
            assert(cur.len() == 64);
            assert(forall|j: int| 0 <= j < 64 ==> (#[trigger] pinned_mask@[j])@ == cur[j]);
            let ghost cur1 = cur;
            if ev.x + 1 < 8 {
                let i = Vector::from_int(ev.x + 1, rank).as_num();
                let mut m = pinned_mask[i];
                m.unset(ev);
                pinned_mask[i] = m;
                proof {
                    cur = cur.update(i as int, cur[i as int].remove(ev.idx()));
                }
            }
            assert(cur == clear_ep(m0, ev, rank as int));
            assert(cur == final_pins(v));
            assert(forall|j: int| 0 <= j < 64 ==> (#[trigger] pinned_mask@[j])@ == cur[j]);
        } else {
            assert(m0 == final_pins(v));
        }
    } else {
        assert(m0 == final_pins(v));
    }
    let mine = pseudo_legal_moves(&st.board, turn, st.en_passant_square);
    let mut result: Vec<Move> = Vec::new();
    let mut n: usize = 0;
    while n < 64
        invariant
            n <= 64,
            v == st@,
            b == st.board@,
            b.len() == 64,
            valid(v),
            k == king_index(b, turn),
            kv.on_board(),
            kv.idx() == k,
            turn == v.turn,
            num_checkers <= 1,
            num_checkers == checkers_of(b, turn).len(),
            mine@.len() == 64,
            forall|i: int| 0 <= i < 64 ==> pseudo_entry(b, turn, v.ep, #[trigger] mine@[i], i),
            forall|m: Move| (legal_move(v, m) && m.from.idx() == k) <==> emitted(Soldier::King, kv, king_moves.moves@, m),
            pinned_mask@.len() == 64,
            forall|j: int| 0 <= j < 64 ==> (#[trigger] pinned_mask@[j])@ == final_pins(v)[j],
            num_checkers == 1 ==> checker_pos is Some && checker_mask@ == check_block(b, square(checkers_of(b, turn).choose()), square(k))
                && checker_is_pawn == (kind_of(b[checkers_of(b, turn).choose()].unwrap()) == Soldier::Pawn),
            num_checkers == 0 ==> checker_mask@ == all_squares(),
            no_dups(result@),
            forall|m: Move| result@.contains(m) <==> (legal_move(v, m) && m.from.idx() < n),
        decreases 64 - n,
    {
        assert(pseudo_entry(b, turn, v.ep, mine@[n as int], n as int));
        let ghost old_result = result@;
        match &mine[n] {
            Some(mr) => {
                let pos = Vector::from_num(n);
                let s = match st.board.get(pos) {
                    Some((s, _)) => *s,
                    None => Soldier::Pawn,
                };
                if pos == kv {
                    let mut ms = Move::from_bitboard(s, kv, king_moves.moves);
                    proof {
                        assert(s == Soldier::King);
                    }
                    let ghost ems = ms@;
                    result.append(&mut ms);
                    proof {
                        lemma_extend(v, old_result, ems, result@, n as int, s, pos, king_moves.moves@);
                    }
                } else {
                    let mut cm = checker_mask;
                    let is_pawn = match s {
                        Soldier::Pawn => true,
                        _ => false,
                    };
                    if let Some(ev) = st.en_passant_square {
                        if checker_is_pawn && is_pawn {
                            cm.set(ev);
                        }
                    }
                    let dests = mr.moves.intersection(&cm).intersection(&pinned_mask[n]);
                    assert(cm@ == check_mask(v, n as int));
                    assert(dests@ == legal_dests(v, n as int));
                    let mut ms = Move::from_bitboard(s, pos, dests);
                    proof {
                        assert forall|m: Move| (legal_move(v, m) && m.from.idx() == n) <==> emitted(s, pos, dests@, m) by {
                            if legal_move(v, m) && m.from.idx() == n {
                                lemma_idx_injective(m.from, pos);
                            }
                        }
                    }
                    let ghost ems = ms@;
                    result.append(&mut ms);
                    proof {
                        lemma_extend(v, old_result, ems, result@, n as int, s, pos, dests@);
                    }
                }
            },
            None => {
                assert(!has_color(b, n as int, turn));
                assert forall|m: Move| result@.contains(m) implies (legal_move(v, m) && m.from.idx() < n + 1) by {}
                assert forall|m: Move| (legal_move(v, m) && m.from.idx() < n + 1) implies result@.contains(m) by {
                    if m.from.idx() == n {
                        assert(has_color(b, m.from.idx(), turn));
                        assert(false);
                    }
                }
            },
        }
        assert(forall|m: Move| #[trigger] result@.contains(m) <==> (legal_move(v, m) && m.from.idx() < n + 1));
        n = n + 1;
    }
    result
}


/// Number of opponent pieces attacking the king of the side to move; with
/// no legal moves, more than zero is checkmate and zero stalemate.
pub fn num_checkers(st: &State) -> (r: usize)
    requires
        valid(st@),
    ensures
        r == checkers_of(st.board@, st.turn).len(),
{
    let ghost b = st.board@;
    proof {
        st.board.lemma_len();
    }
    let turn = st.turn;
    let opp_turn = turn.opposite();
    let mut opp_board = st.board;
    let kv = opp_board.remove_king(turn);
    proof {
        assert(opp_board@ == overlay(b, turn));
        assert forall|i: int| 0 <= i < 64 && #[trigger] holds(opp_board@, i, Soldier::Pawn, opp_turn) implies in_range(
            square(i).x as int,
            square(i).y + forward(opp_turn),
        ) by {
            assert(holds(b, i, Soldier::Pawn, opp_turn));
        }
    }
    let opp_moves = pseudo_legal_moves(&opp_board, opp_turn, None);
    let (_, n, _) = scan_attacks(&opp_moves, kv, Ghost(b), Ghost(turn));
    n
}

} // verus!
