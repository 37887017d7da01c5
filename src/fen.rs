//! Reading a position from its six-field text form (only the first four
//! fields are used: placement, side to move, castling rights, en-passant
//! target).

use vstd::prelude::*;
use vstd::string::StringSliceAdditionalSpecFns;
use crate::vector::{Vector, sq, vec_of};
use crate::board::{Board, Cells, Color, Piece, Soldier};
use crate::moves::in_range;
use crate::state::{State, PositionView};

verus! {

/// Index of the first space in `s` at or after `i`, or the length of `s`.
pub open spec fn first_space(s: Seq<u8>, i: int) -> int
    decreases s.len() - i,
{
    if i >= s.len() || i < 0 {
        s.len() as int
    } else if s[i] == 32 {
        i
    } else {
        first_space(s, i + 1)
    }
}

/// Where field `k` of `s` starts; beyond the length when `s` has fewer fields.
pub open spec fn field_start(s: Seq<u8>, k: nat) -> int
    decreases k,
{
    if k == 0 {
        0
    } else {
        first_space(s, field_start(s, (k - 1) as nat)) + 1
    }
}

pub open spec fn field(s: Seq<u8>, k: nat) -> Seq<u8> {
    s.subrange(field_start(s, k), first_space(s, field_start(s, k)))
}

/// The piece a placement letter stands for.
pub open spec fn piece_of(ch: u8) -> Option<Piece> {
    if ch == 114 {
        Some((Soldier::Rook, Color::Black))
    } else if ch == 110 {
        Some((Soldier::Knight, Color::Black))
    } else if ch == 98 {
        Some((Soldier::Bishop, Color::Black))
    } else if ch == 113 {
        Some((Soldier::Queen, Color::Black))
    } else if ch == 107 {
        Some((Soldier::King, Color::Black))
    } else if ch == 112 {
        Some((Soldier::Pawn, Color::Black))
    } else if ch == 82 {
        Some((Soldier::Rook, Color::White))
    } else if ch == 78 {
        Some((Soldier::Knight, Color::White))
    } else if ch == 66 {
        Some((Soldier::Bishop, Color::White))
    } else if ch == 81 {
        Some((Soldier::Queen, Color::White))
    } else if ch == 75 {
        Some((Soldier::King, Color::White))
    } else if ch == 80 {
        Some((Soldier::Pawn, Color::White))
    } else {
        None
    }
}

/// Reads the placement from index `i` on, ranks from the eighth down, files
/// from a; `None` when a letter is unknown or the placement leaves the board.
pub open spec fn board_scan(f: Seq<u8>, i: int, cells: Cells, row: int, col: int) -> Option<Cells>
    decreases f.len() - i,
{
    if i >= f.len() || i < 0 {
        Some(cells)
    } else {
        let ch = f[i];
        if ch == 47 {
            if row == 0 {
                None
            } else {
                board_scan(f, i + 1, cells, row - 1, 0)
            }
        } else if 48 <= ch <= 57 {
            if col + (ch - 48) > 8 {
                None
            } else {
                board_scan(f, i + 1, cells, row, col + (ch - 48))
            }
        } else if piece_of(ch) is Some && in_range(col, row) {
            board_scan(f, i + 1, cells.update(sq(col, row), piece_of(ch)), row, col + 1)
        } else {
            None
        }
    }
}

pub open spec fn parse_board(f: Seq<u8>) -> Option<Cells> {
    board_scan(f, 0, Seq::new(64, |i: int| None::<Piece>), 7, 0)
}

pub open spec fn parse_color(f: Seq<u8>) -> Option<Color> {
    if f.len() == 1 && f[0] == 119 {
        Some(Color::White)
    } else if f.len() == 1 && f[0] == 98 {
        Some(Color::Black)
    } else {
        None
    }
}

/// Castling rights (white kingside, white queenside, black kingside, black
/// queenside) from index `i` on; a dash ends the field.
pub open spec fn castle_scan(f: Seq<u8>, i: int) -> Option<(bool, bool, bool, bool)>
    decreases f.len() - i,
{
    if i >= f.len() || i < 0 || f[i] == 45 {
        Some((false, false, false, false))
    } else {
        let rest = castle_scan(f, i + 1);
        if rest is None {
            None
        } else {
            let (a, b, c, d) = rest.unwrap();
            if f[i] == 75 {
                Some((true, b, c, d))
            } else if f[i] == 81 {
                Some((a, true, c, d))
            } else if f[i] == 107 {
                Some((a, b, true, d))
            } else if f[i] == 113 {
                Some((a, b, c, true))
            } else {
                None
            }
        }
    }
}

/// A dash, or a file letter a to h and a rank digit 1 to 8.
pub open spec fn parse_ep(f: Seq<u8>) -> Option<Option<Vector>> {
    if f.len() == 1 && f[0] == 45 {
        Some(None)
    } else if f.len() == 2 && 97 <= f[0] <= 104 && 49 <= f[1] <= 56 {
        Some(Some(vec_of(f[0] - 97, f[1] - 49)))
    } else {
        None
    }
}

/// The position that the text `s` describes, when it describes one.
pub open spec fn parse_fen(s: Seq<u8>) -> Option<PositionView> {
    if field_start(s, 3) <= s.len() && parse_board(field(s, 0)) is Some && parse_color(field(s, 1)) is Some
        && castle_scan(field(s, 2), 0) is Some && parse_ep(field(s, 3)) is Some {
        let (wk, wq, bk, bq) = castle_scan(field(s, 2), 0).unwrap();
        Some(
            PositionView {
                board: parse_board(field(s, 0)).unwrap(),
                turn: parse_color(field(s, 1)).unwrap(),
                wk,
                wq,
                bk,
                bq,
                ep: parse_ep(field(s, 3)).unwrap(),
                reversions: Seq::empty(),
            },
        )
    } else {
        None
    }
}

/// End of the field that starts at `start`.
fn field_end(s: &[u8], start: usize) -> (r: usize)
    requires
        start <= s@.len(),
    ensures
        r == first_space(s@, start as int),
        start <= r <= s@.len(),
{
    let mut i = start;
    while i < s.len() && s[i] != 32
        invariant
            start <= i <= s@.len(),
            first_space(s@, start as int) == first_space(s@, i as int),
        decreases s@.len() - i,
    {
        i = i + 1;
    }
    i
}

pub fn char_to_piece(c: u8) -> (r: Option<Piece>)
    ensures
        r == piece_of(c),
{
    match c {
        114 => Some((Soldier::Rook, Color::Black)),
        110 => Some((Soldier::Knight, Color::Black)),
        98 => Some((Soldier::Bishop, Color::Black)),
        113 => Some((Soldier::Queen, Color::Black)),
        107 => Some((Soldier::King, Color::Black)),
        112 => Some((Soldier::Pawn, Color::Black)),
        82 => Some((Soldier::Rook, Color::White)),
        78 => Some((Soldier::Knight, Color::White)),
        66 => Some((Soldier::Bishop, Color::White)),
        81 => Some((Soldier::Queen, Color::White)),
        75 => Some((Soldier::King, Color::White)),
        80 => Some((Soldier::Pawn, Color::White)),
        _ => None,
    }
}

/// The placement field `s[a..e]`.
pub fn get_board(s: &[u8], a: usize, e: usize) -> (r: Option<Board>)
    requires
        a <= e <= s@.len(),
    ensures
        r is Some <==> parse_board(s@.subrange(a as int, e as int)) is Some,
        r is Some ==> r.unwrap()@ == parse_board(s@.subrange(a as int, e as int)).unwrap(),
{
    let ghost f = s@.subrange(a as int, e as int);
    let mut board = Board::new();
    let mut row: i8 = 7;
    let mut col: i8 = 0;
    let mut i = a;
    while i < e
        invariant
            a <= i <= e <= s@.len(),
            f == s@.subrange(a as int, e as int),
            0 <= row <= 7,
            0 <= col <= 8,
            parse_board(f) == board_scan(f, i - a, board@, row as int, col as int),
        decreases e - i,
    {
        let ch = s[i];
        assert(ch == f[i - a]);
        if ch == 47 {
            if row == 0 {
                return None;
            }
            row = row - 1;
            col = 0;
        } else if 48 <= ch && ch <= 57 {
            let d = (ch - 48) as i8;
            if col + d > 8 {
                return None;
            }
            col = col + d;
        } else {
            match char_to_piece(ch) {
                Some(p) => {
                    if col >= 8 {
                        return None;
                    }
                    board.set(Vector::from_int(col, row), Some(p));
                    col = col + 1;
                },
                None => {
                    return None;
                },
            }
        }
        i = i + 1;
    }
    Some(board)
}

pub fn get_active_color(s: &[u8], a: usize, e: usize) -> (r: Option<Color>)
    requires
        a <= e <= s@.len(),
    ensures
        r == parse_color(s@.subrange(a as int, e as int)),
{
    if e - a == 1 && s[a] == 119 {
        Some(Color::White)
    } else if e - a == 1 && s[a] == 98 {
        Some(Color::Black)
    } else {
        None
    }
}

pub fn castling_rights(s: &[u8], a: usize, e: usize) -> (r: Option<(bool, bool, bool, bool)>)
    requires
        a <= e <= s@.len(),
    ensures
        r == castle_scan(s@.subrange(a as int, e as int), 0),
{
    let ghost f = s@.subrange(a as int, e as int);
    let mut kingside_white = false;
    let mut queenside_white = false;
    let mut kingside_black = false;
    let mut queenside_black = false;
    let mut i = a;
    while i < e && s[i] != 45
        invariant
            a <= i <= e <= s@.len(),
            f == s@.subrange(a as int, e as int),
            forall|j: int| a <= j < i ==> (#[trigger] s@[j] == 75 || s@[j] == 81 || s@[j] == 107 || s@[j] == 113),
            castle_scan(f, 0) is Some <==> (castle_scan(f, i - a) is Some && forall|j: int|
                a <= j < i ==> (#[trigger] s@[j] == 75 || s@[j] == 81 || s@[j] == 107 || s@[j] == 113)),
            castle_scan(f, 0) is Some ==> castle_scan(f, 0).unwrap() == (
                kingside_white || castle_scan(f, i - a).unwrap().0,
                queenside_white || castle_scan(f, i - a).unwrap().1,
                kingside_black || castle_scan(f, i - a).unwrap().2,
                queenside_black || castle_scan(f, i - a).unwrap().3,
            ),
        decreases e - i,
    {
        let ch = s[i];
        assert(ch == f[i - a]);
        if ch == 75 {
            kingside_white = true;
        } else if ch == 81 {
            queenside_white = true;
        } else if ch == 107 {
            kingside_black = true;
        } else if ch == 113 {
            queenside_black = true;
        } else {
            assert(castle_scan(f, i - a) is None);
            return None;
        }
        i = i + 1;
    }
    assert(castle_scan(f, i - a) == Some((false, false, false, false)));
    Some((kingside_white, queenside_white, kingside_black, queenside_black))
}

pub fn get_en_passant_square(s: &[u8], a: usize, e: usize) -> (r: Option<Option<Vector>>)
    requires
        a <= e <= s@.len(),
    ensures
        r == parse_ep(s@.subrange(a as int, e as int)),
{
    if e - a == 1 && s[a] == 45 {
        Some(None)
    } else if e - a == 2 && 97 <= s[a] && s[a] <= 104 && 49 <= s[a + 1] && s[a + 1] <= 56 {
        let file = (s[a] - 97) as i8;
        let rank = (s[a + 1] - 49) as i8;
        Some(Some(Vector::from_int(file, rank)))
    } else {
        None
    }
}

impl State {
    /// The position described by `fen`, or `None` when the text is malformed.
    pub fn from_fen(fen: &str) -> (r: Option<State>)
        ensures
            r is Some <==> parse_fen(fen.spec_bytes()) is Some,
            r is Some ==> r.unwrap()@ == parse_fen(fen.spec_bytes()).unwrap(),
    {
        let s = fen.as_bytes();
        let ghost sb = s@;
        let e0 = field_end(s, 0);
        if e0 >= s.len() {
            return None;
        }
        let a1 = e0 + 1;
        let e1 = field_end(s, a1);
        if e1 >= s.len() {
            return None;
        }
        let a2 = e1 + 1;
        let e2 = field_end(s, a2);
        if e2 >= s.len() {
            return None;
        }
        let a3 = e2 + 1;
        let e3 = field_end(s, a3);
        assert(field_start(sb, 1) == a1);
        assert(field_start(sb, 2) == a2);
        assert(field_start(sb, 3) == a3);
        let board = match get_board(s, 0, e0) {
            Some(b) => b,
            None => {
                return None;
            },
        };
        let turn = match get_active_color(s, a1, e1) {
            Some(t) => t,
            None => {
                return None;
            },
        };
        let (wk, wq, bk, bq) = match castling_rights(s, a2, e2) {
            Some(c) => c,
            None => {
                return None;
            },
        };
        let en_passant_square = match get_en_passant_square(s, a3, e3) {
            Some(ep) => ep,
            None => {
                return None;
            },
        };
        let st = State {
            board,
            turn,
            white_castle_kingside: wk,
            white_castle_queenside: wq,
            black_castle_kingside: bk,
            black_castle_queenside: bq,
            en_passant_square,
            reversions: Vec::new(),
        };
        assert(st@.reversions =~= Seq::<crate::state::Reversion>::empty());
        Some(st)
    }
}

} // verus!
