use chess_moves::bitboard::BitBoard;
use chess_moves::board::{Board, Color, Soldier};
use chess_moves::fen::{castling_rights, char_to_piece, get_active_color, get_board, get_en_passant_square};
use chess_moves::moves::{
    get_checker_mask, is_enpassant_pin_rank, king_moves, knight_moves, pawn_moves, pseudo_legal_moves,
    sliding_moves, Move,
};
use chess_moves::state::State;
use chess_moves::vector::Vector;

fn sq(x: i8, y: i8) -> Vector {
    Vector::from_int(x, y)
}

fn squares(b: &BitBoard) -> Vec<usize> {
    (0..64).filter(|&i| b.get(Vector::from_num(i))).collect()
}

#[test]
fn vector_index_round_trip() {
    for n in 0..64 {
        let v = Vector::from_num(n);
        assert!(v.in_bounds());
        assert_eq!(v.as_num(), n);
    }
    assert_eq!(sq(3, 2).as_num(), 19);
    assert_eq!(Vector::from_usize(7, 7).as_num(), 63);
    assert!(!sq(8, 0).in_bounds());
    assert!(!sq(0, -1).in_bounds());
    assert_eq!(sq(1, 2).plus(sq(-1, 3)), sq(0, 5));
}

#[test]
fn direction_tables() {
    assert_eq!(Vector::knight_dirs().len(), 8);
    assert_eq!(Vector::rook_dirs().len(), 4);
    assert_eq!(Vector::bishop_dirs().len(), 4);
    assert_eq!(Vector::queen_dirs().len(), 8);
    assert_eq!(Vector::king_dirs(), Vector::queen_dirs());
    assert!(Vector::knight_dirs().contains(&sq(-2, 1)));
    assert!(Vector::bishop_dirs().contains(&sq(-1, -1)));
    let all = Vector::board_pos_iter();
    assert_eq!(all.len(), 64);
    assert_eq!(all[10], sq(2, 1));
}

#[test]
fn bitboard_set_operations() {
    let mut a = BitBoard::new_empty();
    assert_eq!(a.num_set(), 0);
    assert_eq!(a.lowest_set(), 64);
    a.set(sq(3, 3));
    a.set(sq(0, 7));
    a.set(sq(3, 3));
    assert_eq!(a.num_set(), 2);
    assert_eq!(a.lowest_set(), 27);
    assert!(a.get(sq(0, 7)));
    a.unset(sq(3, 3));
    assert_eq!(squares(&a), vec![56]);
    let mut b = BitBoard::new_empty();
    b.set(sq(0, 7));
    b.set(sq(1, 0));
    assert_eq!(squares(&a.union(&b)), vec![1, 56]);
    assert_eq!(squares(&a.intersection(&b)), vec![56]);
    assert_eq!(BitBoard::new_full().num_set(), 64);
    assert_eq!(BitBoard::new_full().lowest_set(), 0);
}

#[test]
fn bitboard_lines() {
    assert_eq!(squares(&BitBoard::make_line(sq(0, 0), sq(3, 3))), vec![0, 9, 18]);
    assert_eq!(squares(&BitBoard::make_line(sq(7, 4), sq(4, 4))), vec![37, 38, 39]);
    assert_eq!(squares(&BitBoard::make_line(sq(2, 6), sq(2, 5))), vec![50]);
    assert_eq!(squares(&BitBoard::make_line(sq(4, 0), sq(1, 3))), vec![4, 11, 18]);
}

#[test]
fn board_get_set_remove() {
    let mut bd = Board::new();
    assert_eq!(*bd.get(sq(4, 4)), None);
    assert_eq!(bd.set(sq(4, 4), Some((Soldier::Queen, Color::Black))), None);
    assert_eq!(bd.set(sq(4, 4), Some((Soldier::Rook, Color::White))), Some((Soldier::Queen, Color::Black)));
    bd.set(sq(5, 5), Some((Soldier::Pawn, Color::White)));
    bd.set(sq(6, 6), Some((Soldier::Pawn, Color::Black)));
    assert!(bd.is_same_color(sq(4, 4), sq(5, 5)));
    assert!(!bd.is_same_color(sq(4, 4), sq(6, 6)));
    assert!(bd.is_enemy_color(sq(4, 4), sq(6, 6)));
    assert!(!bd.is_enemy_color(sq(4, 4), sq(0, 0)));
    assert!(!bd.is_same_color(sq(0, 0), sq(0, 0)));
    assert_eq!(bd.remove(sq(5, 5)), Some((Soldier::Pawn, Color::White)));
    assert_eq!(*bd.get(sq(5, 5)), None);
    assert_eq!(bd.iter().iter().filter(|c| c.is_some()).count(), 2);
}

#[test]
fn board_remove_king() {
    let mut bd = Board::new();
    bd.set(sq(4, 0), Some((Soldier::King, Color::White)));
    bd.set(sq(4, 7), Some((Soldier::King, Color::Black)));
    assert_eq!(bd.remove_king(Color::Black), sq(4, 7));
    assert_eq!(*bd.get(sq(4, 7)), None);
    assert_eq!(*bd.get(sq(4, 0)), Some((Soldier::King, Color::White)));
}

#[test]
fn board_piece_predicates() {
    assert!(Board::is_sliding_piece(&Some((Soldier::Bishop, Color::White))));
    assert!(Board::is_sliding_piece(&Some((Soldier::Queen, Color::Black))));
    assert!(!Board::is_sliding_piece(&Some((Soldier::Knight, Color::White))));
    assert!(!Board::is_sliding_piece(&None));
    assert!(Board::is_aligned(sq(0, 0), sq(7, 7)));
    assert!(Board::is_aligned(sq(2, 5), sq(2, 0)));
    assert!(Board::is_aligned(sq(6, 1), sq(1, 6)));
    assert!(!Board::is_aligned(sq(0, 0), sq(1, 2)));
    assert_eq!(Color::White.opposite(), Color::Black);
    assert_eq!(Color::Black.opposite(), Color::White);
}

#[test]
fn piece_move_sets() {
    let mut bd = Board::new();
    bd.set(sq(0, 0), Some((Soldier::Knight, Color::White)));
    bd.set(sq(1, 2), Some((Soldier::Pawn, Color::White)));
    let n = knight_moves(&bd, sq(0, 0));
    assert_eq!(squares(&n.attacks), vec![10, 17]);
    assert_eq!(squares(&n.moves), vec![10]);

    let mut bd = Board::new();
    bd.set(sq(3, 3), Some((Soldier::Rook, Color::White)));
    bd.set(sq(3, 5), Some((Soldier::Pawn, Color::Black)));
    bd.set(sq(5, 3), Some((Soldier::Pawn, Color::White)));
    let r = sliding_moves(&bd, sq(3, 3), Soldier::Rook, Color::White);
    assert_eq!(squares(&r.moves), vec![3, 11, 19, 24, 25, 26, 28, 35, 43]);
    assert_eq!(squares(&r.attacks), vec![3, 11, 19, 24, 25, 26, 28, 29, 35, 43]);

    let mut bd = Board::new();
    bd.set(sq(4, 1), Some((Soldier::Pawn, Color::White)));
    bd.set(sq(3, 2), Some((Soldier::Knight, Color::Black)));
    let p = pawn_moves(&bd, sq(4, 1), Color::White, None);
    assert_eq!(squares(&p.moves), vec![19, 20, 28]);
    assert_eq!(squares(&p.attacks), vec![19, 21]);
    bd.set(sq(4, 3), Some((Soldier::Knight, Color::Black)));
    let p = pawn_moves(&bd, sq(4, 1), Color::White, None);
    assert_eq!(squares(&p.moves), vec![19, 20]);
    let p = pawn_moves(&bd, sq(4, 1), Color::White, Some(sq(5, 2)));
    assert_eq!(squares(&p.moves), vec![19, 20, 21]);
}

#[test]
fn king_move_sets_with_castling() {
    let mut bd = Board::new();
    bd.set(sq(4, 0), Some((Soldier::King, Color::White)));
    bd.set(sq(7, 0), Some((Soldier::Rook, Color::White)));
    bd.set(sq(0, 0), Some((Soldier::Rook, Color::White)));
    let k = king_moves(&bd, sq(4, 0), BitBoard::new_empty(), false, true, true);
    assert_eq!(squares(&k.moves), vec![2, 3, 5, 6, 11, 12, 13]);
    let mut attacked = BitBoard::new_empty();
    attacked.set(sq(1, 0));
    attacked.set(sq(5, 1));
    let k = king_moves(&bd, sq(4, 0), attacked, false, true, true);
    assert_eq!(squares(&k.moves), vec![2, 3, 5, 6, 11, 12]);
    attacked.set(sq(5, 0));
    let k = king_moves(&bd, sq(4, 0), attacked, false, true, true);
    assert_eq!(squares(&k.moves), vec![2, 3, 11, 12]);
    let k = king_moves(&bd, sq(4, 0), BitBoard::new_empty(), true, true, true);
    assert_eq!(squares(&k.moves), vec![3, 5, 11, 12, 13]);
}

#[test]
fn pseudo_legal_table_marks_own_pieces() {
    let st = State::new();
    let table = pseudo_legal_moves(&st.board, Color::White, None);
    assert_eq!(table.len(), 64);
    assert_eq!(table.iter().filter(|e| e.is_some()).count(), 16);
    let knight = table[1].as_ref().unwrap();
    assert_eq!(squares(&knight.moves), vec![16, 18]);
}

#[test]
fn checker_masks() {
    let mut bd = Board::new();
    bd.set(sq(4, 7), Some((Soldier::Rook, Color::Black)));
    bd.set(sq(2, 2), Some((Soldier::Knight, Color::Black)));
    assert_eq!(squares(&get_checker_mask(&bd, sq(4, 7), sq(4, 3))), vec![36, 44, 52, 60]);
    assert_eq!(squares(&get_checker_mask(&bd, sq(2, 2), sq(4, 3))), vec![18]);
}

#[test]
fn en_passant_pin_rank_detection() {
    let st = State::from_fen("8/8/8/KPp4r/8/8/8/4k3 w - c6 0 1").unwrap();
    assert!(is_enpassant_pin_rank(&st.board, Color::White, 4));
    let st = State::from_fen("8/8/8/r1pP3K/8/8/8/4k3 w - c6 0 1").unwrap();
    assert!(is_enpassant_pin_rank(&st.board, Color::White, 4));
    let st = State::from_fen("8/8/8/KPpN3r/8/8/8/4k3 w - c6 0 1").unwrap();
    assert!(!is_enpassant_pin_rank(&st.board, Color::White, 4));
    let st = State::from_fen("8/8/8/KPP4r/8/8/8/4k3 w - - 0 1").unwrap();
    assert!(!is_enpassant_pin_rank(&st.board, Color::White, 4));
}

#[test]
fn promotion_move_list() {
    let ms = Move::promotion_moves(sq(0, 6), sq(0, 7));
    assert_eq!(ms.len(), 4);
    assert_eq!(ms[0].promotion, Some(Soldier::Queen));
    assert_eq!(ms[3].promotion, Some(Soldier::Knight));
    let mut to = BitBoard::new_empty();
    to.set(sq(0, 7));
    to.set(sq(1, 7));
    assert_eq!(Move::from_bitboard(Soldier::Pawn, sq(0, 6), to).len(), 8);
    assert_eq!(Move::from_bitboard(Soldier::Rook, sq(0, 6), to).len(), 2);
}

#[test]
fn start_position_matches_its_text() {
    let a = State::new();
    let b = State::from_fen("rnbqkbnr/pppppppp/8/8/8/8/PPPPPPPP/RNBQKBNR w KQkq - 0 1").unwrap();
    assert_eq!(a.board.iter(), b.board.iter());
    assert_eq!(a.turn, b.turn);
    assert!(a.white_castle_kingside && a.white_castle_queenside);
    assert!(a.black_castle_kingside && a.black_castle_queenside);
    assert_eq!(a.en_passant_square, None);
    assert_eq!(*a.board.get(sq(3, 0)), Some((Soldier::Queen, Color::White)));
    assert_eq!(*a.board.get(sq(4, 7)), Some((Soldier::King, Color::Black)));
}

#[test]
fn fen_fields() {
    let st = State::from_fen("4k3/8/8/3pP3/8/8/8/4K2R b Kq d3 0 1").unwrap();
    assert_eq!(st.turn, Color::Black);
    assert!(st.white_castle_kingside);
    assert!(!st.white_castle_queenside);
    assert!(!st.black_castle_kingside);
    assert!(st.black_castle_queenside);
    assert_eq!(st.en_passant_square, Some(sq(3, 2)));
    assert_eq!(*st.board.get(sq(7, 0)), Some((Soldier::Rook, Color::White)));
    assert_eq!(*st.board.get(sq(3, 4)), Some((Soldier::Pawn, Color::Black)));
}

#[test]
fn fen_malformed_is_rejected() {
    assert!(State::from_fen("8/8/8/8/8/8/8/8 w").is_none());
    assert!(State::from_fen("8/8/8/8/8/8/8/8 x - - 0 1").is_none());
    assert!(State::from_fen("8/8/8/8/8/8/8/7X w - - 0 1").is_none());
    assert!(State::from_fen("9/8/8/8/8/8/8/8 w - - 0 1").is_none());
    assert!(State::from_fen("8/8/8/8/8/8/8/8/8 w - - 0 1").is_none());
    assert!(State::from_fen("8/8/8/8/8/8/8/8 w KX - 0 1").is_none());
    assert!(State::from_fen("8/8/8/8/8/8/8/8 w - z9 0 1").is_none());
}

#[test]
fn fen_field_parsers() {
    let s = b"w b KQkq - e3 ppR";
    assert_eq!(get_active_color(s, 0, 1), Some(Color::White));
    assert_eq!(get_active_color(s, 2, 3), Some(Color::Black));
    assert_eq!(castling_rights(s, 4, 8), Some((true, true, true, true)));
    assert_eq!(castling_rights(s, 9, 10), Some((false, false, false, false)));
    assert_eq!(get_en_passant_square(s, 11, 13), Some(Some(sq(4, 2))));
    assert_eq!(get_en_passant_square(s, 9, 10), Some(None));
    assert_eq!(char_to_piece(b'n'), Some((Soldier::Knight, Color::Black)));
    assert_eq!(char_to_piece(b'x'), None);
    let bd = get_board(s, 14, 17).unwrap();
    assert_eq!(*bd.get(sq(0, 7)), Some((Soldier::Pawn, Color::Black)));
    assert_eq!(*bd.get(sq(2, 7)), Some((Soldier::Rook, Color::White)));
}
