use chess_moves::board::{Color, Soldier};
use chess_moves::moves::{legal_moves, num_checkers, Move};
use chess_moves::state::State;
use chess_moves::vector::Vector;

fn position(fen: &str) -> State {
    State::from_fen(fen).expect("well-formed position")
}

fn sq(x: i8, y: i8) -> Vector {
    Vector::from_int(x, y)
}

fn plain(from: Vector, to: Vector) -> Move {
    Move { from, to, promotion: None }
}

#[test]
fn en_passant_horizontal_pin() {
    let st = position("8/8/8/KPp4r/8/8/8/4k3 w - c6 0 1");
    let moves = legal_moves(&st);
    assert!(moves.contains(&plain(sq(1, 4), sq(1, 5))));
    assert!(!moves.contains(&plain(sq(1, 4), sq(2, 5))));
}

#[test]
fn en_passant_allowed_without_pin() {
    let st = position("8/8/8/KPp5/8/8/8/4k3 w - c6 0 1");
    let moves = legal_moves(&st);
    assert!(moves.contains(&plain(sq(1, 4), sq(2, 5))));
}

#[test]
fn en_passant_resolves_pawn_check() {
    // the black pawn on d5 checks the king on e4; exd6 is the only capture
    let st = position("8/8/8/3pP3/4K3/8/8/7k w - d6 0 1");
    let moves = legal_moves(&st);
    assert!(moves.contains(&plain(sq(4, 4), sq(3, 5))));
}

#[test]
fn castling_through_check_is_omitted() {
    // the rook on f8 covers f1: no kingside castle; queenside is free
    let st = position("5r1k/8/8/8/8/8/8/R3K2R w KQ - 0 1");
    let moves = legal_moves(&st);
    assert!(!moves.contains(&plain(sq(4, 0), sq(6, 0))));
    assert!(moves.contains(&plain(sq(4, 0), sq(2, 0))));
}

#[test]
fn castling_queenside_b_file_may_be_attacked() {
    // the rook on b8 covers b1 only: queenside castling stays legal
    let st = position("1r5k/8/8/8/8/8/8/R3K2R w KQ - 0 1");
    let moves = legal_moves(&st);
    assert!(moves.contains(&plain(sq(4, 0), sq(2, 0))));
    assert!(moves.contains(&plain(sq(4, 0), sq(6, 0))));
}

#[test]
fn castling_not_out_of_check() {
    let st = position("4r2k/8/8/8/8/8/8/R3K2R w KQ - 0 1");
    let moves = legal_moves(&st);
    assert!(!moves.contains(&plain(sq(4, 0), sq(6, 0))));
    assert!(!moves.contains(&plain(sq(4, 0), sq(2, 0))));
}

#[test]
fn double_check_allows_only_king_moves() {
    // rook on e8 and bishop on b4 both check the king on e1
    let st = position("4r2k/8/8/8/1b6/8/8/R3K2R w KQ - 0 1");
    let moves = legal_moves(&st);
    assert!(!moves.is_empty());
    for m in &moves {
        assert_eq!(m.from, sq(4, 0));
    }
}

#[test]
fn single_check_can_be_blocked() {
    // the rook on e8 checks; the knight on c3 may block on e2 or e4 only
    let st = position("4r2k/8/8/8/8/2N5/8/4K3 w - - 0 1");
    let moves = legal_moves(&st);
    assert!(moves.contains(&plain(sq(2, 2), sq(4, 3))));
    assert!(moves.contains(&plain(sq(2, 2), sq(4, 1))));
    assert!(!moves.contains(&plain(sq(2, 2), sq(0, 3))));
}

#[test]
fn pinned_piece_moves_along_pin_only() {
    // the rook on e4 is pinned by the rook on e8 against the king on e1
    let st = position("4r2k/8/8/8/4R3/8/8/4K3 w - - 0 1");
    let moves = legal_moves(&st);
    assert!(moves.contains(&plain(sq(4, 3), sq(4, 7))));
    assert!(moves.contains(&plain(sq(4, 3), sq(4, 5))));
    assert!(!moves.contains(&plain(sq(4, 3), sq(0, 3))));
}

#[test]
fn king_cannot_retreat_along_checking_ray() {
    let st = position("4r2k/8/8/8/8/8/4K3/8 w - - 0 1");
    let moves = legal_moves(&st);
    assert!(!moves.contains(&plain(sq(4, 1), sq(4, 0))));
    assert!(moves.contains(&plain(sq(4, 1), sq(3, 0))));
}

#[test]
fn promotions_expand_to_four_moves() {
    let st = position("7k/P7/8/8/8/8/8/K7 w - - 0 1");
    let moves = legal_moves(&st);
    let promos: Vec<&Move> = moves.iter().filter(|m| m.from == sq(0, 6)).collect();
    assert_eq!(promos.len(), 4);
    for kind in [Soldier::Queen, Soldier::Rook, Soldier::Bishop, Soldier::Knight] {
        assert!(moves.contains(&Move { from: sq(0, 6), to: sq(0, 7), promotion: Some(kind) }));
    }
    for m in &moves {
        let pawn = m.from == sq(0, 6);
        assert_eq!(m.promotion.is_some(), pawn);
    }
}

#[test]
fn checkmate_and_stalemate_give_no_moves() {
    let mate = position("R5k1/5ppp/8/8/8/8/8/6K1 b - - 0 1");
    assert!(legal_moves(&mate).is_empty());
    let stalemate = position("7k/5Q2/6K1/8/8/8/8/8 b - - 0 1");
    assert!(legal_moves(&stalemate).is_empty());
}

#[test]
fn generated_moves_have_no_duplicates_and_start_on_own_pieces() {
    let st = position("r3k2r/p1ppqpb1/bn2pnp1/3PN3/1p2P3/2N2Q1p/PPPBBPPP/R3K2R w KQkq - 0 1");
    let moves = legal_moves(&st);
    for (i, a) in moves.iter().enumerate() {
        for b in moves.iter().skip(i + 1) {
            assert_ne!(a, b);
        }
        match st.board.get(a.from) {
            Some((_, c)) => assert_eq!(*c, Color::White),
            None => panic!("move from an empty square"),
        }
    }
}

#[test]
fn make_unmake_restores_every_legal_move() {
    let fens = [
        "r3k2r/p1ppqpb1/bn2pnp1/3PN3/1p2P3/2N2Q1p/PPPBBPPP/R3K2R w KQkq - 0 1",
        "r3k2r/Pppp1ppp/1b3nbN/nP6/BBP1P3/q4N2/Pp1P2pP/R2Q1RK1 w kq - 0 1",
        "8/8/8/KPp5/8/8/8/4k3 w - c6 0 1",
    ];
    for fen in fens {
        let mut st = position(fen);
        let before: Vec<_> = st.board.iter().to_vec();
        for m in legal_moves(&st) {
            st.push(m);
            assert_eq!(st.reversions.len(), 1);
            st.pop();
            assert_eq!(st.board.iter(), before.as_slice());
            assert_eq!(st.turn, Color::White);
            assert!(st.reversions.is_empty());
        }
    }
}

#[test]
fn make_castle_moves_rook_and_clears_rights() {
    let mut st = position("r3k2r/8/8/8/8/8/8/R3K2R w KQkq - 0 1");
    st.push(plain(sq(4, 0), sq(6, 0)));
    assert_eq!(*st.board.get(sq(5, 0)), Some((Soldier::Rook, Color::White)));
    assert_eq!(*st.board.get(sq(7, 0)), None);
    assert_eq!(*st.board.get(sq(6, 0)), Some((Soldier::King, Color::White)));
    assert!(!st.white_castle_kingside);
    assert!(!st.white_castle_queenside);
    assert!(st.black_castle_kingside);
    assert_eq!(st.turn, Color::Black);
    st.pop();
    assert_eq!(*st.board.get(sq(7, 0)), Some((Soldier::Rook, Color::White)));
    assert_eq!(*st.board.get(sq(4, 0)), Some((Soldier::King, Color::White)));
    assert_eq!(*st.board.get(sq(5, 0)), None);
    assert!(st.white_castle_kingside);
}

#[test]
fn make_double_push_sets_en_passant_target() {
    let mut st = State::new();
    st.push(plain(sq(4, 1), sq(4, 3)));
    assert_eq!(st.en_passant_square, Some(sq(4, 2)));
    st.push(plain(sq(6, 7), sq(5, 5)));
    assert_eq!(st.en_passant_square, None);
}

#[test]
fn make_en_passant_removes_captured_pawn() {
    let mut st = position("4k3/8/8/KPp5/8/8/8/8 w - c6 0 1");
    st.push(plain(sq(1, 4), sq(2, 5)));
    assert_eq!(*st.board.get(sq(2, 4)), None);
    assert_eq!(*st.board.get(sq(2, 5)), Some((Soldier::Pawn, Color::White)));
    st.pop();
    assert_eq!(*st.board.get(sq(2, 4)), Some((Soldier::Pawn, Color::Black)));
    assert_eq!(*st.board.get(sq(2, 5)), None);
    assert_eq!(st.en_passant_square, Some(sq(2, 5)));
}

#[test]
fn make_rook_capture_clears_corner_right() {
    let mut st = position("r3k2r/8/8/8/8/8/8/R3K2R w KQkq - 0 1");
    st.push(plain(sq(0, 0), sq(0, 7)));
    assert!(!st.white_castle_queenside);
    assert!(!st.black_castle_queenside);
    assert!(st.white_castle_kingside);
    assert!(st.black_castle_kingside);
}

#[test]
fn make_promotion_and_unmake_restores_pawn() {
    let mut st = position("7k/P7/8/8/8/8/8/K7 w - - 0 1");
    st.push(Move { from: sq(0, 6), to: sq(0, 7), promotion: Some(Soldier::Knight) });
    assert_eq!(*st.board.get(sq(0, 7)), Some((Soldier::Knight, Color::White)));
    st.pop();
    assert_eq!(*st.board.get(sq(0, 6)), Some((Soldier::Pawn, Color::White)));
    assert_eq!(*st.board.get(sq(0, 7)), None);
}

#[test]
fn mover_never_left_in_check() {
    let fens = [
        "r3k2r/p1ppqpb1/bn2pnp1/3PN3/1p2P3/2N2Q1p/PPPBBPPP/R3K2R w KQkq - 0 1",
        "8/2p5/3p4/KP5r/1R3p1k/8/4P1P1/8 w - - 0 1",
        "r3k2r/Pppp1ppp/1b3nbN/nP6/BBP1P3/q4N2/Pp1P2PP/R2Q1RK1 w kq - 0 1",
        "rnbq1k1r/pp1Pbppp/2p5/8/2B5/8/PPP1NnPP/RNBQK2R w KQ - 1 8",
        "8/8/8/KPp4r/8/8/8/4k3 w - c6 0 1",
        "4r2k/8/8/8/1b6/8/8/R3K2R w KQ - 0 1",
    ];
    for fen in fens {
        let mut st = position(fen);
        for m in legal_moves(&st) {
            st.push(m);
            st.turn = st.turn.opposite();
            let ep = st.en_passant_square.take();
            assert_eq!(num_checkers(&st), 0, "{:?} in {}", m, fen);
            st.en_passant_square = ep;
            st.turn = st.turn.opposite();
            st.pop();
        }
    }
}

#[test]
fn checkmate_has_checkers_stalemate_has_none() {
    let mate = position("R5k1/5ppp/8/8/8/8/8/6K1 b - - 0 1");
    assert_eq!(num_checkers(&mate), 1);
    let stalemate = position("7k/5Q2/6K1/8/8/8/8/8 b - - 0 1");
    assert_eq!(num_checkers(&stalemate), 0);
    let double = position("4r2k/8/8/8/1b6/8/8/R3K2R w KQ - 0 1");
    assert_eq!(num_checkers(&double), 2);
}
