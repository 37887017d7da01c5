use chess_moves::moves::legal_moves;
use chess_moves::state::State;

fn position(fen: &str) -> State {
    State::from_fen(fen).expect("well-formed position")
}

/// Leaf count of the move tree; the last ply is counted without making it.
fn count_nodes(st: &mut State, depth: usize) -> usize {
    if depth == 0 {
        return 1;
    }
    let moves = legal_moves(st);
    if depth == 1 {
        return moves.len();
    }
    let mut num_nodes = 0;
    for mv in moves {
        st.push(mv);
        num_nodes += count_nodes(st, depth - 1);
        st.pop();
    }
    num_nodes
}

const START: &str = "rnbqkbnr/pppppppp/8/8/8/8/PPPPPPPP/RNBQKBNR w KQkq - 0 1";
const KIWIPETE: &str = "r3k2r/p1ppqpb1/bn2pnp1/3PN3/1p2P3/2N2Q1p/PPPBBPPP/R3K2R w KQkq - 0 1";
const POSITION_3: &str = "8/2p5/3p4/KP5r/1R3p1k/8/4P1P1/8 w - - 0 1";
const POSITION_4: &str = "r3k2r/Pppp1ppp/1b3nbN/nP6/BBP1P3/q4N2/Pp1P2PP/R2Q1RK1 w kq - 0 1";
const POSITION_4_MIRRORED: &str = "r2q1rk1/pP1p2pp/Q4n2/bbp1p3/Np6/1B3NBn/pPPP1PPP/R3K2R b KQ - 0 1";
const POSITION_5: &str = "rnbq1k1r/pp1Pbppp/2p5/8/2B5/8/PPP1NnPP/RNBQK2R w KQ - 1 8";

#[test]
fn perft_start_depth_1() {
    assert_eq!(count_nodes(&mut position(START), 1), 20);
}

#[test]
fn perft_start_depth_2() {
    assert_eq!(count_nodes(&mut position(START), 2), 400);
}

#[test]
fn perft_start_depth_3() {
    assert_eq!(count_nodes(&mut position(START), 3), 8902);
}

#[test]
fn perft_start_depth_4() {
    assert_eq!(count_nodes(&mut position(START), 4), 197281);
}

#[test]
fn perft_start_depth_5() {
    assert_eq!(count_nodes(&mut position(START), 5), 4865609);
}

#[test]
fn perft_kiwipete_depth_4() {
    assert_eq!(count_nodes(&mut position(KIWIPETE), 4), 4085603);
}

#[test]
fn perft_kiwipete_depth_1() {
    assert_eq!(count_nodes(&mut position(KIWIPETE), 1), 48);
}

#[test]
fn perft_kiwipete_depth_3() {
    assert_eq!(count_nodes(&mut position(KIWIPETE), 3), 97862);
}

#[test]
fn perft_position_3_depth_4() {
    assert_eq!(count_nodes(&mut position(POSITION_3), 4), 43238);
}

#[test]
fn perft_position_3_depth_5() {
    assert_eq!(count_nodes(&mut position(POSITION_3), 5), 674624);
}

#[test]
fn perft_position_4_depth_3() {
    assert_eq!(count_nodes(&mut position(POSITION_4), 3), 9467);
}

#[test]
fn perft_position_4_depth_4() {
    assert_eq!(count_nodes(&mut position(POSITION_4), 4), 422333);
}

#[test]
fn perft_position_4_mirrored_depth_3() {
    assert_eq!(count_nodes(&mut position(POSITION_4_MIRRORED), 3), 9467);
}

#[test]
fn perft_position_5_depth_3() {
    assert_eq!(count_nodes(&mut position(POSITION_5), 3), 62379);
}

#[test]
fn perft_leaves_position_unchanged() {
    let mut st = position(KIWIPETE);
    count_nodes(&mut st, 3);
    let fresh = position(KIWIPETE);
    assert_eq!(st.board.iter(), fresh.board.iter());
    assert_eq!(st.turn, fresh.turn);
    assert_eq!(st.castling_rights_for_color(), fresh.castling_rights_for_color());
    assert_eq!(st.en_passant_square, fresh.en_passant_square);
    assert!(st.reversions.is_empty());
}
