use chess_engine::Board;

fn perft(fen: &str, depth: usize) -> u64 {
    let mut board = Board::new_from_fen(fen).unwrap();
    board.positions(depth)
}

const START: &str = "rnbqkbnr/pppppppp/8/8/8/8/PPPPPPPP/RNBQKBNR w KQkq - 0 1";
const SPARSE: &str = "8/2p5/3p4/KP5r/1R3p1k/8/4P1P1/8 w - - 0 1";
const TANGLED: &str = "r3k2r/Pppp1ppp/1b3nbN/nP6/BBP1P3/q4N2/Pp1P2PP/R2Q1RK1 w kq - 0 1";
const PROMOTING: &str = "rnbq1k1r/pp1Pbppp/2p5/8/2B5/8/PPP1NnPP/RNBQK2R w KQ - 1 8";

#[test]
fn perft_start_shallow() {
    assert_eq!(perft(START, 1), 20);
    assert_eq!(perft(START, 2), 400);
    assert_eq!(perft(START, 3), 8_902);
}

#[test]
fn perft_start_depth_four() {
    assert_eq!(perft(START, 4), 197_281);
}

#[test]
fn perft_sparse_endgame() {
    assert_eq!(perft(SPARSE, 1), 14);
    assert_eq!(perft(SPARSE, 2), 191);
    assert_eq!(perft(SPARSE, 3), 2_812);
    assert_eq!(perft(SPARSE, 4), 43_238);
}

#[test]
fn perft_tangled_middlegame() {
    assert_eq!(perft(TANGLED, 1), 6);
    assert_eq!(perft(TANGLED, 2), 264);
    assert_eq!(perft(TANGLED, 3), 9_467);
}

#[test]
fn perft_promotion_position() {
    assert_eq!(perft(PROMOTING, 1), 44);
    assert_eq!(perft(PROMOTING, 2), 1_486);
    assert_eq!(perft(PROMOTING, 3), 62_379);
}

#[test]
fn perft_start_depth_five() {
    assert_eq!(perft(START, 5), 4_865_609);
}

#[test]
fn perft_sparse_depth_five() {
    assert_eq!(perft(SPARSE, 5), 674_624);
}

#[test]
fn perft_tangled_depth_four() {
    assert_eq!(perft(TANGLED, 4), 422_333);
}

#[test]
fn perft_promotion_depth_four() {
    assert_eq!(perft(PROMOTING, 4), 2_103_487);
}
