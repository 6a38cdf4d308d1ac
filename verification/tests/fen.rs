use chess_engine::Board;

const START: &str = "rnbqkbnr/pppppppp/8/8/8/8/PPPPPPPP/RNBQKBNR w KQkq - 0 1";

fn roundtrip(fen: &str) {
    let board = Board::new_from_fen(fen).unwrap();
    assert_eq!(board.to_fen(), fen);
}

#[test]
fn fen_round_trip_start() {
    roundtrip(START);
}

#[test]
fn fen_round_trip_castling_combinations() {
    roundtrip("rnbqkbnr/pppppppp/8/8/8/8/PPPPPPPP/RNBQKBNR w KQkq - 0 1");
    roundtrip("rnbqkbnr/pppppppp/8/8/8/8/PPPPPPPP/RNBQKBNR w K - 0 1");
    roundtrip("rnbqkbnr/pppppppp/8/8/8/8/PPPPPPPP/RNBQKBNR b Qk - 3 9");
    roundtrip("rnbqkbnr/pppppppp/8/8/8/8/PPPPPPPP/RNBQKBNR w kq - 12 42");
    roundtrip("rnbqkbnr/pppppppp/8/8/8/8/PPPPPPPP/RNBQKBNR b - - 0 1");
    roundtrip("r3k2r/8/8/8/8/8/8/R3K2R w Qq - 0 1");
}

#[test]
fn fen_round_trip_en_passant() {
    roundtrip("rnbqkbnr/pppppppp/8/8/4P3/8/PPPP1PPP/RNBQKBNR b KQkq e3 0 1");
    roundtrip("rnbqkbnr/ppp1pppp/8/3p4/8/8/PPPPPPPP/RNBQKBNR w KQkq d6 0 2");
}

#[test]
fn fen_round_trip_sparse_positions() {
    roundtrip("8/2p5/3p4/KP5r/1R3p1k/8/4P1P1/8 w - - 0 1");
    roundtrip("r3k2r/Pppp1ppp/1b3nbN/nP6/BBP1P3/q4N2/Pp1P2PP/R2Q1RK1 w kq - 0 1");
    roundtrip("rnbq1k1r/pp1Pbppp/2p5/8/2B5/8/PPP1NnPP/RNBQK2R w KQ - 1 8");
}

#[test]
fn fen_start_board_matches_constructor() {
    let board = Board::new_from_fen(START).unwrap();
    let fresh = Board::new();
    assert_eq!(board, fresh);
}

#[test]
fn fen_rejects_malformed_text() {
    assert!(Board::new_from_fen("").is_err());
    assert!(Board::new_from_fen("8/8/8 w - -").is_err());
    assert!(Board::new_from_fen("9/8/8/8/8/8/8/8 w - - 0 1").is_err());
    assert!(Board::new_from_fen("x7/8/8/8/8/8/8/8 w - - 0 1").is_err());
    assert!(Board::new_from_fen("8/8/8/8/8/8/8/8 w - e99 0 1").is_err());
    assert!(Board::new_from_fen("8/8/8/8/8/8/8/8 w - - abc 1").is_err());
    assert!(Board::new_from_fen("ppppppppp/8/8/8/8/8/8/8 w - - 0 1").is_err());
}

#[test]
fn zobrist_is_a_function_of_the_position() {
    let a = Board::new_from_fen(START).unwrap();
    let b = Board::new();
    assert_eq!(a.to_zobrist_hash(), b.to_zobrist_hash());
    let c = Board::new_from_fen("rnbqkbnr/pppppppp/8/8/8/8/PPPPPPPP/RNBQKBNR b KQkq - 0 1").unwrap();
    assert_ne!(a.to_zobrist_hash(), c.to_zobrist_hash());
}
