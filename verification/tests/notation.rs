use chess_engine::{Board, Piece, Tile};

fn t(name: &str) -> Tile {
    Tile::from_str(name).unwrap()
}

#[test]
fn castling_moves_render_exactly() {
    let board = Board::new_from_fen("r3k2r/8/8/8/8/8/8/R3K2R w KQkq - 0 1").unwrap();
    let short = board.create_move(t("e1"), t("g1"), Piece::King, None, None);
    assert_eq!(board.move_to_san(&short), "O-O");
    let long = board.create_move(t("e1"), t("c1"), Piece::King, None, None);
    assert_eq!(board.move_to_san(&long), "O-O-O");
}

#[test]
fn simple_moves_render() {
    let board = Board::new();
    let pawn = board.create_move(t("e2"), t("e4"), Piece::Pawn, None, None);
    assert_eq!(board.move_to_san(&pawn), "e4");
    let knight = board.create_move(t("g1"), t("f3"), Piece::Knight, None, None);
    assert_eq!(board.move_to_san(&knight), "Nf3");
}

#[test]
fn algebraic_parsing_resolves_sources() {
    let board = Board::new();
    let m = board.move_from_algebraic("e4").unwrap();
    assert_eq!(m.from(), t("e2"));
    assert_eq!(m.to(), t("e4"));
    assert_eq!(m.piece(), Piece::Pawn);

    let n = board.move_from_algebraic("Nf3").unwrap();
    assert_eq!(n.from(), t("g1"));
    assert_eq!(n.to(), t("f3"));
    assert_eq!(n.piece(), Piece::Knight);

    assert!(board.move_from_algebraic("Zf3").is_none());
    assert!(board.move_from_algebraic("").is_none());
}

#[test]
fn algebraic_castling_forms() {
    let board = Board::new_from_fen("r3k2r/8/8/8/8/8/8/R3K2R w KQkq - 0 1").unwrap();
    let short = board.move_from_algebraic("O-O").unwrap();
    assert_eq!(short.from(), t("e1"));
    assert_eq!(short.to(), t("g1"));
    let long = board.move_from_algebraic("0-0-0").unwrap();
    assert_eq!(long.to(), t("c1"));
}

#[test]
fn algebraic_disambiguation() {
    // two rooks on the first rank can both reach d1
    let board = Board::new_from_fen("4k3/8/8/8/8/8/8/R2K3R w - - 0 1").unwrap();
    let a = board.move_from_algebraic("Rad1");
    assert!(a.is_none() || a.unwrap().from() == t("a1"));
    let board = Board::new_from_fen("4k3/8/8/8/8/8/8/R3K2R w - - 0 1").unwrap();
    let a = board.move_from_algebraic("Rab1").unwrap();
    assert_eq!(a.from(), t("a1"));
    let h = board.move_from_algebraic("Rhg1").unwrap();
    assert_eq!(h.from(), t("h1"));
}

#[test]
fn promotion_suffix_parses() {
    let board = Board::new_from_fen("7k/P7/8/8/8/8/8/7K w - - 0 1").unwrap();
    let m = board.move_from_algebraic("a8=Q").unwrap();
    assert_eq!(m.from(), t("a7"));
    assert_eq!(m.to(), t("a8"));
    assert_eq!(m.promoted_to(), Some(Piece::Queen));
}

#[test]
fn transcripts_have_move_numbers() {
    let mut board = Board::new();
    board.try_move_piece(t("e2"), t("e4"), None).unwrap();
    board.try_move_piece(t("e7"), t("e5"), None).unwrap();
    let pgn = board.to_pgn();
    assert!(pgn.starts_with("1. "));
    assert!(pgn.ends_with("*"));
    let transcript = board.get_move_history();
    assert!(transcript.starts_with("1. "));
}

#[test]
fn piece_letters() {
    assert_eq!(Piece::Queen.to_fen_char(true), 'Q');
    assert_eq!(Piece::Queen.to_fen_char(false), 'q');
    assert_eq!(Piece::from_index(0), Piece::Pawn);
    assert_eq!(Piece::Knight.to_unicode(true), '\u{2658}');
}

#[test]
fn stored_notation_has_truthful_suffixes() {
    // a rook lift to the back rank gives check and is rendered with it
    let mut board = Board::new_from_fen("4k3/8/8/8/8/8/4K2R/8 w - - 0 1").unwrap();
    board.try_move_piece(t("h2"), t("h8"), None).unwrap();
    let pgn = board.to_pgn();
    assert!(pgn.contains("Rh8+"), "pgn was {}", pgn);

    // a back-rank mate is rendered with the mate sign
    let mut board = Board::new_from_fen("6k1/5ppp/8/8/8/8/8/4R1K1 w - - 0 1").unwrap();
    board.try_move_piece(t("e1"), t("e8"), None).unwrap();
    let pgn = board.to_pgn();
    assert!(pgn.contains("Re8#"), "pgn was {}", pgn);
}

#[test]
fn disambiguation_renders_in_stored_notation() {
    // rooks on a1 and d1 can both reach b1, so the file letter is needed
    let mut board = Board::new_from_fen("4k3/8/8/8/8/8/8/R2RK3 w - - 0 1").unwrap();
    board.try_move_piece(t("a1"), t("b1"), None).unwrap();
    let pgn = board.to_pgn();
    assert!(pgn.contains("Rab1"), "pgn was {}", pgn);
}

#[test]
fn capture_sign_requires_a_target() {
    let board = Board::new();
    // nothing stands on e4, so an explicit capture sign fails to parse
    assert!(board.move_from_algebraic("Nxe4").is_none());
    // while the plain move resolves
    assert!(board.move_from_algebraic("e4").is_some());
}

#[test]
fn trusted_apply_stores_notation_too() {
    let mut board = Board::new();
    let mv = board.move_from_algebraic("Nf3").unwrap();
    board.make_move_unchecked(mv);
    let pgn = board.to_pgn();
    assert_eq!(pgn, "1. Nf3 *");
}

#[test]
fn adjacent_kings_count_as_attacked() {
    let board = Board::new_from_fen("8/8/8/3k4/8/3K4/8/8 w - - 0 1").unwrap();
    // the square between the kings is threatened by both
    assert!(board.tile_attacked(Tile::from_str("d4").unwrap(), true));
    assert!(board.tile_attacked(Tile::from_str("d4").unwrap(), false));
    // a king may not step next to the other king
    let mut moves = chess_engine::MoveList::new();
    board.generate_legal_moves_from(Tile::from_str("d3").unwrap(), &mut moves);
    assert!(!moves.contains_move(
        Tile::from_str("d3").unwrap(),
        Tile::from_str("d4").unwrap()
    ));
}

#[test]
fn pawn_generator_withholds_exposing_en_passant() {
    // the pattern generator itself already excludes the rank-pin case
    let board = Board::new_from_fen("7k/8/8/K2pP2r/8/8/8/8 w - d6 0 1").unwrap();
    let mut moves = chess_engine::MoveList::new();
    board.generate_pawn_moves(Tile::from_str("e5").unwrap(), true, &mut moves);
    assert!(!moves.contains_move(
        Tile::from_str("e5").unwrap(),
        Tile::from_str("d6").unwrap()
    ));
    assert!(moves.contains_move(
        Tile::from_str("e5").unwrap(),
        Tile::from_str("e6").unwrap()
    ));
}
