use chess_engine::{Board, Piece, Tile};

fn empty_board_with(piece: Piece, tile: Tile, white: bool) -> Board {
    let mut board = Board::new_empty();
    let player = if white {
        &mut board.white
    } else {
        &mut board.black
    };
    player.place_piece(piece, tile);
    board
}

fn t(name: &str) -> Tile {
    Tile::from_str(name).unwrap()
}

#[test]
fn knight_attacks() {
    let board = empty_board_with(Piece::Knight, t("e4"), true);
    let attacks = board.generate_attacks_from(t("e4"));

    let expected = t("e4").knight_attacks();
    assert_eq!(
        attacks, expected,
        "Knight attacks should match precomputed values"
    );
}

#[test]
fn pawn_attacks_white() {
    let board = empty_board_with(Piece::Pawn, t("e4"), true);
    let attacks = board.generate_attacks_from(t("e4"));

    let expected = t("e4").pawn_attacks(true);
    assert_eq!(attacks, expected);
}

#[test]
fn pawn_attacks_black() {
    let board = empty_board_with(Piece::Pawn, t("e4"), false);
    let attacks = board.generate_attacks_from(t("e4"));

    let expected = t("e4").pawn_attacks(false);
    assert_eq!(attacks, expected);
}

#[test]
fn king_attacks() {
    let board = empty_board_with(Piece::King, t("a1"), true);
    let attacks = board.generate_attacks_from(t("a1"));

    let expected = t("a1").king_attacks();
    assert_eq!(attacks, expected);
}

#[test]
fn rook_attacks_with_blocker() {
    let mut board = Board::new_empty();
    board.white.place_piece(Piece::Rook, t("d4"));
    board.white.place_piece(Piece::Pawn, t("d6"));
    board.black.place_piece(Piece::Pawn, t("f4"));

    let attacks = board.generate_attacks_from(t("d4"));
    let occ = board.occupied();

    let expected = t("d4").rook_attacks(occ);
    assert_eq!(attacks, expected);
}

#[test]
fn mulitple_attacks() {
    let mut board = Board::new_empty();
    board.white.place_piece(Piece::Knight, t("e4"));
    board.white.place_piece(Piece::Bishop, t("c1"));

    let attacks = board.generate_attacks(true);

    let expected =
        t("e4").knight_attacks() | board.generate_sliding_attacks(t("c1"), false, true, None);
    assert_eq!(attacks, expected);
}

#[test]
fn king_danger() {
    let mut board = Board::new_empty();
    board.white.place_piece(Piece::Queen, t("d1"));
    board.white.place_piece(Piece::King, t("e1"));

    let attacks = board.generate_king_danger(false);

    assert!(
        !attacks.get_bit(t("e1")),
        "King danger should not include friendly king tile"
    );
}

#[test]
fn between_masks() {
    let between = t("a1").get_between(t("a8"));
    assert_eq!(between.count_ones(), 6);
    assert!(between.get_bit(t("a4")));
    assert!(!between.get_bit(t("a1")));
    assert!(!between.get_bit(t("a8")));

    let diag = t("c1").get_between(t("f4"));
    assert_eq!(diag.count_ones(), 2);
    assert!(diag.get_bit(t("d2")));
    assert!(diag.get_bit(t("e3")));

    let none = t("a1").get_between(t("b3"));
    assert!(none.none());
}

#[test]
fn magic_index_formula() {
    let entry = chess_engine::MagicEntry {
        mask: 0xFF,
        magic: 3,
        shift: 60,
        offset: 100,
    };
    let blockers = chess_engine::Bitboard::new(0xF0);
    // (0xF0 * 3) >> 60 is 0, so only the offset remains
    assert_eq!(chess_engine::magics::magic_index(&entry, blockers), 100);
}

#[test]
fn ep_discovery_detector() {
    // white king and both pawns on the fifth rank, black rook behind them
    let cp = t("e5");
    let ep = t("d6");
    let kt = t("a5");
    let mut occ = chess_engine::Bitboard::empty();
    occ.set_bit(kt, true);
    occ.set_bit(cp, true);
    occ.set_bit(t("d5"), true);
    occ.set_bit(t("h5"), true);
    let mut sliders = chess_engine::Bitboard::empty();
    sliders.set_bit(t("h5"), true);
    assert!(Board::is_illegal_en_passant_discovery(cp, ep, kt, occ, sliders));

    // without the rook the capture is clean
    let no_sliders = chess_engine::Bitboard::empty();
    let mut occ2 = occ;
    occ2.set_bit(t("h5"), false);
    assert!(!Board::is_illegal_en_passant_discovery(cp, ep, kt, occ2, no_sliders));
}
