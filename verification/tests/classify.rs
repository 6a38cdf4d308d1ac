use chess_engine::{Board, GameState, MoveResult, Tile};

fn t(name: &str) -> Tile {
    Tile::from_str(name).unwrap()
}

#[test]
fn back_rank_mate_is_checkmate() {
    let board = Board::new_from_fen("4R1k1/5ppp/8/8/8/8/8/6K1 b - - 0 1").unwrap();
    assert!(board.is_checkmate(false));
    assert_eq!(board.get_state(), GameState::Checkmate(false));
}

#[test]
fn boxed_king_is_stalemate() {
    let board = Board::new_from_fen("7k/5Q2/8/8/8/8/8/K7 b - - 0 1").unwrap();
    assert!(!board.is_in_check(false));
    assert!(board.is_stalemate(false));
    assert_eq!(board.get_state(), GameState::Stalemate(false));
}

#[test]
fn same_coloured_bishops_are_insufficient() {
    let board = Board::new_from_fen("8/8/8/8/8/8/8/KB3b1k w - - 0 1").unwrap();
    assert!(board.insufficient_material());
    assert_eq!(board.get_state(), GameState::InsufficientMaterial);

    let opposite = Board::new_from_fen("8/8/8/8/8/8/8/KB4bk w - - 0 1").unwrap();
    assert!(!opposite.insufficient_material());
}

#[test]
fn bare_kings_and_lone_minor_are_insufficient() {
    let bare = Board::new_from_fen("7k/8/8/8/8/8/8/K7 w - - 0 1").unwrap();
    assert!(bare.insufficient_material());
    let knight = Board::new_from_fen("7k/8/8/8/8/8/8/KN6 w - - 0 1").unwrap();
    assert!(knight.insufficient_material());
    let rook = Board::new_from_fen("7k/8/8/8/8/8/8/KR6 w - - 0 1").unwrap();
    assert!(!rook.insufficient_material());
}

#[test]
fn fifty_move_rule_threshold() {
    let board = Board::new_from_fen("7k/8/8/8/8/8/R7/K7 w - - 100 80").unwrap();
    assert!(board.fifty_move_rule());
    assert_eq!(board.get_state(), GameState::FiftyMoveRule);
    let fresh = Board::new_from_fen("7k/8/8/8/8/8/R7/K7 w - - 99 80").unwrap();
    assert!(!fresh.fifty_move_rule());
}

#[test]
fn threefold_repetition_by_knight_shuffle() {
    let mut board = Board::new();
    for _ in 0..3 {
        assert!(matches!(
            board.try_move_piece(t("g1"), t("f3"), None),
            Ok(MoveResult::MoveApplied(_))
        ));
        assert!(matches!(
            board.try_move_piece(t("g8"), t("f6"), None),
            Ok(MoveResult::MoveApplied(_))
        ));
        assert!(matches!(
            board.try_move_piece(t("f3"), t("g1"), None),
            Ok(MoveResult::MoveApplied(_))
        ));
        assert!(matches!(
            board.try_move_piece(t("f6"), t("g8"), None),
            Ok(MoveResult::MoveApplied(_))
        ));
    }
    assert!(board.three_fold_rep());
    assert_eq!(board.get_state(), GameState::ThreeRepetition);
}

#[test]
fn ongoing_game_keeps_playing() {
    let board = Board::new();
    assert_eq!(board.get_state(), GameState::Playing);
}
