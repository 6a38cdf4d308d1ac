use chess_engine::{Board, MoveResult, MoveError, Piece, Tile};

fn t(name: &str) -> Tile {
    Tile::from_str(name).unwrap()
}

#[test]
fn apply_undo_restores_every_field() {
    let mut board = Board::new();
    let fresh = Board::new();
    let mut moves = chess_engine::MoveList::new();
    board.generate_legal_moves(true, &mut moves);
    for m in moves.iter() {
        board.make_move_unchecked(m);
        board.undo_move();
        assert_eq!(board, fresh);
    }
}

#[test]
fn apply_undo_round_trip_through_requests() {
    let mut board = Board::new();
    let fresh = Board::new();
    assert!(matches!(
        board.try_move_piece(t("e2"), t("e4"), None),
        Ok(MoveResult::MoveApplied(_))
    ));
    assert!(matches!(
        board.try_move_piece(t("e7"), t("e5"), None),
        Ok(MoveResult::MoveApplied(_))
    ));
    board.undo_move();
    board.undo_move();
    assert_eq!(board, fresh);
}

#[test]
fn generation_consistency_per_square() {
    let board =
        Board::new_from_fen("r3k2r/Pppp1ppp/1b3nbN/nP6/BBP1P3/q4N2/Pp1P2PP/R2Q1RK1 w kq - 0 1")
            .unwrap();
    let mut all = chess_engine::MoveList::new();
    board.generate_legal_moves(true, &mut all);
    for idx in 0..64u8 {
        let sq = Tile::new_index(idx).unwrap();
        let mut single = chess_engine::MoveList::new();
        board.generate_legal_moves_from(sq, &mut single);
        let filtered: Vec<_> = all
            .iter()
            .into_iter()
            .filter(|m| m.from() == sq)
            .collect();
        let singles = single.iter();
        if let Some((_, white)) = board.get_piece_at_tile(sq) {
            if white {
                assert_eq!(filtered.len(), singles.len(), "square {}", sq.name());
                for m in singles.iter() {
                    assert!(filtered.contains(m));
                }
            }
        } else {
            assert!(singles.is_empty());
        }
    }
}

#[test]
fn mover_never_left_in_check() {
    let fens = [
        "rnbqkbnr/pppppppp/8/8/8/8/PPPPPPPP/RNBQKBNR w KQkq - 0 1",
        "8/2p5/3p4/KP5r/1R3p1k/8/4P1P1/8 w - - 0 1",
        "r3k2r/Pppp1ppp/1b3nbN/nP6/BBP1P3/q4N2/Pp1P2PP/R2Q1RK1 w kq - 0 1",
        "rnbq1k1r/pp1Pbppp/2p5/8/2B5/8/PPP1NnPP/RNBQK2R w KQ - 1 8",
    ];
    for fen in fens {
        let mut board = Board::new_from_fen(fen).unwrap();
        let white = board.white_turn;
        let mut moves = chess_engine::MoveList::new();
        board.generate_legal_moves(white, &mut moves);
        for m in moves.iter() {
            board.make_move_unchecked(m);
            assert!(!board.is_in_check(white), "move leaves the mover in check");
            board.undo_move();
        }
    }
}

#[test]
fn en_passant_discovered_check_is_excluded() {
    // an en-passant capture by the e5 pawn would lift both pawns off the
    // fifth rank and expose the king on a5 to the rook on h5
    let board = Board::new_from_fen("7k/8/8/K2pP2r/8/8/8/8 w - d6 0 1").unwrap();
    let mut moves = chess_engine::MoveList::new();
    board.generate_legal_moves_from(t("e5"), &mut moves);
    assert!(!moves.contains_move(t("e5"), t("d6")));
    // the plain push is still there
    assert!(moves.contains_move(t("e5"), t("e6")));

    // without the rook the same capture is legal
    let board = Board::new_from_fen("7k/8/8/K2pP3/8/8/8/8 w - d6 0 1").unwrap();
    let mut moves = chess_engine::MoveList::new();
    board.generate_legal_moves_from(t("e5"), &mut moves);
    assert!(moves.contains_move(t("e5"), t("d6")));
}

#[test]
fn rejections_by_kind() {
    let mut board = Board::new();
    assert_eq!(
        board.try_move_piece(t("e2"), t("e2"), None),
        Err(MoveError::SameTile)
    );
    assert_eq!(
        board.try_move_piece(t("e3"), t("e4"), None),
        Err(MoveError::NoPieceSelected)
    );
    assert_eq!(
        board.try_move_piece(t("e7"), t("e5"), None),
        Err(MoveError::WrongTurn)
    );
    assert_eq!(
        board.try_move_piece(t("d1"), t("d2"), None),
        Err(MoveError::FriendlyCapture)
    );
    assert_eq!(
        board.try_move_piece(t("e2"), t("e5"), None),
        Err(MoveError::IllegalMove)
    );
    assert_eq!(
        board.try_move_piece(t("g1"), t("g3"), None),
        Err(MoveError::IllegalMove)
    );
}

#[test]
fn terminal_positions_reject_requests() {
    let mut mated = Board::new_from_fen("4R1k1/5ppp/8/8/8/8/8/6K1 b - - 0 1").unwrap();
    assert_eq!(
        mated.try_move_piece(t("g7"), t("g5"), None),
        Err(MoveError::Checkmate)
    );
    let mut stale = Board::new_from_fen("7k/5Q2/8/8/8/8/8/K7 b - - 0 1").unwrap();
    assert_eq!(
        stale.try_move_piece(t("h8"), t("h7"), None),
        Err(MoveError::Stalemate)
    );
}

#[test]
fn promotion_two_phase_protocol() {
    let mut board = Board::new_from_fen("7k/P7/8/8/8/8/8/7K w - - 0 1").unwrap();
    assert_eq!(
        board.try_move_piece(t("a7"), t("a8"), None),
        Ok(MoveResult::PromotionNeeded(t("a8")))
    );
    // nothing was applied yet
    assert!(board.white_turn);
    let r = board.try_move_piece(t("a7"), t("a8"), Some(Piece::Queen));
    assert!(matches!(r, Ok(MoveResult::MoveApplied(_))));
    assert_eq!(
        board.get_piece_at_tile(t("a8")),
        Some((Piece::Queen, true))
    );
}

#[test]
fn castling_both_wings() {
    let mut board = Board::new_from_fen("r3k2r/8/8/8/8/8/8/R3K2R w KQkq - 0 1").unwrap();
    assert!(matches!(
        board.try_move_piece(t("e1"), t("g1"), None),
        Ok(MoveResult::MoveApplied(_))
    ));
    assert_eq!(board.get_piece_at_tile(t("f1")), Some((Piece::Rook, true)));
    assert_eq!(board.get_piece_at_tile(t("g1")), Some((Piece::King, true)));
    assert!(matches!(
        board.try_move_piece(t("e8"), t("c8"), None),
        Ok(MoveResult::MoveApplied(_))
    ));
    assert_eq!(board.get_piece_at_tile(t("d8")), Some((Piece::Rook, false)));
    assert_eq!(board.get_piece_at_tile(t("c8")), Some((Piece::King, false)));
    // undoing both restores the rooks and kings
    board.undo_move();
    board.undo_move();
    let fresh = Board::new_from_fen("r3k2r/8/8/8/8/8/8/R3K2R w KQkq - 0 1").unwrap();
    assert_eq!(board.white, fresh.white);
    assert_eq!(board.black, fresh.black);
    assert_eq!(board.castling, fresh.castling);
}

#[test]
fn move_list_basics() {
    let mut list = chess_engine::MoveList::new();
    assert!(list.is_empty());
    let board = Board::new();
    let m = board.create_move(t("e2"), t("e4"), Piece::Pawn, None, None);
    list.push(m);
    assert_eq!(list.len(), 1);
    assert!(list.contains(&m));
    assert!(list.contains_move(t("e2"), t("e4")));
    assert!(!list.contains_move(t("e2"), t("e3")));
    list.clear();
    assert!(list.is_empty());
}

#[test]
fn en_passant_apply_and_undo_are_exact() {
    // black just played d7d5; white captures en passant on d6
    let mut board =
        Board::new_from_fen("rnbqkbnr/ppp1pppp/8/3pP3/8/8/PPPP1PPP/RNBQKBNR w KQkq d6 0 3")
            .unwrap();
    let before = board.clone();
    assert!(matches!(
        board.try_move_piece(t("e5"), t("d6"), None),
        Ok(MoveResult::MoveApplied(_))
    ));
    // the victim pawn leaves d5, the capturer stands on d6
    assert_eq!(board.get_piece_at_tile(t("d5")), None);
    assert_eq!(board.get_piece_at_tile(t("d6")), Some((Piece::Pawn, true)));
    board.undo_move();
    assert_eq!(board, before);
}

#[test]
fn double_push_sets_en_passant_target() {
    let mut board = Board::new();
    board.try_move_piece(t("e2"), t("e4"), None).unwrap();
    assert_eq!(board.en_passant, Some(t("e3")));
    board.try_move_piece(t("g8"), t("f6"), None).unwrap();
    assert_eq!(board.en_passant, None);
}

#[test]
fn captures_undo_exactly() {
    let mut board =
        Board::new_from_fen("rnbqkbnr/ppp1pppp/8/3p4/4P3/8/PPPP1PPP/RNBQKBNR w KQkq - 0 2")
            .unwrap();
    let before = board.clone();
    board.try_move_piece(t("e4"), t("d5"), None).unwrap();
    assert_eq!(board.get_piece_at_tile(t("d5")), Some((Piece::Pawn, true)));
    board.undo_move();
    assert_eq!(board, before);
}

#[test]
fn promotion_capture_undo_exactly() {
    let mut board = Board::new_from_fen("1r5k/P7/8/8/8/8/8/7K w - - 0 1").unwrap();
    let before = board.clone();
    board
        .try_move_piece(t("a7"), t("b8"), Some(Piece::Knight))
        .unwrap();
    assert_eq!(board.get_piece_at_tile(t("b8")), Some((Piece::Knight, true)));
    board.undo_move();
    assert_eq!(board, before);
}

#[test]
fn move_accessors_round_trip() {
    let board = Board::new();
    let m = chess_engine::Move::new(
        t("e2"),
        t("e4"),
        Piece::Pawn,
        None,
        board.en_passant,
        board.castling,
        None,
        None,
        None,
        board.half_moves,
    );
    assert_eq!(m.from(), t("e2"));
    assert_eq!(m.to(), t("e4"));
    assert_eq!(m.piece(), Piece::Pawn);
    assert_eq!(m.capture(), None);
    assert_eq!(m.promoted_to(), None);
    assert_eq!(m.en_passant(), None);
    assert_eq!(m.prev_castle(), board.castling);
    assert_eq!(m.white_cache(), None);
    assert_eq!(m.black_cache(), None);
    assert_eq!(m.prev_half_moves(), 0);
}

#[test]
fn helper_queries() {
    let board = Board::new();
    assert_eq!(board.occupied().count_ones(), 32);
    assert_eq!(board.occupied_kingless().count_ones(), 30);
    let (me, you) = board.current_players();
    assert_eq!(me.pieces.to_u64(), 0x0000_0000_0000_FFFF);
    assert_eq!(you.pieces.to_u64(), 0xFFFF_0000_0000_0000);
    let n = t("a1").get_neighbours();
    assert_eq!(n.count_ones(), 3);
    assert!(board.tile_attacked(t("f3"), true));
    assert!(!board.tile_attacked(t("e5"), true));
}

#[test]
fn king_promotion_request_is_rejected() {
    let mut board = Board::new_from_fen("7k/P7/8/8/8/8/8/7K w - - 0 1").unwrap();
    assert_eq!(
        board.try_move_piece(t("a7"), t("a8"), Some(Piece::King)),
        Err(MoveError::IllegalMove)
    );
    assert_eq!(
        board.try_move_piece(t("a7"), t("a8"), Some(Piece::Pawn)),
        Err(MoveError::IllegalMove)
    );
}

#[test]
fn generation_emits_no_duplicates() {
    let fens = [
        "rnbqkbnr/pppppppp/8/8/8/8/PPPPPPPP/RNBQKBNR w KQkq - 0 1",
        "r3k2r/Pppp1ppp/1b3nbN/nP6/BBP1P3/q4N2/Pp1P2PP/R2Q1RK1 w kq - 0 1",
        "rnbq1k1r/pp1Pbppp/2p5/8/2B5/8/PPP1NnPP/RNBQK2R w KQ - 1 8",
    ];
    for fen in fens {
        let board = Board::new_from_fen(fen).unwrap();
        let mut moves = chess_engine::MoveList::new();
        board.generate_legal_moves(board.white_turn, &mut moves);
        let list = moves.iter();
        for i in 0..list.len() {
            for j in (i + 1)..list.len() {
                assert_ne!(list[i], list[j]);
            }
        }
    }
}
