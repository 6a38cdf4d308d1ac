use chess_engine::CastlingRights;

#[test]
fn insert() {
    let mut rights = CastlingRights::empty();
    rights.insert(CastlingRights::white_kingside());
    assert!(rights.contains(CastlingRights::white_kingside()));
    assert!(!rights.contains(CastlingRights::white_queenside()));

    rights.insert(CastlingRights::white_queenside());
    assert!(rights.contains(CastlingRights::white_queenside()));

    rights.remove(CastlingRights::white_kingside());
    assert!(!rights.contains(CastlingRights::white_kingside()));
    assert!(rights.contains(CastlingRights::white_queenside()));
}

#[test]
fn remove() {
    let mut rights = CastlingRights::all();

    rights.remove(CastlingRights::white_kingside());
    assert!(!rights.contains(CastlingRights::white_kingside()));
    assert!(rights.contains(CastlingRights::white_queenside()));
    assert!(rights.contains(CastlingRights::black_kingside()));
    assert!(rights.contains(CastlingRights::black_queenside()));

    rights.remove(CastlingRights::white_queenside());
    assert!(!rights.contains(CastlingRights::white_queenside()));
    assert!(rights.contains(CastlingRights::black_kingside()));
    assert!(rights.contains(CastlingRights::black_queenside()));

    rights.remove(CastlingRights::black_kingside());
    assert!(!rights.contains(CastlingRights::black_kingside()));
    assert!(rights.contains(CastlingRights::black_queenside()));

    rights.remove(CastlingRights::black_queenside());
    assert!(!rights.contains(CastlingRights::black_queenside()));
}

#[test]
fn display() {
    assert_eq!(CastlingRights::white_kingside().to_fen(), "K");
    assert_eq!(CastlingRights::black_queenside().to_fen(), "q");
    assert_eq!(
        (CastlingRights::white_kingside() | CastlingRights::black_kingside()).to_fen(),
        "Kk"
    );
}

#[test]
fn fen_parse() {
    assert_eq!(CastlingRights::from_fen("KQkq").to_u8(), 15);
    assert_eq!(CastlingRights::from_fen("-").to_u8(), 0);
    assert_eq!(CastlingRights::from_fen("Kq").to_u8(), 9);
    assert_eq!(CastlingRights::from_fen("KQkq").to_fen(), "KQkq");
    assert_eq!(CastlingRights::empty().to_fen(), "-");
}
