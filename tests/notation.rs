use shogi::board::{Board, Hand};
use shogi::consts::{Piece, Side, STARTPOS};

#[test]
pub fn test_parse_sfens() {
    let sfens: [&str; 7] = [
        "9/9/9/9/9/9/9/9/9 b - 0",
        "lnsgkgsnl/1r5b1/ppppppppp/9/9/9/PPPPPPPPP/1B5R1/LNSGKGSNL b - 1",
        "lnsgk2nl/1r4gs1/p1pppp1pp/1p4p2/7P1/2P6/PP1PPPP1P/1SG4R1/LN2KGSNL b Bb 12",
        "lnsgkg1n1/4rs1bl/1+Ppp1pppp/p8/5P3/9/P1PP+p1PPP/1B3S2R/LNSGKG1NL w Pp 18",
        "+P+P+P+P+P+P+P+P+P/9/9/9/9/9/9/9/9 w - 50",
        "lnsgkgsnl/9/9/9/9/9/9/9/LNSGKGSNL b - 30",
        "lnsgkgsnl/1r5b1/ppppppppp/9/9/9/PPPPPPPPP/1B5R1/LNSGKGSNL w - 10",
    ];
    for sfen in sfens.iter() {
        match Board::from_sfen(sfen.to_string()) {
            Ok(board) => assert_eq!(*sfen, board.to_sfen().as_str()),
            Err(e) => panic!("Error parsing SFEN: {}", e),
        }
    }
}

#[test]
fn start_record_round_trips() {
    let board = Board::from_sfen(STARTPOS.to_string()).unwrap();
    assert_eq!(board.to_sfen(), STARTPOS);
    assert_eq!(board.piece_at(4), Some(Piece::King));
    assert_eq!(board.side_at(4), Some(Side::Sente));
    assert_eq!(board.piece_at(76), Some(Piece::King));
    assert_eq!(board.side_at(76), Some(Side::Gote));
    assert_eq!(board.piece_at(40), None);
    assert_eq!(board.stm(), Side::Sente);
    assert_eq!(board.moves(), 1);
}

#[test]
fn missing_counter_reads_as_zero() {
    let board = Board::from_sfen("9/9/9/9/9/9/9/9/9 w -".to_string()).unwrap();
    assert_eq!(board.moves(), 0);
    assert_eq!(board.stm(), Side::Gote);
    assert_eq!(board.to_sfen(), "9/9/9/9/9/9/9/9/9 w - 0");
}

#[test]
fn malformed_records_are_refused() {
    let bad = [
        ("9/9/9/9/9/9/9/9/9", "SFEN has invalid number of parts"),
        ("9/9/9/9/9/9/9/9/9 b - 1 2 3", "SFEN has invalid number of parts"),
        ("9/9/9/9/9/9/9/9 b - 1", "SFEN has invalid number of ranks"),
        ("9/9/9/9/9/9/9/9/9/9 b - 1", "SFEN has invalid number of ranks"),
        ("8/9/9/9/9/9/9/9/9 b - 1", "SFEN has invalid number of files"),
        ("9/9/9/9/9/9/9/9/55 b - 1", "SFEN has invalid number of files"),
        ("9/9/9/9/9/9/9/9/8+ b - 1", "SFEN has invalid promotion character"),
        ("9/9/9/9/9/9/9/9/8+G b - 1", "SFEN has invalid piece character"),
        ("9/9/9/9/9/9/9/9/8X b - 1", "SFEN has invalid piece character"),
        ("9/9/9/9/9/9/9/9/9 x - 1", "SFEN has invalid side to move"),
        ("9/9/9/9/9/9/9/9/9 bw - 1", "SFEN has invalid side to move"),
        ("9/9/9/9/9/9/9/9/9 b K 1", "SFEN has invalid hand"),
        ("9/9/9/9/9/9/9/9/9 b - x", "SFEN has invalid number of moves"),
        ("9/9/9/9/9/9/9/9/9 b - 256", "SFEN has invalid number of moves"),
    ];
    for (text, err) in bad.iter() {
        match Board::from_sfen(text.to_string()) {
            Ok(_) => panic!("accepted {}", text),
            Err(e) => assert_eq!(e, *err, "for {}", text),
        }
    }
}

#[test]
fn piece_texts() {
    assert_eq!(Piece::from_str("p"), Some(Piece::Pawn));
    assert_eq!(Piece::from_str("+R"), Some(Piece::PromotedRook));
    assert_eq!(Piece::from_str("+b"), Some(Piece::PromotedBishop));
    assert_eq!(Piece::from_str("+G"), None);
    assert_eq!(Piece::from_str("+K"), None);
    assert_eq!(Piece::from_str("x"), None);
    assert_eq!(Piece::from_str("PP"), None);
    assert_eq!(Piece::PromotedSilver.to_str(Side::Sente), "+S");
    assert_eq!(Piece::PromotedSilver.to_str(Side::Gote), "+s");
    assert_eq!(Piece::King.to_str(Side::Gote), "k");
}

#[test]
fn reserve_texts() {
    let chars: Vec<char> = "PPbRpK?".chars().collect();
    let sente = Hand::from_chars(&chars, Side::Sente);
    let gote = Hand::from_chars(&chars, Side::Gote);
    assert_eq!(sente.count(Piece::Pawn), 2);
    assert_eq!(sente.count(Piece::Rook), 1);
    assert_eq!(sente.count(Piece::Bishop), 0);
    assert_eq!(gote.count(Piece::Bishop), 1);
    assert_eq!(gote.count(Piece::Pawn), 1);
    assert_eq!(sente.to_sfen(Side::Sente), "PPR");
    assert_eq!(gote.to_sfen(Side::Gote), "pb");
}

#[test]
fn hand_counts() {
    let mut h = Hand::new();
    assert!(h.is_empty());
    h.add(Piece::Silver);
    h.add(Piece::Silver);
    assert!(h.has(Piece::Silver));
    assert_eq!(h.count(Piece::Silver), 2);
    h.remove(Piece::Silver);
    assert_eq!(h.count(Piece::Silver), 1);
    assert!(!h.is_empty());
    h.clear();
    assert!(h.is_empty());
}

#[test]
fn reserve_counts_above_255_are_refused() {
    let many = "P".repeat(256);
    let text = format!("9/9/9/9/9/9/9/9/9 b {} 1", many);
    match Board::from_sfen(text) {
        Ok(_) => panic!("accepted 256 pawns"),
        Err(e) => assert_eq!(e, "SFEN has invalid hand"),
    }
    let enough = "P".repeat(255);
    let text = format!("9/9/9/9/9/9/9/9/9 b {} 1", enough);
    let board = Board::from_sfen(text).unwrap();
    assert_eq!(board.hand(Side::Sente).count(Piece::Pawn), 255);
}

#[test]
fn non_canonical_records_are_read() {
    let board = Board::from_sfen("9/9/9/9/9/9/9/9/4k4 w - 007".to_string()).unwrap();
    assert_eq!(board.moves(), 7);
    assert_eq!(board.piece_at(4), Some(Piece::King));
    let split = Board::from_sfen("9/9/9/9/9/9/9/9/22k13 b bP".to_string()).unwrap();
    assert_eq!(split.to_sfen(), "9/9/9/9/9/9/9/9/4k4 b Pb 0");
}
