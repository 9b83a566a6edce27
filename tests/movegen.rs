use shogi::attacks::Tables;
use shogi::bits;
use shogi::board::Board;
use shogi::consts::{InvalidSquare, Piece, Side, STARTPOS};
use shogi::moves::Move;
use shogi::perft::perft;

fn tables() -> Tables {
    Tables::new().expect("the attack tables build")
}

fn board(text: &str) -> Board {
    Board::from_sfen(text.to_string()).unwrap()
}

#[test]
fn start_position_has_thirty_moves() {
    let t = tables();
    let b = board(STARTPOS);
    assert_eq!(b.generate_moves(&t).len(), 30);
    assert_eq!(perft(&t, &b, 1), 30);
    assert_eq!(perft(&t, &b, 0), 1);
}

#[test]
fn second_side_also_has_thirty_moves() {
    let t = tables();
    let b = board("lnsgkgsnl/1r5b1/ppppppppp/9/9/9/PPPPPPPPP/1B5R1/LNSGKGSNL w - 1");
    assert_eq!(b.generate_moves(&t).len(), 30);
}

#[test]
fn promotion_choices_follow_the_zones() {
    let t = tables();
    // A pawn one step from the far rank must promote; a silver entering the zone may.
    let b = board("9/1P7/9/9/9/9/9/9/4S4 b - 1");
    let moves = b.generate_moves(&t);
    let pawn_moves: Vec<Move> = moves.iter().copied().filter(|m| m.src() == Some(64)).collect();
    assert_eq!(pawn_moves, vec![Move::new(64, 73, true)]);
    let b = board("9/9/9/4S4/9/9/9/9/9 b - 1");
    let moves = b.generate_moves(&t);
    assert!(moves.contains(&Move::new(49, 58, true)));
    assert!(moves.contains(&Move::new(49, 58, false)));
    assert!(!moves.contains(&Move::new(49, 40, true)));
}

#[test]
fn knight_must_promote_on_the_far_two_ranks() {
    let t = tables();
    let b = board("9/9/9/4N4/9/9/9/9/9 b - 1");
    let moves = b.generate_moves(&t);
    assert!(moves.contains(&Move::new(49, 66, true)));
    assert!(moves.contains(&Move::new(49, 68, true)));
    assert!(!moves.contains(&Move::new(49, 66, false)));
    assert_eq!(moves.len(), 2);
}

#[test]
fn drops_respect_the_pawn_file_rule() {
    let t = tables();
    let b = board("9/9/9/9/9/9/9/1P7/9 b P 1");
    let moves = b.generate_moves(&t);
    let drops: Vec<Move> = moves.iter().copied().filter(|m| m.is_drop()).collect();
    // 80 empty squares, none of the eight others on file 1.
    assert_eq!(drops.len(), 72);
    assert!(drops.iter().all(|m| m.dst() % 9 != 1));
    assert!(drops.contains(&Move::drop(0, 40)));
}

#[test]
fn check_and_attackers() {
    let t = tables();
    let b = board("4k4/9/9/9/4R4/9/9/9/4K4 w - 1");
    let king = b.king_sq(Side::Gote);
    assert_eq!(king, 76);
    assert!(b.is_check(&t));
    assert_eq!(b.attackers_to(&t, king, Side::Sente), bits::bb(40));
    assert!(b.is_attacked(&t, king, Side::Sente));
    let blocked = board("4k4/4p4/9/9/4R4/9/9/9/4K4 w - 1");
    assert!(!blocked.is_check(&t));
    assert_eq!(blocked.attackers_to(&t, 76, Side::Sente), 0);
    assert!(!board(STARTPOS).is_check(&t));
}

#[test]
fn attackers_by_short_range_pieces() {
    let t = tables();
    let b = board("9/9/9/9/4g4/3P5/9/9/9 b - 1");
    // The first side's pawn on 30 attacks 39; the second side's gold on 40
    // attacks 30, 31, 32, 39, 41 and 49.
    assert_eq!(b.attackers_to(&t, 39, Side::Sente), bits::bb(30));
    assert_eq!(b.attackers_to(&t, 31, Side::Gote), bits::bb(40));
    assert_eq!(b.attackers_to(&t, 30, Side::Gote), bits::bb(40));
    assert_eq!(b.attackers_to(&t, 48, Side::Gote), 0);
    assert_eq!(b.attackers_to(&t, 50, Side::Gote), 0);
}

#[test]
fn quiet_move_keeps_counts() {
    let mut b = board(STARTPOS);
    let occupied = bits::count(b.occ());
    b.make(&Move::new(20, 29, false));
    assert_eq!(bits::count(b.occ()), occupied);
    assert!(b.hand(Side::Sente).is_empty());
    assert!(b.hand(Side::Gote).is_empty());
    assert_eq!(b.stm(), Side::Gote);
    assert_eq!(b.moves(), 2);
    assert_eq!(b.piece_at(29), Some(Piece::Pawn));
    assert_eq!(b.piece_at(20), None);
}

#[test]
fn capture_fills_the_reserve_with_the_base_kind() {
    let mut b = board("9/9/9/4+r4/4R4/9/9/9/9 b - 1");
    let occupied = bits::count(b.occ());
    b.make(&Move::new(40, 49, false));
    assert_eq!(bits::count(b.occ()), occupied - 1);
    assert_eq!(b.hand(Side::Sente).count(Piece::Rook), 1);
    assert_eq!(b.to_sfen(), "9/9/9/4R4/9/9/9/9/9 w R 2");
}

#[test]
fn promotion_and_drop_moves_apply() {
    let mut b = board("9/9/4S4/9/9/9/9/9/9 b Pp 1");
    b.make(&Move::new(58, 67, true));
    assert_eq!(b.piece_at(67), Some(Piece::PromotedSilver));
    b.make(&Move::drop(0, 1));
    assert_eq!(b.to_sfen(), "9/4+S4/9/9/9/9/9/9/1p7 b P 3");
    let mut c = board("9/9/9/9/9/9/9/9/9 b P 1");
    c.make(&Move::drop(0, 40));
    assert_eq!(c.piece_at(40), Some(Piece::Pawn));
    assert!(c.hand(Side::Sente).is_empty());
    assert_eq!(c.moves(), 2);
}

#[test]
fn move_encoding() {
    let m = Move::new(80, 79, true);
    assert_eq!(m.src(), Some(80));
    assert_eq!(m.dst(), 79);
    assert!(m.is_promo());
    assert!(!m.is_drop());
    assert_eq!(m.drop_piece(), None);
    let d = Move::drop(6, 64);
    assert_eq!(d.src(), None);
    assert_eq!(d.dst(), 64);
    assert!(d.is_drop());
    assert_eq!(d.drop_piece(), Some(Piece::Rook));
}

#[test]
fn board_primitives_keep_squares_consistent() {
    let mut b = Board::new();
    b.add_piece(Side::Gote, Piece::Gold, 10);
    assert_eq!(b.golds(Side::Gote), bits::bb(10));
    assert_eq!(b.gold_likes(Side::Gote), bits::bb(10));
    assert_eq!(b.side(Side::Gote), bits::bb(10));
    b.move_piece(Side::Gote, Piece::Gold, Piece::Gold, 10, 11);
    assert_eq!(b.occ(), bits::bb(11));
    b.remove_piece(Side::Gote, Piece::Gold, 11);
    assert_eq!(b.occ(), 0);
    assert_eq!(b.king_sq(Side::Sente), 128);
}

#[test]
fn pawn_drop_that_mates_is_not_generated() {
    let t = tables();
    let b = board("k8/9/G8/9/9/9/9/9/1R5K1 b P 1");
    assert!(b.pawn_drop_mates(&t, 63));
    assert!(!b.pawn_drop_mates(&t, 40));
    let moves = b.generate_moves(&t);
    assert!(!moves.contains(&Move::drop(0, 63)));
    assert!(moves.contains(&Move::drop(0, 40)));
    // Without the rook the king escapes to 73, so the drop is allowed.
    let c = board("k8/9/G8/9/9/9/9/9/7K1 b P 1");
    assert!(!c.pawn_drop_mates(&t, 63));
    assert!(c.generate_moves(&t).contains(&Move::drop(0, 63)));
}

#[test]
fn perft_from_the_start() {
    let t = tables();
    let b = board(STARTPOS);
    assert_eq!(perft(&t, &b, 2), 900);
}

#[test]
fn generated_moves_do_not_repeat() {
    let t = tables();
    let b = board("lnsgk2nl/1r4gs1/p1pppp1pp/1p4p2/7P1/2P6/PP1PPPP1P/1SG4R1/LN2KGSNL b Bb 12");
    let moves = b.generate_moves(&t);
    for i in 0..moves.len() {
        for j in 0..i {
            assert_ne!(moves[i], moves[j]);
        }
    }
}

#[test]
fn validated_moves_refuse_squares_off_the_board() {
    assert_eq!(Move::checked(81, 0, false), Err(InvalidSquare { index: 81 }));
    assert_eq!(Move::checked(0, 81, true), Err(InvalidSquare { index: 81 }));
    assert_eq!(Move::checked(3, 12, false), Ok(Move::new(3, 12, false)));
    assert_eq!(Move::checked_drop(Piece::Rook, 200), Err(InvalidSquare { index: 200 }));
    assert_eq!(Move::checked_drop(Piece::Rook, 40), Ok(Move::drop(6, 40)));
}
