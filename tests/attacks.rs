use shogi::attacks::{self, Tables};
use shogi::bits;
use shogi::consts::{Piece, Side, Square};
use shogi::magics::{sliding_attacks, MagicTable};

fn print_board(bb: u128) {
    for rank in (0..9).rev() {
        let mut line = String::new();
        for file in 0..9 {
            let sq = Square::of(rank, file);
            line.push_str(&format!("{} ", (bb >> sq) & 1));
        }
        println!("{}", line);
    }
}

fn tables() -> Tables {
    Tables::new().expect("the attack tables build")
}

#[test]
pub fn knight() {
    let t = tables();
    for sq in 0..81 {
        println!("generating for square {}", sq);
        print_board(bits::bb(sq));
        println!();
        let mut bb = attacks::knight(&t, sq, Side::Sente);
        print_board(bb);
        println!();
        bb = attacks::knight(&t, sq, Side::Gote);
        print_board(bb);
        println!();
    }
}

#[test]
pub fn king() {
    let t = tables();
    for sq in 0..81 {
        println!("generating for square {}", sq);
        print_board(bits::bb(sq));
        println!();
        let bb = attacks::king(&t, sq);
        print_board(bb);
        println!();
    }
}

#[test]
pub fn gold() {
    let t = tables();
    for sq in 0..81 {
        println!("{:#x},", attacks::gold(&t, sq, Side::Gote));
    }
}

#[test]
pub fn silver() {
    let t = tables();
    let mut line = String::new();
    for sq in 0..81 {
        line.push_str(&format!("{:#x}, ", attacks::silver(&t, sq, Side::Gote)));
    }
    println!("{}", line);
}

#[test]
fn short_range_tables_match_known_values() {
    let t = tables();
    assert_eq!(attacks::king(&t, 0), 0x602);
    assert_eq!(attacks::king(&t, 40), 0x70281c0000000);
    assert_eq!(attacks::gold(&t, 0, Side::Sente), 0x602);
    assert_eq!(attacks::gold(&t, 0, Side::Gote), 0x202);
    assert_eq!(attacks::silver(&t, 0, Side::Sente), 0x600);
    assert_eq!(attacks::silver(&t, 0, Side::Gote), 0x400);
    assert_eq!(attacks::knight(&t, 0, Side::Sente), 0x80000);
    assert_eq!(attacks::knight(&t, 18, Side::Gote), 0x2);
    assert_eq!(attacks::knight(&t, 80, Side::Sente), 0);
    assert_eq!(attacks::pawn(4, Side::Sente), bits::bb(13));
    assert_eq!(attacks::pawn(4, Side::Gote), 0);
}

#[test]
fn pawn_push_moves_every_pawn_at_once() {
    let row = 0x1ffu128 << 18;
    assert_eq!(attacks::pawns(row, Side::Sente), 0x1ffu128 << 27);
    assert_eq!(attacks::pawns(row, Side::Gote), 0x1ffu128 << 9);
    assert_eq!(attacks::pawns(0x1ffu128 << 72, Side::Sente), 0);
}

#[test]
fn magic_lookup_matches_ray_casting() {
    let t = tables();
    let rook_dirs = [Square::DELTA_N, Square::DELTA_E, Square::DELTA_S, Square::DELTA_W];
    let bishop_dirs = [Square::DELTA_NE, Square::DELTA_SE, Square::DELTA_SW, Square::DELTA_NW];
    let mut occ: u128 = 0x1234_5678_9abc_def0_1357;
    for sq in 0..81u8 {
        occ = occ.wrapping_mul(6364136223846793005).wrapping_add(1442695040888963407) & bits::BOARD;
        assert_eq!(attacks::rook(&t, sq, occ), sliding_attacks(&rook_dirs, sq, occ));
        assert_eq!(attacks::bishop(&t, sq, occ), sliding_attacks(&bishop_dirs, sq, occ));
        assert_eq!(attacks::lance(&t, sq, Side::Sente, occ), sliding_attacks(&[Square::DELTA_N], sq, occ));
        assert_eq!(attacks::lance(&t, sq, Side::Gote, occ), sliding_attacks(&[Square::DELTA_S], sq, occ));
    }
}

#[test]
fn rook_on_empty_board_sees_its_rank_and_file() {
    let t = tables();
    let r = attacks::rook(&t, 40, 0);
    assert_eq!(bits::count(r), 16);
    let b = attacks::bishop(&t, 40, 0);
    assert_eq!(bits::count(b), 16);
    let corner = attacks::bishop(&t, 0, 0);
    assert_eq!(bits::count(corner), 8);
    assert_eq!(attacks::dragon(&t, 40, 0), attacks::rook(&t, 40, 0) | attacks::king(&t, 40));
    assert_eq!(attacks::horse(&t, 40, 0), attacks::bishop(&t, 40, 0) | attacks::king(&t, 40));
    assert_eq!(attacks::attacks(&t, 40, Piece::PromotedRook, Side::Sente, 0), attacks::dragon(&t, 40, 0));
}

#[test]
fn blocked_rook_stops_at_first_piece() {
    let t = tables();
    let occ = bits::bb(43) | bits::bb(58);
    let r = attacks::rook(&t, 40, occ);
    assert!(r & bits::bb(43) != 0);
    assert!(r & bits::bb(44) == 0);
    assert!(r & bits::bb(58) != 0);
    assert!(r & bits::bb(67) == 0);
}

#[test]
fn magic_table_reports_a_bad_configuration() {
    let shifts = [10i8; 81];
    let magics = [1u64; 81];
    assert!(MagicTable::new(1, &shifts, &magics, &[Square::DELTA_N]).is_none());
}

#[test]
fn published_constants_build() {
    assert!(MagicTable::bishop().is_some());
    assert!(MagicTable::rook().is_some());
    assert!(MagicTable::lance(Side::Sente).is_some());
    assert!(MagicTable::lance(Side::Gote).is_some());
}
