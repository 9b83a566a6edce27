use shogi::bits::{self, Bitboard};
use shogi::consts::{Square, InvalidSquare};
use shogi::magics::checked_add;
use shogi::ray::between;

#[test]
fn lowest_bit_primitives() {
    assert_eq!(bits::lsb(0b1011000), 3);
    assert_eq!(bits::lsb(0), 128);
    assert_eq!(bits::pop(0b1011000), 0b1010000);
    assert_eq!(bits::count(0b1011000), 3);
    assert_eq!(bits::count(bits::BOARD), 81);
    assert_eq!(bits::bb(80), 1u128 << 80);
}

#[test]
fn popping_walks_every_square_once() {
    let mut b: u128 = bits::bb(3) | bits::bb(40) | bits::bb(80);
    let mut seen = Vec::new();
    while b != 0 {
        seen.push(bits::lsb(b));
        b = bits::pop(b);
    }
    assert_eq!(seen, vec![3, 40, 80]);
}

#[test]
fn shifts_drop_what_leaves_the_board() {
    assert_eq!(bits::north(bits::bb(75)), 0);
    assert_eq!(bits::north(bits::bb(4)), bits::bb(13));
    assert_eq!(bits::south(bits::bb(4)), 0);
    assert_eq!(bits::south(bits::bb(13)), bits::bb(4));
}

#[test]
fn words_join_into_one_mask() {
    let b = Bitboard { v: [0x1, 0x2] };
    assert_eq!(b.to_u128(), 1 | (2u128 << 64));
}

#[test]
fn square_coordinates() {
    assert_eq!(Square::of(4, 5), 41);
    assert_eq!(Square::rank(41), 4);
    assert_eq!(Square::file(41), 5);
    assert!(Square::is_valid(80));
    assert!(!Square::is_valid(81));
    assert_eq!(Square::iter().len(), 81);
}

#[test]
fn square_indices_from_outside_are_checked() {
    assert_eq!(Square::checked(0), Ok(0));
    assert_eq!(Square::checked(80), Ok(80));
    for i in 81..=255u8 {
        assert_eq!(Square::checked(i), Err(InvalidSquare { index: i }));
    }
}

#[test]
fn adding_a_delta_stays_on_the_board() {
    assert_eq!(checked_add(40, 9), Some(49));
    assert_eq!(checked_add(75, 9), None);
    assert_eq!(checked_add(3, -9), None);
    assert_eq!(checked_add(0, 0), Some(0));
}

#[test]
fn squares_between_two_squares() {
    assert_eq!(between(0, 4), bits::bb(1) | bits::bb(2) | bits::bb(3));
    assert_eq!(between(0, 36), bits::bb(9) | bits::bb(18) | bits::bb(27));
    assert_eq!(between(0, 40), bits::bb(10) | bits::bb(20) | bits::bb(30));
    assert_eq!(between(8, 40), bits::bb(16) | bits::bb(24) | bits::bb(32));
    assert_eq!(between(0, 1), 0);
    assert_eq!(between(0, 11), 0);
    assert_eq!(between(5, 5), 0);
    assert_eq!(between(0, 90), 0);
}

#[test]
fn sideways_and_diagonal_shifts_do_not_wrap() {
    assert_eq!(bits::east(bits::bb(40)), bits::bb(41));
    assert_eq!(bits::east(bits::bb(8)), 0);
    assert_eq!(bits::west(bits::bb(40)), bits::bb(39));
    assert_eq!(bits::west(bits::bb(9)), 0);
    assert_eq!(bits::north_east(bits::bb(40)), bits::bb(50));
    assert_eq!(bits::north_east(bits::bb(17)), 0);
    assert_eq!(bits::north_west(bits::bb(40)), bits::bb(48));
    assert_eq!(bits::north_west(bits::bb(9)), 0);
    assert_eq!(bits::south_east(bits::bb(40)), bits::bb(32));
    assert_eq!(bits::south_east(bits::bb(4)), 0);
    assert_eq!(bits::south_west(bits::bb(40)), bits::bb(30));
    assert_eq!(bits::south_west(bits::bb(18)), 0);
    assert_eq!(bits::east(bits::NOT_FILE_8) | bits::NOT_FILE_8, bits::BOARD);
}
