use vstd::prelude::*;

verus! {

/// The mask with every bit set.
pub const ALL: u128 = 0xffff_ffff_ffff_ffff_ffff_ffff_ffff_ffff;

/// The empty mask.
pub const NONE: u128 = 0;

/// Bit `i` of `b` is set.
pub open spec fn bit(b: u128, i: u128) -> bool {
    (b >> i) & 1u128 == 1u128
}

/// Square `s` belongs to the mask `b`.
pub open spec fn on(b: u128, s: int) -> bool {
    0 <= s < 128 && bit(b, s as u128)
}

/// No bit at or above square 81 is set.
pub open spec fn within_board(b: u128) -> bool {
    b >> 81u128 == 0
}

/// Number of set bits.
pub open spec fn popcount(b: u128) -> nat
    decreases b,
{
    if b == 0 {
        0
    } else {
        (b % 2) as nat + popcount(b / 2)
    }
}

pub proof fn lemma_or(a: u128, b: u128)
    by (bit_vector)
    ensures
        forall|i: u128| i < 128 ==> #[trigger] bit(a | b, i) == (bit(a, i) || bit(b, i)),
{
}

pub proof fn lemma_and(a: u128, b: u128)
    by (bit_vector)
    ensures
        forall|i: u128| i < 128 ==> #[trigger] bit(a & b, i) == (bit(a, i) && bit(b, i)),
{
}

pub proof fn lemma_and_not(a: u128, b: u128)
    by (bit_vector)
    ensures
        forall|i: u128| i < 128 ==> #[trigger] bit(a & !b, i) == (bit(a, i) && !bit(b, i)),
{
}

pub proof fn lemma_single(j: u128)
    by (bit_vector)
    requires
        j < 128,
    ensures
        forall|i: u128| i < 128 ==> #[trigger] bit(1u128 << j, i) == (i == j),
{
}

/// Index of the lowest set bit, found by halving the search window; 128 for zero.
pub open spec fn low_index(b: u128) -> u128 {
    if b == 0 {
        128
    } else {
        let s0: u128 = if b & 0xffff_ffff_ffff_ffff == 0 { 64 } else { 0 };
        let b0 = b >> s0;
        let s1: u128 = if b0 & 0xffff_ffff == 0 { 32 } else { 0 };
        let b1 = b0 >> s1;
        let s2: u128 = if b1 & 0xffff == 0 { 16 } else { 0 };
        let b2 = b1 >> s2;
        let s3: u128 = if b2 & 0xff == 0 { 8 } else { 0 };
        let b3 = b2 >> s3;
        let s4: u128 = if b3 & 0xf == 0 { 4 } else { 0 };
        let b4 = b3 >> s4;
        let s5: u128 = if b4 & 0x3 == 0 { 2 } else { 0 };
        let b5 = b4 >> s5;
        let s6: u128 = if b5 & 0x1 == 0 { 1 } else { 0 };
        (s0 + s1 + s2 + s3 + s4 + s5 + s6) as u128
    }
}

pub proof fn lemma_low_index(b: u128)
    by (bit_vector)
    requires
        b != 0,
    ensures
        low_index(b) < 128,
        bit(b, low_index(b)),
        forall|j: u128| j < low_index(b) ==> !#[trigger] bit(b, j),
{
}

pub proof fn lemma_pop(b: u128)
    by (bit_vector)
    requires
        b != 0,
    ensures
        forall|i: u128|
            i < 128 ==> #[trigger] bit(b & ((b - 1) as u128), i) == (bit(b, i) && i != low_index(b)),
        b & ((b - 1) as u128) < b,
{
}

pub proof fn lemma_differ(a: u128, b: u128)
    by (bit_vector)
    requires
        a != b,
    ensures
        low_index(a ^ b) < 128,
        bit(a, low_index(a ^ b)) != bit(b, low_index(a ^ b)),
{
}

/// Equal bits everywhere make equal masks.
pub proof fn lemma_ext(a: u128, b: u128)
    requires
        forall|i: u128| i < 128 ==> #[trigger] bit(a, i) == bit(b, i),
    ensures
        a == b,
{
    if a != b {
        lemma_differ(a, b);
        let w = low_index(a ^ b);
        assert(bit(a, w) == bit(b, w));
    }
}

/// The mask of all 81 board squares.
pub const BOARD: u128 = 0x1_ffff_ffff_ffff_ffff_ffff;

/// The lowest set bit removed.
pub open spec fn without_lowest(b: u128) -> u128 {
    b & ((b - 1) as u128)
}

/// Index of the lowest set bit by halving the search window (128 for zero).
fn lowest_index(b: u128) -> (r: u32)
    ensures
        r as u128 == low_index(b),
{
    if b == 0 {
        return 128;
    }
    let s0: u128 = if b & 0xffff_ffff_ffff_ffff == 0 { 64 } else { 0 };
    let b0 = b >> s0;
    let s1: u128 = if b0 & 0xffff_ffff == 0 { 32 } else { 0 };
    let b1 = b0 >> s1;
    let s2: u128 = if b1 & 0xffff == 0 { 16 } else { 0 };
    let b2 = b1 >> s2;
    let s3: u128 = if b2 & 0xff == 0 { 8 } else { 0 };
    let b3 = b2 >> s3;
    let s4: u128 = if b3 & 0xf == 0 { 4 } else { 0 };
    let b4 = b3 >> s4;
    let s5: u128 = if b4 & 0x3 == 0 { 2 } else { 0 };
    let b5 = b4 >> s5;
    let s6: u128 = if b5 & 0x1 == 0 { 1 } else { 0 };
    (s0 + s1 + s2 + s3 + s4 + s5 + s6) as u32
}

/// Relies on `u128::count_ones`: the number of set bits.
#[verifier::external_body]
fn count_ones(b: u128) -> (r: u32)
    ensures
        r == popcount(b),
        r <= 128,
{
    b.count_ones()
}

/// Clears the lowest set bit.
pub fn pop(b: u128) -> (r: u128)
    requires
        b != 0,
    ensures
        r == without_lowest(b),
        r < b,
        forall|i: u128| i < 128 ==> #[trigger] bit(r, i) == (bit(b, i) && i != low_index(b)),
{
    proof {
        lemma_pop(b);
    }
    b & (b - 1)
}

/// Index of the lowest set bit (128 for the empty mask).
pub fn lsb(b: u128) -> (r: u8)
    ensures
        r as u128 == low_index(b),
        b != 0 ==> r < 128 && bit(b, r as u128),
{
    let t = lowest_index(b);
    proof {
        if b != 0 {
            lemma_low_index(b);
        }
    }
    t as u8
}

/// Number of set bits.
pub fn count(b: u128) -> (r: u8)
    ensures
        r == popcount(b),
{
    count_ones(b) as u8
}

/// The mask holding square `sq` alone.
pub fn bb(sq: u8) -> (r: u128)
    requires
        sq < 81,
    ensures
        r == 1u128 << (sq as u128),
        forall|i: u128| i < 128 ==> #[trigger] bit(r, i) == (i == sq),
{
    proof {
        lemma_single(sq as u128);
    }
    1u128 << (sq as u128)
}

/// Every square one rank up (towards rank 8), dropping what leaves the board.
pub fn north(b: u128) -> (r: u128)
    ensures
        within_board(r),
        forall|i: u128|
            i < 128 ==> #[trigger] bit(r, i) == (9 <= i < 81 && bit(b, (i - 9) as u128)),
{
    proof {
        lemma_north(b);
    }
    (b << 9) & BOARD
}

/// Every square one rank down (towards rank 0), dropping what leaves the board.
pub fn south(b: u128) -> (r: u128)
    ensures
        within_board(r),
        forall|i: u128|
            i < 128 ==> #[trigger] bit(r, i) == (i < 72 && bit(b, (i + 9) as u128)),
{
    proof {
        lemma_south(b);
    }
    (b >> 9) & (BOARD >> 9)
}

proof fn lemma_north(b: u128)
    by (bit_vector)
    ensures
        ((b << 9) & 0x1_ffff_ffff_ffff_ffff_ffffu128) >> 81u128 == 0,
        forall|i: u128|
            i < 128 ==> #[trigger] bit((b << 9) & 0x1_ffff_ffff_ffff_ffff_ffffu128, i) == (9 <= i
                < 81 && bit(b, (i - 9) as u128)),
{
}

proof fn lemma_south(b: u128)
    by (bit_vector)
    ensures
        ((b >> 9) & (0x1_ffff_ffff_ffff_ffff_ffffu128 >> 9)) >> 81u128 == 0,
        forall|i: u128|
            i < 128 ==> #[trigger] bit((b >> 9) & (0x1_ffff_ffff_ffff_ffff_ffffu128 >> 9), i) == (i
                < 72 && bit(b, (i + 9) as u128)),
{
}

/// The board squares off file 0.
pub const NOT_FILE_0: u128 = 0x1_feff_7fbf_dfef_f7fb_fdfe;

/// The board squares off file 8.
pub const NOT_FILE_8: u128 = 0xff7f_bfdf_eff7_fbfd_feff;

/// Every board square of `b` moved one file up (towards file 8), dropping what would leave the
/// board or wrap to the next rank.
pub fn east(b: u128) -> (r: u128)
    ensures
        within_board(r),
        forall|i: u128|
            i < 128 ==> #[trigger] bit(r, i) == (i < 81 && i % 9 != 0 && i >= 1 && bit(b, (i - 1) as u128)),
{
    proof {
        lemma_east(b);
    }
    ((b & BOARD) << 1) & NOT_FILE_0
}

proof fn lemma_east(b: u128)
    by (bit_vector)
    ensures
        (((b & 0x1_ffff_ffff_ffff_ffff_ffffu128) << 1) & 0x1_feff_7fbf_dfef_f7fb_fdfeu128) >> 81u128 == 0,
        forall|i: u128|
            i < 128 ==> #[trigger] bit(((b & 0x1_ffff_ffff_ffff_ffff_ffffu128) << 1) & 0x1_feff_7fbf_dfef_f7fb_fdfeu128, i) == (i < 81 && i % 9 != 0 && i >= 1 && bit(b, (i - 1) as u128)),
{
}

/// Every board square of `b` moved one file down (towards file 0), dropping what would leave the
/// board or wrap to the next rank.
pub fn west(b: u128) -> (r: u128)
    ensures
        within_board(r),
        forall|i: u128|
            i < 128 ==> #[trigger] bit(r, i) == (i < 81 && i % 9 != 8 && i + 1 < 81 && bit(b, (i + 1) as u128)),
{
    proof {
        lemma_west(b);
    }
    ((b & BOARD) >> 1) & NOT_FILE_8
}

proof fn lemma_west(b: u128)
    by (bit_vector)
    ensures
        (((b & 0x1_ffff_ffff_ffff_ffff_ffffu128) >> 1) & 0xff7f_bfdf_eff7_fbfd_feffu128) >> 81u128 == 0,
        forall|i: u128|
            i < 128 ==> #[trigger] bit(((b & 0x1_ffff_ffff_ffff_ffff_ffffu128) >> 1) & 0xff7f_bfdf_eff7_fbfd_feffu128, i) == (i < 81 && i % 9 != 8 && i + 1 < 81 && bit(b, (i + 1) as u128)),
{
}

/// Every board square of `b` moved one rank up and one file up, dropping what would leave the
/// board or wrap to the next rank.
pub fn north_east(b: u128) -> (r: u128)
    ensures
        within_board(r),
        forall|i: u128|
            i < 128 ==> #[trigger] bit(r, i) == (i < 81 && i % 9 != 0 && i >= 10 && bit(b, (i - 10) as u128)),
{
    proof {
        lemma_north_east(b);
    }
    ((b & BOARD) << 10) & NOT_FILE_0
}

proof fn lemma_north_east(b: u128)
    by (bit_vector)
    ensures
        (((b & 0x1_ffff_ffff_ffff_ffff_ffffu128) << 10) & 0x1_feff_7fbf_dfef_f7fb_fdfeu128) >> 81u128 == 0,
        forall|i: u128|
            i < 128 ==> #[trigger] bit(((b & 0x1_ffff_ffff_ffff_ffff_ffffu128) << 10) & 0x1_feff_7fbf_dfef_f7fb_fdfeu128, i) == (i < 81 && i % 9 != 0 && i >= 10 && bit(b, (i - 10) as u128)),
{
}

/// Every board square of `b` moved one rank up and one file down, dropping what would leave the
/// board or wrap to the next rank.
pub fn north_west(b: u128) -> (r: u128)
    ensures
        within_board(r),
        forall|i: u128|
            i < 128 ==> #[trigger] bit(r, i) == (i < 81 && i % 9 != 8 && i >= 8 && bit(b, (i - 8) as u128)),
{
    proof {
        lemma_north_west(b);
    }
    ((b & BOARD) << 8) & NOT_FILE_8
}

proof fn lemma_north_west(b: u128)
    by (bit_vector)
    ensures
        (((b & 0x1_ffff_ffff_ffff_ffff_ffffu128) << 8) & 0xff7f_bfdf_eff7_fbfd_feffu128) >> 81u128 == 0,
        forall|i: u128|
            i < 128 ==> #[trigger] bit(((b & 0x1_ffff_ffff_ffff_ffff_ffffu128) << 8) & 0xff7f_bfdf_eff7_fbfd_feffu128, i) == (i < 81 && i % 9 != 8 && i >= 8 && bit(b, (i - 8) as u128)),
{
}

/// Every board square of `b` moved one rank down and one file up, dropping what would leave the
/// board or wrap to the next rank.
pub fn south_east(b: u128) -> (r: u128)
    ensures
        within_board(r),
        forall|i: u128|
            i < 128 ==> #[trigger] bit(r, i) == (i < 81 && i % 9 != 0 && i + 8 < 81 && bit(b, (i + 8) as u128)),
{
    proof {
        lemma_south_east(b);
    }
    ((b & BOARD) >> 8) & NOT_FILE_0
}

proof fn lemma_south_east(b: u128)
    by (bit_vector)
    ensures
        (((b & 0x1_ffff_ffff_ffff_ffff_ffffu128) >> 8) & 0x1_feff_7fbf_dfef_f7fb_fdfeu128) >> 81u128 == 0,
        forall|i: u128|
            i < 128 ==> #[trigger] bit(((b & 0x1_ffff_ffff_ffff_ffff_ffffu128) >> 8) & 0x1_feff_7fbf_dfef_f7fb_fdfeu128, i) == (i < 81 && i % 9 != 0 && i + 8 < 81 && bit(b, (i + 8) as u128)),
{
}

/// Every board square of `b` moved one rank down and one file down, dropping what would leave the
/// board or wrap to the next rank.
pub fn south_west(b: u128) -> (r: u128)
    ensures
        within_board(r),
        forall|i: u128|
            i < 128 ==> #[trigger] bit(r, i) == (i < 81 && i % 9 != 8 && i + 10 < 81 && bit(b, (i + 10) as u128)),
{
    proof {
        lemma_south_west(b);
    }
    ((b & BOARD) >> 10) & NOT_FILE_8
}

proof fn lemma_south_west(b: u128)
    by (bit_vector)
    ensures
        (((b & 0x1_ffff_ffff_ffff_ffff_ffffu128) >> 10) & 0xff7f_bfdf_eff7_fbfd_feffu128) >> 81u128 == 0,
        forall|i: u128|
            i < 128 ==> #[trigger] bit(((b & 0x1_ffff_ffff_ffff_ffff_ffffu128) >> 10) & 0xff7f_bfdf_eff7_fbfd_feffu128, i) == (i < 81 && i % 9 != 8 && i + 10 < 81 && bit(b, (i + 10) as u128)),
{
}

/// A 128-bit mask stored as two 64-bit words, low word first.
pub struct Bitboard {
    pub v: [u64; 2],
}

impl Bitboard {
    /// The two words joined into one mask.
    pub fn to_u128(&self) -> (r: u128)
        ensures
            r == (self.v[0] as u128) | ((self.v[1] as u128) << 64),
    {
        self.v[0] as u128 | (self.v[1] as u128) << 64
    }
}

pub proof fn lemma_within_high(b: u128)
    by (bit_vector)
    requires
        within_board(b),
    ensures
        forall|i: u128| 81 <= i < 128 ==> !#[trigger] bit(b, i),
{
}

pub proof fn lemma_zero()
    by (bit_vector)
    ensures
        forall|i: u128| i < 128 ==> !#[trigger] bit(0, i),
        within_board(0),
{
}

pub proof fn lemma_xor(a: u128, b: u128)
    by (bit_vector)
    ensures
        forall|i: u128| i < 128 ==> #[trigger] bit(a ^ b, i) == (bit(a, i) != bit(b, i)),
{
}

pub proof fn lemma_within_ops(a: u128, b: u128)
    by (bit_vector)
    requires
        within_board(a),
        within_board(b),
    ensures
        within_board(a | b),
        within_board(a & b),
        within_board(a ^ b),
        within_board(a & !b),
{
}

pub proof fn lemma_bit_test(occ: u128, t: u128)
    by (bit_vector)
    requires
        t < 128,
    ensures
        (occ & (1u128 << t) != 0) == bit(occ, t),
{
}

} // verus!
