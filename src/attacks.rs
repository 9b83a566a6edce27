use crate::bits::{bit, lemma_within_high, north, south, within_board};
use crate::consts::{file_of, forward, rank_of, side_index, square_at, Piece, Side};
use crate::magics::{
    bishop_directions, bishop_fails, lance_directions, lance_fails, rook_fails, lemma_or_zero, lemma_slide_within, lemma_within_or,
    on_board, rook_directions, slide_all, sq_bit, MagicTable,
};
use vstd::prelude::*;

verus! {

/// The square one step `(dr, df)` away from `sq`, as a mask; empty off the board.
pub open spec fn leap(sq: int, dr: int, df: int) -> u128 {
    if on_board(rank_of(sq) + dr, file_of(sq) + df) {
        sq_bit(square_at(rank_of(sq) + dr, file_of(sq) + df))
    } else {
        0
    }
}

/// The squares reached from `sq` by the steps of `pat`, ignoring blockers.
pub open spec fn leaps(sq: int, pat: Seq<(i8, i8)>) -> u128
    decreases pat.len(),
{
    if pat.len() == 0 {
        0
    } else {
        leaps(sq, pat.drop_last()) | leap(sq, pat.last().0 as int, pat.last().1 as int)
    }
}

pub open spec fn king_pattern() -> Seq<(i8, i8)> {
    seq![(1i8, -1i8), (1i8, 0i8), (1i8, 1i8), (0i8, -1i8), (0i8, 1i8), (-1i8, -1i8), (-1i8, 0i8), (-1i8, 1i8)]
}

/// Steps are written from the side's own view (forward, and files as the side
/// sees them), so the other side's pattern is the same list with every step
/// reversed.
pub open spec fn gold_pattern(side: Side) -> Seq<(i8, i8)> {
    let w = forward(side) as i8;
    let b = (-forward(side)) as i8;
    seq![(w, b), (w, 0i8), (w, w), (0i8, b), (0i8, w), (b, 0i8)]
}

pub open spec fn silver_pattern(side: Side) -> Seq<(i8, i8)> {
    let w = forward(side) as i8;
    let b = (-forward(side)) as i8;
    seq![(w, b), (w, 0i8), (w, w), (b, b), (b, w)]
}

pub open spec fn knight_pattern(side: Side) -> Seq<(i8, i8)> {
    let w = (2 * forward(side)) as i8;
    let b = (-forward(side)) as i8;
    let f = forward(side) as i8;
    seq![(w, b), (w, f)]
}

pub open spec fn pawn_pattern(side: Side) -> Seq<(i8, i8)> {
    seq![(forward(side) as i8, 0i8)]
}

/// Squares that a piece of kind `p` of `side` on `sq` attacks, for the occupancy `occ`.
pub open spec fn piece_attacks(p: Piece, side: Side, sq: int, occ: u128) -> u128 {
    match p {
        Piece::Pawn => leaps(sq, pawn_pattern(side)),
        Piece::Lance => slide_all(lance_directions(side), sq, occ),
        Piece::Knight => leaps(sq, knight_pattern(side)),
        Piece::Silver => leaps(sq, silver_pattern(side)),
        Piece::Gold | Piece::PromotedPawn | Piece::PromotedLance | Piece::PromotedKnight
        | Piece::PromotedSilver => leaps(sq, gold_pattern(side)),
        Piece::Bishop => slide_all(bishop_directions(), sq, occ),
        Piece::Rook => slide_all(rook_directions(), sq, occ),
        Piece::PromotedBishop => leaps(sq, king_pattern()) | slide_all(bishop_directions(), sq, occ),
        Piece::PromotedRook => leaps(sq, king_pattern()) | slide_all(rook_directions(), sq, occ),
        Piece::King => leaps(sq, king_pattern()),
    }
}

pub proof fn lemma_leaps_within(sq: int, pat: Seq<(i8, i8)>)
    ensures
        within_board(leaps(sq, pat)),
    decreases pat.len(),
{
    assert(within_board(0)) by (bit_vector);
    if pat.len() > 0 {
        lemma_leaps_within(sq, pat.drop_last());
        let (dr, df) = pat.last();
        let r = rank_of(sq) + dr;
        let f = file_of(sq) + df;
        if on_board(r, f) {
            let t = square_at(r, f) as u128;
            assert(within_board(1u128 << t)) by (bit_vector)
                requires
                    t < 81,
            ;
        }
        lemma_within_or(leaps(sq, pat.drop_last()), leap(sq, dr as int, df as int));
    }
}

pub proof fn lemma_attacks_within(p: Piece, side: Side, sq: int, occ: u128)
    ensures
        within_board(piece_attacks(p, side, sq, occ)),
{
    lemma_leaps_within(sq, king_pattern());
    lemma_leaps_within(sq, gold_pattern(side));
    lemma_leaps_within(sq, silver_pattern(side));
    lemma_leaps_within(sq, knight_pattern(side));
    lemma_leaps_within(sq, pawn_pattern(side));
    lemma_slide_within(lance_directions(side), sq, occ);
    lemma_slide_within(bishop_directions(), sq, occ);
    lemma_slide_within(rook_directions(), sq, occ);
    lemma_within_or(leaps(sq, king_pattern()), slide_all(bishop_directions(), sq, occ));
    lemma_within_or(leaps(sq, king_pattern()), slide_all(rook_directions(), sq, occ));
}

/// A pawn's reach does not depend on the occupancy.
pub proof fn lemma_pawn_reach(side: Side, sq: int, occ: u128)
    ensures
        piece_attacks(Piece::Pawn, side, sq, occ) == piece_attacks(Piece::Pawn, side, sq, 0),
{
}

/// Mask of the squares reached from `sq` by the steps of `pat`.
fn leaper_mask(sq: u8, pat: &[(i8, i8)]) -> (r: u128)
    requires
        sq < 81,
        forall|i: int| 0 <= i < pat@.len() ==> -2 <= (#[trigger] pat@[i]).0 <= 2 && -2 <= pat@[i].1 <= 2,
    ensures
        r == leaps(sq as int, pat@),
{
    let rank: i8 = (sq / 9) as i8;
    let file: i8 = (sq % 9) as i8;
    let mut bb: u128 = 0;
    let mut i: usize = 0;
    while i < pat.len()
        invariant
            i <= pat@.len(),
            rank == rank_of(sq as int),
            file == file_of(sq as int),
            forall|j: int| 0 <= j < pat@.len() ==> -2 <= (#[trigger] pat@[j]).0 <= 2 && -2 <= pat@[j].1 <= 2,
            bb == leaps(sq as int, pat@.take(i as int)),
        decreases pat@.len() - i,
    {
        let (dr, df) = pat[i];
        let r = rank + dr;
        let f = file + df;
        assert(pat@.take(i + 1).drop_last() =~= pat@.take(i as int));
        if 0 <= r && r < 9 && 0 <= f && f < 9 {
            let t: u8 = (r * 9 + f) as u8;
            bb = bb | (1u128 << t);
        } else {
            proof {
                lemma_or_zero(bb);
            }
        }
        i += 1;
    }
    assert(pat@.take(i as int) =~= pat@);
    bb
}

/// One mask per square: `t[sq]` holds the squares reached from `sq` by `pat`.
fn leaper_table(pat: &[(i8, i8)]) -> (r: Vec<u128>)
    requires
        forall|i: int| 0 <= i < pat@.len() ==> -2 <= (#[trigger] pat@[i]).0 <= 2 && -2 <= pat@[i].1 <= 2,
    ensures
        r@.len() == 81,
        forall|sq: int| 0 <= sq < 81 ==> #[trigger] r@[sq] == leaps(sq, pat@),
{
    let mut t: Vec<u128> = Vec::new();
    let mut sq: u8 = 0;
    while sq < 81
        invariant
            sq <= 81,
            t@.len() == sq,
            forall|i: int| 0 <= i < pat@.len() ==> -2 <= (#[trigger] pat@[i]).0 <= 2 && -2 <= pat@[i].1 <= 2,
            forall|s: int| 0 <= s < sq ==> #[trigger] t@[s] == leaps(s, pat@),
        decreases 81 - sq,
    {
        t.push(leaper_mask(sq, pat));
        sq += 1;
    }
    t
}

/// The attack tables: per-square masks of the short-range pieces, built once,
/// and the hashed tables of the sliders.
pub struct Tables {
    king: Vec<u128>,
    gold: [Vec<u128>; 2],
    silver: [Vec<u128>; 2],
    knight: [Vec<u128>; 2],
    lance: [MagicTable; 2],
    bishop: MagicTable,
    rook: MagicTable,
}

impl Tables {
    pub closed spec fn wf(&self) -> bool {
        &&& self.king@.len() == 81
        &&& forall|sq: int| 0 <= sq < 81 ==> #[trigger] self.king@[sq] == leaps(sq, king_pattern())
        &&& forall|s: Side| #[trigger] self.gold[side_index(s) as int]@.len() == 81
        &&& forall|s: Side, sq: int|
            0 <= sq < 81 ==> #[trigger] self.gold[side_index(s) as int]@[sq] == leaps(sq, gold_pattern(s))
        &&& forall|s: Side| #[trigger] self.silver[side_index(s) as int]@.len() == 81
        &&& forall|s: Side, sq: int|
            0 <= sq < 81 ==> #[trigger] self.silver[side_index(s) as int]@[sq] == leaps(sq, silver_pattern(s))
        &&& forall|s: Side| #[trigger] self.knight[side_index(s) as int]@.len() == 81
        &&& forall|s: Side, sq: int|
            0 <= sq < 81 ==> #[trigger] self.knight[side_index(s) as int]@[sq] == leaps(sq, knight_pattern(s))
        &&& forall|s: Side| #[trigger] self.lance[side_index(s) as int].wf()
        &&& forall|s: Side| #[trigger] self.lance[side_index(s) as int].directions() == lance_directions(s)
        &&& self.bishop.wf()
        &&& self.bishop.directions() == bishop_directions()
        &&& self.rook.wf()
        &&& self.rook.directions() == rook_directions()
    }

    /// Builds every table. `None` only when the slider constants are inconsistent
    /// (see `MagicTable::new`).
    pub fn new() -> (r: Option<Tables>)
        ensures
            r matches Some(t) ==> t.wf(),
            r is None <==> (bishop_fails() || rook_fails() || lance_fails(Side::Sente) || lance_fails(Side::Gote)),
    {
        let kp: [(i8, i8); 8] = [(1, -1), (1, 0), (1, 1), (0, -1), (0, 1), (-1, -1), (-1, 0), (-1, 1)];
        let gs: [(i8, i8); 6] = [(1, -1), (1, 0), (1, 1), (0, -1), (0, 1), (-1, 0)];
        let gg: [(i8, i8); 6] = [(-1, 1), (-1, 0), (-1, -1), (0, 1), (0, -1), (1, 0)];
        let ss: [(i8, i8); 5] = [(1, -1), (1, 0), (1, 1), (-1, -1), (-1, 1)];
        let sg: [(i8, i8); 5] = [(-1, 1), (-1, 0), (-1, -1), (1, 1), (1, -1)];
        let ns: [(i8, i8); 2] = [(2, -1), (2, 1)];
        let ng: [(i8, i8); 2] = [(-2, 1), (-2, -1)];
        assert(kp@ == king_pattern());
        assert(gs@ == gold_pattern(Side::Sente));
        assert(gg@ == gold_pattern(Side::Gote));
        assert(ss@ == silver_pattern(Side::Sente));
        assert(sg@ == silver_pattern(Side::Gote));
        assert(ns@ == knight_pattern(Side::Sente));
        assert(ng@ == knight_pattern(Side::Gote));
        let bishop = match MagicTable::bishop() {
            Some(t) => t,
            None => return None,
        };
        let rook = match MagicTable::rook() {
            Some(t) => t,
            None => return None,
        };
        let lance_sente = match MagicTable::lance(Side::Sente) {
            Some(t) => t,
            None => return None,
        };
        let lance_gote = match MagicTable::lance(Side::Gote) {
            Some(t) => t,
            None => return None,
        };
        let t = Tables {
            king: leaper_table(&kp),
            gold: [leaper_table(&gs), leaper_table(&gg)],
            silver: [leaper_table(&ss), leaper_table(&sg)],
            knight: [leaper_table(&ns), leaper_table(&ng)],
            lance: [lance_sente, lance_gote],
            bishop,
            rook,
        };
        assert forall|s: Side| #[trigger] t.lance[side_index(s) as int].wf() by {
            match s {
                Side::Sente => {},
                Side::Gote => {},
            }
        }
        Some(t)
    }
}

/// Squares a king on `sq` steps to.
pub fn king(t: &Tables, sq: u8) -> (r: u128)
    requires
        t.wf(),
        sq < 81,
    ensures
        r == leaps(sq as int, king_pattern()),
{
    t.king[sq as usize]
}

/// Every pawn of the mask `bb` pushed one rank forward for `side`, at once.
pub fn pawns(bb: u128, side: Side) -> (r: u128)
    requires
        within_board(bb),
    ensures
        within_board(r),
        forall|i: u128|
            i < 128 ==> #[trigger] bit(r, i) == (i < 81 && 0 <= i - 9 * forward(side) < 81 && bit(
                bb,
                (i - 9 * forward(side)) as u128,
            )),
{
    proof {
        lemma_within_high(bb);
    }
    match side {
        Side::Sente => north(bb),
        Side::Gote => south(bb),
    }
}

/// The square a pawn of `side` on `sq` attacks, as a mask.
pub fn pawn(sq: u8, side: Side) -> (r: u128)
    requires
        sq < 81,
    ensures
        r == leaps(sq as int, pawn_pattern(side)),
{
    let pat: [(i8, i8); 1] = match side {
        Side::Sente => [(1, 0)],
        Side::Gote => [(-1, 0)],
    };
    assert(pat@ == pawn_pattern(side));
    leaper_mask(sq, &pat)
}

/// Squares a knight of `side` on `sq` jumps to.
pub fn knight(t: &Tables, sq: u8, side: Side) -> (r: u128)
    requires
        t.wf(),
        sq < 81,
    ensures
        r == leaps(sq as int, knight_pattern(side)),
{
    t.knight[side.idx()][sq as usize]
}

/// Squares a silver general of `side` on `sq` steps to.
pub fn silver(t: &Tables, sq: u8, side: Side) -> (r: u128)
    requires
        t.wf(),
        sq < 81,
    ensures
        r == leaps(sq as int, silver_pattern(side)),
{
    t.silver[side.idx()][sq as usize]
}

/// Squares a gold general (or a piece moving like one) of `side` on `sq` steps to.
pub fn gold(t: &Tables, sq: u8, side: Side) -> (r: u128)
    requires
        t.wf(),
        sq < 81,
    ensures
        r == leaps(sq as int, gold_pattern(side)),
{
    t.gold[side.idx()][sq as usize]
}

/// Squares a lance of `side` on `sq` reaches forward for the occupancy `occ`.
pub fn lance(t: &Tables, sq: u8, side: Side, occ: u128) -> (r: u128)
    requires
        t.wf(),
        sq < 81,
    ensures
        r == slide_all(lance_directions(side), sq as int, occ),
{
    t.lance[side.idx()].attack(sq, occ)
}

/// Squares a bishop on `sq` reaches along its diagonals for the occupancy `occ`.
pub fn bishop(t: &Tables, sq: u8, occ: u128) -> (r: u128)
    requires
        t.wf(),
        sq < 81,
    ensures
        r == slide_all(bishop_directions(), sq as int, occ),
{
    t.bishop.attack(sq, occ)
}

/// Squares a rook on `sq` reaches along its rank and file for the occupancy `occ`.
pub fn rook(t: &Tables, sq: u8, occ: u128) -> (r: u128)
    requires
        t.wf(),
        sq < 81,
    ensures
        r == slide_all(rook_directions(), sq as int, occ),
{
    t.rook.attack(sq, occ)
}

/// The promoted diagonal slider: king steps and diagonal rays.
pub fn horse(t: &Tables, sq: u8, occ: u128) -> (r: u128)
    requires
        t.wf(),
        sq < 81,
    ensures
        r == leaps(sq as int, king_pattern()) | slide_all(bishop_directions(), sq as int, occ),
{
    king(t, sq) | bishop(t, sq, occ)
}

/// The promoted orthogonal slider: king steps and orthogonal rays.
pub fn dragon(t: &Tables, sq: u8, occ: u128) -> (r: u128)
    requires
        t.wf(),
        sq < 81,
    ensures
        r == leaps(sq as int, king_pattern()) | slide_all(rook_directions(), sq as int, occ),
{
    king(t, sq) | rook(t, sq, occ)
}

/// Squares attacked by a piece of kind `piece` of `side` on `sq`.
pub fn attacks(t: &Tables, sq: u8, piece: Piece, side: Side, occ: u128) -> (r: u128)
    requires
        t.wf(),
        sq < 81,
    ensures
        r == piece_attacks(piece, side, sq as int, occ),
        within_board(r),
{
    proof {
        lemma_attacks_within(piece, side, sq as int, occ);
    }
    match piece {
        Piece::Pawn => pawn(sq, side),
        Piece::Lance => lance(t, sq, side, occ),
        Piece::Knight => knight(t, sq, side),
        Piece::Silver => silver(t, sq, side),
        Piece::Gold | Piece::PromotedPawn | Piece::PromotedLance | Piece::PromotedKnight
        | Piece::PromotedSilver => gold(t, sq, side),
        Piece::Bishop => bishop(t, sq, occ),
        Piece::Rook => rook(t, sq, occ),
        Piece::PromotedBishop => horse(t, sq, occ),
        Piece::PromotedRook => dragon(t, sq, occ),
        Piece::King => king(t, sq),
    }
}

} // verus!
