use crate::bits::{
    bit, lemma_bit_test, lemma_and, lemma_or, lemma_single, lemma_within_high, lemma_within_ops, lemma_xor,
    lemma_zero, lsb, low_index, on, within_board,
};
use crate::consts::{
    is_reserve_kind, opponent, piece_at_index, piece_index, promoted, side_index, unpromoted, Piece,
    Side,
};
use crate::moves::Move;
use vstd::prelude::*;

verus! {

/// The position: one mask per kind (both sides pooled), one per side, the kind
/// on each square, the two reserves, the move counter and the side to move.
#[derive(Clone, Copy)]
pub struct Board {
    bb: [u128; 16],
    pcs: [Option<Piece>; 81],
    hand: [Hand; 2],
    moves: u8,
    stm: Side,
}

/// A reserve: how many pieces of each of the seven base kinds a side holds.
#[derive(Clone, Copy)]
pub struct Hand {
    pub pieces: [u8; 7],
}

impl Hand {
    /// Count held of `p`.
    pub open spec fn count_of(&self, p: Piece) -> nat {
        self.pieces@[piece_index(p) as int] as nat
    }

    pub open spec fn empty_spec(&self) -> bool {
        forall|i: int| 0 <= i < 7 ==> #[trigger] self.pieces@[i] == 0
    }

    pub fn new() -> (r: Hand)
        ensures
            r.empty_spec(),
    {
        Hand { pieces: [0u8; 7] }
    }

    pub fn count(&self, piece: Piece) -> (r: u8)
        requires
            is_reserve_kind(piece),
        ensures
            r == self.count_of(piece),
    {
        self.pieces[piece.idx()]
    }

    pub fn add(&mut self, piece: Piece)
        requires
            is_reserve_kind(piece),
            old(self).count_of(piece) < 255,
        ensures
            final(self).pieces@ == old(self).pieces@.update(
                piece_index(piece) as int,
                (old(self).pieces@[piece_index(piece) as int] + 1) as u8,
            ),
    {
        let i = piece.idx();
        self.pieces[i] = self.pieces[i] + 1;
    }

    pub fn remove(&mut self, piece: Piece)
        requires
            is_reserve_kind(piece),
            old(self).count_of(piece) > 0,
        ensures
            final(self).pieces@ == old(self).pieces@.update(
                piece_index(piece) as int,
                (old(self).pieces@[piece_index(piece) as int] - 1) as u8,
            ),
    {
        let i = piece.idx();
        self.pieces[i] = self.pieces[i] - 1;
    }

    pub fn has(&self, piece: Piece) -> (r: bool)
        requires
            is_reserve_kind(piece),
        ensures
            r == (self.count_of(piece) > 0),
    {
        self.pieces[piece.idx()] > 0
    }

    pub fn is_empty(&self) -> (r: bool)
        ensures
            r == self.empty_spec(),
    {
        let mut i: usize = 0;
        while i < 7
            invariant
                i <= 7,
                forall|j: int| 0 <= j < i ==> #[trigger] self.pieces@[j] == 0,
            decreases 7 - i,
        {
            if self.pieces[i] != 0 {
                return false;
            }
            i += 1;
        }
        true
    }

    pub fn clear(&mut self)
        ensures
            final(self).empty_spec(),
    {
        let mut i: usize = 0;
        while i < 7
            invariant
                i <= 7,
                forall|j: int| 0 <= j < i ==> #[trigger] self.pieces@[j] == 0,
            decreases 7 - i,
        {
            self.pieces[i] = 0;
            i += 1;
        }
    }
}

/// The occupant belongs to `side`.
pub open spec fn held_by(o: Option<(Side, Piece)>, side: Side) -> bool {
    match o {
        Some((s, _)) => s == side,
        None => false,
    }
}

/// The kind of an occupant (a pawn for an empty square).
pub open spec fn kind_of(o: Option<(Side, Piece)>) -> Piece {
    match o {
        Some((_, p)) => p,
        None => Piece::Pawn,
    }
}

/// Side of the occupant given the side masks.
pub open spec fn side_of(first: bool) -> Side {
    if first {
        Side::Sente
    } else {
        Side::Gote
    }
}

impl Board {
    /// The squares agree with the masks: an occupied square is in exactly the
    /// mask of its kind and exactly one side mask, an empty square in none;
    /// no mask has a bit beyond the board.
    pub closed spec fn wf(&self) -> bool {
        &&& forall|k: int| 0 <= k < 16 ==> within_board(#[trigger] self.bb[k])
        &&& forall|sq: int| 0 <= sq < 81 ==> #[trigger] self.square_ok(sq)
    }

    pub closed spec fn square_ok(&self, sq: int) -> bool {
        match self.pcs[sq] {
            Some(p) => {
                &&& forall|k: int| 0 <= k < 14 ==> (#[trigger] on(self.bb[k], sq) <==> k == piece_index(p))
                &&& on(self.bb[14], sq) != on(self.bb[15], sq)
            },
            None => forall|k: int| 0 <= k < 16 ==> !#[trigger] on(self.bb[k], sq),
        }
    }

    /// Who holds square `sq`, and with what.
    pub closed spec fn occupant(&self, sq: int) -> Option<(Side, Piece)> {
        match self.pcs[sq] {
            Some(p) => Some((side_of(on(self.bb[14], sq)), p)),
            None => None,
        }
    }

    pub closed spec fn hand_of(&self, side: Side) -> Hand {
        self.hand[side_index(side) as int]
    }

    /// The occupancy mask.
    pub closed spec fn occ_mask(&self) -> u128 {
        self.bb[14] | self.bb[15]
    }

    pub closed spec fn to_move(&self) -> Side {
        self.stm
    }

    pub closed spec fn move_count(&self) -> u8 {
        self.moves
    }

    /// Everything but the squares is as in `o`.
    pub open spec fn same_state(&self, o: &Board) -> bool {
        &&& self.hand_of(Side::Sente) == o.hand_of(Side::Sente)
        &&& self.hand_of(Side::Gote) == o.hand_of(Side::Gote)
        &&& self.to_move() == o.to_move()
        &&& self.move_count() == o.move_count()
    }

    /// The squares are those of `o`, but `sq` holds `v`.
    pub open spec fn squares_but(&self, o: &Board, sq: int, v: Option<(Side, Piece)>) -> bool {
        &&& self.occupant(sq) == v
        &&& forall|s: int| 0 <= s < 81 && s != sq ==> #[trigger] self.occupant(s) == o.occupant(s)
    }

    pub fn new() -> (r: Board)
        ensures
            r.wf(),
            forall|sq: int| 0 <= sq < 81 ==> #[trigger] r.occupant(sq) is None,
            r.hand_of(Side::Sente).empty_spec(),
            r.hand_of(Side::Gote).empty_spec(),
            r.to_move() == Side::Sente,
            r.move_count() == 0,
    {
        let r = Board {
            bb: [0u128; 16],
            pcs: [None; 81],
            hand: [Hand::new(), Hand::new()],
            stm: Side::Sente,
            moves: 0,
        };
        proof {
            lemma_zero();
            assert forall|sq: int| 0 <= sq < 81 implies #[trigger] r.square_ok(sq) by {
                assert forall|k: int| 0 <= k < 16 implies !#[trigger] on(r.bb[k], sq) by {
                    assert(r.bb[k] == 0);
                }
            }
        }
        r
    }

    proof fn lemma_mask_bit(&self, k: int, i: u128)
        requires
            self.wf(),
            0 <= k < 16,
            i < 128,
        ensures
            bit(self.bb[k], i) ==> i < 81,
            i < 81 && k < 14 ==> (bit(self.bb[k], i) <==> (self.pcs[i as int] is Some
                && piece_index(self.pcs[i as int]->0) == k)),
            i < 81 && k == 14 ==> (bit(self.bb[k], i) <==> held_by(self.occupant(i as int), Side::Sente)),
            i < 81 && k == 15 ==> (bit(self.bb[k], i) <==> held_by(self.occupant(i as int), Side::Gote)),
    {
        lemma_within_high(self.bb[k]);
        if i < 81 {
            assert(self.square_ok(i as int));
            assert(on(self.bb[k], i as int) == bit(self.bb[k], i));
        }
    }

    pub fn stm(&self) -> (r: Side)
        ensures
            r == self.to_move(),
    {
        self.stm
    }

    pub fn moves(&self) -> (r: u8)
        ensures
            r == self.move_count(),
    {
        self.moves
    }

    pub fn hand(&self, side: Side) -> (r: &Hand)
        ensures
            *r == self.hand_of(side),
    {
        &self.hand[side.idx()]
    }

    /// The squares holding a `piece` of `side`.
    pub fn pieces(&self, piece: Piece, side: Side) -> (r: u128)
        requires
            self.wf(),
        ensures
            within_board(r),
            forall|i: u128|
                i < 128 ==> #[trigger] bit(r, i) == (i < 81 && self.occupant(i as int) == Some(
                    (side, piece),
                )),
    {
        let a = self.bb[piece.idx()];
        let b = self.bb[side.idx() + 14];
        proof {
            lemma_and(a, b);
            lemma_within_ops(a, b);
            assert forall|i: u128| i < 128 implies #[trigger] bit(a & b, i) == (i < 81
                && self.occupant(i as int) == Some((side, piece))) by {
                self.lemma_mask_bit(piece_index(piece) as int, i);
                self.lemma_mask_bit(side_index(side) as int + 14, i);
                if i < 81 {
                    assert(self.square_ok(i as int));
                }
            }
        }
        a & b
    }

    pub fn pawns(&self, side: Side) -> (r: u128)
        requires
            self.wf(),
        ensures
            within_board(r),
            forall|i: u128|
                i < 128 ==> #[trigger] bit(r, i) == (i < 81 && self.occupant(i as int) == Some(
                    (side, Piece::Pawn),
                )),
    {
        self.pieces(Piece::Pawn, side)
    }

    pub fn knights(&self, side: Side) -> (r: u128)
        requires
            self.wf(),
        ensures
            within_board(r),
            forall|i: u128|
                i < 128 ==> #[trigger] bit(r, i) == (i < 81 && self.occupant(i as int) == Some(
                    (side, Piece::Knight),
                )),
    {
        self.pieces(Piece::Knight, side)
    }

    pub fn lances(&self, side: Side) -> (r: u128)
        requires
            self.wf(),
        ensures
            within_board(r),
            forall|i: u128|
                i < 128 ==> #[trigger] bit(r, i) == (i < 81 && self.occupant(i as int) == Some(
                    (side, Piece::Lance),
                )),
    {
        self.pieces(Piece::Lance, side)
    }

    pub fn bishops(&self, side: Side) -> (r: u128)
        requires
            self.wf(),
        ensures
            within_board(r),
            forall|i: u128|
                i < 128 ==> #[trigger] bit(r, i) == (i < 81 && self.occupant(i as int) == Some(
                    (side, Piece::Bishop),
                )),
    {
        self.pieces(Piece::Bishop, side)
    }

    pub fn rooks(&self, side: Side) -> (r: u128)
        requires
            self.wf(),
        ensures
            within_board(r),
            forall|i: u128|
                i < 128 ==> #[trigger] bit(r, i) == (i < 81 && self.occupant(i as int) == Some(
                    (side, Piece::Rook),
                )),
    {
        self.pieces(Piece::Rook, side)
    }

    pub fn silvers(&self, side: Side) -> (r: u128)
        requires
            self.wf(),
        ensures
            within_board(r),
            forall|i: u128|
                i < 128 ==> #[trigger] bit(r, i) == (i < 81 && self.occupant(i as int) == Some(
                    (side, Piece::Silver),
                )),
    {
        self.pieces(Piece::Silver, side)
    }

    pub fn golds(&self, side: Side) -> (r: u128)
        requires
            self.wf(),
        ensures
            within_board(r),
            forall|i: u128|
                i < 128 ==> #[trigger] bit(r, i) == (i < 81 && self.occupant(i as int) == Some(
                    (side, Piece::Gold),
                )),
    {
        self.pieces(Piece::Gold, side)
    }

    pub fn promoted_pawns(&self, side: Side) -> (r: u128)
        requires
            self.wf(),
        ensures
            within_board(r),
            forall|i: u128|
                i < 128 ==> #[trigger] bit(r, i) == (i < 81 && self.occupant(i as int) == Some(
                    (side, Piece::PromotedPawn),
                )),
    {
        self.pieces(Piece::PromotedPawn, side)
    }

    pub fn promoted_lances(&self, side: Side) -> (r: u128)
        requires
            self.wf(),
        ensures
            within_board(r),
            forall|i: u128|
                i < 128 ==> #[trigger] bit(r, i) == (i < 81 && self.occupant(i as int) == Some(
                    (side, Piece::PromotedLance),
                )),
    {
        self.pieces(Piece::PromotedLance, side)
    }

    pub fn promoted_knights(&self, side: Side) -> (r: u128)
        requires
            self.wf(),
        ensures
            within_board(r),
            forall|i: u128|
                i < 128 ==> #[trigger] bit(r, i) == (i < 81 && self.occupant(i as int) == Some(
                    (side, Piece::PromotedKnight),
                )),
    {
        self.pieces(Piece::PromotedKnight, side)
    }

    pub fn promoted_silvers(&self, side: Side) -> (r: u128)
        requires
            self.wf(),
        ensures
            within_board(r),
            forall|i: u128|
                i < 128 ==> #[trigger] bit(r, i) == (i < 81 && self.occupant(i as int) == Some(
                    (side, Piece::PromotedSilver),
                )),
    {
        self.pieces(Piece::PromotedSilver, side)
    }

    pub fn promoted_bishops(&self, side: Side) -> (r: u128)
        requires
            self.wf(),
        ensures
            within_board(r),
            forall|i: u128|
                i < 128 ==> #[trigger] bit(r, i) == (i < 81 && self.occupant(i as int) == Some(
                    (side, Piece::PromotedBishop),
                )),
    {
        self.pieces(Piece::PromotedBishop, side)
    }

    pub fn promoted_rooks(&self, side: Side) -> (r: u128)
        requires
            self.wf(),
        ensures
            within_board(r),
            forall|i: u128|
                i < 128 ==> #[trigger] bit(r, i) == (i < 81 && self.occupant(i as int) == Some(
                    (side, Piece::PromotedRook),
                )),
    {
        self.pieces(Piece::PromotedRook, side)
    }

    pub fn king(&self, side: Side) -> (r: u128)
        requires
            self.wf(),
        ensures
            within_board(r),
            forall|i: u128|
                i < 128 ==> #[trigger] bit(r, i) == (i < 81 && self.occupant(i as int) == Some(
                    (side, Piece::King),
                )),
    {
        self.pieces(Piece::King, side)
    }

    /// Pieces of `side` that step like a king: the king and both promoted sliders.
    pub fn king_likes(&self, side: Side) -> (r: u128)
        requires
            self.wf(),
        ensures
            within_board(r),
            forall|i: u128|
                i < 128 ==> #[trigger] bit(r, i) == (i < 81 && (self.occupant(i as int) == Some(
                    (side, Piece::King),
                ) || self.occupant(i as int) == Some((side, Piece::PromotedBishop))
                    || self.occupant(i as int) == Some((side, Piece::PromotedRook)))),
    {
        let a = self.king(side);
        let b = self.promoted_bishops(side);
        let c = self.promoted_rooks(side);
        proof {
            lemma_or(a, b);
            lemma_or(a | b, c);
            lemma_within_ops(a, b);
            lemma_within_ops(a | b, c);
        }
        a | b | c
    }

    /// The diagonal slider of `side`, plain or promoted.
    pub fn bishop_likes(&self, side: Side) -> (r: u128)
        requires
            self.wf(),
        ensures
            within_board(r),
            forall|i: u128|
                i < 128 ==> #[trigger] bit(r, i) == (i < 81 && (self.occupant(i as int) == Some(
                    (side, Piece::Bishop),
                ) || self.occupant(i as int) == Some((side, Piece::PromotedBishop)))),
    {
        let a = self.bishops(side);
        let b = self.promoted_bishops(side);
        proof {
            lemma_or(a, b);
            lemma_within_ops(a, b);
        }
        a | b
    }

    /// The orthogonal slider of `side`, plain or promoted.
    pub fn rook_likes(&self, side: Side) -> (r: u128)
        requires
            self.wf(),
        ensures
            within_board(r),
            forall|i: u128|
                i < 128 ==> #[trigger] bit(r, i) == (i < 81 && (self.occupant(i as int) == Some(
                    (side, Piece::Rook),
                ) || self.occupant(i as int) == Some((side, Piece::PromotedRook)))),
    {
        let a = self.rooks(side);
        let b = self.promoted_rooks(side);
        proof {
            lemma_or(a, b);
            lemma_within_ops(a, b);
        }
        a | b
    }

    /// Pieces of `side` that move like a gold: the gold and every promoted general.
    pub fn gold_likes(&self, side: Side) -> (r: u128)
        requires
            self.wf(),
        ensures
            within_board(r),
            forall|i: u128|
                i < 128 ==> #[trigger] bit(r, i) == (i < 81 && (self.occupant(i as int) == Some(
                    (side, Piece::Gold),
                ) || self.occupant(i as int) == Some((side, Piece::PromotedPawn))
                    || self.occupant(i as int) == Some((side, Piece::PromotedLance))
                    || self.occupant(i as int) == Some((side, Piece::PromotedKnight))
                    || self.occupant(i as int) == Some((side, Piece::PromotedSilver)))),
    {
        let a = self.golds(side);
        let b = self.promoted_pawns(side);
        let c = self.promoted_lances(side);
        let d = self.promoted_knights(side);
        let e = self.promoted_silvers(side);
        proof {
            lemma_or(a, b);
            lemma_or(a | b, c);
            lemma_or(a | b | c, d);
            lemma_or(a | b | c | d, e);
            lemma_within_ops(a, b);
            lemma_within_ops(a | b, c);
            lemma_within_ops(a | b | c, d);
            lemma_within_ops(a | b | c | d, e);
        }
        a | b | c | d | e
    }

    /// The square of the king of `side` (the lowest one if there are several;
    /// 128 when there is none).
    pub fn king_sq(&self, side: Side) -> (r: u8)
        requires
            self.wf(),
        ensures
            r == 128 <==> forall|i: int| 0 <= i < 81 ==> #[trigger] self.occupant(i) != Some(
                (side, Piece::King),
            ),
            r != 128 ==> r < 81 && self.occupant(r as int) == Some((side, Piece::King)),
            forall|j: int| 0 <= j < r && j < 81 ==> #[trigger] self.occupant(j) != Some(
                (side, Piece::King),
            ),
    {
        let k = self.king(side);
        proof {
            if k != 0 {
                crate::bits::lemma_low_index(k);
                assert forall|j: int| 0 <= j < low_index(k) && j < 81 implies #[trigger] self.occupant(
                    j,
                ) != Some((side, Piece::King)) by {
                    assert(!bit(k, j as u128));
                }
            } else {
                lemma_zero();
                assert forall|i: int| 0 <= i < 81 implies #[trigger] self.occupant(i) != Some(
                    (side, Piece::King),
                ) by {
                    assert(!bit(k, i as u128));
                }
            }
        }
        lsb(k)
    }

    /// The squares held by `side`.
    pub fn side(&self, side: Side) -> (r: u128)
        requires
            self.wf(),
        ensures
            within_board(r),
            forall|i: u128|
                i < 128 ==> #[trigger] bit(r, i) == (i < 81 && held_by(self.occupant(i as int), side)),
    {
        let r = self.bb[side.idx() + 14];
        proof {
            assert forall|i: u128| i < 128 implies #[trigger] bit(r, i) == (i < 81 && held_by(self.occupant(i as int), side)) by {
                self.lemma_mask_bit(side_index(side) as int + 14, i);
                self.lemma_mask_bit(14, i);
                if i < 81 {
                    assert(self.square_ok(i as int));
                }
            }
        }
        r
    }

    /// The occupied squares.
    pub fn occ(&self) -> (r: u128)
        requires
            self.wf(),
        ensures
            r == self.occ_mask(),
            within_board(r),
            forall|i: u128|
                i < 128 ==> #[trigger] bit(r, i) == (i < 81 && self.occupant(i as int) is Some),
    {
        let a = self.bb[14];
        let b = self.bb[15];
        proof {
            lemma_or(a, b);
            lemma_within_ops(a, b);
            assert forall|i: u128| i < 128 implies #[trigger] bit(a | b, i) == (i < 81
                && self.occupant(i as int) is Some) by {
                self.lemma_mask_bit(14, i);
                self.lemma_mask_bit(15, i);
                if i < 81 {
                    assert(self.square_ok(i as int));
                }
            }
        }
        a | b
    }

    pub fn piece_at(&self, sq: u8) -> (r: Option<Piece>)
        requires
            sq < 81,
        ensures
            r == (match self.occupant(sq as int) {
                Some((_, p)) => Some(p),
                None => None,
            }),
    {
        self.pcs[sq as usize]
    }

    pub fn side_at(&self, sq: u8) -> (r: Option<Side>)
        requires
            self.wf(),
            sq < 81,
        ensures
            r == (match self.occupant(sq as int) {
                Some((s, _)) => Some(s),
                None => None,
            }),
    {
        let b = crate::bits::bb(sq);
        proof {
            assert(self.square_ok(sq as int));
            lemma_bit_test(self.bb[14], sq as u128);
            lemma_bit_test(self.bb[15], sq as u128);
            assert(on(self.bb[14], sq as int) == bit(self.bb[14], sq as u128));
            assert(on(self.bb[15], sq as int) == bit(self.bb[15], sq as u128));
            assert(b == 1u128 << (sq as u128));
        }
        if self.bb[14] & b != 0 {
            Some(Side::Sente)
        } else if self.bb[15] & b != 0 {
            Some(Side::Gote)
        } else {
            None
        }
    }

    /// Consistency depends on the masks and the squares alone.
    proof fn lemma_same_squares(a: Board, b: Board)
        requires
            a.bb == b.bb,
            a.pcs == b.pcs,
        ensures
            a.wf() == b.wf(),
            forall|s: int|
                #![trigger a.occupant(s)]
                #![trigger b.occupant(s)]
                a.occupant(s) == b.occupant(s),
    {
        assert forall|x: int| 0 <= x < 81 implies #[trigger] a.square_ok(x) == b.square_ok(x) by {}
        if a.wf() {
            assert forall|x: int| 0 <= x < 81 implies #[trigger] b.square_ok(x) by {
                assert(a.square_ok(x));
            }
        }
        if b.wf() {
            assert forall|x: int| 0 <= x < 81 implies #[trigger] a.square_ok(x) by {
                assert(b.square_ok(x));
            }
        }
    }

    /// Flips square `sq` in mask `k`.
    fn toggle(&mut self, k: usize, sq: u8)
        requires
            k < 16,
            sq < 81,
        ensures
            final(self).bb@ == old(self).bb@.update(k as int, old(self).bb[k as int] ^ (1u128 << (sq as u128))),
            final(self).pcs == old(self).pcs,
            final(self).hand == old(self).hand,
            final(self).stm == old(self).stm,
            final(self).moves == old(self).moves,
            forall|i: u128|
                i < 128 ==> #[trigger] bit(final(self).bb[k as int], i) == (bit(old(self).bb[k as int], i) != (i
                    == sq)),
            within_board(old(self).bb[k as int]) ==> within_board(final(self).bb[k as int]),
    {
        let b = crate::bits::bb(sq);
        proof {
            lemma_xor(self.bb[k as int], b);
            crate::magics::lemma_within_single(sq as u128);
            if within_board(self.bb[k as int]) {
                lemma_within_ops(self.bb[k as int], b);
            }
        }
        self.bb[k] = self.bb[k] ^ b;
    }

    /// After placing on an empty square `sq`, every square is consistent again.
    proof fn lemma_placed(old: Board, new: Board, sq: int, side: Side, piece: Piece)
        requires
            old.wf(),
            0 <= sq < 81,
            old.pcs[sq] is None,
            new.pcs@ == old.pcs@.update(sq, Some(piece)),
            forall|k: int| 0 <= k < 16 ==> within_board(#[trigger] new.bb[k]),
            forall|k: int, x: int|
                0 <= k < 16 && 0 <= x < 81 ==> #[trigger] on(new.bb[k], x) == (on(old.bb[k], x) != (x
                    == sq && (k == piece_index(piece) || k == 14 + side_index(side)))),
        ensures
            new.wf(),
            new.squares_but(&old, sq, Some((side, piece))),
    {
        assert forall|x: int| 0 <= x < 81 implies #[trigger] new.square_ok(x) by {
            assert(old.square_ok(x));
            if x == sq {
                assert forall|k: int| 0 <= k < 16 implies !#[trigger] on(old.bb[k], x) by {}
            }
        }
        assert forall|x: int| 0 <= x < 81 && x != sq implies #[trigger] new.occupant(x) == old.occupant(x) by {
            assert(on(new.bb[14], x) == on(old.bb[14], x));
        }
        assert(on(new.bb[14], sq) == (side == Side::Sente)) by {
            assert(old.square_ok(sq));
            assert(!on(old.bb[14], sq));
        }
    }

    /// After emptying square `sq`, every square is consistent again.
    proof fn lemma_removed(old: Board, new: Board, sq: int, side: Side, piece: Piece)
        requires
            old.wf(),
            0 <= sq < 81,
            old.occupant(sq) == Some((side, piece)),
            new.pcs@ == old.pcs@.update(sq, None),
            forall|k: int| 0 <= k < 16 ==> within_board(#[trigger] new.bb[k]),
            forall|k: int, x: int|
                0 <= k < 16 && 0 <= x < 81 ==> #[trigger] on(new.bb[k], x) == (on(old.bb[k], x) != (x
                    == sq && (k == piece_index(piece) || k == 14 + side_index(side)))),
        ensures
            new.wf(),
            new.squares_but(&old, sq, None),
    {
        assert(old.square_ok(sq));
        assert forall|x: int| 0 <= x < 81 implies #[trigger] new.square_ok(x) by {
            assert(old.square_ok(x));
            if x == sq {
                assert forall|k: int| 0 <= k < 16 implies !#[trigger] on(new.bb[k], x) by {
                    if k < 14 {
                        assert(on(old.bb[k], x) == (k == piece_index(piece)));
                    }
                }
            }
        }
        assert forall|x: int| 0 <= x < 81 && x != sq implies #[trigger] new.occupant(x) == old.occupant(x) by {
            assert(on(new.bb[14], x) == on(old.bb[14], x));
        }
    }

    /// Puts a `piece` of `side` on the empty square `sq`.
    pub fn add_piece(&mut self, side: Side, piece: Piece, sq: u8)
        requires
            old(self).wf(),
            sq < 81,
            old(self).occupant(sq as int) is None,
        ensures
            final(self).wf(),
            final(self).squares_but(old(self), sq as int, Some((side, piece))),
            final(self).same_state(old(self)),
    {
        let ghost before = *self;
        let pi = piece.idx();
        let si = side.idx() + 14;
        self.toggle(pi, sq);
        let ghost mid = *self;
        self.toggle(si, sq);
        self.pcs[sq as usize] = Some(piece);
        proof {
            assert forall|k: int, x: int| 0 <= k < 16 && 0 <= x < 81 implies #[trigger] on(self.bb[k], x) == (on(
                before.bb[k],
                x,
            ) != (x == sq && (k == piece_index(piece) || k == 14 + side_index(side)))) by {
                assert(bit(mid.bb[k], x as u128) == (bit(before.bb[k], x as u128) != (x == sq && k == pi)));
            }
            assert forall|k: int| 0 <= k < 16 implies within_board(#[trigger] self.bb[k]) by {
                assert(within_board(before.bb[k]));
            }
            Board::lemma_placed(before, *self, sq as int, side, piece);
        }
    }

    /// Takes the `piece` of `side` off square `sq`.
    pub fn remove_piece(&mut self, side: Side, piece: Piece, sq: u8)
        requires
            old(self).wf(),
            sq < 81,
            old(self).occupant(sq as int) == Some((side, piece)),
        ensures
            final(self).wf(),
            final(self).squares_but(old(self), sq as int, None),
            final(self).same_state(old(self)),
    {
        let ghost before = *self;
        let pi = piece.idx();
        let si = side.idx() + 14;
        self.toggle(pi, sq);
        let ghost mid = *self;
        self.toggle(si, sq);
        self.pcs[sq as usize] = None;
        proof {
            assert forall|k: int, x: int| 0 <= k < 16 && 0 <= x < 81 implies #[trigger] on(self.bb[k], x) == (on(
                before.bb[k],
                x,
            ) != (x == sq && (k == piece_index(piece) || k == 14 + side_index(side)))) by {
                assert(bit(mid.bb[k], x as u128) == (bit(before.bb[k], x as u128) != (x == sq && k == pi)));
            }
            assert forall|k: int| 0 <= k < 16 implies within_board(#[trigger] self.bb[k]) by {
                assert(within_board(before.bb[k]));
            }
            Board::lemma_removed(before, *self, sq as int, side, piece);
        }
    }

    /// Moves the `src_piece` of `side` from `src` to the empty square `dst`, where
    /// it becomes `dst_piece` (a promotion when the two differ).
    pub fn move_piece(&mut self, side: Side, src_piece: Piece, dst_piece: Piece, src: u8, dst: u8)
        requires
            old(self).wf(),
            src < 81,
            dst < 81,
            src != dst,
            old(self).occupant(src as int) == Some((side, src_piece)),
            old(self).occupant(dst as int) is None,
        ensures
            final(self).wf(),
            final(self).occupant(src as int) is None,
            final(self).occupant(dst as int) == Some((side, dst_piece)),
            forall|s: int|
                0 <= s < 81 && s != src && s != dst ==> #[trigger] final(self).occupant(s) == old(
                    self,
                ).occupant(s),
            final(self).same_state(old(self)),
    {
        self.remove_piece(side, src_piece, src);
        self.add_piece(side, dst_piece, dst);
    }

    /// Places a `piece` of `side` from its reserve on the empty square `sq`.
    pub fn drop_piece(&mut self, side: Side, piece: Piece, sq: u8)
        requires
            old(self).wf(),
            sq < 81,
            old(self).occupant(sq as int) is None,
            is_reserve_kind(piece),
            old(self).hand_of(side).count_of(piece) > 0,
        ensures
            final(self).wf(),
            final(self).squares_but(old(self), sq as int, Some((side, piece))),
            final(self).hand_of(side).pieces@ == old(self).hand_of(side).pieces@.update(
                piece_index(piece) as int,
                (old(self).hand_of(side).pieces@[piece_index(piece) as int] - 1) as u8,
            ),
            final(self).hand_of(opponent(side)) == old(self).hand_of(opponent(side)),
            final(self).to_move() == old(self).to_move(),
            final(self).move_count() == old(self).move_count(),
    {
        self.add_piece(side, piece, sq);
        let ghost placed = *self;
        let i = side.idx();
        let mut h = self.hand[i];
        h.remove(piece);
        self.hand[i] = h;
        proof {
            Board::lemma_same_squares(placed, *self);
            assert forall|x: int| 0 <= x < 81 && x != sq implies #[trigger] self.occupant(x)
                == old(self).occupant(x) by {
                assert(placed.occupant(x) == old(self).occupant(x));
            }
        }
    }

    pub fn set_stm(&mut self, side: Side)
        ensures
            final(self).to_move() == side,
            final(self).wf() == old(self).wf(),
            forall|s: int| #[trigger] final(self).occupant(s) == old(self).occupant(s),
            final(self).hand_of(Side::Sente) == old(self).hand_of(Side::Sente),
            final(self).hand_of(Side::Gote) == old(self).hand_of(Side::Gote),
            final(self).move_count() == old(self).move_count(),
    {
        let ghost before = *self;
        self.stm = side;
        proof {
            Board::lemma_same_squares(before, *self);
        }
    }

    pub fn set_moves(&mut self, moves: u8)
        ensures
            final(self).move_count() == moves,
            final(self).wf() == old(self).wf(),
            forall|s: int| #[trigger] final(self).occupant(s) == old(self).occupant(s),
            final(self).hand_of(Side::Sente) == old(self).hand_of(Side::Sente),
            final(self).hand_of(Side::Gote) == old(self).hand_of(Side::Gote),
            final(self).to_move() == old(self).to_move(),
    {
        let ghost before = *self;
        self.moves = moves;
        proof {
            Board::lemma_same_squares(before, *self);
        }
    }

    pub fn set_hand(&mut self, side: Side, hand: Hand)
        ensures
            final(self).hand_of(side) == hand,
            final(self).hand_of(opponent(side)) == old(self).hand_of(opponent(side)),
            final(self).wf() == old(self).wf(),
            forall|s: int| #[trigger] final(self).occupant(s) == old(self).occupant(s),
            final(self).to_move() == old(self).to_move(),
            final(self).move_count() == old(self).move_count(),
    {
        let ghost before = *self;
        self.hand[side.idx()] = hand;
        proof {
            Board::lemma_same_squares(before, *self);
        }
    }

    /// The move can be applied: a placement of a held base kind on an empty
    /// square, or a board move of a piece of the side to move onto a square it
    /// does not hold, promoting only a kind that has a promoted form.
    pub open spec fn can_make(&self, m: Move) -> bool {
        if m.drop_spec() {
            &&& piece_at_index(m.src_spec()) is Some
            &&& is_reserve_kind(piece_at_index(m.src_spec())->0)
            &&& self.hand_of(self.to_move()).count_of(piece_at_index(m.src_spec())->0) > 0
            &&& m.dst_spec() < 81
            &&& self.occupant(m.dst_spec()) is None
        } else {
            &&& m.src_spec() < 81
            &&& m.dst_spec() < 81
            &&& m.src_spec() != m.dst_spec()
            &&& held_by(self.occupant(m.src_spec()), self.to_move())
            &&& (m.promo_spec() ==> promoted(kind_of(self.occupant(m.src_spec()))) is Some)
            &&& !held_by(self.occupant(m.dst_spec()), self.to_move())
        }
    }

    /// `after` is this position with move `m` applied (see `make`).
    pub open spec fn applied(&self, m: Move, after: Board) -> bool {
        &&& after.wf()
        &&& after.to_move() == opponent(self.to_move())
        &&& after.move_count() == (self.move_count() + 1) % 256
        &&& after.hand_of(opponent(self.to_move())) == self.hand_of(opponent(self.to_move()))
        &&& m.drop_spec() ==> {
            let p = piece_at_index(m.src_spec())->0;
            let me = self.to_move();
            &&& after.squares_but(self, m.dst_spec(), Some((me, p)))
            &&& after.hand_of(me).pieces@ == self.hand_of(me).pieces@.update(
                piece_index(p) as int,
                (self.hand_of(me).pieces@[piece_index(p) as int] - 1) as u8,
            )
        }
        &&& !m.drop_spec() ==> {
            let me = self.to_move();
            let (_, p) = self.occupant(m.src_spec())->0;
            let q = if m.promo_spec() {
                promoted(p)->0
            } else {
                p
            };
            &&& after.occupant(m.src_spec()) is None
            &&& after.occupant(m.dst_spec()) == Some((me, q))
            &&& forall|s: int|
                0 <= s < 81 && s != m.src_spec() && s != m.dst_spec()
                    ==> #[trigger] after.occupant(s) == self.occupant(s)
            &&& match self.occupant(m.dst_spec()) {
                Some((_, c)) => if c != Piece::King && self.hand_of(me).count_of(unpromoted(c))
                    < 255 {
                    after.hand_of(me).pieces@ == self.hand_of(me).pieces@.update(
                        piece_index(unpromoted(c)) as int,
                        (self.hand_of(me).pieces@[piece_index(unpromoted(c)) as int]
                            + 1) as u8,
                    )
                } else {
                    after.hand_of(me) == self.hand_of(me)
                },
                None => after.hand_of(me) == self.hand_of(me),
            }
        }
    }

    /// The occupied squares.
    pub open spec fn occupied(&self) -> Set<int> {
        Set::new(|s: int| 0 <= s < 81 && self.occupant(s) is Some)
    }

    /// Number of pieces on the board.
    pub open spec fn piece_count(&self) -> nat {
        self.occupied().len()
    }

    /// Applies `mv` for the side to move. A placement takes the piece from its
    /// reserve. A board move takes any opposing piece on the destination into
    /// the mover's reserve as its base kind (a captured king goes nowhere; a count
    /// already at 255 stays there), then moves the piece, promoted if the move
    /// says so. The side to move flips and the counter goes up by one (mod 256).
    pub fn make(&mut self, mv: &Move)
        requires
            old(self).wf(),
            old(self).can_make(*mv),
        ensures
            final(self).wf(),
            old(self).applied(*mv, *final(self)),
            !mv.drop_spec() && old(self).occupant(mv.dst_spec()) is None ==> final(self).piece_count()
                == old(self).piece_count(),
            !mv.drop_spec() && old(self).occupant(mv.dst_spec()) is Some ==> final(self).piece_count()
                + 1 == old(self).piece_count(),
            mv.drop_spec() ==> final(self).piece_count() == old(self).piece_count() + 1,
    {
        let me = self.stm;
        if mv.is_drop() {
            let sq = mv.dst();
            let piece = mv.drop_piece().unwrap();
            self.drop_piece(me, piece, sq);
        } else {
            let src = mv.src().unwrap();
            let dst = mv.dst();
            let src_piece = self.piece_at(src).unwrap();
            let dst_piece = if mv.is_promo() {
                src_piece.to_promo_piece().unwrap()
            } else {
                src_piece
            };
            let captured = self.piece_at(dst);
            let ghost before = *self;
            assert(self.occupant(src as int) == Some((me, src_piece)));
            match captured {
                Some(c) => {
                    let them = me.flip();
                    proof {
                        assert(self.square_ok(dst as int));
                        assert(self.square_ok(src as int));
                    }
                    self.remove_piece(them, c, dst);
                    if c != Piece::King {
                        let base = c.to_base_piece();
                        let i = me.idx();
                        if self.hand[i].count(base) < 255 {
                            let mut h = self.hand[i];
                            h.add(base);
                            let ghost removed = *self;
                            self.hand[i] = h;
                            proof {
                                Board::lemma_same_squares(removed, *self);
                            }
                        }
                    }
                },
                None => {},
            }
            let ghost cleared = *self;
            assert(self.occupant(src as int) == before.occupant(src as int));
            self.move_piece(me, src_piece, dst_piece, src, dst);
            proof {
                assert forall|s: int|
                    0 <= s < 81 && s != src && s != dst implies #[trigger] self.occupant(s)
                    == before.occupant(s) by {
                    assert(cleared.occupant(s) == before.occupant(s));
                }
            }
        }
        let ghost placed = *self;
        self.moves = self.moves.wrapping_add(1);
        self.stm = me.flip();
        proof {
            Board::lemma_same_squares(placed, *self);
            Board::lemma_occupied_finite(*old(self));
            Board::lemma_occupied_finite(*self);
            let before = old(self).occupied();
            let after = self.occupied();
            let dst = mv.dst_spec();
            if mv.drop_spec() {
                assert(after =~= before.insert(dst));
            } else {
                let src = mv.src_spec();
                if old(self).occupant(dst) is None {
                    assert(after =~= before.remove(src).insert(dst));
                } else {
                    assert(after =~= before.remove(src));
                }
            }
        }
    }

    proof fn lemma_occupied_finite(b: Board)
        ensures
            b.occupied().finite(),
            b.occupied().len() <= 81,
    {
        vstd::set_lib::lemma_int_range(0, 81);
        vstd::set_lib::lemma_len_subset(b.occupied(), vstd::set_lib::set_int_range(0, 81));
    }

    /// Two consistent positions with the same squares, reserves, side to move
    /// and counter agree on everything the rules read.
    pub proof fn lemma_same_model(a: Board, b: Board)
        requires
            a.wf(),
            b.wf(),
            forall|sq: int| 0 <= sq < 81 ==> #[trigger] a.occupant(sq) == b.occupant(sq),
            a.hand_of(Side::Sente).pieces@ == b.hand_of(Side::Sente).pieces@,
            a.hand_of(Side::Gote).pieces@ == b.hand_of(Side::Gote).pieces@,
        ensures
            a.occ_mask() == b.occ_mask(),
            a.hand_of(Side::Sente) == b.hand_of(Side::Sente),
            a.hand_of(Side::Gote) == b.hand_of(Side::Gote),
    {
        assert(a.hand_of(Side::Sente).pieces =~= b.hand_of(Side::Sente).pieces);
        assert(a.hand_of(Side::Gote).pieces =~= b.hand_of(Side::Gote).pieces);
        Board::lemma_same_occupancy(a, b);
    }

    /// Two consistent positions with the same squares have the same occupancy.
    pub proof fn lemma_same_occupancy(a: Board, b: Board)
        requires
            a.wf(),
            b.wf(),
            forall|sq: int| 0 <= sq < 81 ==> #[trigger] a.occupant(sq) == b.occupant(sq),
        ensures
            a.occ_mask() == b.occ_mask(),
    {
        lemma_or(a.bb[14], a.bb[15]);
        lemma_or(b.bb[14], b.bb[15]);
        assert forall|i: u128| i < 128 implies #[trigger] bit(a.occ_mask(), i) == bit(b.occ_mask(), i) by {
            a.lemma_mask_bit(14, i);
            a.lemma_mask_bit(15, i);
            b.lemma_mask_bit(14, i);
            b.lemma_mask_bit(15, i);
            if i < 81 {
                assert(a.occupant(i as int) == b.occupant(i as int));
                assert(a.square_ok(i as int));
                assert(b.square_ok(i as int));
            }
        }
        crate::bits::lemma_ext(a.occ_mask(), b.occ_mask());
    }

    /// Consistent positions that agree on squares, reserves, side to move and
    /// counter are the same value.
    pub proof fn lemma_model_eq(a: Board, b: Board)
        requires
            a.wf(),
            b.wf(),
            forall|sq: int| 0 <= sq < 81 ==> #[trigger] a.occupant(sq) == b.occupant(sq),
            a.hand_of(Side::Sente).pieces@ == b.hand_of(Side::Sente).pieces@,
            a.hand_of(Side::Gote).pieces@ == b.hand_of(Side::Gote).pieces@,
            a.to_move() == b.to_move(),
            a.move_count() == b.move_count(),
        ensures
            a == b,
    {
        assert forall|k: int| 0 <= k < 16 implies #[trigger] a.bb[k] == b.bb[k] by {
            assert forall|i: u128| i < 128 implies #[trigger] bit(a.bb[k], i) == bit(b.bb[k], i) by {
                a.lemma_mask_bit(k, i);
                b.lemma_mask_bit(k, i);
                if i < 81 {
                    assert(a.occupant(i as int) == b.occupant(i as int));
                    assert(a.square_ok(i as int));
                    assert(b.square_ok(i as int));
                }
            }
            crate::bits::lemma_ext(a.bb[k], b.bb[k]);
        }
        assert(a.bb =~= b.bb);
        assert forall|i: int| 0 <= i < 81 implies #[trigger] a.pcs[i] == b.pcs[i] by {
            assert(a.occupant(i) == b.occupant(i));
        }
        assert(a.pcs =~= b.pcs);
        assert(a.hand[0].pieces =~= b.hand[0].pieces);
        assert(a.hand[1].pieces =~= b.hand[1].pieces);
        assert(a.hand =~= b.hand);
    }

    /// A move applied to a position gives exactly one position.
    pub proof fn lemma_applied_unique(&self, m: Move, a1: Board, a2: Board)
        requires
            self.wf(),
            self.can_make(m),
            self.applied(m, a1),
            self.applied(m, a2),
        ensures
            a1 == a2,
    {
        let me = self.to_move();
        assert forall|sq: int| 0 <= sq < 81 implies #[trigger] a1.occupant(sq) == a2.occupant(sq) by {
            if m.drop_spec() {
                if sq != m.dst_spec() {
                    assert(a1.occupant(sq) == self.occupant(sq));
                }
            } else if sq != m.src_spec() && sq != m.dst_spec() {
                assert(a1.occupant(sq) == self.occupant(sq));
            }
        }
        if me == Side::Sente {
            assert(a1.hand_of(Side::Gote) == a2.hand_of(Side::Gote));
        } else {
            assert(a1.hand_of(Side::Sente) == a2.hand_of(Side::Sente));
        }
        Board::lemma_model_eq(a1, a2);
    }
}

} // verus!
